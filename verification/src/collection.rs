use crate::error::VectorDbError;
use crate::filter::{filter_accepts, matches_filter, FilterValue, WhereFilter};
use crate::ivf::{build_input_fits, clamped_probe, cluster_members, concat_lists, nearest_clusters, planned_clusters, probed_clusters, IVFIndex, IVFIndexView};
use crate::ranking::{closest_first, distance_rank, lemma_closest_first, order_by_distance};
use crate::vector::{Metadata, MetadataValue, VectorEntry, VectorEntryView};
use vstd::hash_map::StringHashMap;
use vstd::prelude::*;

verus! {

/// What a collection is made with.
#[derive(Debug)]
pub struct CollectionConfig {
    pub name: String,
    /// The number of components of every vector.
    pub dimension: usize,
    /// Whether queries go through an inverted-file index.
    pub use_ivf: bool,
    /// The number of clusters asked of the index; 0 without an index.
    pub n_clusters: usize,
}

/// A `CollectionConfig` as plain values.
pub struct CollectionConfigView {
    pub name: Seq<char>,
    pub dimension: nat,
    pub use_ivf: bool,
    pub n_clusters: nat,
}

impl View for CollectionConfig {
    type V = CollectionConfigView;

    open spec fn view(&self) -> CollectionConfigView {
        CollectionConfigView {
            name: self.name@,
            dimension: self.dimension as nat,
            use_ivf: self.use_ivf,
            n_clusters: self.n_clusters as nat,
        }
    }
}

impl Clone for CollectionConfig {
    fn clone(&self) -> (r: CollectionConfig)
        ensures
            r@ == self@,
    {
        CollectionConfig {
            name: self.name.clone(),
            dimension: self.dimension,
            use_ivf: self.use_ivf,
            n_clusters: self.n_clusters,
        }
    }
}

/// A collection as plain values.
pub struct CollectionView {
    pub config: CollectionConfigView,
    /// The stored vectors, in the order in which their identifiers first
    /// came.
    pub entries: Seq<VectorEntryView>,
    /// The inverted-file index, if the collection has one.
    pub index: Option<IVFIndexView>,
    /// Whether the index is behind the stored vectors.
    pub needs_rebuild: bool,
    /// Whether changes leave `needs_rebuild` alone for now.
    pub batch_mode: bool,
    /// The number of identifiers added or deleted since the last rebuild.
    pub modifications_count: nat,
    /// The time that the last query took, in milliseconds, as a
    /// double-precision bit pattern.
    pub last_query_time_ms: u64,
    pub total_queries: nat,
}

/// No two entries share an identifier.
pub open spec fn distinct_ids(entries: Seq<VectorEntryView>) -> bool {
    forall|i: int, j: int|
        0 <= i < entries.len() && 0 <= j < entries.len() && i != j ==> (#[trigger] entries[i]).id != (
        #[trigger] entries[j]).id
}

/// Whether some entry carries `id`.
pub open spec fn holds_id(entries: Seq<VectorEntryView>, id: Seq<char>) -> bool {
    exists|i: int| 0 <= i < entries.len() && (#[trigger] entries[i]).id == id
}

/// A position at which `id` stands; with distinct identifiers, the one.
pub open spec fn position_of_id(entries: Seq<VectorEntryView>, id: Seq<char>) -> int {
    choose|i: int| 0 <= i < entries.len() && (#[trigger] entries[i]).id == id
}

/// With distinct identifiers an identifier stands at one position only.
pub proof fn lemma_position_of_id(entries: Seq<VectorEntryView>, p: int)
    requires
        distinct_ids(entries),
        0 <= p < entries.len(),
    ensures
        holds_id(entries, entries[p].id),
        position_of_id(entries, entries[p].id) == p,
{
    let id = entries[p].id;
    assert(entries[p].id == id);
    let q = position_of_id(entries, id);
    assert(0 <= q < entries.len() && entries[q].id == id);
}

impl CollectionView {
    /// Every stored vector has the collection's dimension, no identifier
    /// occurs twice, and the collection has an index exactly when it was
    /// made with one.
    pub open spec fn wf(self) -> bool {
        &&& distinct_ids(self.entries)
        &&& forall|i: int|
            0 <= i < self.entries.len() ==> (#[trigger] self.entries[i]).embedding.len()
                == self.config.dimension
        &&& self.config.use_ivf <==> self.index is Some
        &&& self.index matches Some(index) ==> index.wf() && index.n_clusters
            == self.config.n_clusters
    }

    /// The number of changes from which a query rebuilds the index first:
    /// a tenth of the stored vectors, rounded up, but at least 10.
    pub open spec fn rebuild_threshold(self) -> nat {
        let tenth = (self.entries.len() + 9) / 10;
        if tenth >= 10 {
            tenth
        } else {
            10
        }
    }

    /// Whether a query has to rebuild the index before it searches.
    pub open spec fn rebuild_due(self) -> bool {
        &&& self.config.use_ivf
        &&& self.needs_rebuild
        &&& self.entries.len() > 0
        &&& self.modifications_count >= self.rebuild_threshold()
    }

    /// Whether queries go through the index: there is one and it is built.
    pub open spec fn uses_index(self) -> bool {
        self.index matches Some(index) && index.is_built()
    }

    /// The positions of the entries that a query scores, in the order in
    /// which it meets them. Through the index these are the entries named
    /// by the lists of the probed clusters that are still stored;
    /// otherwise all entries. Either way only those that pass the filter.
    pub open spec fn candidates(
        self,
        centroid_distances: Seq<u32>,
        filter: Option<Seq<(String, FilterValue)>>,
    ) -> Seq<int> {
        if self.uses_index() {
            named_candidates(
                self.entries,
                concat_lists(
                    self.index->0.inverted_lists,
                    probed_clusters(self.index->0, centroid_distances),
                ),
                filter,
            )
        } else {
            linear_candidates(self.entries, filter)
        }
    }

    /// Whether a query has what it needs: one distance for each stored
    /// vector and, where it goes through the index, one for each centroid.
    pub open spec fn query_input_fits(self, centroid_distances: Seq<u32>, distances: Seq<u32>) -> bool {
        &&& distances.len() == self.entries.len()
        &&& self.uses_index() ==> centroid_distances.len() == self.index->0.centroids.len()
    }

    /// Whether a rebuild builds the index anew: the index is behind and
    /// there are vectors to build it on.
    pub open spec fn rebuild_pending(self) -> bool {
        self.config.use_ivf && self.needs_rebuild && self.entries.len() > 0
    }

    /// The bookkeeping after `n` identifiers were added or deleted: they
    /// are counted, and outside batch mode an index is marked as behind.
    pub open spec fn after_changes(self, entries: Seq<VectorEntryView>, n: nat) -> CollectionView {
        CollectionView {
            entries,
            modifications_count: saturated(self.modifications_count + n),
            needs_rebuild: self.needs_rebuild || (self.config.use_ivf && !self.batch_mode),
            ..self
        }
    }
}

/// An empty collection without an index.
pub open spec fn empty_collection(name: Seq<char>, dimension: nat) -> CollectionView {
    CollectionView {
        config: CollectionConfigView { name, dimension, use_ivf: false, n_clusters: 0 },
        entries: Seq::empty(),
        index: None,
        needs_rebuild: false,
        batch_mode: false,
        modifications_count: 0,
        last_query_time_ms: 0,
        total_queries: 0,
    }
}

/// An empty collection with an index for `n_clusters` clusters that is
/// not built yet and marked as behind.
pub open spec fn empty_indexed_collection(
    name: Seq<char>,
    dimension: nat,
    n_clusters: nat,
) -> CollectionView {
    CollectionView {
        config: CollectionConfigView { name, dimension, use_ivf: true, n_clusters },
        entries: Seq::empty(),
        index: Some(
            IVFIndexView {
                centroids: Seq::empty(),
                inverted_lists: Seq::new(n_clusters, |c: int| Seq::<Seq<char>>::empty()),
                n_clusters,
                n_probe: crate::ivf::DEFAULT_N_PROBE as nat,
            },
        ),
        needs_rebuild: true,
        batch_mode: false,
        modifications_count: 0,
        last_query_time_ms: 0,
        total_queries: 0,
    }
}

/// `n`, or the largest `usize` where `n` is above it.
pub open spec fn saturated(n: nat) -> nat {
    if n <= usize::MAX {
        n
    } else {
        usize::MAX as nat
    }
}

/// The views of a sequence of entries.
pub open spec fn entry_views(entries: Seq<VectorEntry>) -> Seq<VectorEntryView> {
    entries.map_values(|e: VectorEntry| e@)
}

/// The views of a sequence of metadata maps.
pub open spec fn metadata_views(metadatas: Seq<Metadata>) -> Seq<Map<Seq<char>, MetadataValue>> {
    metadatas.map_values(|m: Metadata| m@)
}

/// `entries` after `entry` came in: it takes the place of the entry with
/// its identifier, or the end where there is none.
pub open spec fn upsert(entries: Seq<VectorEntryView>, entry: VectorEntryView) -> Seq<
    VectorEntryView,
> {
    if holds_id(entries, entry.id) {
        entries.update(position_of_id(entries, entry.id), entry)
    } else {
        entries.push(entry)
    }
}

/// The views of optional metadata maps.
pub open spec fn optional_metadata_views(metadatas: Option<Vec<Metadata>>) -> Option<
    Seq<Map<Seq<char>, MetadataValue>>,
> {
    match metadatas {
        Some(ms) => Some(metadata_views(ms@)),
        None => None,
    }
}

/// The metadata of the `i`-th added vector: empty where none were given.
pub open spec fn metadata_at(
    metadatas: Option<Seq<Map<Seq<char>, MetadataValue>>>,
    i: int,
) -> Map<Seq<char>, MetadataValue> {
    match metadatas {
        Some(ms) => ms[i],
        None => Map::empty(),
    }
}

/// `entries` after the first `n` of the given vectors came in, one after
/// the other.
pub open spec fn added(
    entries: Seq<VectorEntryView>,
    ids: Seq<Seq<char>>,
    embeddings: Seq<Seq<u32>>,
    metadatas: Option<Seq<Map<Seq<char>, MetadataValue>>>,
    n: nat,
) -> Seq<VectorEntryView>
    decreases n,
{
    if n == 0 {
        entries
    } else {
        upsert(
            added(entries, ids, embeddings, metadatas, (n - 1) as nat),
            VectorEntryView {
                id: ids[n - 1],
                embedding: embeddings[n - 1],
                metadata: metadata_at(metadatas, n - 1),
            },
        )
    }
}

/// The first position whose vector has not `dimension` components; the
/// number of vectors where all have.
pub open spec fn first_mismatch(embeddings: Seq<Seq<u32>>, dimension: nat) -> int
    decreases embeddings.len(),
{
    if embeddings.len() == 0 {
        0
    } else {
        let front = first_mismatch(embeddings.drop_last(), dimension);
        if front < embeddings.len() - 1 {
            front
        } else if embeddings.last().len() != dimension {
            embeddings.len() - 1
        } else {
            embeddings.len() as int
        }
    }
}

/// `first_mismatch` is the position before which every vector fits and at
/// which, if it is one, the vector does not.
pub proof fn lemma_first_mismatch(embeddings: Seq<Seq<u32>>, dimension: nat)
    ensures
        0 <= first_mismatch(embeddings, dimension) <= embeddings.len(),
        forall|j: int|
            0 <= j < first_mismatch(embeddings, dimension) ==> (#[trigger] embeddings[j]).len()
                == dimension,
        first_mismatch(embeddings, dimension) < embeddings.len() ==> embeddings[first_mismatch(
            embeddings,
            dimension,
        )].len() != dimension,
    decreases embeddings.len(),
{
    if embeddings.len() > 0 {
        let front = embeddings.drop_last();
        lemma_first_mismatch(front, dimension);
        assert forall|j: int| 0 <= j < first_mismatch(embeddings, dimension) implies (
        #[trigger] embeddings[j]).len() == dimension by {
            if j < front.len() {
                assert(front[j] == embeddings[j]);
            }
        }
        if first_mismatch(front, dimension) < front.len() {
            assert(front[first_mismatch(front, dimension)] == embeddings[first_mismatch(
                front,
                dimension,
            )]);
        }
    }
}

/// A position before which every vector fits, and which is the end or
/// holds a vector that does not fit, is `first_mismatch`.
pub proof fn lemma_first_mismatch_is(embeddings: Seq<Seq<u32>>, dimension: nat, b: int)
    requires
        0 <= b <= embeddings.len(),
        forall|j: int| 0 <= j < b ==> (#[trigger] embeddings[j]).len() == dimension,
        b < embeddings.len() ==> embeddings[b].len() != dimension,
    ensures
        first_mismatch(embeddings, dimension) == b,
{
    lemma_first_mismatch(embeddings, dimension);
    let f = first_mismatch(embeddings, dimension);
    if f < b {
        assert(embeddings[f].len() == dimension);
    }
    if b < f {
        assert(embeddings[b].len() == dimension);
    }
}

/// What `get` hands back.
#[derive(Debug)]
pub struct GetResult {
    pub ids: Vec<String>,
    /// The vectors, where they were asked for.
    pub embeddings: Option<Vec<Vec<u32>>>,
    /// The metadata, where they were asked for.
    pub metadatas: Option<Vec<Metadata>>,
}

/// The views of optional identifiers.
pub open spec fn optional_names(names: Option<Vec<String>>) -> Option<Seq<Seq<char>>> {
    match names {
        Some(list) => Some(list.deep_view()),
        None => None,
    }
}

/// The positions of those of `ids` that are stored, in the order of `ids`.
pub open spec fn found_positions(entries: Seq<VectorEntryView>, ids: Seq<Seq<char>>) -> Seq<int>
    decreases ids.len(),
{
    if ids.len() == 0 {
        Seq::empty()
    } else {
        let rest = found_positions(entries, ids.drop_last());
        if holds_id(entries, ids.last()) {
            rest.push(position_of_id(entries, ids.last()))
        } else {
            rest
        }
    }
}

/// The positions that `get` reads: those of the identifiers asked for
/// that are stored, or every position where none were named.
pub open spec fn selected_positions(
    entries: Seq<VectorEntryView>,
    ids: Option<Seq<Seq<char>>>,
) -> Seq<int> {
    match ids {
        Some(list) => found_positions(entries, list),
        None => Seq::new(entries.len(), |i: int| i),
    }
}

/// Whether `get` hands back the part named `what`: it is among the parts
/// asked for, or none were named.
pub open spec fn wants(parts: Option<Seq<Seq<char>>>, what: Seq<char>) -> bool {
    match parts {
        Some(list) => list.contains(what),
        None => true,
    }
}

/// The entries at the given positions.
pub open spec fn entries_at(entries: Seq<VectorEntryView>, positions: Seq<int>) -> Seq<
    VectorEntryView,
> {
    Seq::new(positions.len(), |t: int| entries[positions[t]])
}

/// The identifiers of the given entries.
pub open spec fn ids_of(entries: Seq<VectorEntryView>) -> Seq<Seq<char>> {
    Seq::new(entries.len(), |t: int| entries[t].id)
}

/// The vectors of the given entries.
pub open spec fn embeddings_of(entries: Seq<VectorEntryView>) -> Seq<Seq<u32>> {
    Seq::new(entries.len(), |t: int| entries[t].embedding)
}

/// The metadata of the given entries.
pub open spec fn metadatas_of(entries: Seq<VectorEntryView>) -> Seq<Map<Seq<char>, MetadataValue>> {
    Seq::new(entries.len(), |t: int| entries[t].metadata)
}

/// The first position whose identifier is not stored; the number of
/// identifiers where all are.
pub open spec fn first_unknown(entries: Seq<VectorEntryView>, ids: Seq<Seq<char>>) -> int
    decreases ids.len(),
{
    if ids.len() == 0 {
        0
    } else {
        let front = first_unknown(entries, ids.drop_last());
        if front < ids.len() - 1 {
            front
        } else if !holds_id(entries, ids.last()) {
            ids.len() - 1
        } else {
            ids.len() as int
        }
    }
}

/// `first_unknown` is the position before which every identifier is
/// stored and at which, if it is one, the identifier is not.
pub proof fn lemma_first_unknown(entries: Seq<VectorEntryView>, ids: Seq<Seq<char>>)
    ensures
        0 <= first_unknown(entries, ids) <= ids.len(),
        forall|j: int| 0 <= j < first_unknown(entries, ids) ==> holds_id(entries, #[trigger] ids[j]),
        first_unknown(entries, ids) < ids.len() ==> !holds_id(
            entries,
            ids[first_unknown(entries, ids)],
        ),
    decreases ids.len(),
{
    if ids.len() > 0 {
        let front = ids.drop_last();
        lemma_first_unknown(entries, front);
        assert forall|j: int| 0 <= j < first_unknown(entries, ids) implies holds_id(
            entries,
            #[trigger] ids[j],
        ) by {
            if j < front.len() {
                assert(front[j] == ids[j]);
            }
        }
        if first_unknown(entries, front) < front.len() {
            assert(front[first_unknown(entries, front)] == ids[first_unknown(entries, front)]);
        }
    }
}

/// A position before which every identifier is stored, and which is the
/// end or holds an identifier that is not stored, is `first_unknown`.
pub proof fn lemma_first_unknown_is(entries: Seq<VectorEntryView>, ids: Seq<Seq<char>>, b: int)
    requires
        0 <= b <= ids.len(),
        forall|j: int| 0 <= j < b ==> holds_id(entries, #[trigger] ids[j]),
        b < ids.len() ==> !holds_id(entries, ids[b]),
    ensures
        first_unknown(entries, ids) == b,
{
    lemma_first_unknown(entries, ids);
    let f = first_unknown(entries, ids);
    if f < b {
        assert(holds_id(entries, ids[f]));
    }
    if b < f {
        assert(holds_id(entries, ids[b]));
    }
}

/// `entry` with the fields of `metadata` merged into its metadata: where
/// both bind a key, the value of `metadata` stays.
pub open spec fn with_merged_metadata(
    entry: VectorEntryView,
    metadata: Map<Seq<char>, MetadataValue>,
) -> VectorEntryView {
    VectorEntryView { metadata: entry.metadata.union_prefer_right(metadata), ..entry }
}

/// `entries` after the first `n` of the given metadata were merged into
/// the entries of the given identifiers, one after the other.
pub open spec fn merged(
    entries: Seq<VectorEntryView>,
    ids: Seq<Seq<char>>,
    metadatas: Seq<Map<Seq<char>, MetadataValue>>,
    n: nat,
) -> Seq<VectorEntryView>
    decreases n,
{
    if n == 0 {
        entries
    } else {
        let before = merged(entries, ids, metadatas, (n - 1) as nat);
        if holds_id(before, ids[n - 1]) {
            let p = position_of_id(before, ids[n - 1]);
            before.update(p, with_merged_metadata(before[p], metadatas[n - 1]))
        } else {
            before
        }
    }
}

/// The test that keeps an entry whose identifier is not among `ids`.
pub open spec fn not_named(ids: Seq<Seq<char>>) -> spec_fn(VectorEntryView) -> bool {
    |e: VectorEntryView| !ids.contains(e.id)
}

/// The state of the index, as `stats` reports it.
#[derive(Debug)]
pub struct IndexInfo {
    pub is_built: bool,
    /// The number of clusters asked for.
    pub n_clusters: usize,
    /// The number of centroids that the index holds.
    pub n_centroids: usize,
    pub needs_rebuild: bool,
}

/// What `stats` reports.
#[derive(Debug)]
pub struct CollectionStats {
    pub name: String,
    pub dimension: usize,
    pub count: usize,
    pub use_ivf: bool,
    /// The state of the index, where the collection has one.
    pub index_info: Option<IndexInfo>,
    pub estimated_memory_bytes: usize,
    /// The time that the last query took, in milliseconds, as a
    /// double-precision bit pattern.
    pub last_query_time_ms: u64,
    pub total_queries: usize,
}

/// One hit of a query.
#[derive(Debug)]
pub struct SearchResult {
    pub id: String,
    /// The cosine distance to the query, as a single-precision bit pattern.
    pub distance: u32,
    pub metadata: Metadata,
}

/// A `SearchResult` as plain values.
pub struct SearchResultView {
    pub id: Seq<char>,
    pub distance: u32,
    pub metadata: Map<Seq<char>, MetadataValue>,
}

impl View for SearchResult {
    type V = SearchResultView;

    open spec fn view(&self) -> SearchResultView {
        SearchResultView { id: self.id@, distance: self.distance, metadata: self.metadata@ }
    }
}

/// The views of a sequence of hits.
pub open spec fn result_views(results: Seq<SearchResult>) -> Seq<SearchResultView> {
    results.map_values(|r: SearchResult| r@)
}

/// The bytes that `count` vectors of `dimension` components and
/// `n_centroids` centroids are estimated to take: four for each
/// component, and 64 more for each stored vector.
pub open spec fn estimated_memory(count: nat, dimension: nat, n_centroids: nat) -> nat {
    count * (dimension * 4 + 64) + n_centroids * dimension * 4
}

/// The view of an optional filter.
pub open spec fn optional_filter(filter: Option<&WhereFilter>) -> Option<Seq<(String, FilterValue)>> {
    match filter {
        Some(f) => Some(f@),
        None => None,
    }
}

/// Whether an entry passes the filter of a query; every entry passes an
/// absent filter.
pub open spec fn passes(entry: VectorEntryView, filter: Option<Seq<(String, FilterValue)>>) -> bool {
    match filter {
        Some(f) => filter_accepts(entry.metadata, f),
        None => true,
    }
}

/// The positions of the entries that pass the filter, in stored order.
pub open spec fn linear_candidates(
    entries: Seq<VectorEntryView>,
    filter: Option<Seq<(String, FilterValue)>>,
) -> Seq<int>
    decreases entries.len(),
{
    if entries.len() == 0 {
        Seq::empty()
    } else {
        let rest = linear_candidates(entries.drop_last(), filter);
        if passes(entries.last(), filter) {
            rest.push(entries.len() - 1)
        } else {
            rest
        }
    }
}

/// The positions of those of `ids` that are stored and pass the filter,
/// in the order of `ids`.
pub open spec fn named_candidates(
    entries: Seq<VectorEntryView>,
    ids: Seq<Seq<char>>,
    filter: Option<Seq<(String, FilterValue)>>,
) -> Seq<int>
    decreases ids.len(),
{
    if ids.len() == 0 {
        Seq::empty()
    } else {
        let rest = named_candidates(entries, ids.drop_last(), filter);
        if holds_id(entries, ids.last()) && passes(
            entries[position_of_id(entries, ids.last())],
            filter,
        ) {
            rest.push(position_of_id(entries, ids.last()))
        } else {
            rest
        }
    }
}

/// The distances of the candidates, in their order.
pub open spec fn candidate_distances(distances: Seq<u32>, candidates: Seq<int>) -> Seq<u32> {
    Seq::new(candidates.len(), |t: int| distances[candidates[t]])
}

/// The candidates from the closest to the farthest; equally distant ones
/// keep their order.
pub open spec fn ranked(candidates: Seq<int>, distances: Seq<u32>) -> Seq<int> {
    let order = closest_first(candidate_distances(distances, candidates));
    Seq::new(order.len(), |t: int| candidates[order[t] as int])
}

/// The first `k` of `positions`, or all of them where they are fewer.
pub open spec fn first_k(positions: Seq<int>, k: nat) -> Seq<int> {
    if k < positions.len() {
        positions.take(k as int)
    } else {
        positions
    }
}

/// The hits for the entries at `positions`.
pub open spec fn hits(
    entries: Seq<VectorEntryView>,
    distances: Seq<u32>,
    positions: Seq<int>,
) -> Seq<SearchResultView> {
    Seq::new(
        positions.len(),
        |t: int|
            SearchResultView {
                id: entries[positions[t]].id,
                distance: distances[positions[t]],
                metadata: entries[positions[t]].metadata,
            },
    )
}

/// The first `n` of `entries`, stored one after the other: an entry takes
/// the place of an earlier one with its identifier.
pub open spec fn stored_all(entries: Seq<VectorEntryView>, n: nat) -> Seq<VectorEntryView>
    decreases n,
{
    if n == 0 {
        Seq::empty()
    } else {
        upsert(stored_all(entries, (n - 1) as nat), entries[n - 1])
    }
}

/// Entries with distinct identifiers are stored as they are.
pub proof fn lemma_stored_all_distinct(entries: Seq<VectorEntryView>, n: nat)
    requires
        distinct_ids(entries),
        n <= entries.len(),
    ensures
        stored_all(entries, n) == entries.take(n as int),
    decreases n,
{
    if n > 0 {
        lemma_stored_all_distinct(entries, (n - 1) as nat);
        let front = entries.take(n - 1);
        if holds_id(front, entries[n - 1].id) {
            let q = position_of_id(front, entries[n - 1].id);
            assert(front[q] == entries[q]);
            assert(entries[q].id != entries[n - 1].id);
        }
        assert(front.push(entries[n - 1]) =~= entries.take(n as int));
    } else {
        assert(entries.take(0) =~= Seq::<VectorEntryView>::empty());
    }
}

/// The collection that is read back from a saved one: its configuration,
/// vectors and count of changes are the saved ones, an index is not
/// built and marked as behind, batch mode is off and no query is counted.
pub open spec fn restored(
    config: CollectionConfigView,
    entries: Seq<VectorEntryView>,
    modifications_count: nat,
) -> CollectionView {
    CollectionView {
        config,
        entries,
        index: if config.use_ivf {
            Some(
                IVFIndexView {
                    centroids: Seq::empty(),
                    inverted_lists: Seq::new(config.n_clusters, |c: int| Seq::<Seq<char>>::empty()),
                    n_clusters: config.n_clusters,
                    n_probe: crate::ivf::DEFAULT_N_PROBE as nat,
                },
            )
        } else {
            None
        },
        needs_rebuild: config.use_ivf,
        batch_mode: false,
        modifications_count,
        last_query_time_ms: 0,
        total_queries: 0,
    }
}

/// Saving a collection and reading it back keeps its configuration and
/// its vectors with their metadata, and marks an index as behind. Where
/// the saved collection answered queries without its index, the one read
/// back scores the same candidates, and so gives the same answers.
pub proof fn lemma_restore_round_trip(c: CollectionView)
    requires
        c.wf(),
    ensures
        first_mismatch(embeddings_of(c.entries), c.config.dimension) == c.entries.len(),
        stored_all(c.entries, c.entries.len()) == c.entries,
        restored(c.config, c.entries, c.modifications_count).wf(),
        restored(c.config, c.entries, c.modifications_count).config == c.config,
        restored(c.config, c.entries, c.modifications_count).entries == c.entries,
        restored(c.config, c.entries, c.modifications_count).needs_rebuild == c.config.use_ivf,
        !c.uses_index() ==> forall|
            centroid_distances: Seq<u32>,
            other_distances: Seq<u32>,
            filter: Option<Seq<(String, FilterValue)>>,
        |
            #[trigger] restored(c.config, c.entries, c.modifications_count).candidates(
                other_distances,
                filter,
            ) == #[trigger] c.candidates(centroid_distances, filter),
{
    lemma_first_mismatch_is(embeddings_of(c.entries), c.config.dimension, c.entries.len() as int);
    lemma_stored_all_distinct(c.entries, c.entries.len());
    assert(c.entries.take(c.entries.len() as int) == c.entries);
}

/// From an index that is up to date and no counted change, a query
/// rebuilds the index after `k` changes exactly when vectors are stored
/// and `k` has reached the threshold for their number.
pub proof fn lemma_rebuild_trigger(c: CollectionView, entries: Seq<VectorEntryView>, k: nat)
    requires
        c.config.use_ivf,
        !c.batch_mode,
        !c.needs_rebuild,
        c.modifications_count == 0,
        k <= usize::MAX,
    ensures
        c.after_changes(entries, k).rebuild_due() <==> (entries.len() > 0 && k >= c.after_changes(
            entries,
            k,
        ).rebuild_threshold()),
        c.after_changes(entries, k).rebuild_threshold() >= 10,
        c.after_changes(entries, k).rebuild_threshold() * 10 >= entries.len(),
{
}

/// In batch mode changes are counted and leave `needs_rebuild` as it is.
pub proof fn lemma_batch_suppression(c: CollectionView, entries: Seq<VectorEntryView>, n: nat)
    requires
        c.batch_mode,
    ensures
        c.after_changes(entries, n).needs_rebuild == c.needs_rebuild,
        c.after_changes(entries, n).batch_mode,
        c.after_changes(entries, n).modifications_count == saturated(c.modifications_count + n),
{
}

/// What `ranked` is: the candidates, each as often as before, with no
/// candidate before one that is closer.
pub proof fn lemma_ranked(candidates: Seq<int>, distances: Seq<u32>)
    requires
        candidates.len() <= usize::MAX,
    ensures
        ranked(candidates, distances).len() == candidates.len(),
        forall|t: int|
            0 <= t < candidates.len() ==> candidates.contains(
                #[trigger] ranked(candidates, distances)[t],
            ),
        forall|u: int|
            0 <= u < candidates.len() ==> ranked(candidates, distances).contains(
                #[trigger] candidates[u],
            ),
        candidates.no_duplicates() ==> ranked(candidates, distances).no_duplicates(),
        forall|i: int, j: int|
            0 <= i < j < candidates.len() ==> distance_rank(
                distances[#[trigger] ranked(candidates, distances)[i]],
            ) <= distance_rank(distances[#[trigger] ranked(candidates, distances)[j]]),
{
    let found = candidate_distances(distances, candidates);
    let order = closest_first(found);
    lemma_closest_first(found);
    assert forall|t: int| 0 <= t < candidates.len() implies candidates.contains(
        #[trigger] ranked(candidates, distances)[t],
    ) by {
        assert(order[t] < found.len());
        assert(candidates[order[t] as int] == ranked(candidates, distances)[t]);
    }
    assert forall|u: int| 0 <= u < candidates.len() implies ranked(candidates, distances).contains(
        #[trigger] candidates[u],
    ) by {
        assert(order.contains(u as usize));
        let i = choose|i: int| 0 <= i < order.len() && order[i] == u as usize;
        assert(ranked(candidates, distances)[i] == candidates[u]);
    }
    if candidates.no_duplicates() {
        assert forall|i: int, j: int|
            0 <= i < candidates.len() && 0 <= j < candidates.len() && i != j implies ranked(
            candidates,
            distances,
        )[i] != ranked(candidates, distances)[j] by {
            assert(order[i] != order[j]);
            assert(order[i] < found.len() && order[j] < found.len());
        }
    }
    assert forall|i: int, j: int| 0 <= i < j < candidates.len() implies distance_rank(
        distances[#[trigger] ranked(candidates, distances)[i]],
    ) <= distance_rank(distances[#[trigger] ranked(candidates, distances)[j]]) by {
        assert(order[i] < found.len() && order[j] < found.len());
        assert(found[order[i] as int] == distances[candidates[order[i] as int]]);
        assert(found[order[j] as int] == distances[candidates[order[j] as int]]);
    }
}

/// The order of positions by the rank of their distance, and among equal
/// ranks by position.
pub open spec fn position_order(distances: Seq<u32>) -> spec_fn(int, int) -> bool {
    |a: int, b: int|
        distance_rank(distances[a]) < distance_rank(distances[b]) || (distance_rank(distances[a])
            == distance_rank(distances[b]) && a <= b)
}

/// Two lists of candidates that hold the same positions, each once, are
/// ranked alike where no two of their distances tie.
pub proof fn lemma_ranked_same(first: Seq<int>, second: Seq<int>, distances: Seq<u32>)
    requires
        first.len() <= usize::MAX,
        second.len() <= usize::MAX,
        first.no_duplicates(),
        second.no_duplicates(),
        forall|p: int| first.contains(p) <==> second.contains(p),
        forall|p: int, q: int|
            first.contains(p) && first.contains(q) && p != q ==> distance_rank(distances[p])
                != distance_rank(distances[q]),
    ensures
        ranked(first, distances) == ranked(second, distances),
{
    broadcast use vstd::seq_lib::group_to_multiset_ensures;

    let a = ranked(first, distances);
    let b = ranked(second, distances);
    let leq = position_order(distances);
    lemma_ranked(first, distances);
    lemma_ranked(second, distances);
    assert(vstd::relations::total_ordering(leq)) by {
        assert(vstd::relations::reflexive(leq));
        assert(vstd::relations::antisymmetric(leq));
        assert(vstd::relations::transitive(leq));
        assert(vstd::relations::strongly_connected(leq));
    }
    assert(vstd::relations::sorted_by(a, leq)) by {
        assert forall|i: int, j: int| 0 <= i < j < a.len() implies #[trigger] leq(a[i], a[j]) by {
            assert(first.contains(a[i]) && first.contains(a[j]));
            assert(a[i] != a[j]);
        }
    }
    assert(vstd::relations::sorted_by(b, leq)) by {
        assert forall|i: int, j: int| 0 <= i < j < b.len() implies #[trigger] leq(b[i], b[j]) by {
            assert(second.contains(b[i]) && second.contains(b[j]));
            assert(b[i] != b[j]);
        }
    }
    a.lemma_multiset_has_no_duplicates();
    b.lemma_multiset_has_no_duplicates();
    assert(a.to_multiset() =~= b.to_multiset()) by {
        assert forall|x: int| a.to_multiset().count(x) == b.to_multiset().count(x) by {
            if a.contains(x) {
                assert(first.contains(x));
                assert(second.contains(x));
                let u = choose|u: int| 0 <= u < second.len() && second[u] == x;
                assert(b.contains(second[u]));
                assert(a.to_multiset().contains(x));
                assert(b.to_multiset().contains(x));
            } else if b.contains(x) {
                assert(second.contains(x));
                assert(first.contains(x));
                let u = choose|u: int| 0 <= u < first.len() && first[u] == x;
                assert(a.contains(first[u]));
            }
        }
    }
    vstd::seq_lib::lemma_sorted_unique(a, b, leq);
}

/// What `linear_candidates` is: the positions of the entries that pass the
/// filter, each once, in ascending order.
pub proof fn lemma_linear_candidates(
    entries: Seq<VectorEntryView>,
    filter: Option<Seq<(String, FilterValue)>>,
)
    ensures
        linear_candidates(entries, filter).len() <= entries.len(),
        linear_candidates(entries, filter).no_duplicates(),
        forall|p: int|
            #[trigger] linear_candidates(entries, filter).contains(p) <==> (0 <= p < entries.len()
                && passes(entries[p], filter)),
    decreases entries.len(),
{
    let whole = linear_candidates(entries, filter);
    if entries.len() > 0 {
        let front = entries.drop_last();
        let rest = linear_candidates(front, filter);
        lemma_linear_candidates(front, filter);
        let last = entries.len() - 1;
        assert forall|p: int| #[trigger] whole.contains(p) <==> (0 <= p < entries.len() && passes(
            entries[p],
            filter,
        )) by {
            if whole.contains(p) {
                let t = choose|t: int| 0 <= t < whole.len() && whole[t] == p;
                if t < rest.len() {
                    assert(rest[t] == p);
                    assert(rest.contains(p));
                    assert(front[p] == entries[p]);
                }
            }
            if 0 <= p < entries.len() && passes(entries[p], filter) {
                if p < last {
                    assert(front[p] == entries[p]);
                    assert(rest.contains(p));
                    let t = choose|t: int| 0 <= t < rest.len() && rest[t] == p;
                    assert(whole[t] == p);
                } else {
                    assert(whole[rest.len() as int] == p);
                }
            }
        }
        assert forall|i: int, j: int| 0 <= i < j < whole.len() implies whole[i] != whole[j] by {
            if j < rest.len() {
                assert(rest[i] != rest[j]);
            } else {
                assert(rest.contains(rest[i]));
            }
        }
    }
}

/// What `named_candidates` of distinct names are: positions of stored
/// entries that are named and pass the filter, each once.
pub proof fn lemma_named_candidates(
    entries: Seq<VectorEntryView>,
    ids: Seq<Seq<char>>,
    filter: Option<Seq<(String, FilterValue)>>,
)
    requires
        distinct_ids(entries),
        ids.no_duplicates(),
    ensures
        named_candidates(entries, ids, filter).len() <= ids.len(),
        named_candidates(entries, ids, filter).no_duplicates(),
        forall|p: int|
            #[trigger] named_candidates(entries, ids, filter).contains(p) ==> 0 <= p
                < entries.len() && passes(entries[p], filter) && ids.contains(entries[p].id),
    decreases ids.len(),
{
    let whole = named_candidates(entries, ids, filter);
    if ids.len() > 0 {
        let front = ids.drop_last();
        let rest = named_candidates(entries, front, filter);
        lemma_named_candidates(entries, front, filter);
        let at = position_of_id(entries, ids.last());
        assert forall|p: int| #[trigger] whole.contains(p) implies 0 <= p < entries.len() && passes(
            entries[p],
            filter,
        ) && ids.contains(entries[p].id) by {
            let t = choose|t: int| 0 <= t < whole.len() && whole[t] == p;
            if t < rest.len() {
                assert(rest[t] == p);
                assert(rest.contains(p));
                let u = choose|u: int| 0 <= u < front.len() && front[u] == entries[p].id;
                assert(ids[u] == entries[p].id);
            } else {
                assert(p == at);
                assert(ids[ids.len() - 1] == entries[p].id);
            }
        }
        assert forall|i: int, j: int| 0 <= i < j < whole.len() implies whole[i] != whole[j] by {
            if j < rest.len() {
                assert(rest[i] != rest[j]);
            } else {
                assert(rest.contains(rest[i]));
                if rest[i] == at {
                    let u = choose|u: int| 0 <= u < front.len() && front[u] == entries[at].id;
                    assert(ids[u] == ids[ids.len() - 1]);
                }
            }
        }
    }
}

/// A query through an index that is up to date and probes every cluster
/// gives the hits of a query without the index, in the same order, where
/// no two candidates are equally distant. So does a query on the
/// collection read back from the saved one.
pub proof fn lemma_full_probe_agrees(
    c: CollectionView,
    distance_rows: Seq<Seq<u32>>,
    centroid_distances: Seq<u32>,
    other_distances: Seq<u32>,
    distances: Seq<u32>,
    filter: Option<Seq<(String, FilterValue)>>,
    k: nat,
)
    requires
        c.wf(),
        c.uses_index(),
        c.entries.len() <= usize::MAX,
        distances.len() == c.entries.len(),
        c.index->0.n_probe >= c.index->0.centroids.len(),
        centroid_distances.len() == c.index->0.centroids.len(),
        centroid_distances.len() <= usize::MAX,
        distance_rows.len() == c.entries.len(),
        forall|i: int|
            0 <= i < distance_rows.len() ==> (#[trigger] distance_rows[i]).len()
                == c.index->0.centroids.len(),
        c.index->0.inverted_lists == Seq::new(
            c.index->0.centroids.len(),
            |k: int| cluster_members(ids_of(c.entries), nearest_clusters(distance_rows), k),
        ),
        forall|p: int, q: int|
            0 <= p < c.entries.len() && 0 <= q < c.entries.len() && p != q && passes(
                c.entries[p],
                filter,
            ) && passes(c.entries[q], filter) ==> distance_rank(distances[p]) != distance_rank(
                distances[q],
            ),
    ensures
        ranked(c.candidates(centroid_distances, filter), distances) == ranked(
            linear_candidates(c.entries, filter),
            distances,
        ),
        hits(
            c.entries,
            distances,
            first_k(ranked(c.candidates(centroid_distances, filter), distances), k),
        ) == hits(
            c.entries,
            distances,
            first_k(ranked(linear_candidates(c.entries, filter), distances), k),
        ),
        restored(c.config, c.entries, c.modifications_count).candidates(other_distances, filter)
            == linear_candidates(c.entries, filter),
        hits(
            restored(c.config, c.entries, c.modifications_count).entries,
            distances,
            first_k(
                ranked(
                    restored(c.config, c.entries, c.modifications_count).candidates(
                        other_distances,
                        filter,
                    ),
                    distances,
                ),
                k,
            ),
        ) == hits(
            c.entries,
            distances,
            first_k(ranked(c.candidates(centroid_distances, filter), distances), k),
        ),
        c.candidates(centroid_distances, filter).no_duplicates(),
{
    let index = c.index->0;
    let ids = ids_of(c.entries);
    let clusters = nearest_clusters(distance_rows);
    assert(ids.no_duplicates()) by {
        assert forall|i: int, j: int|
            0 <= i < ids.len() && 0 <= j < ids.len() && i != j implies ids[i] != ids[j] by {
            assert(c.entries[i].id != c.entries[j].id);
        }
    }
    crate::ivf::lemma_built_lists_disjoint(ids, clusters, index.centroids.len());
    crate::ivf::lemma_full_probe_once(index, centroid_distances);
    let names = concat_lists(index.inverted_lists, probed_clusters(index, centroid_distances));
    let through = named_candidates(c.entries, names, filter);
    let linear = linear_candidates(c.entries, filter);
    assert(through == c.candidates(centroid_distances, filter));
    lemma_named_candidates(c.entries, names, filter);
    lemma_linear_candidates(c.entries, filter);
    assert forall|p: int| through.contains(p) <==> linear.contains(p) by {
        if linear.contains(p) {
            lemma_full_probe_finds_all(c, distance_rows, centroid_distances, filter, p);
        }
    }
    assert(through.len() == linear.len()) by {
        through.unique_seq_to_set();
        linear.unique_seq_to_set();
        assert(through.to_set() =~= linear.to_set());
    }
    lemma_ranked_same(through, linear, distances);
}

/// A stored entry that is named and passes the filter is a candidate.
pub proof fn lemma_named_candidates_contains(
    entries: Seq<VectorEntryView>,
    ids: Seq<Seq<char>>,
    filter: Option<Seq<(String, FilterValue)>>,
    p: int,
)
    requires
        distinct_ids(entries),
        0 <= p < entries.len(),
        ids.contains(entries[p].id),
        passes(entries[p], filter),
    ensures
        named_candidates(entries, ids, filter).contains(p),
    decreases ids.len(),
{
    let rest = named_candidates(entries, ids.drop_last(), filter);
    let whole = named_candidates(entries, ids, filter);
    lemma_position_of_id(entries, p);
    if ids.last() == entries[p].id {
        assert(whole == rest.push(p));
        assert(whole[rest.len() as int] == p);
    } else {
        let at = choose|at: int| 0 <= at < ids.len() && ids[at] == entries[p].id;
        assert(ids.drop_last()[at] == entries[p].id);
        lemma_named_candidates_contains(entries, ids.drop_last(), filter, p);
        let q = choose|q: int| 0 <= q < rest.len() && rest[q] == p;
        assert(whole[q] == p);
    }
}

/// Through an index that is up to date and probes every cluster, a query
/// scores every stored vector that passes the filter: nothing is missed
/// that a query without the index finds.
pub proof fn lemma_full_probe_finds_all(
    c: CollectionView,
    distance_rows: Seq<Seq<u32>>,
    centroid_distances: Seq<u32>,
    filter: Option<Seq<(String, FilterValue)>>,
    p: int,
)
    requires
        c.wf(),
        c.uses_index(),
        c.index->0.n_probe >= c.index->0.centroids.len(),
        centroid_distances.len() == c.index->0.centroids.len(),
        centroid_distances.len() <= usize::MAX,
        distance_rows.len() == c.entries.len(),
        forall|i: int|
            0 <= i < distance_rows.len() ==> (#[trigger] distance_rows[i]).len()
                == c.index->0.centroids.len(),
        c.index->0.inverted_lists == Seq::new(
            c.index->0.centroids.len(),
            |k: int| cluster_members(ids_of(c.entries), nearest_clusters(distance_rows), k),
        ),
        0 <= p < c.entries.len(),
        passes(c.entries[p], filter),
    ensures
        c.candidates(centroid_distances, filter).contains(p),
{
    let index = c.index->0;
    let ids = ids_of(c.entries);
    let clusters = nearest_clusters(distance_rows);
    crate::ivf::lemma_nearest_position(distance_rows[p]);
    let k = clusters[p];
    crate::ivf::lemma_members_cover(ids, clusters, p);
    let members = cluster_members(ids, clusters, k);
    assert(index.inverted_lists[k] == members);
    let t = choose|t: int| 0 <= t < members.len() && members[t] == ids[p];
    crate::ivf::lemma_full_probe(index, centroid_distances, k, t);
    lemma_named_candidates_contains(
        c.entries,
        concat_lists(index.inverted_lists, probed_clusters(index, centroid_distances)),
        filter,
        p,
    );
}

/// A collection of vectors of one dimension, each under its identifier
/// and with its metadata, with an optional inverted-file index.
pub struct Collection {
    config: CollectionConfig,
    vectors: Vec<VectorEntry>,
    /// For each stored identifier the position of its vector.
    positions: StringHashMap<usize>,
    ivf_index: Option<IVFIndex>,
    needs_rebuild: bool,
    batch_mode: bool,
    modifications_count: usize,
    last_query_time_ms: u64,
    total_queries: usize,
}

impl View for Collection {
    type V = CollectionView;

    closed spec fn view(&self) -> CollectionView {
        CollectionView {
            config: self.config@,
            entries: entry_views(self.vectors@),
            index: match self.ivf_index {
                Some(index) => Some(index@),
                None => None,
            },
            needs_rebuild: self.needs_rebuild,
            batch_mode: self.batch_mode,
            modifications_count: self.modifications_count as nat,
            last_query_time_ms: self.last_query_time_ms,
            total_queries: self.total_queries as nat,
        }
    }
}

impl Collection {
    /// Well-formedness: see `CollectionView::wf`. Moreover identifiers
    /// can be looked up.
    pub open spec fn wf(&self) -> bool {
        &&& self@.wf()
        &&& self.lookup_ready()
    }

    /// The table of positions names, for each stored identifier and for
    /// no other, the position of its vector.
    pub closed spec fn lookup_ready(&self) -> bool {
        &&& forall|i: int|
            0 <= i < self.vectors@.len() ==> self.positions@.contains_key(
                (#[trigger] self.vectors@[i]).id@,
            ) && self.positions@[self.vectors@[i].id@] == i
        &&& forall|k: Seq<char>| #[trigger]
            self.positions@.contains_key(k) ==> self.positions@[k] < self.vectors@.len()
                && self.vectors@[self.positions@[k] as int].id@ == k
    }

    /// An empty collection without an index.
    pub fn new(name: String, dimension: usize) -> (r: Collection)
        ensures
            r.wf(),
            r@ == empty_collection(name@, dimension as nat),
    {
        let r = Collection {
            config: CollectionConfig { name, dimension, use_ivf: false, n_clusters: 0 },
            vectors: Vec::new(),
            positions: StringHashMap::new(),
            ivf_index: None,
            needs_rebuild: false,
            batch_mode: false,
            modifications_count: 0,
            last_query_time_ms: 0,
            total_queries: 0,
        };
        assert(r@.entries =~= Seq::empty());
        r
    }

    /// An empty collection with an index for `n_clusters` clusters, which
    /// is not built yet and marked as behind.
    pub fn new_with_ivf(name: String, dimension: usize, n_clusters: usize) -> (r: Collection)
        ensures
            r.wf(),
            r@ == empty_indexed_collection(name@, dimension as nat, n_clusters as nat),
    {
        let index = IVFIndex::new(n_clusters);
        assert(index@.centroids =~= Seq::empty());
        let r = Collection {
            config: CollectionConfig { name, dimension, use_ivf: true, n_clusters },
            vectors: Vec::new(),
            positions: StringHashMap::new(),
            ivf_index: Some(index),
            needs_rebuild: true,
            batch_mode: false,
            modifications_count: 0,
            last_query_time_ms: 0,
            total_queries: 0,
        };
        assert(r@.entries =~= Seq::empty());
        r
    }

    /// The same collection with an index that probes `n_probe` clusters,
    /// brought into the range from 1 to the number of clusters asked for.
    /// A collection without an index stays as it is.
    pub fn with_n_probe(self, n_probe: usize) -> (r: Collection)
        requires
            self.wf(),
        ensures
            r.wf(),
            r@ == (CollectionView {
                index: match self@.index {
                    Some(index) => Some(
                        IVFIndexView {
                            n_probe: clamped_probe(n_probe as nat, index.n_clusters),
                            ..index
                        },
                    ),
                    None => None,
                },
                ..self@
            }),
    {
        let mut r = self;
        let index = r.ivf_index.take();
        r.ivf_index = match index {
            Some(index) => Some(index.with_n_probe(n_probe)),
            None => None,
        };
        r
    }

    /// The collection that is read back from a saved one: see `restored`.
    /// An entry takes the place of an earlier one with its identifier. A
    /// vector that has not the dimension of `config` is refused.
    pub fn restore(config: CollectionConfig, entries: Vec<VectorEntry>, modifications_count: usize) -> (r:
        Result<Collection, VectorDbError>)
        ensures
            ({
                let saved = entry_views(entries@);
                let b = first_mismatch(embeddings_of(saved), config@.dimension);
                if b < saved.len() {
                    r == Err::<Collection, VectorDbError>(
                        VectorDbError::DimensionMismatch {
                            expected: config.dimension,
                            actual: saved[b].embedding.len() as usize,
                        },
                    )
                } else {
                    r matches Ok(c) && c.wf() && c@ == restored(
                        config@,
                        stored_all(saved, saved.len()),
                        modifications_count as nat,
                    )
                }
            }),
    {
        let ghost saved = entry_views(entries@);
        let ghost shape = config@;
        let index = if config.use_ivf {
            let made = IVFIndex::new(config.n_clusters);
            assert(made@.centroids =~= Seq::empty());
            Some(made)
        } else {
            None
        };
        let mut c = Collection {
            needs_rebuild: config.use_ivf,
            config,
            vectors: Vec::new(),
            positions: StringHashMap::new(),
            ivf_index: index,
            batch_mode: false,
            modifications_count,
            last_query_time_ms: 0,
            total_queries: 0,
        };
        assert(c@.entries =~= Seq::empty());
        assert(c@ == restored(shape, stored_all(saved, 0), modifications_count as nat));
        for entry in it: entries
            invariant
                it.seq() == entries@,
                saved == entry_views(entries@),
                shape == config@,
                c.wf(),
                forall|j: int|
                    0 <= j < it.index() ==> (#[trigger] embeddings_of(saved)[j]).len()
                        == shape.dimension,
                c@ == restored(
                    shape,
                    stored_all(saved, it.index() as nat),
                    modifications_count as nat,
                ),
        {
            let ghost i = it.index();
            proof {
                assert(entry == entries@[i as int]);
                assert(saved[i as int] == entry@);
                assert(embeddings_of(saved)[i as int] == entry.embedding@);
            }
            if entry.embedding.len() != c.config.dimension {
                proof {
                    lemma_first_mismatch_is(embeddings_of(saved), shape.dimension, i as int);
                }
                return Err(
                    VectorDbError::DimensionMismatch {
                        expected: c.config.dimension,
                        actual: entry.embedding.len(),
                    },
                );
            }
            c.store(entry);
        }
        proof {
            lemma_first_mismatch_is(embeddings_of(saved), shape.dimension, saved.len() as int);
        }
        Ok(c)
    }

    /// What the collection was made with.
    pub fn config(&self) -> (r: &CollectionConfig)
        ensures
            r@ == self@.config,
    {
        &self.config
    }

    /// The stored vectors.
    pub fn entries(&self) -> (r: &Vec<VectorEntry>)
        ensures
            entry_views(r@) == self@.entries,
    {
        &self.vectors
    }

    /// The index, if the collection has one.
    pub fn index(&self) -> (r: Option<&IVFIndex>)
        ensures
            match r {
                Some(index) => self@.index == Some(index@),
                None => self@.index is None,
            },
    {
        self.ivf_index.as_ref()
    }

    /// Whether the index is behind the stored vectors.
    pub fn needs_rebuild(&self) -> (r: bool)
        ensures
            r == self@.needs_rebuild,
    {
        self.needs_rebuild
    }

    /// Whether the collection is in batch mode.
    pub fn batch_mode(&self) -> (r: bool)
        ensures
            r == self@.batch_mode,
    {
        self.batch_mode
    }

    /// The number of identifiers added or deleted since the last rebuild.
    pub fn modifications_count(&self) -> (r: usize)
        ensures
            r == self@.modifications_count,
    {
        self.modifications_count
    }

    /// From now on changes leave `needs_rebuild` alone.
    pub fn begin_batch(&mut self)
        ensures
            final(self)@ == (CollectionView { batch_mode: true, ..old(self)@ }),
            old(self).wf() ==> final(self).wf(),
    {
        self.batch_mode = true;
    }

    /// Ends batch mode. An index is marked as behind if anything was
    /// added or deleted since the last rebuild.
    pub fn end_batch(&mut self)
        ensures
            final(self)@ == (CollectionView {
                batch_mode: false,
                needs_rebuild: old(self)@.needs_rebuild || (old(self)@.config.use_ivf && old(
                    self,
                )@.modifications_count > 0),
                ..old(self)@
            }),
            old(self).wf() ==> final(self).wf(),
    {
        self.batch_mode = false;
        if self.config.use_ivf && self.modifications_count > 0 {
            self.needs_rebuild = true;
        }
    }

    /// The number of stored vectors.
    pub fn count(&self) -> (r: usize)
        ensures
            r == self@.entries.len(),
    {
        self.vectors.len()
    }

    /// Whether a query has to rebuild the index before it searches: the
    /// index is behind, the collection is not empty, and the changes since
    /// the last rebuild have reached a tenth of the stored vectors, and 10.
    pub fn rebuild_due(&self) -> (r: bool)
        ensures
            r == self@.rebuild_due(),
    {
        if !self.config.use_ivf || !self.needs_rebuild {
            return false;
        }
        let total = self.vectors.len();
        if total == 0 {
            return false;
        }
        let tenth = total / 10 + if total % 10 == 0 {
            0
        } else {
            1
        };
        let threshold = if tenth >= 10 {
            tenth
        } else {
            10
        };
        self.modifications_count >= threshold
    }

    /// The position of `id` among the stored vectors.
    fn find(&self, id: &String) -> (r: Option<usize>)
        requires
            self.wf(),
        ensures
            match r {
                Some(p) => p < self@.entries.len() && self@.entries[p as int].id == id@
                    && holds_id(self@.entries, id@) && position_of_id(self@.entries, id@) == p,
                None => !holds_id(self@.entries, id@),
            },
    {
        match self.positions.get(id.as_str()) {
            Some(p) => {
                proof {
                    assert(self@.entries[*p as int] == self.vectors@[*p as int]@);
                    lemma_position_of_id(self@.entries, *p as int);
                }
                Some(*p)
            },
            None => {
                proof {
                    if holds_id(self@.entries, id@) {
                        let q = position_of_id(self@.entries, id@);
                        assert(self@.entries[q] == self.vectors@[q]@);
                        assert(self.positions@.contains_key(self.vectors@[q].id@));
                    }
                }
                None
            },
        }
    }

    /// Stores `entry`, in the place of the stored vector with its
    /// identifier or at the end.
    fn store(&mut self, entry: VectorEntry)
        requires
            old(self).wf(),
            entry.embedding@.len() == old(self)@.config.dimension,
        ensures
            final(self).wf(),
            final(self)@ == (CollectionView {
                entries: upsert(old(self)@.entries, entry@),
                ..old(self)@
            }),
    {
        let ghost before = self@.entries;
        let ghost stored = self.vectors@;
        match self.find(&entry.id) {
            Some(p) => {
                assert(before[p as int] == stored[p as int]@);
                self.vectors.set(p, entry);
                proof {
                    assert(self@.entries =~= before.update(p as int, entry@));
                    assert(self.lookup_ready()) by {
                        assert forall|i: int| 0 <= i < self.vectors@.len() implies self.positions@.contains_key(
                            (#[trigger] self.vectors@[i]).id@,
                        ) && self.positions@[self.vectors@[i].id@] == i by {
                            assert(self.vectors@[i].id@ == stored[i].id@);
                        }
                        assert forall|k: Seq<char>| #[trigger]
                            self.positions@.contains_key(k) implies self.positions@[k]
                            < self.vectors@.len() && self.vectors@[self.positions@[k] as int].id@
                            == k by {
                            assert(self.vectors@[self.positions@[k] as int].id@
                                == stored[self.positions@[k] as int].id@);
                        }
                    }
                    assert(distinct_ids(self@.entries)) by {
                        assert forall|i: int, j: int|
                            0 <= i < self@.entries.len() && 0 <= j < self@.entries.len() && i
                                != j implies (#[trigger] self@.entries[i]).id != (
                        #[trigger] self@.entries[j]).id by {
                            assert(before[i].id != before[j].id);
                        }
                    }
                    assert forall|i: int| 0 <= i < self@.entries.len() implies (
                    #[trigger] self@.entries[i]).embedding.len() == self@.config.dimension by {
                        if i != p {
                            assert(self@.entries[i] == before[i]);
                        }
                    }
                }
            },
            None => {
                let ghost known = self.positions@;
                proof {
                    assert forall|i: int| 0 <= i < stored.len() implies (#[trigger] stored[i]).id@
                        != entry.id@ by {
                        assert(before[i] == stored[i]@);
                    }
                }
                self.positions.insert(entry.id.clone(), self.vectors.len());
                self.vectors.push(entry);
                proof {
                    assert(self@.entries =~= before.push(entry@));
                    assert(self.lookup_ready()) by {
                        assert forall|i: int| 0 <= i < self.vectors@.len() implies self.positions@.contains_key(
                            (#[trigger] self.vectors@[i]).id@,
                        ) && self.positions@[self.vectors@[i].id@] == i by {
                            if i < stored.len() {
                                assert(self.vectors@[i] == stored[i]);
                                assert(known.contains_key(stored[i].id@));
                            }
                        }
                        assert forall|k: Seq<char>| #[trigger]
                            self.positions@.contains_key(k) implies self.positions@[k]
                            < self.vectors@.len() && self.vectors@[self.positions@[k] as int].id@
                            == k by {
                            if k != entry.id@ {
                                assert(known.contains_key(k));
                                assert(self.vectors@[known[k] as int] == stored[known[k] as int]);
                            }
                        }
                    }
                    assert(distinct_ids(self@.entries)) by {
                        assert forall|i: int, j: int|
                            0 <= i < self@.entries.len() && 0 <= j < self@.entries.len() && i
                                != j implies (#[trigger] self@.entries[i]).id != (
                        #[trigger] self@.entries[j]).id by {
                            if i < before.len() && j < before.len() {
                                assert(before[i].id != before[j].id);
                            } else if i < before.len() {
                                assert(before[i].id != entry@.id);
                            } else {
                                assert(before[j].id != entry@.id);
                            }
                        }
                    }
                    assert forall|i: int| 0 <= i < self@.entries.len() implies (
                    #[trigger] self@.entries[i]).embedding.len() == self@.config.dimension by {
                        if i < before.len() {
                            assert(self@.entries[i] == before[i]);
                        }
                    }
                }
            },
        }
    }

    /// Counts `n` added or deleted identifiers and, outside batch mode,
    /// marks an index as behind.
    fn note_changes(&mut self, n: usize)
        ensures
            final(self)@ == old(self)@.after_changes(old(self)@.entries, n as nat),
            old(self).wf() ==> final(self).wf(),
    {
        self.modifications_count = self.modifications_count.saturating_add(n);
        if self.config.use_ivf && !self.batch_mode {
            self.needs_rebuild = true;
        }
    }

    /// Stores the given vectors under the given identifiers, each with its
    /// metadata, or with none where no metadata are given. A vector whose
    /// identifier is stored already takes the place of the stored one.
    ///
    /// The components are stored as they are: callers hand in vectors of
    /// unit length. Lists of different lengths are refused and nothing
    /// changes. A vector that has not the collection's dimension is
    /// refused: those before it are stored, it and those after it are not,
    /// and the changes are not counted.
    pub fn add(
        &mut self,
        ids: Vec<String>,
        embeddings: Vec<Vec<u32>>,
        metadatas: Option<Vec<Metadata>>,
    ) -> (r: Result<(), VectorDbError>)
        requires
            old(self).wf(),
        ensures
            final(self).wf(),
            forall|i: int|
                0 <= i < final(self)@.entries.len() ==> (#[trigger] final(self)@.entries[i]).embedding.len()
                    == final(self)@.config.dimension,
            ids@.len() != embeddings@.len() ==> final(self)@ == old(self)@ && (
            r matches Err(VectorDbError::InvalidConfig(m)) && m@
                == "ids and embeddings must have the same length"@),
            ids@.len() == embeddings@.len() && (metadatas matches Some(ms) && ms@.len()
                != ids@.len()) ==> final(self)@ == old(self)@ && (
            r matches Err(VectorDbError::InvalidConfig(m)) && m@
                == "metadatas must have the same length as ids"@),
            ids@.len() == embeddings@.len() && (metadatas matches Some(ms) ==> ms@.len()
                == ids@.len()) ==> ({
                let b = first_mismatch(embeddings.deep_view(), old(self)@.config.dimension);
                let stored = added(
                    old(self)@.entries,
                    ids.deep_view(),
                    embeddings.deep_view(),
                    optional_metadata_views(metadatas),
                    b as nat,
                );
                if b < ids@.len() {
                    &&& r == Err::<(), VectorDbError>(
                        VectorDbError::DimensionMismatch {
                            expected: old(self)@.config.dimension as usize,
                            actual: embeddings@[b]@.len() as usize,
                        },
                    )
                    &&& final(self)@ == (CollectionView { entries: stored, ..old(self)@ })
                } else {
                    &&& r is Ok
                    &&& final(self)@ == old(self)@.after_changes(stored, ids@.len())
                }
            }),
    {
        let n = ids.len();
        if n != embeddings.len() {
            return Err(VectorDbError::invalid_config("ids and embeddings must have the same length"));
        }
        if let Some(ms) = &metadatas {
            if ms.len() != n {
                return Err(
                    VectorDbError::invalid_config("metadatas must have the same length as ids"),
                );
            }
        }
        let ghost names = ids.deep_view();
        let ghost vectors = embeddings.deep_view();
        let ghost metas = optional_metadata_views(metadatas);
        let ghost dimension = self@.config.dimension;
        let mut idx: usize = 0;
        while idx < n
            invariant
                idx <= n,
                n == ids@.len(),
                n == embeddings@.len(),
                metadatas matches Some(ms) ==> ms@.len() == n,
                names == ids.deep_view(),
                vectors == embeddings.deep_view(),
                metas == optional_metadata_views(metadatas),
                dimension == old(self)@.config.dimension,
                self.wf(),
                forall|j: int| 0 <= j < idx ==> (#[trigger] vectors[j]).len() == dimension,
                self@ == (CollectionView {
                    entries: added(old(self)@.entries, names, vectors, metas, idx as nat),
                    ..old(self)@
                }),
            decreases n - idx,
        {
            let embedding = embeddings[idx].clone();
            assert(embedding@ =~= embeddings@[idx as int]@);
            assert(vectors[idx as int] == embeddings@[idx as int]@);
            if embedding.len() != self.config.dimension {
                proof {
                    lemma_first_mismatch_is(vectors, dimension, idx as int);
                }
                return Err(
                    VectorDbError::DimensionMismatch {
                        expected: self.config.dimension,
                        actual: embedding.len(),
                    },
                );
            }
            let metadata = match &metadatas {
                Some(ms) => ms[idx].clone(),
                None => Metadata::new(),
            };
            let entry = VectorEntry { id: ids[idx].clone(), embedding, metadata };
            proof {
                assert(entry@ == (VectorEntryView {
                    id: names[idx as int],
                    embedding: vectors[idx as int],
                    metadata: metadata_at(metas, idx as int),
                }));
            }
            self.store(entry);
            idx += 1;
        }
        proof {
            lemma_first_mismatch_is(vectors, dimension, n as int);
        }
        self.note_changes(n);
        Ok(())
    }

    /// Reads stored vectors: those of the identifiers in `ids` that are
    /// stored, in the order of `ids`, or all of them where `ids` is
    /// absent. The vectors come along if `parts` names "embeddings", the
    /// metadata if it names "metadatas", both if `parts` is absent.
    pub fn get(&self, ids: Option<Vec<String>>, parts: Option<Vec<String>>) -> (r: Result<
        GetResult,
        VectorDbError,
    >)
        requires
            self.wf(),
        ensures
            r matches Ok(g) && ({
                let chosen = entries_at(
                    self@.entries,
                    selected_positions(self@.entries, optional_names(ids)),
                );
                &&& g.ids.deep_view() == ids_of(chosen)
                &&& match g.embeddings {
                    Some(es) => wants(optional_names(parts), "embeddings"@) && es.deep_view()
                        == embeddings_of(chosen),
                    None => !wants(optional_names(parts), "embeddings"@),
                }
                &&& match g.metadatas {
                    Some(ms) => wants(optional_names(parts), "metadatas"@) && metadata_views(ms@)
                        == metadatas_of(chosen),
                    None => !wants(optional_names(parts), "metadatas"@),
                }
            }),
    {
        let ghost entries = self@.entries;
        let ghost chosen_positions = selected_positions(entries, optional_names(ids));
        let mut positions: Vec<usize> = Vec::new();
        match &ids {
            Some(list) => {
                let ghost names = list.deep_view();
                let mut i: usize = 0;
                assert(names.take(0) == Seq::<Seq<char>>::empty());
                while i < list.len()
                    invariant
                        i <= list@.len(),
                        self.wf(),
                        entries == self@.entries,
                        names == list.deep_view(),
                        positions@.map_values(|p: usize| p as int) == found_positions(
                            entries,
                            names.take(i as int),
                        ),
                        forall|t: int| 0 <= t < positions@.len() ==> (#[trigger] positions@[t]) < entries.len(),
                    decreases list.len() - i,
                {
                    let ghost so_far = positions@.map_values(|p: usize| p as int);
                    proof {
                        assert(names.take(i + 1).drop_last() == names.take(i as int));
                        assert(names.take(i + 1).last() == list@[i as int]@);
                    }
                    if let Some(p) = self.find(&list[i]) {
                        positions.push(p);
                        assert(positions@.map_values(|p: usize| p as int) =~= so_far.push(p as int));
                    }
                    i += 1;
                }
                assert(names.take(list@.len() as int) == names);
            },
            None => {
                let mut i: usize = 0;
                while i < self.vectors.len()
                    invariant
                        i <= self.vectors.len(),
                        entries == self@.entries,
                        positions@.len() == i,
                        forall|t: int| 0 <= t < i ==> (#[trigger] positions@[t]) == t,
                    decreases self.vectors.len() - i,
                {
                    positions.push(i);
                    i += 1;
                }
                assert(positions@.map_values(|p: usize| p as int) =~= Seq::new(
                    entries.len(),
                    |i: int| i,
                ));
            },
        }
        assert(positions@.map_values(|p: usize| p as int) == chosen_positions);
        let ghost chosen = entries_at(entries, chosen_positions);
        let with_embeddings = match &parts {
            Some(list) => names_contain(list, "embeddings"),
            None => true,
        };
        let with_metadatas = match &parts {
            Some(list) => names_contain(list, "metadatas"),
            None => true,
        };
        let mut result_ids: Vec<String> = Vec::new();
        let mut result_embeddings: Vec<Vec<u32>> = Vec::new();
        let mut result_metadatas: Vec<Metadata> = Vec::new();
        let mut t: usize = 0;
        while t < positions.len()
            invariant
                t <= positions@.len(),
                entries == self@.entries,
                positions@.map_values(|p: usize| p as int) == chosen_positions,
                chosen == entries_at(entries, chosen_positions),
                forall|u: int| 0 <= u < positions@.len() ==> (#[trigger] positions@[u]) < entries.len(),
                result_ids.deep_view() == ids_of(chosen).take(t as int),
                with_embeddings ==> result_embeddings.deep_view() == embeddings_of(chosen).take(
                    t as int,
                ),
                with_metadatas ==> metadata_views(result_metadatas@) == metadatas_of(chosen).take(
                    t as int,
                ),
            decreases positions.len() - t,
        {
            let entry = &self.vectors[positions[t]];
            proof {
                assert(chosen_positions[t as int] == positions@[t as int]);
                assert(chosen[t as int] == entries[positions@[t as int] as int]);
                assert(entries[positions@[t as int] as int] == entry@);
            }
            let ghost ids_before = result_ids.deep_view();
            result_ids.push(entry.id.clone());
            assert(result_ids.deep_view() =~= ids_before.push(entry.id@));
            assert(result_ids.deep_view() =~= ids_of(chosen).take(t + 1));
            if with_embeddings {
                let ghost embeddings_before = result_embeddings.deep_view();
                let copy = entry.embedding.clone();
                assert(copy@ =~= entry.embedding@);
                assert(copy.deep_view() =~= entry.embedding@);
                result_embeddings.push(copy);
                assert(result_embeddings.deep_view() =~= embeddings_before.push(entry.embedding@));
                assert(result_embeddings.deep_view() =~= embeddings_of(chosen).take(t + 1));
            }
            if with_metadatas {
                let ghost metadatas_before = metadata_views(result_metadatas@);
                result_metadatas.push(entry.metadata.clone());
                assert(metadata_views(result_metadatas@) =~= metadatas_before.push(entry.metadata@));
                assert(metadata_views(result_metadatas@) =~= metadatas_of(chosen).take(t + 1));
            }
            t += 1;
        }
        proof {
            assert(chosen.len() == positions@.len());
            assert(ids_of(chosen).take(chosen.len() as int) == ids_of(chosen));
            assert(embeddings_of(chosen).take(chosen.len() as int) == embeddings_of(chosen));
            assert(metadatas_of(chosen).take(chosen.len() as int) == metadatas_of(chosen));
        }
        Ok(
            GetResult {
                ids: result_ids,
                embeddings: if with_embeddings {
                    Some(result_embeddings)
                } else {
                    None
                },
                metadatas: if with_metadatas {
                    Some(result_metadatas)
                } else {
                    None
                },
            },
        )
    }

    /// Merges `metadatas[i]` into the metadata of the vector stored under
    /// `ids[i]`, for each `i` in turn: a key that both bind keeps the new
    /// value. Vectors and bookkeeping stay as they are.
    ///
    /// Lists of different lengths are refused and nothing changes. An
    /// identifier that is not stored is refused: the merges before it
    /// stay, it and those after it are left out.
    pub fn update(&mut self, ids: Vec<String>, metadatas: Vec<Metadata>) -> (r: Result<
        (),
        VectorDbError,
    >)
        requires
            old(self).wf(),
        ensures
            final(self).wf(),
            ids@.len() != metadatas@.len() ==> final(self)@ == old(self)@ && (
            r matches Err(VectorDbError::InvalidConfig(m)) && m@
                == "ids and metadatas must have the same length"@),
            ids@.len() == metadatas@.len() ==> ({
                let b = first_unknown(old(self)@.entries, ids.deep_view());
                &&& final(self)@ == (CollectionView {
                    entries: merged(
                        old(self)@.entries,
                        ids.deep_view(),
                        metadata_views(metadatas@),
                        b as nat,
                    ),
                    ..old(self)@
                })
                &&& if b < ids@.len() {
                    r matches Err(VectorDbError::VectorNotFound(id)) && id@ == ids@[b]@
                } else {
                    r is Ok
                }
            }),
    {
        let n = ids.len();
        if n != metadatas.len() {
            return Err(VectorDbError::invalid_config("ids and metadatas must have the same length"));
        }
        let ghost names = ids.deep_view();
        let ghost metas = metadata_views(metadatas@);
        let ghost start = self@.entries;
        let mut idx: usize = 0;
        while idx < n
            invariant
                idx <= n,
                n == ids@.len(),
                n == metadatas@.len(),
                names == ids.deep_view(),
                metas == metadata_views(metadatas@),
                start == old(self)@.entries,
                self.wf(),
                forall|j: int| 0 <= j < idx ==> holds_id(start, #[trigger] names[j]),
                self@.entries.len() == start.len(),
                forall|q: int| 0 <= q < start.len() ==> (#[trigger] self@.entries[q]).id == start[q].id,
                self@ == (CollectionView {
                    entries: merged(start, names, metas, idx as nat),
                    ..old(self)@
                }),
            decreases n - idx,
        {
            let ghost before = self@.entries;
            assert(names[idx as int] == ids@[idx as int]@);
            proof {
                if holds_id(before, names[idx as int]) {
                    let q = position_of_id(before, names[idx as int]);
                    assert(start[q].id == names[idx as int]);
                }
                if holds_id(start, names[idx as int]) {
                    let q = position_of_id(start, names[idx as int]);
                    assert(before[q].id == names[idx as int]);
                }
            }
            match self.find(&ids[idx]) {
                Some(p) => {
                    self.vectors[p].metadata.merge(&metadatas[idx]);
                    proof {
                        assert(metas[idx as int] == metadatas@[idx as int]@);
                        assert(self@.entries =~= before.update(
                            p as int,
                            with_merged_metadata(before[p as int], metas[idx as int]),
                        ));
                        assert(distinct_ids(self@.entries)) by {
                            assert forall|i: int, j: int|
                                0 <= i < self@.entries.len() && 0 <= j < self@.entries.len() && i
                                    != j implies (#[trigger] self@.entries[i]).id != (
                            #[trigger] self@.entries[j]).id by {
                                assert(before[i].id != before[j].id);
                            }
                        }
                        assert forall|i: int| 0 <= i < self@.entries.len() implies (
                        #[trigger] self@.entries[i]).embedding.len()
                            == self@.config.dimension by {
                            assert(self@.entries[i].embedding == before[i].embedding);
                        }
                        assert forall|q: int| 0 <= q < start.len() implies (
                        #[trigger] self@.entries[q]).id == start[q].id by {
                            assert(self@.entries[q].id == before[q].id);
                        }
                    }
                },
                None => {
                    proof {
                        lemma_first_unknown_is(start, names, idx as int);
                    }
                    return Err(VectorDbError::VectorNotFound(ids[idx].clone()));
                },
            }
            idx += 1;
        }
        proof {
            lemma_first_unknown_is(start, names, n as int);
        }
        Ok(())
    }

    /// Removes the vectors stored under `ids`; an identifier that is not
    /// stored is passed over. Every identifier of `ids` counts as a change.
    pub fn delete(&mut self, ids: Vec<String>) -> (r: Result<(), VectorDbError>)
        requires
            old(self).wf(),
        ensures
            final(self).wf(),
            r is Ok,
            final(self)@ == old(self)@.after_changes(
                old(self)@.entries.filter(not_named(ids.deep_view())),
                ids@.len(),
            ),
    {
        let ghost names = ids.deep_view();
        let ghost before = self@.entries;
        let doomed = name_table(&ids);
        let mut taken: Vec<VectorEntry> = Vec::new();
        std::mem::swap(&mut taken, &mut self.vectors);
        let mut kept: Vec<VectorEntry> = Vec::new();
        proof {
            reveal(Seq::filter);
            assert(before.take(0).filter(not_named(names)) =~= entry_views(kept@));
        }
        for entry in it: taken
            invariant
                it.seq() == taken@,
                before == entry_views(taken@),
                names == ids.deep_view(),
                forall|k: Seq<char>| #[trigger] doomed@.contains_key(k) <==> names.contains(k),
                entry_views(kept@) == before.take(it.index() as int).filter(not_named(names)),
        {
            let ghost i = it.index();
            let ghost so_far = entry_views(kept@);
            proof {
                reveal(Seq::filter);
                assert(entry == taken@[i as int]);
                assert(before[i as int] == entry@);
                assert(before.take(i + 1).drop_last() == before.take(i as int));
                assert(before.take(i + 1).last() == entry@);
                assert(before.take(i + 1).filter(not_named(names)) == if !names.contains(
                    entry@.id,
                ) {
                    so_far.push(entry@)
                } else {
                    so_far
                });
            }
            if !doomed.contains_key(entry.id.as_str()) {
                kept.push(entry);
                assert(entry_views(kept@) =~= so_far.push(entry@));
            }
        }
        proof {
            assert(before.take(before.len() as int) == before);
            lemma_filter_keeps_wf(before, names, self@.config.dimension);
        }
        let mut positions: StringHashMap<usize> = StringHashMap::new();
        let mut i: usize = 0;
        while i < kept.len()
            invariant
                i <= kept@.len(),
                distinct_ids(entry_views(kept@)),
                forall|j: int|
                    0 <= j < i ==> positions@.contains_key((#[trigger] kept@[j]).id@)
                        && positions@[kept@[j].id@] == j,
                forall|k: Seq<char>| #[trigger]
                    positions@.contains_key(k) ==> positions@[k] < i && kept@[positions@[k] as int].id@
                        == k,
            decreases kept.len() - i,
        {
            let ghost known = positions@;
            proof {
                assert forall|j: int| 0 <= j < i implies (#[trigger] kept@[j]).id@ != kept@[i as int].id@ by {
                    assert(entry_views(kept@)[j].id != entry_views(kept@)[i as int].id);
                }
            }
            positions.insert(kept[i].id.clone(), i);
            proof {
                assert forall|j: int| 0 <= j < i + 1 implies positions@.contains_key(
                    (#[trigger] kept@[j]).id@,
                ) && positions@[kept@[j].id@] == j by {
                    if j < i {
                        assert(known.contains_key(kept@[j].id@));
                    }
                }
            }
            i += 1;
        }
        self.vectors = kept;
        self.positions = positions;
        self.note_changes(ids.len());
        Ok(())
    }

    /// Name, size and state of the collection, with an estimate of the
    /// memory it takes: `estimated_memory`, or the largest `usize` where
    /// that is above it.
    pub fn stats(&self) -> (r: CollectionStats)
        requires
            self.wf(),
        ensures
            r.name@ == self@.config.name,
            r.dimension == self@.config.dimension,
            r.count == self@.entries.len(),
            r.use_ivf == self@.config.use_ivf,
            match r.index_info {
                Some(info) => self@.index is Some && info.is_built == self@.index->0.is_built()
                    && info.n_clusters == self@.config.n_clusters && info.n_centroids
                    == self@.index->0.centroids.len() && info.needs_rebuild == self@.needs_rebuild,
                None => self@.index is None,
            },
            r.estimated_memory_bytes == saturated(
                estimated_memory(
                    self@.entries.len(),
                    self@.config.dimension,
                    match self@.index {
                        Some(index) => index.centroids.len(),
                        None => 0,
                    },
                ),
            ),
            r.last_query_time_ms == self@.last_query_time_ms,
            r.total_queries == self@.total_queries,
    {
        let index_info = match &self.ivf_index {
            Some(index) => Some(
                IndexInfo {
                    is_built: index.is_built(),
                    n_clusters: self.config.n_clusters,
                    n_centroids: index.centroids().len(),
                    needs_rebuild: self.needs_rebuild,
                },
            ),
            None => None,
        };
        let n_centroids = match &self.ivf_index {
            Some(index) => index.centroids().len(),
            None => 0,
        };
        let count = self.vectors.len();
        let dimension = self.config.dimension;
        let component_bytes = saturating_product(dimension, 4);
        let entry_bytes = component_bytes.saturating_add(64);
        let vectors_bytes = saturating_product(count, entry_bytes);
        let index_bytes = saturating_product(n_centroids, component_bytes);
        let estimated_memory_bytes = vectors_bytes.saturating_add(index_bytes);
        proof {
            lemma_estimate(count as nat, dimension as nat, n_centroids as nat);
        }
        CollectionStats {
            name: self.config.name.clone(),
            dimension,
            count,
            use_ivf: self.config.use_ivf,
            index_info,
            estimated_memory_bytes,
            last_query_time_ms: self.last_query_time_ms,
            total_queries: self.total_queries,
        }
    }

    /// The number of centroids that `rebuild_index` asks for, where it
    /// builds the index anew: the index is behind and there are vectors to
    /// build it on.
    pub fn rebuild_plan(&self) -> (r: Option<usize>)
        requires
            self.wf(),
        ensures
            match r {
                Some(k) => self@.rebuild_pending() && k == planned_clusters(
                    self@.config.n_clusters,
                    self@.entries.len(),
                ),
                None => !self@.rebuild_pending(),
            },
    {
        if !self.config.use_ivf || !self.needs_rebuild || self.vectors.len() == 0 {
            return None;
        }
        match &self.ivf_index {
            Some(index) => Some(index.planned_clusters(self.vectors.len())),
            None => None,
        }
    }

    /// Rebuilds the index on the stored vectors, where it is behind:
    /// otherwise nothing changes.
    ///
    /// `centroids` holds one centroid for each planned cluster and
    /// `distance_rows[i]` the distance from the `i`-th stored vector to
    /// each centroid. Each identifier goes to the list of its nearest
    /// centroid. Without stored vectors the index stays as it is and the
    /// arguments are not read. Afterwards the index is up to date and no
    /// change is counted. Arguments that do not fit the stored vectors are
    /// refused and nothing changes.
    pub fn rebuild_index(&mut self, centroids: Vec<Vec<u32>>, distance_rows: &Vec<Vec<u32>>) -> (r:
        Result<(), VectorDbError>)
        requires
            old(self).wf(),
        ensures
            final(self).wf(),
            !(old(self)@.config.use_ivf && old(self)@.needs_rebuild) ==> r is Ok && final(self)@
                == old(self)@,
            old(self)@.config.use_ivf && old(self)@.needs_rebuild && old(self)@.entries.len() == 0
                ==> r is Ok && final(self)@ == (CollectionView {
                needs_rebuild: false,
                modifications_count: 0,
                ..old(self)@
            }),
            old(self)@.rebuild_pending() && !build_input_fits(
                old(self)@.config.n_clusters,
                old(self)@.entries.len(),
                centroids.deep_view(),
                distance_rows.deep_view(),
            ) ==> final(self)@ == old(self)@ && (r matches Err(VectorDbError::InvalidConfig(m)) && m@
                == "centroids and distances do not fit the data"@),
            old(self)@.rebuild_pending() && build_input_fits(
                old(self)@.config.n_clusters,
                old(self)@.entries.len(),
                centroids.deep_view(),
                distance_rows.deep_view(),
            ) ==> r is Ok && final(self)@ == (CollectionView {
                index: Some(
                    IVFIndexView {
                        centroids: centroids.deep_view(),
                        inverted_lists: Seq::new(
                            centroids@.len(),
                            |c: int|
                                cluster_members(
                                    ids_of(old(self)@.entries),
                                    nearest_clusters(distance_rows.deep_view()),
                                    c,
                                ),
                        ),
                        ..old(self)@.index->0
                    },
                ),
                needs_rebuild: false,
                modifications_count: 0,
                ..old(self)@
            }),
    {
        if !self.config.use_ivf || !self.needs_rebuild {
            return Ok(());
        }
        let mut ids: Vec<String> = Vec::new();
        let mut i: usize = 0;
        while i < self.vectors.len()
            invariant
                i <= self.vectors.len(),
                ids.deep_view() == ids_of(self@.entries).take(i as int),
            decreases self.vectors.len() - i,
        {
            let ghost so_far = ids.deep_view();
            ids.push(self.vectors[i].id.clone());
            proof {
                assert(self@.entries[i as int] == self.vectors@[i as int]@);
                assert(ids.deep_view() =~= so_far.push(self.vectors@[i as int].id@));
                assert(ids.deep_view() =~= ids_of(self@.entries).take(i + 1));
            }
            i += 1;
        }
        assert(ids_of(self@.entries).take(self.vectors@.len() as int) == ids_of(self@.entries));
        let built = match &mut self.ivf_index {
            Some(index) => index.build(&ids, centroids, distance_rows),
            None => Ok(()),
        };
        match built {
            Ok(()) => {
                self.needs_rebuild = false;
                self.modifications_count = 0;
                Ok(())
            },
            Err(e) => Err(e),
        }
    }

    /// The first step of a query of `query_dimension` components. A query
    /// of another dimension is refused. Otherwise the index is to be
    /// rebuilt first where that is due, with as many centroids as are
    /// handed back: see `rebuild_due` and `rebuild_index`.
    pub fn prepare_query(&self, query_dimension: usize) -> (r: Result<Option<usize>, VectorDbError>)
        requires
            self.wf(),
        ensures
            query_dimension != self@.config.dimension ==> r == Err::<Option<usize>, VectorDbError>(
                VectorDbError::DimensionMismatch {
                    expected: self@.config.dimension as usize,
                    actual: query_dimension,
                },
            ),
            query_dimension == self@.config.dimension && self@.rebuild_due() ==> r == Ok::<
                Option<usize>,
                VectorDbError,
            >(
                Some(
                    planned_clusters(self@.config.n_clusters, self@.entries.len()) as usize,
                ),
            ),
            query_dimension == self@.config.dimension && !self@.rebuild_due() ==> r == Ok::<
                Option<usize>,
                VectorDbError,
            >(None),
    {
        if query_dimension != self.config.dimension {
            return Err(
                VectorDbError::DimensionMismatch {
                    expected: self.config.dimension,
                    actual: query_dimension,
                },
            );
        }
        if self.rebuild_due() {
            Ok(self.rebuild_plan())
        } else {
            Ok(None)
        }
    }

    /// The positions, among the stored vectors, of those that a query
    /// scores: see `CollectionView::candidates`. `centroid_distances`
    /// holds the distance from the query to each centroid; it is read
    /// only where queries go through the index.
    pub fn candidates(&self, centroid_distances: &Vec<u32>, where_filter: Option<&WhereFilter>) -> (r:
        Result<Vec<usize>, VectorDbError>)
        requires
            self.wf(),
        ensures
            self@.uses_index() && centroid_distances@.len() != self@.index->0.centroids.len() ==> (
            r matches Err(VectorDbError::InvalidConfig(m)) && m@
                == "one distance is needed for each centroid"@),
            !(self@.uses_index() && centroid_distances@.len() != self@.index->0.centroids.len())
                ==> (r matches Ok(found) && positions_view(found@) == self@.candidates(
                centroid_distances@,
                optional_filter(where_filter),
            ) && forall|t: int|
                0 <= t < found@.len() ==> (#[trigger] found@[t]) < self@.entries.len() && passes(
                    self@.entries[found@[t] as int],
                    optional_filter(where_filter),
                )),
    {
        let ghost entries = self@.entries;
        let ghost filter = optional_filter(where_filter);
        let mut found: Vec<usize> = Vec::new();
        let through_index = match &self.ivf_index {
            Some(index) => index.is_built(),
            None => false,
        };
        if through_index {
            let named = match &self.ivf_index {
                Some(index) => index.search_candidates(centroid_distances),
                None => Ok(Vec::new()),
            };
            let ids = match named {
                Ok(ids) => ids,
                Err(e) => {
                    return Err(e);
                },
            };
            let ghost names = ids.deep_view();
            let mut i: usize = 0;
            assert(names.take(0) == Seq::<Seq<char>>::empty());
            while i < ids.len()
                invariant
                    i <= ids@.len(),
                    self.wf(),
                    entries == self@.entries,
                    filter == optional_filter(where_filter),
                    names == ids.deep_view(),
                    positions_view(found@) == named_candidates(entries, names.take(i as int), filter),
                    forall|t: int|
                        0 <= t < found@.len() ==> (#[trigger] found@[t]) < entries.len() && passes(
                            entries[found@[t] as int],
                            filter,
                        ),
                decreases ids.len() - i,
            {
                let ghost so_far = positions_view(found@);
                proof {
                    assert(names.take(i + 1).drop_last() == names.take(i as int));
                    assert(names.take(i + 1).last() == ids@[i as int]@);
                }
                if let Some(p) = self.find(&ids[i]) {
                    assert(entries[p as int] == self.vectors@[p as int]@);
                    if entry_passes(&self.vectors[p], where_filter) {
                        found.push(p);
                        assert(positions_view(found@) =~= so_far.push(p as int));
                    }
                }
                i += 1;
            }
            assert(names.take(ids@.len() as int) == names);
        } else {
            let mut p: usize = 0;
            assert(entries.take(0) == Seq::<VectorEntryView>::empty());
            while p < self.vectors.len()
                invariant
                    p <= self.vectors.len(),
                    entries == self@.entries,
                    filter == optional_filter(where_filter),
                    positions_view(found@) == linear_candidates(entries.take(p as int), filter),
                    forall|t: int|
                        0 <= t < found@.len() ==> (#[trigger] found@[t]) < entries.len() && passes(
                            entries[found@[t] as int],
                            filter,
                        ),
                decreases self.vectors.len() - p,
            {
                let ghost so_far = positions_view(found@);
                proof {
                    assert(entries.take(p + 1).drop_last() == entries.take(p as int));
                    assert(entries.take(p + 1).last() == self.vectors@[p as int]@);
                    assert(entries[p as int] == self.vectors@[p as int]@);
                }
                if entry_passes(&self.vectors[p], where_filter) {
                    found.push(p);
                    assert(positions_view(found@) =~= so_far.push(p as int));
                }
                p += 1;
            }
            assert(entries.take(entries.len() as int) == entries);
        }
        Ok(found)
    }

    /// Answers a query: the `n_results` closest of the candidates, closest
    /// first, each with its distance and metadata. Equally distant
    /// candidates keep the order in which the query met them.
    ///
    /// `query_dimension` is the number of components of the query,
    /// `distances[i]` its distance to the `i`-th stored vector, and
    /// `centroid_distances` its distance to each centroid, where queries
    /// go through the index. Only the candidates' distances are read. The
    /// query is counted and `elapsed_ms` is kept as the time it took.
    ///
    /// A query of another dimension is refused, and so are distances that
    /// do not fit; nothing changes then. The index is not rebuilt here:
    /// see `rebuild_due`.
    pub fn query(
        &mut self,
        query_dimension: usize,
        centroid_distances: &Vec<u32>,
        distances: &Vec<u32>,
        n_results: usize,
        where_filter: Option<&WhereFilter>,
        elapsed_ms: u64,
    ) -> (r: Result<Vec<SearchResult>, VectorDbError>)
        requires
            old(self).wf(),
        ensures
            final(self).wf(),
            query_dimension != old(self)@.config.dimension ==> final(self)@ == old(self)@ && r
                == Err::<Vec<SearchResult>, VectorDbError>(
                VectorDbError::DimensionMismatch {
                    expected: old(self)@.config.dimension as usize,
                    actual: query_dimension,
                },
            ),
            query_dimension == old(self)@.config.dimension && !old(self)@.query_input_fits(
                centroid_distances@,
                distances@,
            ) ==> final(self)@ == old(self)@ && (r matches Err(VectorDbError::InvalidConfig(m)) && m@
                == (if distances@.len() != old(self)@.entries.len() {
                "one distance is needed for each stored vector"@
            } else {
                "one distance is needed for each centroid"@
            })),
            query_dimension == old(self)@.config.dimension && old(self)@.query_input_fits(
                centroid_distances@,
                distances@,
            ) ==> (r matches Ok(results) && result_views(results@) == hits(
                old(self)@.entries,
                distances@,
                first_k(
                    ranked(
                        old(self)@.candidates(centroid_distances@, optional_filter(where_filter)),
                        distances@,
                    ),
                    n_results as nat,
                ),
            )) && final(self)@ == (CollectionView {
                last_query_time_ms: elapsed_ms,
                total_queries: saturated(old(self)@.total_queries + 1),
                ..old(self)@
            }),
    {
        if query_dimension != self.config.dimension {
            return Err(
                VectorDbError::DimensionMismatch {
                    expected: self.config.dimension,
                    actual: query_dimension,
                },
            );
        }
        if distances.len() != self.vectors.len() {
            return Err(
                VectorDbError::invalid_config("one distance is needed for each stored vector"),
            );
        }
        let found = match self.candidates(centroid_distances, where_filter) {
            Ok(found) => found,
            Err(e) => {
                return Err(e);
            },
        };
        let ghost entries = self@.entries;
        let ghost filter = optional_filter(where_filter);
        let ghost chosen = self@.candidates(centroid_distances@, filter);
        let mut found_distances: Vec<u32> = Vec::new();
        let mut t: usize = 0;
        while t < found.len()
            invariant
                t <= found@.len(),
                distances@.len() == entries.len(),
                forall|u: int| 0 <= u < found@.len() ==> (#[trigger] found@[u]) < entries.len(),
                found_distances@.len() == t,
                forall|u: int|
                    0 <= u < t ==> (#[trigger] found_distances@[u]) == distances@[found@[u] as int],
            decreases found.len() - t,
        {
            found_distances.push(distances[found[t]]);
            t += 1;
        }
        assert(found_distances@ =~= candidate_distances(distances@, chosen)) by {
            assert forall|u: int| 0 <= u < found@.len() implies found_distances@[u]
                == candidate_distances(distances@, chosen)[u] by {
                assert(chosen[u] == positions_view(found@)[u]);
            }
        }
        let order = order_by_distance(&found_distances);
        let ghost in_order = ranked(chosen, distances@);
        let limit = if n_results < order.len() {
            n_results
        } else {
            order.len()
        };
        let ghost best = first_k(in_order, n_results as nat);
        let ghost wanted = hits(entries, distances@, best);
        assert(best.len() == limit);
        let mut results: Vec<SearchResult> = Vec::new();
        let mut t: usize = 0;
        while t < limit
            invariant
                t <= limit <= order@.len(),
                self.wf(),
                entries == self@.entries,
                filter == optional_filter(where_filter),
                distances@.len() == entries.len(),
                order@.len() == found@.len(),
                chosen == positions_view(found@),
                order@ == closest_first(candidate_distances(distances@, chosen)),
                in_order == ranked(chosen, distances@),
                best == first_k(in_order, n_results as nat),
                best.len() == limit,
                wanted == hits(entries, distances@, best),
                forall|u: int| 0 <= u < order@.len() ==> (#[trigger] order@[u]) < found@.len(),
                forall|u: int|
                    0 <= u < found@.len() ==> (#[trigger] found@[u]) < entries.len() && passes(
                        entries[found@[u] as int],
                        filter,
                    ),
                result_views(results@) == wanted.take(t as int),
            decreases limit - t,
        {
            let position = found[order[t]];
            let entry = &self.vectors[position];
            proof {
                assert(chosen[order@[t as int] as int] == position);
                assert(in_order[t as int] == position);
                assert(best[t as int] == position);
                assert(entries[position as int] == entry@);
            }
            let ghost so_far = result_views(results@);
            if entry_passes(entry, where_filter) {
                let hit = SearchResult {
                    id: entry.id.clone(),
                    distance: distances[position],
                    metadata: entry.metadata.clone(),
                };
                assert(hit@ == wanted[t as int]);
                results.push(hit);
                assert(result_views(results@) =~= so_far.push(hit@));
            }
            assert(result_views(results@) =~= wanted.take(t + 1));
            t += 1;
        }
        assert(wanted.take(limit as int) == wanted);
        self.last_query_time_ms = elapsed_ms;
        self.total_queries = self.total_queries.saturating_add(1);
        Ok(results)
    }
}

/// Positions as integers.
pub open spec fn positions_view(positions: Seq<usize>) -> Seq<int> {
    positions.map_values(|p: usize| p as int)
}

/// Whether `entry` passes the filter of a query.
fn entry_passes(entry: &VectorEntry, where_filter: Option<&WhereFilter>) -> (r: bool)
    ensures
        r == passes(entry@, optional_filter(where_filter)),
{
    match where_filter {
        Some(f) => matches_filter(&entry.metadata, f),
        None => true,
    }
}

/// The product of `a` and `b`, or the largest `usize` where the product
/// is above it.
fn saturating_product(a: usize, b: usize) -> (r: usize)
    ensures
        r == saturated(a as nat * b as nat),
{
    match a.checked_mul(b) {
        Some(product) => product,
        None => usize::MAX,
    }
}

/// Saturating each step of the estimate gives the saturated estimate.
proof fn lemma_estimate(count: nat, dimension: nat, n_centroids: nat)
    ensures
        saturated(
            saturated(count * saturated(saturated(dimension * 4) + 64)) + saturated(
                n_centroids * saturated(dimension * 4),
            ),
        ) == saturated(estimated_memory(count, dimension, n_centroids)),
{
    let max = usize::MAX as nat;
    let component = dimension * 4;
    let entry = component + 64;
    assert(saturated(saturated(component) + 64) == saturated(entry));
    assert(saturated(count * saturated(entry)) == saturated(count * entry)) by (nonlinear_arith)
        requires
            max == usize::MAX as nat,
    {
        if entry > usize::MAX && count >= 1 {
            assert(count * entry >= entry);
            assert(count * (usize::MAX as nat) >= usize::MAX as nat);
        }
        if count == 0 {
            assert(count * entry == 0);
        }
    }
    assert(saturated(n_centroids * saturated(component)) == saturated(n_centroids * component))
        by (nonlinear_arith)
        requires
            max == usize::MAX as nat,
    {
        if component > usize::MAX && n_centroids >= 1 {
            assert(n_centroids * component >= component);
            assert(n_centroids * (usize::MAX as nat) >= usize::MAX as nat);
        }
        if n_centroids == 0 {
            assert(n_centroids * component == 0);
        }
    }
    assert(n_centroids * dimension * 4 == n_centroids * component) by (nonlinear_arith)
        requires
            component == dimension * 4,
    ;
    assert(count * entry >= 0 && n_centroids * component >= 0) by (nonlinear_arith);
}

/// A table that holds exactly the given names.
fn name_table(names: &Vec<String>) -> (r: StringHashMap<usize>)
    ensures
        forall|k: Seq<char>| #[trigger] r@.contains_key(k) <==> names.deep_view().contains(k),
{
    let mut table: StringHashMap<usize> = StringHashMap::new();
    let mut i: usize = 0;
    while i < names.len()
        invariant
            i <= names@.len(),
            forall|k: Seq<char>| #[trigger]
                table@.contains_key(k) <==> names.deep_view().take(i as int).contains(k),
        decreases names.len() - i,
    {
        let ghost before = table@;
        table.insert(names[i].clone(), i);
        proof {
            let so_far = names.deep_view().take(i as int);
            let next = names.deep_view().take(i + 1);
            assert(next =~= so_far.push(names@[i as int]@));
            assert forall|k: Seq<char>| #[trigger] table@.contains_key(k) <==> next.contains(k) by {
                if next.contains(k) {
                    let j = choose|j: int| 0 <= j < next.len() && next[j] == k;
                    if j < i {
                        assert(so_far[j] == k);
                    }
                }
                if before.contains_key(k) {
                    let j = choose|j: int| 0 <= j < so_far.len() && so_far[j] == k;
                    assert(next[j] == k);
                }
                if k == names@[i as int]@ {
                    assert(next[i as int] == k);
                }
            }
        }
        i += 1;
    }
    assert(names.deep_view().take(names@.len() as int) == names.deep_view());
    table
}

/// Whether `what` is among `names`.
fn names_contain(names: &Vec<String>, what: &str) -> (r: bool)
    ensures
        r == names.deep_view().contains(what@),
{
    let wanted = what.to_owned();
    names_hold(names, &wanted)
}

/// Whether `what` is among `names`.
fn names_hold(names: &Vec<String>, what: &String) -> (r: bool)
    ensures
        r == names.deep_view().contains(what@),
{
    let mut i: usize = 0;
    while i < names.len()
        invariant
            i <= names@.len(),
            forall|j: int| 0 <= j < i ==> (#[trigger] names.deep_view()[j]) != what@,
        decreases names.len() - i,
    {
        if names[i] == *what {
            assert(names.deep_view()[i as int] == what@);
            return true;
        }
        assert(names.deep_view()[i as int] == names@[i as int]@);
        i += 1;
    }
    false
}

/// Removing entries leaves the identifiers distinct and the dimensions
/// as they are.
proof fn lemma_filter_keeps_wf(entries: Seq<VectorEntryView>, names: Seq<Seq<char>>, dimension: nat)
    requires
        distinct_ids(entries),
        forall|i: int| 0 <= i < entries.len() ==> (#[trigger] entries[i]).embedding.len() == dimension,
    ensures
        distinct_ids(entries.filter(not_named(names))),
        forall|i: int|
            0 <= i < entries.filter(not_named(names)).len() ==> (#[trigger] entries.filter(
                not_named(names),
            )[i]).embedding.len() == dimension,
        forall|i: int|
            0 <= i < entries.filter(not_named(names)).len() ==> holds_id(
                entries,
                (#[trigger] entries.filter(not_named(names))[i]).id,
            ),
    decreases entries.len(),
{
    reveal(Seq::filter);
    if entries.len() > 0 {
        let front = entries.drop_last();
        assert(distinct_ids(front)) by {
            assert forall|a: int, b: int|
                0 <= a < front.len() && 0 <= b < front.len() && a != b implies (
            #[trigger] front[a]).id != (#[trigger] front[b]).id by {
                assert(entries[a].id != entries[b].id);
            }
        }
        assert forall|i: int| 0 <= i < front.len() implies (#[trigger] front[i]).embedding.len()
            == dimension by {
            assert(front[i] == entries[i]);
        }
        lemma_filter_keeps_wf(front, names, dimension);
        let kept_front = front.filter(not_named(names));
        let kept = entries.filter(not_named(names));
        assert forall|i: int| 0 <= i < kept.len() implies holds_id(entries, (#[trigger] kept[i]).id) by {
            if i < kept_front.len() {
                assert(kept[i] == kept_front[i]);
                let q = position_of_id(front, kept_front[i].id);
                assert(entries[q].id == kept[i].id);
            } else {
                assert(kept[i] == entries.last());
                assert(entries[entries.len() - 1].id == kept[i].id);
            }
        }
        assert(distinct_ids(kept)) by {
            assert forall|a: int, b: int|
                0 <= a < kept.len() && 0 <= b < kept.len() && a != b implies (#[trigger] kept[a]).id
                != (#[trigger] kept[b]).id by {
                if a < kept_front.len() && b < kept_front.len() {
                    assert(kept_front[a].id != kept_front[b].id);
                } else if a < kept_front.len() {
                    let q = position_of_id(front, kept_front[a].id);
                    assert(entries[q].id != entries[entries.len() - 1].id);
                } else {
                    let q = position_of_id(front, kept_front[b].id);
                    assert(entries[q].id != entries[entries.len() - 1].id);
                }
            }
        }
    }
}

} // verus!
