use crate::error::VectorDbError;
use crate::ranking::{closest_first, distance_rank, order_by_distance, rank_of};
use vstd::prelude::*;

verus! {

/// The number of clusters probed by an index that was not told otherwise.
pub const DEFAULT_N_PROBE: usize = 4;

/// An inverted-file index as plain values.
pub struct IVFIndexView {
    /// The centroids, each a sequence of single-precision bit patterns.
    pub centroids: Seq<Seq<u32>>,
    /// For each cluster the identifiers assigned to it.
    pub inverted_lists: Seq<Seq<Seq<char>>>,
    /// The number of clusters asked for.
    pub n_clusters: nat,
    /// The number of clusters that a search probes.
    pub n_probe: nat,
}

impl IVFIndexView {
    /// An index that was never built holds no centroid and one empty list
    /// for each cluster asked for; a built one holds as many lists as
    /// centroids.
    pub open spec fn wf(self) -> bool {
        &&& self.n_probe >= 1
        &&& if self.centroids.len() == 0 {
            &&& self.inverted_lists.len() == self.n_clusters
            &&& forall|c: int| 0 <= c < self.inverted_lists.len() ==> (#[trigger] self.inverted_lists[c]).len() == 0
        } else {
            self.inverted_lists.len() == self.centroids.len()
        }
    }

    /// Whether the index holds centroids.
    pub open spec fn is_built(self) -> bool {
        self.centroids.len() > 0
    }
}

/// The number of clusters that an index asked for `n_clusters` builds on
/// `n` vectors: `n_clusters`, but at most one for every ten vectors, and
/// at least one.
pub open spec fn planned_clusters(n_clusters: nat, n: nat) -> nat {
    let capped = if n_clusters <= n / 10 {
        n_clusters
    } else {
        n / 10
    };
    if capped >= 1 {
        capped
    } else {
        1
    }
}

/// `n_probe` brought into the range from 1 to `n_clusters`; 1 where that
/// range is empty.
pub open spec fn clamped_probe(n_probe: nat, n_clusters: nat) -> nat {
    let capped = if n_probe <= n_clusters {
        n_probe
    } else {
        n_clusters
    };
    if capped >= 1 {
        capped
    } else {
        1
    }
}

/// The position of the smallest distance, the first one among equals; 0
/// for no distances.
pub open spec fn nearest_position(distances: Seq<u32>) -> int
    decreases distances.len(),
{
    if distances.len() <= 1 {
        0
    } else {
        let best = nearest_position(distances.drop_last());
        if distance_rank(distances.last()) < distance_rank(distances[best]) {
            distances.len() - 1
        } else {
            best
        }
    }
}

/// `nearest_position` names a position that no distance undercuts and that
/// no earlier position equals.
pub proof fn lemma_nearest_position(distances: Seq<u32>)
    requires
        distances.len() > 0,
    ensures
        0 <= nearest_position(distances) < distances.len(),
        forall|j: int|
            0 <= j < distances.len() ==> distance_rank(distances[nearest_position(distances)])
                <= distance_rank(#[trigger] distances[j]),
        forall|j: int|
            0 <= j < nearest_position(distances) ==> distance_rank(
                distances[nearest_position(distances)],
            ) < distance_rank(#[trigger] distances[j]),
    decreases distances.len(),
{
    if distances.len() > 1 {
        let front = distances.drop_last();
        lemma_nearest_position(front);
        let best = nearest_position(front);
        assert(front[best] == distances[best]);
        assert forall|j: int| 0 <= j < distances.len() implies distance_rank(
            distances[nearest_position(distances)],
        ) <= distance_rank(#[trigger] distances[j]) by {
            if j < front.len() {
                assert(front[j] == distances[j]);
            }
        }
        assert forall|j: int| 0 <= j < nearest_position(distances) implies distance_rank(
            distances[nearest_position(distances)],
        ) < distance_rank(#[trigger] distances[j]) by {
            assert(front[j] == distances[j]);
        }
    }
}

/// The position of the smallest distance, the first one among equals; 0
/// for no distances.
pub fn nearest(distances: &Vec<u32>) -> (r: usize)
    ensures
        r == nearest_position(distances@),
        distances@.len() > 0 ==> r < distances@.len(),
{
    if distances.len() == 0 {
        return 0;
    }
    let mut best: usize = 0;
    let mut best_rank = rank_of(distances[0]);
    let mut i: usize = 1;
    proof {
        assert(distances@.subrange(0, 1).len() == 1);
    }
    while i < distances.len()
        invariant
            1 <= i <= distances.len(),
            best < i,
            best == nearest_position(distances@.subrange(0, i as int)),
            best_rank == distance_rank(distances@[best as int]),
        decreases distances.len() - i,
    {
        let rank = rank_of(distances[i]);
        proof {
            let next = distances@.subrange(0, i + 1);
            assert(next.drop_last() == distances@.subrange(0, i as int));
            assert(next.last() == distances@[i as int]);
            assert(next[best as int] == distances@[best as int]);
        }
        if rank < best_rank {
            best = i;
            best_rank = rank;
        }
        i += 1;
    }
    proof {
        assert(distances@.subrange(0, distances@.len() as int) == distances@);
    }
    best
}

/// The identifiers whose cluster is `c`, in their order in `ids`.
pub open spec fn cluster_members(ids: Seq<Seq<char>>, clusters: Seq<int>, c: int) -> Seq<Seq<char>>
    decreases ids.len(),
{
    if ids.len() == 0 || clusters.len() != ids.len() {
        Seq::empty()
    } else {
        let rest = cluster_members(ids.drop_last(), clusters.drop_last(), c);
        if clusters.last() == c {
            rest.push(ids.last())
        } else {
            rest
        }
    }
}

/// Each row's nearest position.
pub open spec fn nearest_clusters(rows: Seq<Seq<u32>>) -> Seq<int> {
    Seq::new(rows.len(), |i: int| nearest_position(rows[i]))
}

/// The lists of the clusters named by `order`, one after the other.
pub open spec fn concat_lists(lists: Seq<Seq<Seq<char>>>, order: Seq<usize>) -> Seq<Seq<char>>
    decreases order.len(),
{
    if order.len() == 0 {
        Seq::empty()
    } else {
        concat_lists(lists, order.drop_last()) + lists[order.last() as int]
    }
}

/// The clusters that a search probes, closest first.
pub open spec fn probed_clusters(index: IVFIndexView, centroid_distances: Seq<u32>) -> Seq<usize> {
    let order = closest_first(centroid_distances);
    if index.n_probe < order.len() {
        order.take(index.n_probe as int)
    } else {
        order
    }
}

/// The lists named by `order` hold every identifier of each of them.
pub proof fn lemma_concat_lists_contains(
    lists: Seq<Seq<Seq<char>>>,
    order: Seq<usize>,
    i: int,
    t: int,
)
    requires
        0 <= i < order.len(),
        order[i] < lists.len(),
        0 <= t < lists[order[i] as int].len(),
    ensures
        concat_lists(lists, order).contains(lists[order[i] as int][t]),
    decreases order.len(),
{
    let front = concat_lists(lists, order.drop_last());
    let whole = concat_lists(lists, order);
    let id = lists[order[i] as int][t];
    if i == order.len() - 1 {
        assert(whole[front.len() + t] == id);
    } else {
        assert(order.drop_last()[i] == order[i]);
        lemma_concat_lists_contains(lists, order.drop_last(), i, t);
        let q = choose|q: int| 0 <= q < front.len() && front[q] == id;
        assert(whole[q] == id);
    }
}

/// An index that probes every cluster offers every identifier that it
/// holds, whatever the query.
pub proof fn lemma_full_probe(index: IVFIndexView, centroid_distances: Seq<u32>, c: int, t: int)
    requires
        index.wf(),
        index.is_built(),
        centroid_distances.len() == index.centroids.len(),
        centroid_distances.len() <= usize::MAX,
        index.n_probe >= index.centroids.len(),
        0 <= c < index.inverted_lists.len(),
        0 <= t < index.inverted_lists[c].len(),
    ensures
        concat_lists(index.inverted_lists, probed_clusters(index, centroid_distances)).contains(
            index.inverted_lists[c][t],
        ),
{
    crate::ranking::lemma_closest_first(centroid_distances);
    let order = closest_first(centroid_distances);
    assert(probed_clusters(index, centroid_distances) == order);
    assert(order.contains(c as usize));
    let i = choose|i: int| 0 <= i < order.len() && order[i] == c as usize;
    lemma_concat_lists_contains(index.inverted_lists, order, i, t);
}

/// Every identifier is among the members of its cluster.
pub proof fn lemma_members_cover(ids: Seq<Seq<char>>, clusters: Seq<int>, i: int)
    requires
        clusters.len() == ids.len(),
        0 <= i < ids.len(),
    ensures
        cluster_members(ids, clusters, clusters[i]).contains(ids[i]),
    decreases ids.len(),
{
    let rest = cluster_members(ids.drop_last(), clusters.drop_last(), clusters[i]);
    let whole = cluster_members(ids, clusters, clusters[i]);
    if i == ids.len() - 1 {
        assert(whole == rest.push(ids.last()));
        assert(whole[rest.len() as int] == ids[i]);
    } else {
        assert(ids.drop_last()[i] == ids[i]);
        assert(clusters.drop_last()[i] == clusters[i]);
        lemma_members_cover(ids.drop_last(), clusters.drop_last(), i);
        let q = choose|q: int| 0 <= q < rest.len() && rest[q] == ids[i];
        assert(whole[q] == ids[i]);
    }
}

/// The members of a cluster are identifiers of that cluster.
pub proof fn lemma_members_origin(ids: Seq<Seq<char>>, clusters: Seq<int>, c: int, t: int)
    requires
        clusters.len() == ids.len(),
        0 <= t < cluster_members(ids, clusters, c).len(),
    ensures
        exists|i: int|
            0 <= i < ids.len() && clusters[i] == c && #[trigger] ids[i] == cluster_members(
                ids,
                clusters,
                c,
            )[t],
    decreases ids.len(),
{
    let rest = cluster_members(ids.drop_last(), clusters.drop_last(), c);
    if ids.len() > 0 {
        if clusters.last() == c && t == rest.len() {
            assert(ids[ids.len() - 1] == cluster_members(ids, clusters, c)[t]);
        } else {
            lemma_members_origin(ids.drop_last(), clusters.drop_last(), c, t);
            let i = choose|i: int|
                0 <= i < ids.drop_last().len() && clusters.drop_last()[i] == c
                    && #[trigger] ids.drop_last()[i] == rest[t];
            assert(ids[i] == cluster_members(ids, clusters, c)[t]);
        }
    }
}

/// Distinct identifiers stand in one list each: an identifier is no
/// member of a cluster other than its own.
pub proof fn lemma_members_once(ids: Seq<Seq<char>>, clusters: Seq<int>, i: int, c: int)
    requires
        ids.no_duplicates(),
        clusters.len() == ids.len(),
        0 <= i < ids.len(),
        c != clusters[i],
    ensures
        !cluster_members(ids, clusters, c).contains(ids[i]),
{
    let members = cluster_members(ids, clusters, c);
    if members.contains(ids[i]) {
        let t = choose|t: int| 0 <= t < members.len() && members[t] == ids[i];
        lemma_members_origin(ids, clusters, c, t);
        let j = choose|j: int| 0 <= j < ids.len() && clusters[j] == c && #[trigger] ids[j] == members[t];
        assert(ids[j] == ids[i] && j != i);
    }
}

/// No identifier stands twice in the lists, neither in one list nor in
/// two.
pub open spec fn lists_disjoint(lists: Seq<Seq<Seq<char>>>) -> bool {
    forall|a: int, s: int, b: int, t: int|
        0 <= a < lists.len() && 0 <= s < lists[a].len() && 0 <= b < lists.len() && 0 <= t
            < lists[b].len() && (a != b || s != t) ==> #[trigger] lists[a][s] != #[trigger] lists[b][t]
}

/// Distinct identifiers stand once in the list of their cluster.
pub proof fn lemma_members_distinct(ids: Seq<Seq<char>>, clusters: Seq<int>, c: int)
    requires
        ids.no_duplicates(),
        clusters.len() == ids.len(),
    ensures
        cluster_members(ids, clusters, c).no_duplicates(),
    decreases ids.len(),
{
    if ids.len() > 0 {
        let front = ids.drop_last();
        let rest = cluster_members(front, clusters.drop_last(), c);
        lemma_members_distinct(front, clusters.drop_last(), c);
        if clusters.last() == c {
            assert forall|t: int| 0 <= t < rest.len() implies rest[t] != ids.last() by {
                lemma_members_origin(front, clusters.drop_last(), c, t);
                let i = choose|i: int|
                    0 <= i < front.len() && clusters.drop_last()[i] == c && #[trigger] front[i]
                        == rest[t];
                assert(ids[i] == front[i]);
                assert(ids[i] != ids[ids.len() - 1]);
            }
        }
    }
}

/// The lists that `build` makes of distinct identifiers hold each of them
/// once: in the list of its nearest centroid and in no other.
pub proof fn lemma_built_lists_disjoint(ids: Seq<Seq<char>>, clusters: Seq<int>, k: nat)
    requires
        ids.no_duplicates(),
        clusters.len() == ids.len(),
    ensures
        lists_disjoint(Seq::new(k, |c: int| cluster_members(ids, clusters, c))),
{
    let lists = Seq::new(k, |c: int| cluster_members(ids, clusters, c));
    assert forall|a: int, s: int, b: int, t: int|
        0 <= a < lists.len() && 0 <= s < lists[a].len() && 0 <= b < lists.len() && 0 <= t
            < lists[b].len() && (a != b || s != t) implies #[trigger] lists[a][s]
        != #[trigger] lists[b][t] by {
        if a == b {
            lemma_members_distinct(ids, clusters, a);
        } else {
            lemma_members_origin(ids, clusters, a, s);
            let i = choose|i: int|
                0 <= i < ids.len() && clusters[i] == a && #[trigger] ids[i] == cluster_members(
                    ids,
                    clusters,
                    a,
                )[s];
            lemma_members_once(ids, clusters, i, b);
            if lists[a][s] == lists[b][t] {
                assert(cluster_members(ids, clusters, b)[t] == ids[i]);
            }
        }
    }
}

/// Whether `id` stands in one of the lists named by `order`.
pub open spec fn listed(lists: Seq<Seq<Seq<char>>>, order: Seq<usize>, id: Seq<char>) -> bool {
    exists|i: int, t: int|
        0 <= i < order.len() && 0 <= t < lists[order[i] as int].len() && id
            == #[trigger] lists[order[i] as int][t]
}

/// Lists that share no identifier, read in an order that names no list
/// twice, give no identifier twice; and whatever they give stands in one
/// of the lists read.
pub proof fn lemma_concat_lists_distinct(lists: Seq<Seq<Seq<char>>>, order: Seq<usize>)
    requires
        lists_disjoint(lists),
        order.no_duplicates(),
        forall|i: int| 0 <= i < order.len() ==> (#[trigger] order[i]) < lists.len(),
    ensures
        concat_lists(lists, order).no_duplicates(),
        forall|q: int|
            0 <= q < concat_lists(lists, order).len() ==> listed(
                lists,
                order,
                #[trigger] concat_lists(lists, order)[q],
            ),
    decreases order.len(),
{
    if order.len() > 0 {
        let before = order.drop_last();
        let front = concat_lists(lists, before);
        let last = lists[order.last() as int];
        let whole = concat_lists(lists, order);
        assert(before.no_duplicates());
        lemma_concat_lists_distinct(lists, before);
        assert forall|q: int| 0 <= q < whole.len() implies listed(lists, order, #[trigger] whole[q]) by {
            if q < front.len() {
                assert(listed(lists, before, front[q]));
                let (i, t) = choose|i: int, t: int|
                    0 <= i < before.len() && 0 <= t < lists[before[i] as int].len() && front[q]
                        == #[trigger] lists[before[i] as int][t];
                assert(order[i] == before[i]);
                assert(whole[q] == lists[order[i] as int][t]);
            } else {
                let i = order.len() - 1;
                let t = q - front.len();
                assert(whole[q] == lists[order[i] as int][t]);
            }
        }
        assert forall|p: int, q: int| 0 <= p < q < whole.len() implies whole[p] != whole[q] by {
            if q < front.len() {
                assert(front[p] != front[q]);
            } else if p >= front.len() {
                assert(whole[p] == last[p - front.len()]);
                assert(whole[q] == last[q - front.len()]);
            } else {
                assert(listed(lists, before, front[p]));
                let (i, t) = choose|i: int, t: int|
                    0 <= i < before.len() && 0 <= t < lists[before[i] as int].len() && front[p]
                        == #[trigger] lists[before[i] as int][t];
                assert(order[i] == before[i]);
                assert(order[i] != order[order.len() - 1]);
                assert(whole[q] == lists[order.last() as int][q - front.len()]);
            }
        }
    }
}

/// An index that probes every cluster, and whose lists share no
/// identifier, offers each identifier that it holds once.
pub proof fn lemma_full_probe_once(index: IVFIndexView, centroid_distances: Seq<u32>)
    requires
        index.wf(),
        index.is_built(),
        centroid_distances.len() == index.centroids.len(),
        centroid_distances.len() <= usize::MAX,
        index.n_probe >= index.centroids.len(),
        lists_disjoint(index.inverted_lists),
    ensures
        concat_lists(index.inverted_lists, probed_clusters(index, centroid_distances)).no_duplicates(),
        forall|c: int, t: int|
            0 <= c < index.inverted_lists.len() && 0 <= t < index.inverted_lists[c].len()
                ==> concat_lists(
                index.inverted_lists,
                probed_clusters(index, centroid_distances),
            ).contains(#[trigger] index.inverted_lists[c][t]),
{
    crate::ranking::lemma_closest_first(centroid_distances);
    let order = closest_first(centroid_distances);
    assert(probed_clusters(index, centroid_distances) == order);
    lemma_concat_lists_distinct(index.inverted_lists, order);
    assert forall|c: int, t: int|
        0 <= c < index.inverted_lists.len() && 0 <= t < index.inverted_lists[c].len() implies concat_lists(
        index.inverted_lists,
        order,
    ).contains(#[trigger] index.inverted_lists[c][t]) by {
        lemma_full_probe(index, centroid_distances, c, t);
    }
}

/// What `build` accepts for `n` identifiers: one centroid for each planned
/// cluster, and for each identifier a row with its distance to each
/// centroid.
pub open spec fn build_input_fits(
    n_clusters: nat,
    n: nat,
    centroids: Seq<Seq<u32>>,
    rows: Seq<Seq<u32>>,
) -> bool {
    &&& centroids.len() == planned_clusters(n_clusters, n)
    &&& rows.len() == n
    &&& forall|i: int| 0 <= i < rows.len() ==> (#[trigger] rows[i]).len() == centroids.len()
}

/// An inverted-file index: centroids, and for each centroid the
/// identifiers of the vectors nearest to it.
#[derive(Debug)]
pub struct IVFIndex {
    centroids: Vec<Vec<u32>>,
    inverted_lists: Vec<Vec<String>>,
    n_clusters: usize,
    n_probe: usize,
}

impl View for IVFIndex {
    type V = IVFIndexView;

    closed spec fn view(&self) -> IVFIndexView {
        IVFIndexView {
            centroids: self.centroids.deep_view(),
            inverted_lists: self.inverted_lists.deep_view(),
            n_clusters: self.n_clusters as nat,
            n_probe: self.n_probe as nat,
        }
    }
}

impl IVFIndex {
    /// Well-formedness: see `IVFIndexView::wf`.
    pub open spec fn wf(&self) -> bool {
        self@.wf()
    }

    /// An index that is not built yet, for `n_clusters` clusters.
    pub fn new(n_clusters: usize) -> (r: IVFIndex)
        ensures
            r.wf(),
            r@.centroids.len() == 0,
            r@.inverted_lists == Seq::new(n_clusters as nat, |c: int| Seq::<Seq<char>>::empty()),
            r@.n_clusters == n_clusters,
            r@.n_probe == DEFAULT_N_PROBE,
    {
        let inverted_lists = empty_lists(n_clusters);
        let r = IVFIndex {
            centroids: Vec::new(),
            inverted_lists,
            n_clusters,
            n_probe: DEFAULT_N_PROBE,
        };
        proof {
            assert(r@.centroids =~= Seq::<Seq<u32>>::empty());
            assert(r@.inverted_lists =~= Seq::new(
                n_clusters as nat,
                |c: int| Seq::<Seq<char>>::empty(),
            ));
        }
        r
    }

    /// The same index probing `n_probe` clusters, brought into the range
    /// from 1 to the number of clusters asked for.
    pub fn with_n_probe(self, n_probe: usize) -> (r: IVFIndex)
        requires
            self.wf(),
        ensures
            r.wf(),
            r@ == (IVFIndexView { n_probe: clamped_probe(n_probe as nat, self@.n_clusters), ..self@ }),
    {
        let mut r = self;
        let capped = if n_probe <= r.n_clusters {
            n_probe
        } else {
            r.n_clusters
        };
        r.n_probe = if capped >= 1 {
            capped
        } else {
            1
        };
        r
    }

    /// Whether the index holds centroids.
    pub fn is_built(&self) -> (r: bool)
        ensures
            r == self@.is_built(),
    {
        self.centroids.len() > 0
    }

    /// The number of clusters asked for.
    pub fn n_clusters(&self) -> (r: usize)
        ensures
            r == self@.n_clusters,
    {
        self.n_clusters
    }

    /// The number of clusters that a search probes.
    pub fn n_probe(&self) -> (r: usize)
        ensures
            r == self@.n_probe,
    {
        self.n_probe
    }

    /// The centroids.
    pub fn centroids(&self) -> (r: &Vec<Vec<u32>>)
        ensures
            r.deep_view() == self@.centroids,
    {
        &self.centroids
    }

    /// The inverted lists.
    pub fn inverted_lists(&self) -> (r: &Vec<Vec<String>>)
        ensures
            r.deep_view() == self@.inverted_lists,
    {
        &self.inverted_lists
    }

    /// The number of clusters that `build` makes of `n` vectors.
    pub fn planned_clusters(&self, n: usize) -> (r: usize)
        ensures
            r == planned_clusters(self@.n_clusters, n as nat),
            r >= 1,
    {
        let tenth = n / 10;
        let capped = if self.n_clusters <= tenth {
            self.n_clusters
        } else {
            tenth
        };
        if capped >= 1 {
            capped
        } else {
            1
        }
    }

    /// Replaces the index by one built on `ids`.
    ///
    /// `centroids` holds one centroid for each planned cluster and
    /// `distance_rows[i]` the distance from the vector of `ids[i]` to each
    /// centroid. Each identifier goes to the list of its nearest centroid,
    /// the first among equally near ones. Without identifiers nothing
    /// changes; arguments that do not fit each other are refused and
    /// nothing changes.
    pub fn build(
        &mut self,
        ids: &Vec<String>,
        centroids: Vec<Vec<u32>>,
        distance_rows: &Vec<Vec<u32>>,
    ) -> (r: Result<(), VectorDbError>)
        requires
            old(self).wf(),
        ensures
            final(self).wf(),
            final(self)@.n_clusters == old(self)@.n_clusters,
            final(self)@.n_probe == old(self)@.n_probe,
            ids@.len() == 0 ==> r is Ok && final(self)@ == old(self)@,
            ids@.len() > 0 && !build_input_fits(
                old(self)@.n_clusters,
                ids@.len(),
                centroids.deep_view(),
                distance_rows.deep_view(),
            ) ==> final(self)@ == old(self)@ && (r matches Err(VectorDbError::InvalidConfig(m)) && m@
                == "centroids and distances do not fit the data"@),
            ids@.len() > 0 && build_input_fits(
                old(self)@.n_clusters,
                ids@.len(),
                centroids.deep_view(),
                distance_rows.deep_view(),
            ) ==> r is Ok && final(self)@.centroids == centroids.deep_view()
                && final(self)@.inverted_lists == Seq::new(
                centroids@.len(),
                |c: int|
                    cluster_members(
                        ids.deep_view(),
                        nearest_clusters(distance_rows.deep_view()),
                        c,
                    ),
            ),
    {
        let n = ids.len();
        if n == 0 {
            return Ok(());
        }
        let k = self.planned_clusters(n);
        if centroids.len() != k || distance_rows.len() != n {
            return Err(VectorDbError::invalid_config("centroids and distances do not fit the data"));
        }
        let ghost rows = distance_rows.deep_view();
        let ghost names = ids.deep_view();
        let mut clusters: Vec<usize> = Vec::new();
        let mut i: usize = 0;
        while i < n
            invariant
                i <= n,
                n == ids@.len(),
                n == distance_rows@.len(),
                k == centroids@.len(),
                k >= 1,
                self.wf(),
                self@ == old(self)@,
                k == planned_clusters(self@.n_clusters, n as nat),
                rows == distance_rows.deep_view(),
                clusters@.len() == i,
                forall|j: int| 0 <= j < i ==> (#[trigger] rows[j]).len() == k,
                forall|j: int| 0 <= j < i ==> (#[trigger] clusters@[j]) == nearest_position(rows[j]),
                forall|j: int| 0 <= j < i ==> (#[trigger] clusters@[j]) < k,
            decreases n - i,
        {
            assert(rows[i as int] == distance_rows@[i as int]@);
            if distance_rows[i].len() != k {
                return Err(
                    VectorDbError::invalid_config("centroids and distances do not fit the data"),
                );
            }
            let cluster = nearest(&distance_rows[i]);
            clusters.push(cluster);
            i += 1;
        }
        let ghost assigned = nearest_clusters(rows);
        let mut lists = empty_lists(k);
        let mut i: usize = 0;
        proof {
            assert forall|c: int| 0 <= c < k implies (#[trigger] lists@[c]).deep_view()
                == cluster_members(names.take(0), assigned.take(0), c) by {
                assert(lists@[c].deep_view() =~= Seq::<Seq<char>>::empty());
            }
        }
        while i < n
            invariant
                i <= n,
                n == ids@.len(),
                names == ids.deep_view(),
                assigned.len() == n,
                clusters@.len() == n,
                lists@.len() == k,
                forall|j: int| 0 <= j < n ==> (#[trigger] clusters@[j]) == assigned[j],
                forall|j: int| 0 <= j < n ==> (#[trigger] clusters@[j]) < k,
                forall|c: int|
                    0 <= c < k ==> (#[trigger] lists@[c]).deep_view() == cluster_members(
                        names.take(i as int),
                        assigned.take(i as int),
                        c,
                    ),
            decreases n - i,
        {
            let cluster = clusters[i];
            let ghost before = lists@;
            lists[cluster].push(ids[i].clone());
            proof {
                assert(names.take(i + 1).drop_last() == names.take(i as int));
                assert(assigned.take(i + 1).drop_last() == assigned.take(i as int));
                assert(names.take(i + 1).last() == ids@[i as int]@);
                assert(assigned.take(i + 1).last() == cluster);
                assert forall|c: int| 0 <= c < k implies (#[trigger] lists@[c]).deep_view()
                    == cluster_members(names.take(i + 1), assigned.take(i + 1), c) by {
                    if c == cluster {
                        assert(lists@[c].deep_view() =~= before[c].deep_view().push(ids@[i as int]@));
                    } else {
                        assert(lists@[c] == before[c]);
                    }
                }
            }
            i += 1;
        }
        proof {
            assert(names.take(n as int) == names);
            assert(assigned.take(n as int) == assigned);
        }
        self.centroids = centroids;
        self.inverted_lists = lists;
        proof {
            assert(self@.inverted_lists =~= Seq::new(
                centroids@.len(),
                |c: int| cluster_members(names, assigned, c),
            ));
        }
        Ok(())
    }

    /// The same as `build`.
    pub fn rebuild(
        &mut self,
        ids: &Vec<String>,
        centroids: Vec<Vec<u32>>,
        distance_rows: &Vec<Vec<u32>>,
    ) -> (r: Result<(), VectorDbError>)
        requires
            old(self).wf(),
        ensures
            final(self).wf(),
            final(self)@.n_clusters == old(self)@.n_clusters,
            final(self)@.n_probe == old(self)@.n_probe,
            ids@.len() == 0 ==> r is Ok && final(self)@ == old(self)@,
            ids@.len() > 0 && !build_input_fits(
                old(self)@.n_clusters,
                ids@.len(),
                centroids.deep_view(),
                distance_rows.deep_view(),
            ) ==> final(self)@ == old(self)@ && (r matches Err(VectorDbError::InvalidConfig(m)) && m@
                == "centroids and distances do not fit the data"@),
            ids@.len() > 0 && build_input_fits(
                old(self)@.n_clusters,
                ids@.len(),
                centroids.deep_view(),
                distance_rows.deep_view(),
            ) ==> r is Ok && final(self)@.centroids == centroids.deep_view()
                && final(self)@.inverted_lists == Seq::new(
                centroids@.len(),
                |c: int|
                    cluster_members(
                        ids.deep_view(),
                        nearest_clusters(distance_rows.deep_view()),
                        c,
                    ),
            ),
    {
        self.build(ids, centroids, distance_rows)
    }

    /// The identifiers to score for a query whose distance to each
    /// centroid is given: the lists of the closest clusters, as many as
    /// the index probes, closest cluster first. An index that is not built
    /// has none to offer.
    pub fn search_candidates(&self, centroid_distances: &Vec<u32>) -> (r: Result<
        Vec<String>,
        VectorDbError,
    >)
        requires
            self.wf(),
        ensures
            !self@.is_built() ==> (r matches Ok(ids) && ids@.len() == 0),
            self@.is_built() && centroid_distances@.len() != self@.centroids.len() ==> (
            r matches Err(VectorDbError::InvalidConfig(m)) && m@
                == "one distance is needed for each centroid"@),
            self@.is_built() && centroid_distances@.len() == self@.centroids.len() ==> (
            r matches Ok(ids) && ids.deep_view() == concat_lists(
                self@.inverted_lists,
                probed_clusters(self@, centroid_distances@),
            )),
    {
        if self.centroids.len() == 0 {
            return Ok(Vec::new());
        }
        if centroid_distances.len() != self.centroids.len() {
            return Err(VectorDbError::invalid_config("one distance is needed for each centroid"));
        }
        let order = order_by_distance(centroid_distances);
        let probe_count = if self.n_probe < order.len() {
            self.n_probe
        } else {
            order.len()
        };
        let ghost probed = probed_clusters(self@, centroid_distances@);
        let ghost lists = self@.inverted_lists;
        assert(probed == order@.take(probe_count as int));
        let mut candidates: Vec<String> = Vec::new();
        let mut t: usize = 0;
        proof {
            assert(candidates.deep_view() =~= concat_lists(lists, probed.take(0)));
        }
        while t < probe_count
            invariant
                t <= probe_count <= order@.len(),
                probed == order@.take(probe_count as int),
                lists == self@.inverted_lists,
                lists.len() == centroid_distances@.len(),
                forall|j: int| 0 <= j < order@.len() ==> (#[trigger] order@[j]) < centroid_distances@.len(),
                candidates.deep_view() == concat_lists(lists, probed.take(t as int)),
            decreases probe_count - t,
        {
            let cluster = order[t];
            let list = &self.inverted_lists[cluster];
            let ghost base = candidates.deep_view();
            assert(lists[cluster as int] == list.deep_view());
            let mut j: usize = 0;
            while j < list.len()
                invariant
                    j <= list@.len(),
                    candidates.deep_view() == base + list.deep_view().take(j as int),
                decreases list.len() - j,
            {
                let ghost so_far = candidates.deep_view();
                candidates.push(list[j].clone());
                proof {
                    assert(candidates.deep_view() =~= so_far.push(list@[j as int]@));
                    assert(list.deep_view().take(j + 1) =~= list.deep_view().take(j as int).push(
                        list@[j as int]@,
                    ));
                    assert(candidates.deep_view() =~= base + list.deep_view().take(j + 1));
                }
                j += 1;
            }
            proof {
                assert(list.deep_view().take(list@.len() as int) == list.deep_view());
                assert(probed.take(t + 1).drop_last() == probed.take(t as int));
                assert(probed.take(t + 1).last() == cluster);
            }
            t += 1;
        }
        proof {
            assert(probed.take(probe_count as int) == probed);
        }
        Ok(candidates)
    }
}

/// `n` empty lists.
fn empty_lists(n: usize) -> (r: Vec<Vec<String>>)
    ensures
        r@.len() == n,
        forall|c: int| 0 <= c < n ==> (#[trigger] r@[c])@.len() == 0,
        r.deep_view() == Seq::new(n as nat, |c: int| Seq::<Seq<char>>::empty()),
{
    let mut r: Vec<Vec<String>> = Vec::new();
    let mut c: usize = 0;
    while c < n
        invariant
            c <= n,
            r@.len() == c,
            forall|j: int| 0 <= j < c ==> (#[trigger] r@[j])@.len() == 0,
        decreases n - c,
    {
        r.push(Vec::new());
        c += 1;
    }
    proof {
        assert forall|j: int| 0 <= j < n implies #[trigger] r.deep_view()[j] == Seq::<Seq<char>>::empty() by {
            assert(r@[j].deep_view() =~= Seq::<Seq<char>>::empty());
        }
        assert(r.deep_view() =~= Seq::new(n as nat, |c: int| Seq::<Seq<char>>::empty()));
    }
    r
}

} // verus!
