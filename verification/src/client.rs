use crate::collection::{empty_collection, empty_indexed_collection, Collection, CollectionView};
use crate::error::VectorDbError;
use vstd::prelude::*;

verus! {

/// The number of resident collections that a client keeps when it is not
/// told otherwise.
pub const DEFAULT_MAX_CACHED: usize = 20;

/// A resident collection with the second at which it was last used.
pub struct CachedCollection {
    pub name: String,
    pub collection: Collection,
    pub last_access: u64,
}

/// A `CachedCollection` as plain values.
pub struct CachedCollectionView {
    pub name: Seq<char>,
    pub collection: CollectionView,
    pub last_access: u64,
}

impl View for CachedCollection {
    type V = CachedCollectionView;

    open spec fn view(&self) -> CachedCollectionView {
        CachedCollectionView {
            name: self.name@,
            collection: self.collection@,
            last_access: self.last_access,
        }
    }
}

/// A client as plain values.
pub struct VectorDbClientView {
    /// The resident collections, in the order in which they came in.
    pub resident: Seq<CachedCollectionView>,
    /// The number of resident collections from which one has to leave
    /// before another comes in.
    pub max_cached: nat,
}

/// Whether a collection named `name` is resident.
pub open spec fn is_resident(resident: Seq<CachedCollectionView>, name: Seq<char>) -> bool {
    exists|i: int| 0 <= i < resident.len() && (#[trigger] resident[i]).name == name
}

/// A position at which `name` is resident; with distinct names, the one.
pub open spec fn position_of_name(resident: Seq<CachedCollectionView>, name: Seq<char>) -> int {
    choose|i: int| 0 <= i < resident.len() && (#[trigger] resident[i]).name == name
}

/// No two resident collections share a name.
pub open spec fn distinct_names(resident: Seq<CachedCollectionView>) -> bool {
    forall|i: int, j: int|
        0 <= i < resident.len() && 0 <= j < resident.len() && i != j ==> (#[trigger] resident[i]).name
            != (#[trigger] resident[j]).name
}

/// The position of the least recently used collection: the first among
/// those with the smallest second of last use; 0 for none.
pub open spec fn lru_position(resident: Seq<CachedCollectionView>) -> int
    decreases resident.len(),
{
    if resident.len() <= 1 {
        0
    } else {
        let oldest = lru_position(resident.drop_last());
        if resident.last().last_access < resident[oldest].last_access {
            resident.len() - 1
        } else {
            oldest
        }
    }
}

/// The least recently used collection was used no later than any other,
/// and earlier than every one before it.
pub proof fn lemma_lru_position(resident: Seq<CachedCollectionView>)
    requires
        resident.len() > 0,
    ensures
        0 <= lru_position(resident) < resident.len(),
        forall|j: int|
            0 <= j < resident.len() ==> resident[lru_position(resident)].last_access <= (
            #[trigger] resident[j]).last_access,
        forall|j: int|
            0 <= j < lru_position(resident) ==> resident[lru_position(resident)].last_access < (
            #[trigger] resident[j]).last_access,
    decreases resident.len(),
{
    if resident.len() > 1 {
        let front = resident.drop_last();
        lemma_lru_position(front);
        let oldest = lru_position(front);
        assert(front[oldest] == resident[oldest]);
        assert forall|j: int| 0 <= j < resident.len() implies resident[lru_position(
            resident,
        )].last_access <= (#[trigger] resident[j]).last_access by {
            if j < front.len() {
                assert(front[j] == resident[j]);
            }
        }
        assert forall|j: int| 0 <= j < lru_position(resident) implies resident[lru_position(
            resident,
        )].last_access < (#[trigger] resident[j]).last_access by {
            assert(front[j] == resident[j]);
        }
    }
}

impl VectorDbClientView {
    /// No name is resident twice, every resident collection is well
    /// formed, and no more collections are resident than the client
    /// keeps, or one where it keeps none.
    pub open spec fn wf(self) -> bool {
        &&& distinct_names(self.resident)
        &&& forall|i: int| 0 <= i < self.resident.len() ==> (#[trigger] self.resident[i]).collection.wf()
        &&& self.resident.len() <= self.capacity()
    }

    /// The largest number of resident collections: `max_cached`, but at
    /// least one.
    pub open spec fn capacity(self) -> nat {
        if self.max_cached >= 1 {
            self.max_cached
        } else {
            1
        }
    }

    /// Whether a collection has to leave before another comes in.
    pub open spec fn is_full(self) -> bool {
        self.resident.len() >= self.max_cached && self.resident.len() > 0
    }

    /// The collections that stay when room is made for another: all but
    /// the least recently used where the client is full, all otherwise.
    pub open spec fn after_eviction(self) -> Seq<CachedCollectionView> {
        if self.is_full() {
            self.resident.remove(lru_position(self.resident))
        } else {
            self.resident
        }
    }

    /// The collections after `incoming` came in. Where a collection of
    /// its name is resident, it takes that one's place and none leaves.
    /// Otherwise room is made and it comes in at the end.
    pub open spec fn after_admission(self, incoming: CachedCollectionView) -> Seq<CachedCollectionView> {
        if is_resident(self.resident, incoming.name) {
            self.resident.update(position_of_name(self.resident, incoming.name), incoming)
        } else {
            self.after_eviction().push(incoming)
        }
    }
}

/// A client that keeps at least one collection holds no more than it
/// keeps after one more came in, and the collection that left for it, if
/// any, was used no later than any other.
pub proof fn lemma_lru_bound(client: VectorDbClientView, incoming: CachedCollectionView)
    requires
        client.wf(),
        client.max_cached >= 1,
    ensures
        client.after_admission(incoming).len() <= client.max_cached,
        client.after_eviction().len() < client.max_cached,
        client.is_full() ==> client.after_eviction() == client.resident.remove(
            lru_position(client.resident),
        ) && forall|j: int|
            0 <= j < client.resident.len() ==> client.resident[lru_position(
                client.resident,
            )].last_access <= (#[trigger] client.resident[j]).last_access,
{
    if client.is_full() {
        lemma_lru_position(client.resident);
    }
}

/// The registry of resident collections of a database client. At most
/// `max_cached` collections stay resident; where one more comes in, the
/// least recently used leaves.
pub struct VectorDbClient {
    collections: Vec<CachedCollection>,
    max_cached: usize,
}

/// The views of a sequence of resident collections.
pub open spec fn cached_views(collections: Seq<CachedCollection>) -> Seq<CachedCollectionView> {
    collections.map_values(|c: CachedCollection| c@)
}

impl View for VectorDbClient {
    type V = VectorDbClientView;

    closed spec fn view(&self) -> VectorDbClientView {
        VectorDbClientView {
            resident: cached_views(self.collections@),
            max_cached: self.max_cached as nat,
        }
    }
}

impl VectorDbClient {
    /// Well-formedness: see `VectorDbClientView::wf`.
    pub closed spec fn wf(&self) -> bool {
        &&& self@.wf()
        &&& forall|i: int| 0 <= i < self.collections@.len() ==> (#[trigger] self.collections@[i]).collection.wf()
    }

    /// A well-formed client has a well-formed view.
    pub proof fn lemma_wf(&self)
        requires
            self.wf(),
        ensures
            self@.wf(),
    {
    }

    /// A client without resident collections that keeps `max_cached` of
    /// them, or `DEFAULT_MAX_CACHED` where no number is given.
    pub fn new(max_cached: Option<usize>) -> (r: VectorDbClient)
        ensures
            r.wf(),
            r@.resident.len() == 0,
            r@.max_cached == match max_cached {
                Some(n) => n,
                None => DEFAULT_MAX_CACHED,
            },
    {
        let r = VectorDbClient {
            collections: Vec::new(),
            max_cached: match max_cached {
                Some(n) => n,
                None => DEFAULT_MAX_CACHED,
            },
        };
        assert(r@.resident =~= Seq::empty());
        r
    }

    /// The number of resident collections from which one has to leave
    /// before another comes in.
    pub fn max_cached(&self) -> (r: usize)
        ensures
            r == self@.max_cached,
    {
        self.max_cached
    }

    /// The number of resident collections.
    pub fn resident_count(&self) -> (r: usize)
        ensures
            r == self@.resident.len(),
    {
        self.collections.len()
    }

    /// The position at which `name` is resident.
    fn find(&self, name: &String) -> (r: Option<usize>)
        requires
            self.wf(),
        ensures
            match r {
                Some(p) => p < self@.resident.len() && self@.resident[p as int].name == name@
                    && is_resident(self@.resident, name@) && position_of_name(
                    self@.resident,
                    name@,
                ) == p,
                None => !is_resident(self@.resident, name@),
            },
    {
        let mut i: usize = 0;
        while i < self.collections.len()
            invariant
                i <= self.collections.len(),
                self.wf(),
                forall|j: int| 0 <= j < i ==> (#[trigger] self@.resident[j]).name != name@,
            decreases self.collections.len() - i,
        {
            assert(self@.resident[i as int] == self.collections@[i as int]@);
            if self.collections[i].name == *name {
                proof {
                    let q = position_of_name(self@.resident, name@);
                    assert(self@.resident[q].name == self@.resident[i as int].name);
                }
                return Some(i);
            }
            i += 1;
        }
        None
    }

    /// Whether a collection named `name` is resident.
    pub fn contains(&self, name: &str) -> (r: bool)
        requires
            self.wf(),
        ensures
            r == is_resident(self@.resident, name@),
    {
        let wanted = name.to_owned();
        self.find(&wanted).is_some()
    }

    /// The names of the resident collections, in the order in which they
    /// came in.
    pub fn resident_names(&self) -> (r: Vec<String>)
        ensures
            r@.len() == self@.resident.len(),
            forall|i: int| 0 <= i < r@.len() ==> (#[trigger] r@[i])@ == self@.resident[i].name,
    {
        let mut names: Vec<String> = Vec::new();
        let mut i: usize = 0;
        while i < self.collections.len()
            invariant
                i <= self.collections.len(),
                names@.len() == i,
                forall|j: int| 0 <= j < i ==> (#[trigger] names@[j])@ == self@.resident[j].name,
            decreases self.collections.len() - i,
        {
            assert(self@.resident[i as int] == self.collections@[i as int]@);
            names.push(self.collections[i].name.clone());
            i += 1;
        }
        names
    }

    /// Makes room for one more collection: where the client is full, the
    /// least recently used collection leaves, the first among several, and
    /// its name is handed back.
    pub fn evict_lru(&mut self) -> (r: Option<String>)
        requires
            old(self).wf(),
        ensures
            final(self).wf(),
            final(self)@.max_cached == old(self)@.max_cached,
            final(self)@.resident == old(self)@.after_eviction(),
            match r {
                Some(name) => old(self)@.is_full() && name@ == old(self)@.resident[lru_position(
                    old(self)@.resident,
                )].name,
                None => !old(self)@.is_full(),
            },
            old(self)@.max_cached >= 1 ==> final(self)@.resident.len() < old(self)@.max_cached,
    {
        if self.collections.len() < self.max_cached || self.collections.len() == 0 {
            return None;
        }
        let ghost before = self@.resident;
        let mut oldest: usize = 0;
        let mut i: usize = 1;
        assert(before.take(1).len() == 1);
        while i < self.collections.len()
            invariant
                1 <= i <= self.collections.len(),
                before == self@.resident,
                oldest < i,
                oldest == lru_position(before.take(i as int)),
            decreases self.collections.len() - i,
        {
            proof {
                assert(before.take(i + 1).drop_last() == before.take(i as int));
                assert(before.take(i + 1).last() == self.collections@[i as int]@);
                assert(before.take(i + 1)[oldest as int] == self.collections@[oldest as int]@);
            }
            if self.collections[i].last_access < self.collections[oldest].last_access {
                oldest = i;
            }
            i += 1;
        }
        assert(before.take(before.len() as int) == before);
        let gone = self.collections.remove(oldest);
        proof {
            assert(gone@ == before[oldest as int]);
            assert(self@.resident =~= before.remove(oldest as int));
            assert(distinct_names(self@.resident)) by {
                assert forall|a: int, b: int|
                    0 <= a < self@.resident.len() && 0 <= b < self@.resident.len() && a
                        != b implies (#[trigger] self@.resident[a]).name != (
                #[trigger] self@.resident[b]).name by {
                    let a0 = if a < oldest {
                        a
                    } else {
                        a + 1
                    };
                    let b0 = if b < oldest {
                        b
                    } else {
                        b + 1
                    };
                    assert(self@.resident[a] == before[a0]);
                    assert(self@.resident[b] == before[b0]);
                    assert(before[a0].name != before[b0].name);
                }
            }
            assert forall|a: int| 0 <= a < self@.resident.len() implies (
            #[trigger] self@.resident[a]).collection.wf() by {
                let a0 = if a < oldest {
                    a
                } else {
                    a + 1
                };
                assert(self@.resident[a] == before[a0]);
            }
            assert forall|a: int| 0 <= a < self.collections@.len() implies (
            #[trigger] self.collections@[a]).collection.wf() by {
                let a0 = if a < oldest {
                    a
                } else {
                    a + 1
                };
                assert(self.collections@[a] == old(self).collections@[a0]);
            }
        }
        Some(gone.name)
    }

    /// Takes `collection` in under `name`, used at second `now`. A
    /// resident collection of the same name is replaced and none leaves.
    /// Otherwise room is made first: where the client is full the least
    /// recently used collection leaves and its name is handed back.
    pub fn insert(&mut self, name: String, collection: Collection, now: u64) -> (r: Option<String>)
        requires
            old(self).wf(),
            collection.wf(),
        ensures
            final(self).wf(),
            final(self)@.max_cached == old(self)@.max_cached,
            final(self)@.resident == old(self)@.after_admission(
                CachedCollectionView { name: name@, collection: collection@, last_access: now },
            ),
            match r {
                Some(gone) => !is_resident(old(self)@.resident, name@) && old(self)@.is_full()
                    && gone@ == old(self)@.resident[lru_position(old(self)@.resident)].name,
                None => is_resident(old(self)@.resident, name@) || !old(self)@.is_full(),
            },
    {
        let incoming = CachedCollection { name, collection, last_access: now };
        let ghost kept = self@.resident;
        match self.find(&incoming.name) {
            Some(p) => {
                self.collections.set(p, incoming);
                proof {
                    assert(self@.resident =~= kept.update(p as int, incoming@));
                    assert(distinct_names(self@.resident)) by {
                        assert forall|a: int, b: int|
                            0 <= a < self@.resident.len() && 0 <= b < self@.resident.len() && a
                                != b implies (#[trigger] self@.resident[a]).name != (
                        #[trigger] self@.resident[b]).name by {
                            assert(kept[a].name != kept[b].name);
                        }
                    }
                    assert forall|a: int| 0 <= a < self@.resident.len() implies (
                    #[trigger] self@.resident[a]).collection.wf() by {
                        if a != p {
                            assert(self@.resident[a] == kept[a]);
                        }
                    }
                }
                None
            },
            None => {
                let gone = self.evict_lru();
                let ghost kept = self@.resident;
                proof {
                    if old(self)@.is_full() {
                        let at = lru_position(old(self)@.resident);
                        lemma_lru_position(old(self)@.resident);
                        assert forall|a: int| 0 <= a < kept.len() implies (#[trigger] kept[a]).name
                            != incoming@.name by {
                            let a0 = if a < at {
                                a
                            } else {
                                a + 1
                            };
                            assert(kept[a] == old(self)@.resident[a0]);
                        }
                    }
                    assert(!is_resident(kept, incoming@.name));
                }
                self.collections.push(incoming);
                proof {
                    assert(self@.resident =~= kept.push(incoming@));
                    assert(distinct_names(self@.resident)) by {
                        assert forall|a: int, b: int|
                            0 <= a < self@.resident.len() && 0 <= b < self@.resident.len() && a
                                != b implies (#[trigger] self@.resident[a]).name != (
                        #[trigger] self@.resident[b]).name by {
                            if a < kept.len() && b < kept.len() {
                                assert(kept[a].name != kept[b].name);
                            } else if a < kept.len() {
                                assert(kept[a].name != incoming@.name);
                            } else {
                                assert(kept[b].name != incoming@.name);
                            }
                        }
                    }
                    assert forall|a: int| 0 <= a < self@.resident.len() implies (
                    #[trigger] self@.resident[a]).collection.wf() by {
                        if a < kept.len() {
                            assert(self@.resident[a] == kept[a]);
                        }
                    }
                }
                gone
            },
        }
    }

    /// A new collection without an index, for a name that is neither
    /// resident nor persisted; `persisted` says whether the store holds
    /// the name. The collection is not resident yet: see `insert`.
    pub fn create_collection(&self, name: String, dimension: usize, persisted: bool) -> (r: Result<
        Collection,
        VectorDbError,
    >)
        requires
            self.wf(),
        ensures
            match r {
                Ok(made) => !persisted && !is_resident(self@.resident, name@) && made.wf() && made@
                    == empty_collection(name@, dimension as nat),
                Err(e) => (persisted || is_resident(self@.resident, name@)) && (
                e matches VectorDbError::CollectionAlreadyExists(n) && n@ == name@),
            },
    {
        if persisted || self.find(&name).is_some() {
            return Err(VectorDbError::CollectionAlreadyExists(name));
        }
        Ok(Collection::new(name, dimension))
    }

    /// A new collection with an index for `n_clusters` clusters, for a
    /// name that is neither resident nor persisted; `persisted` says
    /// whether the store holds the name. The collection is not resident
    /// yet: see `insert`.
    pub fn create_collection_with_ivf(
        &self,
        name: String,
        dimension: usize,
        n_clusters: usize,
        persisted: bool,
    ) -> (r: Result<Collection, VectorDbError>)
        requires
            self.wf(),
        ensures
            match r {
                Ok(made) => !persisted && !is_resident(self@.resident, name@) && made.wf() && made@
                    == empty_indexed_collection(name@, dimension as nat, n_clusters as nat),
                Err(e) => (persisted || is_resident(self@.resident, name@)) && (
                e matches VectorDbError::CollectionAlreadyExists(n) && n@ == name@),
            },
    {
        if persisted || self.find(&name).is_some() {
            return Err(VectorDbError::CollectionAlreadyExists(name));
        }
        Ok(Collection::new_with_ivf(name, dimension, n_clusters))
    }

    /// Notes that the collection named `name` is used at second `now`.
    /// Says whether it is resident; where it is not, nothing changes and
    /// the caller brings it in with `insert`.
    pub fn get_collection(&mut self, name: &str, now: u64) -> (r: bool)
        requires
            old(self).wf(),
        ensures
            final(self).wf(),
            r == is_resident(old(self)@.resident, name@),
            !r ==> final(self)@ == old(self)@,
            r ==> final(self)@ == (VectorDbClientView {
                resident: old(self)@.resident.update(
                    position_of_name(old(self)@.resident, name@),
                    CachedCollectionView {
                        last_access: now,
                        ..old(self)@.resident[position_of_name(old(self)@.resident, name@)]
                    },
                ),
                ..old(self)@
            }),
    {
        let wanted = name.to_owned();
        let ghost before = self@.resident;
        match self.find(&wanted) {
            Some(p) => {
                self.collections[p].last_access = now;
                proof {
                    assert(self@.resident =~= before.update(
                        p as int,
                        CachedCollectionView { last_access: now, ..before[p as int] },
                    ));
                    assert(distinct_names(self@.resident)) by {
                        assert forall|a: int, b: int|
                            0 <= a < self@.resident.len() && 0 <= b < self@.resident.len() && a
                                != b implies (#[trigger] self@.resident[a]).name != (
                        #[trigger] self@.resident[b]).name by {
                            assert(before[a].name != before[b].name);
                        }
                    }
                    assert forall|a: int| 0 <= a < self@.resident.len() implies (
                    #[trigger] self@.resident[a]).collection.wf() by {
                        assert(self@.resident[a].collection == before[a].collection);
                    }
                    assert forall|a: int| 0 <= a < self.collections@.len() implies (
                    #[trigger] self.collections@[a]).collection.wf() by {
                        assert(self.collections@[a].collection == old(self).collections@[a].collection);
                    }
                }
                true
            },
            None => false,
        }
    }

    /// Removes the collection named `name` from the resident ones. Says
    /// whether it was resident.
    pub fn delete_collection(&mut self, name: &str) -> (r: bool)
        requires
            old(self).wf(),
        ensures
            final(self).wf(),
            final(self)@.max_cached == old(self)@.max_cached,
            r == is_resident(old(self)@.resident, name@),
            !r ==> final(self)@ == old(self)@,
            r ==> final(self)@.resident == old(self)@.resident.remove(
                position_of_name(old(self)@.resident, name@),
            ),
            !is_resident(final(self)@.resident, name@),
    {
        let wanted = name.to_owned();
        let ghost before = self@.resident;
        match self.find(&wanted) {
            Some(p) => {
                let gone = self.collections.remove(p);
                proof {
                    assert(self@.resident =~= before.remove(p as int));
                    assert forall|a: int| 0 <= a < self@.resident.len() implies (
                    #[trigger] self@.resident[a]).name != name@ by {
                        let a0 = if a < p {
                            a
                        } else {
                            a + 1
                        };
                        assert(self@.resident[a] == before[a0]);
                        assert(before[a0].name != before[p as int].name);
                    }
                    assert(distinct_names(self@.resident)) by {
                        assert forall|a: int, b: int|
                            0 <= a < self@.resident.len() && 0 <= b < self@.resident.len() && a
                                != b implies (#[trigger] self@.resident[a]).name != (
                        #[trigger] self@.resident[b]).name by {
                            let a0 = if a < p {
                                a
                            } else {
                                a + 1
                            };
                            let b0 = if b < p {
                                b
                            } else {
                                b + 1
                            };
                            assert(self@.resident[a] == before[a0]);
                            assert(self@.resident[b] == before[b0]);
                            assert(before[a0].name != before[b0].name);
                        }
                    }
                    assert forall|a: int| 0 <= a < self@.resident.len() implies (
                    #[trigger] self@.resident[a]).collection.wf() by {
                        let a0 = if a < p {
                            a
                        } else {
                            a + 1
                        };
                        assert(self@.resident[a] == before[a0]);
                    }
                    assert forall|a: int| 0 <= a < self.collections@.len() implies (
                    #[trigger] self.collections@[a]).collection.wf() by {
                        let a0 = if a < p {
                            a
                        } else {
                            a + 1
                        };
                        assert(self.collections@[a] == old(self).collections@[a0]);
                    }
                }
                true
            },
            None => false,
        }
    }

    /// The resident collection named `name`, to read.
    pub fn collection(&self, name: &str) -> (r: Option<&Collection>)
        requires
            self.wf(),
        ensures
            match r {
                Some(c) => is_resident(self@.resident, name@) && c.wf() && c@
                    == self@.resident[position_of_name(self@.resident, name@)].collection,
                None => !is_resident(self@.resident, name@),
            },
    {
        let wanted = name.to_owned();
        match self.find(&wanted) {
            Some(p) => {
                assert(self@.resident[p as int] == self.collections@[p as int]@);
                Some(&self.collections[p].collection)
            },
            None => None,
        }
    }

    /// The collection that is resident at position `p`.
    pub closed spec fn resident_collection(&self, p: int) -> Collection {
        self.collections@[p].collection
    }

    /// Calls `f` on the resident collection named `name` and hands back
    /// what it gives; nothing where no such collection is resident. The
    /// time of last use stays as it is.
    pub fn with_collection<F: FnOnce(&Collection) -> R, R>(&self, name: &str, f: F) -> (r: Option<R>)
        requires
            self.wf(),
            forall|c: &Collection| c.wf() ==> f.requires((c,)),
        ensures
            match r {
                Some(v) => {
                    let p = position_of_name(self@.resident, name@);
                    &&& is_resident(self@.resident, name@)
                    &&& self.resident_collection(p)@ == self@.resident[p].collection
                    &&& f.ensures((&self.resident_collection(p),), v)
                },
                None => !is_resident(self@.resident, name@),
            },
    {
        let wanted = name.to_owned();
        match self.find(&wanted) {
            Some(p) => {
                assert(self@.resident[p as int] == self.collections@[p as int]@);
                Some(f(&self.collections[p].collection))
            },
            None => None,
        }
    }

    /// The resident collection named `name`, to change, used at second
    /// `now`. The client is well formed again once the collection is.
    pub fn collection_mut(&mut self, name: &str, now: u64) -> (r: Option<&mut Collection>)
        requires
            old(self).wf(),
        ensures
            final(self)@.max_cached == old(self)@.max_cached,
            r is Some <==> is_resident(old(self)@.resident, name@),
            r is None ==> final(self)@ == old(self)@ && final(self).wf(),
            r is Some ==> r->0.wf() && r->0@ == old(self)@.resident[position_of_name(
                old(self)@.resident,
                name@,
            )].collection,
            r is Some ==> final(self)@.resident == old(self)@.resident.update(
                position_of_name(old(self)@.resident, name@),
                CachedCollectionView { name: name@, collection: final(r->0)@, last_access: now },
            ),
            r is Some && final(r->0).wf() ==> final(self).wf(),
    {
        let wanted = name.to_owned();
        match self.find(&wanted) {
            Some(p) => {
                self.collections[p].last_access = now;
                Some(&mut self.collections[p].collection)
            },
            None => None,
        }
    }
}

} // verus!
