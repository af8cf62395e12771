use vstd::prelude::*;
use vstd::std_specs::cmp::PartialEqSpecImpl;
use vstd::std_specs::convert::FromSpecImpl;

verus! {

/// Largest bit pattern, sign bit cleared, that still denotes a number
/// (positive infinity) in IEEE-754 double precision.
pub const DOUBLE_INFINITY: u64 = 0x7ff0_0000_0000_0000;

/// The sign bit of a 64-bit pattern.
pub const DOUBLE_SIGN: u64 = 0x8000_0000_0000_0000;

/// The magnitude bits of a double-precision pattern: the pattern with its
/// sign bit cleared.
pub open spec fn double_magnitude(bits: u64) -> int {
    if bits >= DOUBLE_SIGN {
        bits - DOUBLE_SIGN
    } else {
        bits as int
    }
}

/// Whether two double-precision bit patterns denote equal numbers: neither
/// is a NaN, and they are the same pattern or both a zero.
pub open spec fn double_bits_equal(a: u64, b: u64) -> bool {
    &&& double_magnitude(a) <= DOUBLE_INFINITY
    &&& double_magnitude(b) <= DOUBLE_INFINITY
    &&& (a == b || (double_magnitude(a) == 0 && double_magnitude(b) == 0))
}

/// Computes `double_magnitude`.
fn magnitude_of(bits: u64) -> (m: u64)
    ensures
        m == double_magnitude(bits),
{
    if bits >= DOUBLE_SIGN {
        bits - DOUBLE_SIGN
    } else {
        bits
    }
}

/// A metadata value: a string, a signed integer, a double-precision number
/// held as its IEEE-754 bit pattern, or a boolean.
#[derive(Debug)]
pub enum MetadataValue {
    String(String),
    Int(i64),
    Float(u64),
    Bool(bool),
}

impl MetadataValue {
    /// Equality by tag and payload. Strings compare by their characters and
    /// numbers held as bits compare as the numbers they denote.
    pub open spec fn matches(&self, other: &MetadataValue) -> bool {
        match (*self, *other) {
            (MetadataValue::String(a), MetadataValue::String(b)) => a@ == b@,
            (MetadataValue::Int(a), MetadataValue::Int(b)) => a == b,
            (MetadataValue::Float(a), MetadataValue::Float(b)) => double_bits_equal(a, b),
            (MetadataValue::Bool(a), MetadataValue::Bool(b)) => a == b,
            _ => false,
        }
    }
}

impl PartialEq for MetadataValue {
    fn eq(&self, other: &MetadataValue) -> (r: bool) {
        match (self, other) {
            (MetadataValue::String(a), MetadataValue::String(b)) => *a == *b,
            (MetadataValue::Int(a), MetadataValue::Int(b)) => *a == *b,
            (MetadataValue::Float(a), MetadataValue::Float(b)) => {
                let ma = magnitude_of(*a);
                let mb = magnitude_of(*b);
                ma <= DOUBLE_INFINITY && mb <= DOUBLE_INFINITY && (*a == *b || (ma == 0 && mb == 0))
            },
            (MetadataValue::Bool(a), MetadataValue::Bool(b)) => *a == *b,
            _ => false,
        }
    }
}

impl PartialEqSpecImpl for MetadataValue {
    open spec fn obeys_eq_spec() -> bool {
        true
    }

    open spec fn eq_spec(&self, other: &MetadataValue) -> bool {
        self.matches(other)
    }
}

impl Clone for MetadataValue {
    fn clone(&self) -> (r: MetadataValue)
        ensures
            r == *self,
    {
        match self {
            MetadataValue::String(s) => MetadataValue::String(s.clone()),
            MetadataValue::Int(i) => MetadataValue::Int(*i),
            MetadataValue::Float(f) => MetadataValue::Float(*f),
            MetadataValue::Bool(b) => MetadataValue::Bool(*b),
        }
    }
}


impl From<String> for MetadataValue {
    fn from(s: String) -> (r: MetadataValue) {
        MetadataValue::String(s)
    }
}

impl FromSpecImpl<String> for MetadataValue {
    open spec fn obeys_from_spec() -> bool {
        true
    }

    open spec fn from_spec(s: String) -> MetadataValue {
        MetadataValue::String(s)
    }
}

impl From<i64> for MetadataValue {
    fn from(i: i64) -> (r: MetadataValue) {
        MetadataValue::Int(i)
    }
}

impl FromSpecImpl<i64> for MetadataValue {
    open spec fn obeys_from_spec() -> bool {
        true
    }

    open spec fn from_spec(i: i64) -> MetadataValue {
        MetadataValue::Int(i)
    }
}

impl From<bool> for MetadataValue {
    fn from(b: bool) -> (r: MetadataValue) {
        MetadataValue::Bool(b)
    }
}

impl FromSpecImpl<bool> for MetadataValue {
    open spec fn obeys_from_spec() -> bool {
        true
    }

    open spec fn from_spec(b: bool) -> MetadataValue {
        MetadataValue::Bool(b)
    }
}

/// The map that a sequence of key/value pairs denotes when the pairs are
/// inserted from first to last: a later pair replaces an earlier one with
/// the same key.
pub open spec fn pairs_to_map(pairs: Seq<(String, MetadataValue)>) -> Map<Seq<char>, MetadataValue>
    decreases pairs.len(),
{
    if pairs.len() == 0 {
        Map::empty()
    } else {
        pairs_to_map(pairs.drop_last()).insert(pairs.last().0@, pairs.last().1)
    }
}

/// No two pairs of the sequence share a key.
pub open spec fn distinct_keys(pairs: Seq<(String, MetadataValue)>) -> bool {
    forall|i: int, j: int|
        0 <= i < pairs.len() && 0 <= j < pairs.len() && i != j ==> (#[trigger] pairs[i]).0@ != (
        #[trigger] pairs[j]).0@
}

/// A key is bound by `pairs_to_map` exactly when some pair carries it.
pub proof fn lemma_pairs_domain(pairs: Seq<(String, MetadataValue)>, key: Seq<char>)
    ensures
        pairs_to_map(pairs).contains_key(key) <==> exists|i: int|
            0 <= i < pairs.len() && (#[trigger] pairs[i]).0@ == key,
    decreases pairs.len(),
{
    if pairs.len() > 0 {
        let front = pairs.drop_last();
        lemma_pairs_domain(front, key);
        if pairs_to_map(pairs).contains_key(key) {
            if pairs.last().0@ == key {
                assert(pairs[pairs.len() - 1].0@ == key);
            } else {
                let i = choose|i: int| 0 <= i < front.len() && (#[trigger] front[i]).0@ == key;
                assert(pairs[i].0@ == key);
            }
        }
        if exists|i: int| 0 <= i < pairs.len() && (#[trigger] pairs[i]).0@ == key {
            let i = choose|i: int| 0 <= i < pairs.len() && (#[trigger] pairs[i]).0@ == key;
            if i < pairs.len() - 1 {
                assert(front[i].0@ == key);
            }
        }
    }
}

/// With distinct keys, each pair's key is bound to that pair's value.
pub proof fn lemma_pairs_lookup(pairs: Seq<(String, MetadataValue)>, i: int)
    requires
        distinct_keys(pairs),
        0 <= i < pairs.len(),
    ensures
        pairs_to_map(pairs).contains_key(pairs[i].0@),
        pairs_to_map(pairs)[pairs[i].0@] == pairs[i].1,
    decreases pairs.len(),
{
    let front = pairs.drop_last();
    if i < pairs.len() - 1 {
        assert(distinct_keys(front)) by {
            assert forall|a: int, b: int|
                0 <= a < front.len() && 0 <= b < front.len() && a != b implies (
            #[trigger] front[a]).0@ != (#[trigger] front[b]).0@ by {
                assert(pairs[a].0@ != pairs[b].0@);
            }
        }
        lemma_pairs_lookup(front, i);
        assert(front[i] == pairs[i]);
        assert(pairs[i].0@ != pairs[pairs.len() - 1].0@);
    }
}

/// Replacing the value of one pair rebinds that pair's key and nothing else.
pub proof fn lemma_pairs_update(pairs: Seq<(String, MetadataValue)>, i: int, key: String, value: MetadataValue)
    requires
        distinct_keys(pairs),
        0 <= i < pairs.len(),
        key@ == pairs[i].0@,
    ensures
        distinct_keys(pairs.update(i, (key, value))),
        pairs_to_map(pairs.update(i, (key, value))) == pairs_to_map(pairs).insert(key@, value),
    decreases pairs.len(),
{
    let after = pairs.update(i, (key, value));
    assert(distinct_keys(after)) by {
        assert forall|a: int, b: int|
            0 <= a < after.len() && 0 <= b < after.len() && a != b implies (
        #[trigger] after[a]).0@ != (#[trigger] after[b]).0@ by {
            assert(pairs[a].0@ != pairs[b].0@);
        }
    }
    let front = pairs.drop_last();
    if i == pairs.len() - 1 {
        assert(after.drop_last() == front);
        assert(pairs_to_map(after) == pairs_to_map(pairs).insert(key@, value));
    } else {
        assert(distinct_keys(front)) by {
            assert forall|a: int, b: int|
                0 <= a < front.len() && 0 <= b < front.len() && a != b implies (
            #[trigger] front[a]).0@ != (#[trigger] front[b]).0@ by {
                assert(pairs[a].0@ != pairs[b].0@);
            }
        }
        lemma_pairs_update(front, i, key, value);
        assert(after.drop_last() == front.update(i, (key, value)));
        assert(after.last() == pairs.last());
        assert(pairs[i].0@ != pairs[pairs.len() - 1].0@);
        assert(pairs_to_map(after) == pairs_to_map(pairs).insert(key@, value));
    }
}

/// A small map from field names to metadata values.
#[derive(Debug)]
pub struct Metadata {
    entries: Vec<(String, MetadataValue)>,
}

impl View for Metadata {
    type V = Map<Seq<char>, MetadataValue>;

    closed spec fn view(&self) -> Map<Seq<char>, MetadataValue> {
        pairs_to_map(self.entries@)
    }
}

impl Metadata {
    #[verifier::type_invariant]
    spec fn inv(self) -> bool {
        distinct_keys(self.entries@)
    }

    /// The fields in the order in which their keys were first inserted.
    pub closed spec fn fields(&self) -> Seq<(String, MetadataValue)> {
        self.entries@
    }

    /// The view is the map of the fields, whose keys are distinct.
    pub proof fn lemma_view(&self)
        ensures
            self@ == pairs_to_map(self.fields()),
    {
    }

    pub fn new() -> (r: Metadata)
        ensures
            r@ == Map::<Seq<char>, MetadataValue>::empty(),
            r.fields() == Seq::<(String, MetadataValue)>::empty(),
    {
        Metadata { entries: Vec::new() }
    }

    /// The fields, for callers that walk them.
    pub fn entries(&self) -> (r: &Vec<(String, MetadataValue)>)
        ensures
            r@ == self.fields(),
            distinct_keys(r@),
    {
        proof {
            use_type_invariant(self);
        }
        &self.entries
    }

    pub fn len(&self) -> (r: usize)
        ensures
            r == self.fields().len(),
    {
        self.entries.len()
    }

    /// The value bound to `key`, if any.
    pub fn get(&self, key: &str) -> (r: Option<&MetadataValue>)
        ensures
            match r {
                Some(v) => self@.contains_key(key@) && *v == self@[key@],
                None => !self@.contains_key(key@),
            },
    {
        proof {
            use_type_invariant(self);
        }
        let wanted = key.to_owned();
        self.lookup(&wanted)
    }

    /// The value bound to `key`, if any.
    pub fn lookup(&self, key: &String) -> (r: Option<&MetadataValue>)
        ensures
            match r {
                Some(v) => self@.contains_key(key@) && *v == self@[key@],
                None => !self@.contains_key(key@),
            },
    {
        proof {
            use_type_invariant(self);
        }
        match position_of(&self.entries, key) {
            Some(i) => {
                proof {
                    lemma_pairs_lookup(self.entries@, i as int);
                }
                Some(&self.entries[i].1)
            },
            None => {
                proof {
                    lemma_pairs_domain(self.entries@, key@);
                }
                None
            },
        }
    }

    /// Binds `key` to `value`, replacing any earlier binding of `key`.
    pub fn insert(&mut self, key: String, value: MetadataValue)
        ensures
            final(self)@ == old(self)@.insert(key@, value),
    {
        proof {
            use_type_invariant(&*self);
        }
        let mut entries: Vec<(String, MetadataValue)> = Vec::new();
        std::mem::swap(&mut entries, &mut self.entries);
        match position_of(&entries, &key) {
            Some(i) => {
                proof {
                    lemma_pairs_update(entries@, i as int, key, value);
                }
                entries.set(i, (key, value));
            },
            None => {
                proof {
                    let after = entries@.push((key, value));
                    assert(after.drop_last() == entries@);
                    assert(distinct_keys(after));
                }
                entries.push((key, value));
            },
        }
        self.entries = entries;
    }

    /// Inserts every field of `other`, first to last: where both maps bind
    /// a key, the value of `other` stays.
    pub fn merge(&mut self, other: &Metadata)
        ensures
            final(self)@ == old(self)@.union_prefer_right(other@),
    {
        let fields = other.entries();
        let mut i: usize = 0;
        proof {
            assert(fields@.subrange(0, 0) == Seq::<(String, MetadataValue)>::empty());
            assert(self@ == old(self)@.union_prefer_right(pairs_to_map(fields@.subrange(0, 0))));
        }
        while i < fields.len()
            invariant
                i <= fields.len(),
                fields@ == other.fields(),
                self@ == old(self)@.union_prefer_right(pairs_to_map(fields@.subrange(0, i as int))),
            decreases fields.len() - i,
        {
            let ghost before = self@;
            self.insert(fields[i].0.clone(), fields[i].1.clone());
            proof {
                let front = fields@.subrange(0, i as int);
                let next = fields@.subrange(0, i + 1);
                assert(next.drop_last() == front);
                assert(next.last() == fields@[i as int]);
                assert(self@ == before.insert(fields@[i as int].0@, fields@[i as int].1));
                assert(self@ == old(self)@.union_prefer_right(pairs_to_map(next)));
            }
            i += 1;
        }
        proof {
            assert(fields@.subrange(0, fields@.len() as int) == fields@);
            other.lemma_view();
        }
    }

    /// The map that `pairs` denotes: a later pair replaces an earlier one
    /// with the same key.
    pub fn from_pairs(pairs: Vec<(String, MetadataValue)>) -> (r: Metadata)
        ensures
            r@ == pairs_to_map(pairs@),
    {
        let mut r = Metadata::new();
        let mut i: usize = 0;
        proof {
            assert(pairs@.subrange(0, 0) == Seq::<(String, MetadataValue)>::empty());
        }
        while i < pairs.len()
            invariant
                i <= pairs.len(),
                r@ == pairs_to_map(pairs@.subrange(0, i as int)),
            decreases pairs.len() - i,
        {
            r.insert(pairs[i].0.clone(), pairs[i].1.clone());
            proof {
                let next = pairs@.subrange(0, i + 1);
                assert(next.drop_last() == pairs@.subrange(0, i as int));
                assert(next.last() == pairs@[i as int]);
            }
            i += 1;
        }
        proof {
            assert(pairs@.subrange(0, pairs@.len() as int) == pairs@);
        }
        r
    }
}

impl Clone for Metadata {
    fn clone(&self) -> (r: Metadata)
        ensures
            r@ == self@,
            r.fields() == self.fields(),
    {
        proof {
            use_type_invariant(self);
        }
        let mut entries: Vec<(String, MetadataValue)> = Vec::new();
        let mut i: usize = 0;
        while i < self.entries.len()
            invariant
                i <= self.entries.len(),
                entries@ == self.entries@.subrange(0, i as int),
            decreases self.entries.len() - i,
        {
            entries.push((self.entries[i].0.clone(), self.entries[i].1.clone()));
            proof {
                assert(entries@ == self.entries@.subrange(0, i + 1));
            }
            i += 1;
        }
        proof {
            assert(self.entries@.subrange(0, self.entries@.len() as int) == self.entries@);
        }
        Metadata { entries }
    }
}

/// One stored vector: its identifier, its components as IEEE-754
/// single-precision bit patterns, and its metadata.
#[derive(Debug)]
pub struct VectorEntry {
    pub id: String,
    pub embedding: Vec<u32>,
    pub metadata: Metadata,
}

/// A `VectorEntry` as plain values.
pub struct VectorEntryView {
    pub id: Seq<char>,
    pub embedding: Seq<u32>,
    pub metadata: Map<Seq<char>, MetadataValue>,
}

impl View for VectorEntry {
    type V = VectorEntryView;

    open spec fn view(&self) -> VectorEntryView {
        VectorEntryView { id: self.id@, embedding: self.embedding@, metadata: self.metadata@ }
    }
}

impl VectorEntry {
    pub fn new(id: String, embedding: Vec<u32>, metadata: Metadata) -> (r: VectorEntry)
        ensures
            r.id == id,
            r.embedding == embedding,
            r.metadata == metadata,
    {
        VectorEntry { id, embedding, metadata }
    }

    /// The number of components.
    pub fn dimension(&self) -> (r: usize)
        ensures
            r == self.embedding@.len(),
    {
        self.embedding.len()
    }
}

impl Clone for VectorEntry {
    fn clone(&self) -> (r: VectorEntry)
        ensures
            r@ == self@,
    {
        VectorEntry {
            id: self.id.clone(),
            embedding: self.embedding.clone(),
            metadata: self.metadata.clone(),
        }
    }
}

/// The first position at which `key` stands in `pairs`.
fn position_of(pairs: &Vec<(String, MetadataValue)>, key: &String) -> (r: Option<usize>)
    ensures
        match r {
            Some(i) => i < pairs.len() && pairs@[i as int].0@ == key@,
            None => forall|j: int| 0 <= j < pairs.len() ==> (#[trigger] pairs@[j]).0@ != key@,
        },
{
    let mut i: usize = 0;
    while i < pairs.len()
        invariant
            i <= pairs.len(),
            forall|j: int| 0 <= j < i ==> (#[trigger] pairs@[j]).0@ != key@,
        decreases pairs.len() - i,
    {
        if pairs[i].0 == *key {
            return Some(i);
        }
        i += 1;
    }
    None
}

} // verus!
