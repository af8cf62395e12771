use vstd::prelude::*;
use vstd::relations::{sorted_by, total_ordering};
use vstd::seq_lib::lemma_sorted_unique;

verus! {

/// The sign bit of a single-precision bit pattern.
pub const SINGLE_SIGN: u32 = 0x8000_0000;

/// The bit pattern of positive infinity in IEEE-754 single precision: the
/// largest magnitude that still denotes a number.
pub const SINGLE_INFINITY: u32 = 0x7f80_0000;

/// The rank shared by every NaN pattern: one above positive infinity.
pub const NAN_RANK: i64 = 0x7f80_0001;

/// Where a single-precision bit pattern stands in ascending numeric order.
///
/// Numbers are ranked by their signed magnitude, so that the rank of `a` is
/// below the rank of `b` exactly when the number `a` is below the number
/// `b`; the two zeros share rank 0. Every NaN pattern has the same rank,
/// above all numbers.
pub open spec fn distance_rank(bits: u32) -> int {
    let magnitude: int = if bits >= SINGLE_SIGN {
        bits - SINGLE_SIGN
    } else {
        bits as int
    };
    if magnitude > SINGLE_INFINITY {
        NAN_RANK as int
    } else if bits >= SINGLE_SIGN {
        -magnitude
    } else {
        magnitude
    }
}

/// Computes `distance_rank`.
pub fn rank_of(bits: u32) -> (r: i64)
    ensures
        r == distance_rank(bits),
        -(SINGLE_INFINITY as int) <= r <= NAN_RANK,
{
    let negative = bits >= SINGLE_SIGN;
    let magnitude: u32 = if negative {
        bits - SINGLE_SIGN
    } else {
        bits
    };
    if magnitude > SINGLE_INFINITY {
        NAN_RANK
    } else if negative {
        -(magnitude as i64)
    } else {
        magnitude as i64
    }
}

/// The order of sort keys: by rank, and among equal ranks by position.
pub open spec fn key_leq(a: (i64, usize), b: (i64, usize)) -> bool {
    a.0 < b.0 || (a.0 == b.0 && a.1 <= b.1)
}

/// `key_leq` as a relation value.
pub open spec fn key_order() -> spec_fn((i64, usize), (i64, usize)) -> bool {
    |a: (i64, usize), b: (i64, usize)| key_leq(a, b)
}

/// `key_leq` is a total order.
pub proof fn lemma_key_order_total()
    ensures
        total_ordering(key_order()),
{
    let r = key_order();
    assert(vstd::relations::reflexive(r));
    assert(vstd::relations::antisymmetric(r)) by {
        assert forall|x: (i64, usize), y: (i64, usize)| #[trigger] r(x, y) && #[trigger] r(y, x) implies x == y by {
            assert(x.0 == y.0 && x.1 == y.1);
        }
    }
    assert(vstd::relations::transitive(r));
    assert(vstd::relations::strongly_connected(r));
}

/// The sort keys of a sequence of distances: each distance's rank paired
/// with its position.
pub open spec fn distance_keys(distances: Seq<u32>) -> Seq<(i64, usize)> {
    Seq::new(distances.len(), |i: int| (distance_rank(distances[i]) as i64, i as usize))
}

/// The positions of `distances` from the closest to the farthest. Equal
/// distances keep the order of their positions.
pub open spec fn closest_first(distances: Seq<u32>) -> Seq<usize> {
    distance_keys(distances).sort_by(key_order()).map_values(|k: (i64, usize)| k.1)
}

/// What the order of `closest_first` is: it names every position once,
/// and a position comes before another exactly when its distance ranks
/// lower, or ranks the same and it is the smaller position.
pub proof fn lemma_closest_first(distances: Seq<u32>)
    requires
        distances.len() <= usize::MAX,
    ensures
        closest_first(distances).len() == distances.len(),
        forall|i: int|
            0 <= i < distances.len() ==> (#[trigger] closest_first(distances)[i]) < distances.len(),
        forall|i: int, j: int|
            0 <= i < distances.len() && 0 <= j < distances.len() && i != j ==> (
            #[trigger] closest_first(distances)[i]) != (#[trigger] closest_first(distances)[j]),
        forall|p: usize| p < distances.len() ==> #[trigger] closest_first(distances).contains(p),
        forall|i: int, j: int|
            0 <= i < j < distances.len() ==> key_leq(
                (
                    distance_rank(distances[(#[trigger] closest_first(distances)[i]) as int]) as i64,
                    closest_first(distances)[i],
                ),
                (
                    distance_rank(distances[(#[trigger] closest_first(distances)[j]) as int]) as i64,
                    closest_first(distances)[j],
                ),
            ),
{
    broadcast use vstd::seq_lib::group_to_multiset_ensures;

    let keys = distance_keys(distances);
    let sorted = keys.sort_by(key_order());
    let order = closest_first(distances);
    lemma_key_order_total();
    keys.lemma_sort_by_ensures(key_order());
    lemma_keys_in_range(distances, sorted);
    assert(keys.no_duplicates()) by {
        assert forall|i: int, j: int|
            0 <= i < keys.len() && 0 <= j < keys.len() && i != j implies keys[i] != keys[j] by {
            assert(keys[i].1 == i && keys[j].1 == j);
        }
    }
    keys.lemma_multiset_has_no_duplicates();
    sorted.lemma_multiset_has_no_duplicates_conv();
    assert forall|i: int| 0 <= i < sorted.len() implies (#[trigger] sorted[i]) == keys[sorted[i].1 as int] by {
        assert(sorted.contains(sorted[i]));
        assert(sorted.to_multiset().count(sorted[i]) > 0);
        assert(keys.to_multiset().count(sorted[i]) > 0);
        assert(keys.contains(sorted[i]));
        let j = choose|j: int| 0 <= j < keys.len() && keys[j] == sorted[i];
        assert(keys[j].1 == j);
    }
    assert forall|i: int, j: int|
        0 <= i < distances.len() && 0 <= j < distances.len() && i != j implies (#[trigger] order[i]) != (
    #[trigger] order[j]) by {
        assert(sorted[i] != sorted[j]);
        assert(sorted[i] == keys[sorted[i].1 as int]);
        assert(sorted[j] == keys[sorted[j].1 as int]);
    }
    assert forall|p: usize| p < distances.len() implies #[trigger] order.contains(p) by {
        assert(keys.contains(keys[p as int]));
        assert(keys.to_multiset().count(keys[p as int]) > 0);
        assert(sorted.to_multiset().count(keys[p as int]) > 0);
        assert(sorted.contains(keys[p as int]));
        let i = choose|i: int| 0 <= i < sorted.len() && sorted[i] == keys[p as int];
        assert(order[i] == p);
    }
    assert forall|i: int, j: int| 0 <= i < j < distances.len() implies key_leq(
        (distance_rank(distances[(#[trigger] order[i]) as int]) as i64, order[i]),
        (distance_rank(distances[(#[trigger] order[j]) as int]) as i64, order[j]),
    ) by {
        assert(key_order()(sorted[i], sorted[j]));
        assert(sorted[i] == keys[sorted[i].1 as int]);
        assert(sorted[j] == keys[sorted[j].1 as int]);
    }
}

/// Whether `a` comes no later than `b` in the order of sort keys.
fn key_before(a: (i64, usize), b: (i64, usize)) -> (r: bool)
    ensures
        r == key_leq(a, b),
{
    a.0 < b.0 || (a.0 == b.0 && a.1 <= b.1)
}

/// Merges two ascending runs of keys into one.
fn merge_runs(left: &Vec<(i64, usize)>, right: &Vec<(i64, usize)>) -> (r: Vec<(i64, usize)>)
    requires
        sorted_by(left@, key_order()),
        sorted_by(right@, key_order()),
    ensures
        sorted_by(r@, key_order()),
        r@.to_multiset() == left@.to_multiset().add(right@.to_multiset()),
{
    broadcast use {vstd::seq_lib::group_to_multiset_ensures, vstd::multiset::group_multiset_axioms};

    let mut merged: Vec<(i64, usize)> = Vec::new();
    let mut i: usize = 0;
    let mut j: usize = 0;
    proof {
        assert(left@.take(0) =~= Seq::<(i64, usize)>::empty());
        assert(right@.take(0) =~= Seq::<(i64, usize)>::empty());
        assert(merged@.to_multiset() =~= left@.take(0).to_multiset().add(
            right@.take(0).to_multiset(),
        ));
    }
    while i < left.len() || j < right.len()
        invariant
            i <= left@.len(),
            j <= right@.len(),
            sorted_by(left@, key_order()),
            sorted_by(right@, key_order()),
            sorted_by(merged@, key_order()),
            merged@.to_multiset() == left@.take(i as int).to_multiset().add(
                right@.take(j as int).to_multiset(),
            ),
            forall|k: int|
                0 <= k < merged@.len() && i < left@.len() ==> key_leq(
                    #[trigger] merged@[k],
                    left@[i as int],
                ),
            forall|k: int|
                0 <= k < merged@.len() && j < right@.len() ==> key_leq(
                    #[trigger] merged@[k],
                    right@[j as int],
                ),
        decreases left@.len() - i + right@.len() - j,
    {
        let ghost before = merged@;
        let from_left = if i < left.len() && j < right.len() {
            key_before(left[i], right[j])
        } else {
            i < left.len()
        };
        if from_left {
            let e = left[i];
            merged.push(e);
            proof {
                assert(left@.take(i + 1) =~= left@.take(i as int).push(e));
                assert(merged@ =~= before.push(e));
                vstd::seq_lib::to_multiset_build(before, e);
                vstd::seq_lib::to_multiset_build(left@.take(i as int), e);
                assert(merged@.to_multiset() =~= left@.take(i + 1).to_multiset().add(
                    right@.take(j as int).to_multiset(),
                ));
                assert(sorted_by(merged@, key_order())) by {
                    assert forall|a: int, b: int| 0 <= a < b < merged@.len() implies #[trigger] key_order()(
                        merged@[a],
                        merged@[b],
                    ) by {
                        if b < before.len() {
                            assert(key_order()(before[a], before[b]));
                        } else {
                            assert(key_leq(before[a], e));
                        }
                    }
                }
                assert forall|k: int| 0 <= k < merged@.len() && i + 1 < left@.len() implies key_leq(
                    #[trigger] merged@[k],
                    left@[i + 1],
                ) by {
                    assert(key_order()(left@[i as int], left@[i + 1]));
                    if k < before.len() {
                        assert(key_leq(before[k], e));
                    }
                }
                assert forall|k: int| 0 <= k < merged@.len() && j < right@.len() implies key_leq(
                    #[trigger] merged@[k],
                    right@[j as int],
                ) by {
                    if k < before.len() {
                        assert(key_leq(before[k], right@[j as int]));
                    }
                }
            }
            i += 1;
        } else {
            let e = right[j];
            merged.push(e);
            proof {
                assert(right@.take(j + 1) =~= right@.take(j as int).push(e));
                assert(merged@ =~= before.push(e));
                vstd::seq_lib::to_multiset_build(before, e);
                vstd::seq_lib::to_multiset_build(right@.take(j as int), e);
                assert(merged@.to_multiset() =~= left@.take(i as int).to_multiset().add(
                    right@.take(j + 1).to_multiset(),
                ));
                assert(sorted_by(merged@, key_order())) by {
                    assert forall|a: int, b: int| 0 <= a < b < merged@.len() implies #[trigger] key_order()(
                        merged@[a],
                        merged@[b],
                    ) by {
                        if b < before.len() {
                            assert(key_order()(before[a], before[b]));
                        } else {
                            assert(key_leq(before[a], e));
                        }
                    }
                }
                assert forall|k: int| 0 <= k < merged@.len() && j + 1 < right@.len() implies key_leq(
                    #[trigger] merged@[k],
                    right@[j + 1],
                ) by {
                    assert(key_order()(right@[j as int], right@[j + 1]));
                    if k < before.len() {
                        assert(key_leq(before[k], e));
                    }
                }
                assert forall|k: int| 0 <= k < merged@.len() && i < left@.len() implies key_leq(
                    #[trigger] merged@[k],
                    left@[i as int],
                ) by {
                    if k < before.len() {
                        assert(key_leq(before[k], left@[i as int]));
                    }
                }
            }
            j += 1;
        }
    }
    proof {
        assert(left@.take(left@.len() as int) =~= left@);
        assert(right@.take(right@.len() as int) =~= right@);
    }
    merged
}

/// The keys from `lo` up to `hi`, in ascending order.
fn sort_range(keys: &Vec<(i64, usize)>, lo: usize, hi: usize) -> (r: Vec<(i64, usize)>)
    requires
        lo <= hi <= keys@.len(),
    ensures
        sorted_by(r@, key_order()),
        r@.to_multiset() == keys@.subrange(lo as int, hi as int).to_multiset(),
    decreases hi - lo,
{
    if hi - lo <= 1 {
        let mut run: Vec<(i64, usize)> = Vec::new();
        if hi - lo == 1 {
            run.push(keys[lo]);
        }
        assert(run@ =~= keys@.subrange(lo as int, hi as int));
        run
    } else {
        let mid = lo + (hi - lo) / 2;
        let left = sort_range(keys, lo, mid);
        let right = sort_range(keys, mid, hi);
        proof {
            assert(keys@.subrange(lo as int, hi as int) =~= keys@.subrange(lo as int, mid as int)
                + keys@.subrange(mid as int, hi as int));
            vstd::seq_lib::lemma_multiset_commutative(
                keys@.subrange(lo as int, mid as int),
                keys@.subrange(mid as int, hi as int),
            );
        }
        merge_runs(&left, &right)
    }
}

/// The keys in ascending order: a merge sort.
fn sort_keys(keys: &Vec<(i64, usize)>) -> (r: Vec<(i64, usize)>)
    ensures
        sorted_by(r@, key_order()),
        r@.to_multiset() == keys@.to_multiset(),
{
    assert(keys@.subrange(0, keys@.len() as int) =~= keys@);
    sort_range(keys, 0, keys.len())
}

/// Orders the positions of `distances` from the closest to the farthest.
pub fn order_by_distance(distances: &Vec<u32>) -> (order: Vec<usize>)
    ensures
        order@ == closest_first(distances@),
        order@.len() == distances@.len(),
        forall|i: int| 0 <= i < order@.len() ==> (#[trigger] order@[i]) < distances@.len(),
{
    let mut keys: Vec<(i64, usize)> = Vec::new();
    let mut i: usize = 0;
    while i < distances.len()
        invariant
            i <= distances.len(),
            keys@.len() == i,
            forall|j: int| 0 <= j < i ==> keys@[j] == distance_keys(distances@)[j],
        decreases distances.len() - i,
    {
        keys.push((rank_of(distances[i]), i));
        i += 1;
    }
    assert(keys@ == distance_keys(distances@));
    let keys = sort_keys(&keys);
    proof {
        lemma_key_order_total();
        distance_keys(distances@).lemma_sort_by_ensures(key_order());
        lemma_sorted_unique(keys@, distance_keys(distances@).sort_by(key_order()), key_order());
        lemma_keys_in_range(distances@, keys@);
    }
    let mut order: Vec<usize> = Vec::new();
    let mut j: usize = 0;
    while j < keys.len()
        invariant
            j <= keys.len(),
            order@.len() == j,
            forall|t: int| 0 <= t < j ==> order@[t] == keys@[t].1,
        decreases keys.len() - j,
    {
        order.push(keys[j].1);
        j += 1;
    }
    assert(order@ == keys@.map_values(|k: (i64, usize)| k.1));
    order
}

/// Every key of a rearrangement of `distance_keys` names a position of the
/// distances.
proof fn lemma_keys_in_range(distances: Seq<u32>, keys: Seq<(i64, usize)>)
    requires
        distances.len() <= usize::MAX,
        keys.to_multiset() == distance_keys(distances).to_multiset(),
    ensures
        keys.len() == distances.len(),
        forall|i: int| 0 <= i < keys.len() ==> (#[trigger] keys[i]).1 < distances.len(),
{
    broadcast use vstd::seq_lib::group_to_multiset_ensures;

    let base = distance_keys(distances);
    assert(keys.len() == keys.to_multiset().len());
    assert(base.len() == base.to_multiset().len());
    assert forall|i: int| 0 <= i < keys.len() implies (#[trigger] keys[i]).1 < distances.len() by {
        assert(keys.contains(keys[i]));
        assert(keys.to_multiset().count(keys[i]) > 0);
        assert(base.to_multiset().count(keys[i]) > 0);
        assert(base.contains(keys[i]));
        let j = choose|j: int| 0 <= j < base.len() && base[j] == keys[i];
        assert(base[j].1 == j);
    }
}

} // verus!
