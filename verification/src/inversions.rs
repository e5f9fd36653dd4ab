//! Merge-sort inversion counting, used to decide solvability.
use vstd::multiset::Multiset;
use vstd::prelude::*;
use crate::board::nonzero_tiles;

verus! {

/// Number of entries of `s` greater than `x`.
pub open spec fn count_greater(s: Seq<u8>, x: u8) -> nat
    decreases s.len(),
{
    if s.len() == 0 {
        0
    } else {
        count_greater(s.drop_last(), x) + if s.last() > x {
            1nat
        } else {
            0nat
        }
    }
}

/// Number of inversions of `s`: pairs `i < j` with `s[i] > s[j]`.
pub open spec fn inversions(s: Seq<u8>) -> nat
    decreases s.len(),
{
    if s.len() == 0 {
        0
    } else {
        inversions(s.drop_last()) + count_greater(s.drop_last(), s.last())
    }
}

/// Number of pairs with the first entry from `l`, the second from `r`, and
/// the first greater than the second.
pub open spec fn cross(l: Seq<u8>, r: Seq<u8>) -> nat
    decreases r.len(),
{
    if r.len() == 0 {
        0
    } else {
        cross(l, r.drop_last()) + count_greater(l, r.last())
    }
}

/// `s` is in non-decreasing order.
pub open spec fn sorted(s: Seq<u8>) -> bool {
    forall|i: int, j: int| 0 <= i <= j < s.len() ==> s[i] <= s[j]
}

/// The empty sequence holds nothing.
proof fn lemma_empty_to_multiset(s: Seq<u8>)
    requires
        s.len() == 0,
    ensures
        s.to_multiset() =~= Multiset::empty(),
{
    s.to_multiset_ensures();
    vstd::multiset::lemma_multiset_empty_len(s.to_multiset());
}

/// Appending an entry no smaller than the last keeps a sequence sorted.
proof fn lemma_sorted_push(s: Seq<u8>, x: u8)
    requires
        sorted(s),
        s.len() > 0 ==> s.last() <= x,
    ensures
        sorted(s.push(x)),
{
    let t = s.push(x);
    assert forall|i: int, j: int| 0 <= i <= j < t.len() implies t[i] <= t[j] by {
        if j == s.len() && i < j {
            assert(s[i] <= s[s.len() - 1]);
        }
    }
}

/// How many entries of `m` are at least `lo` (counting byte values `lo..=255`).
spec fn count_from(m: Multiset<u8>, lo: int) -> nat
    decreases 256 - lo,
{
    if lo >= 256 || lo < 0 {
        0
    } else {
        m.count(lo as u8) + count_from(m, lo + 1)
    }
}

/// `sum over v >= lo of m.count(v) * count_greater(l, v)`.
spec fn weighted_from(m: Multiset<u8>, l: Seq<u8>, lo: int) -> nat
    decreases 256 - lo,
{
    if lo >= 256 || lo < 0 {
        0
    } else {
        m.count(lo as u8) * count_greater(l, lo as u8) + weighted_from(m, l, lo + 1)
    }
}

proof fn lemma_count_from_insert(m: Multiset<u8>, y: u8, lo: int)
    requires
        0 <= lo <= 256,
    ensures
        count_from(m.insert(y), lo) == count_from(m, lo) + if y as int >= lo {
            1nat
        } else {
            0nat
        },
    decreases 256 - lo,
{
    broadcast use vstd::multiset::group_multiset_axioms;

    if lo < 256 {
        lemma_count_from_insert(m, y, lo + 1);
    }
}

proof fn lemma_weighted_from_insert(m: Multiset<u8>, l: Seq<u8>, y: u8, lo: int)
    requires
        0 <= lo <= 256,
    ensures
        weighted_from(m.insert(y), l, lo) == weighted_from(m, l, lo) + if y as int >= lo {
            count_greater(l, y)
        } else {
            0nat
        },
    decreases 256 - lo,
{
    broadcast use vstd::multiset::group_multiset_axioms;

    if lo < 256 {
        lemma_weighted_from_insert(m, l, y, lo + 1);
        let c = m.count(lo as u8);
        let g = count_greater(l, lo as u8);
        if y == lo as u8 {
            assert((c + 1) * g == c * g + g) by (nonlinear_arith);
        }
    }
}

/// `count_greater` only depends on how often each value occurs.
proof fn lemma_count_greater_multiset(s: Seq<u8>, x: u8)
    ensures
        count_greater(s, x) == count_from(s.to_multiset(), x + 1),
    decreases s.len(),
{
    broadcast use vstd::multiset::group_multiset_axioms;

    if s.len() == 0 {
        lemma_empty_to_multiset(s);
        lemma_count_from_empty(x + 1);
    } else {
        let p = s.drop_last();
        lemma_count_greater_multiset(p, x);
        assert(s =~= p.push(s.last()));
        vstd::seq_lib::to_multiset_build(p, s.last());
        lemma_count_from_insert(p.to_multiset(), s.last(), x + 1);
    }
}

proof fn lemma_count_from_empty(lo: int)
    requires
        0 <= lo <= 256,
    ensures
        count_from(Multiset::empty(), lo) == 0,
    decreases 256 - lo,
{
    broadcast use vstd::multiset::group_multiset_axioms;

    if lo < 256 {
        lemma_count_from_empty(lo + 1);
    }
}

proof fn lemma_weighted_from_empty(l: Seq<u8>, lo: int)
    requires
        0 <= lo <= 256,
    ensures
        weighted_from(Multiset::empty(), l, lo) == 0,
    decreases 256 - lo,
{
    broadcast use vstd::multiset::group_multiset_axioms;

    if lo < 256 {
        lemma_weighted_from_empty(l, lo + 1);
    }
}

/// `cross` only depends on how often each value occurs in the right part.
proof fn lemma_cross_multiset(l: Seq<u8>, r: Seq<u8>)
    ensures
        cross(l, r) == weighted_from(r.to_multiset(), l, 0),
    decreases r.len(),
{
    broadcast use vstd::multiset::group_multiset_axioms;

    if r.len() == 0 {
        lemma_empty_to_multiset(r);
        lemma_weighted_from_empty(l, 0);
    } else {
        let p = r.drop_last();
        lemma_cross_multiset(l, p);
        assert(r =~= p.push(r.last()));
        vstd::seq_lib::to_multiset_build(p, r.last());
        lemma_weighted_from_insert(p.to_multiset(), l, r.last(), 0);
    }
}

proof fn lemma_weighted_from_left(m: Multiset<u8>, l1: Seq<u8>, l2: Seq<u8>, lo: int)
    requires
        0 <= lo <= 256,
        l1.to_multiset() == l2.to_multiset(),
    ensures
        weighted_from(m, l1, lo) == weighted_from(m, l2, lo),
    decreases 256 - lo,
{
    if lo < 256 {
        lemma_weighted_from_left(m, l1, l2, lo + 1);
        lemma_count_greater_multiset(l1, lo as u8);
        lemma_count_greater_multiset(l2, lo as u8);
    }
}

/// `cross` is the same for rearrangements of either part.
pub proof fn lemma_cross_permutation(l1: Seq<u8>, r1: Seq<u8>, l2: Seq<u8>, r2: Seq<u8>)
    requires
        l1.to_multiset() == l2.to_multiset(),
        r1.to_multiset() == r2.to_multiset(),
    ensures
        cross(l1, r1) == cross(l2, r2),
{
    lemma_cross_multiset(l1, r1);
    lemma_cross_multiset(l2, r2);
    lemma_weighted_from_left(r1.to_multiset(), l1, l2, 0);
}

/// `count_greater` adds up over a concatenation.
pub proof fn lemma_count_greater_concat(a: Seq<u8>, b: Seq<u8>, x: u8)
    ensures
        count_greater(a + b, x) == count_greater(a, x) + count_greater(b, x),
    decreases b.len(),
{
    if b.len() == 0 {
        assert(a + b =~= a);
    } else {
        lemma_count_greater_concat(a, b.drop_last(), x);
        assert((a + b).drop_last() =~= a + b.drop_last());
    }
}

/// Inversions of a concatenation: those inside each part plus those across.
pub proof fn lemma_inversions_concat(l: Seq<u8>, r: Seq<u8>)
    ensures
        inversions(l + r) == inversions(l) + inversions(r) + cross(l, r),
    decreases r.len(),
{
    if r.len() == 0 {
        assert(l + r =~= l);
    } else {
        let p = r.drop_last();
        lemma_inversions_concat(l, p);
        assert((l + r).drop_last() =~= l + p);
        assert((l + r).last() == r.last());
        lemma_count_greater_concat(l, p, r.last());
    }
}

/// No entry of `s` is greater than `x`.
proof fn lemma_count_greater_none(s: Seq<u8>, x: u8)
    requires
        forall|i: int| 0 <= i < s.len() ==> s[i] <= x,
    ensures
        count_greater(s, x) == 0,
    decreases s.len(),
{
    if s.len() > 0 {
        lemma_count_greater_none(s.drop_last(), x);
    }
}

/// Every entry of `s` is greater than `x`.
proof fn lemma_count_greater_all(s: Seq<u8>, x: u8)
    requires
        forall|i: int| 0 <= i < s.len() ==> s[i] > x,
    ensures
        count_greater(s, x) == s.len(),
    decreases s.len(),
{
    if s.len() > 0 {
        lemma_count_greater_all(s.drop_last(), x);
    }
}

/// A sorted sequence has no inversions.
pub proof fn lemma_sorted_no_inversions(s: Seq<u8>)
    requires
        sorted(s),
    ensures
        inversions(s) == 0,
    decreases s.len(),
{
    if s.len() > 0 {
        lemma_sorted_no_inversions(s.drop_last());
        lemma_count_greater_none(s.drop_last(), s.last());
    }
}

/// In a sorted sequence whose first `i` entries are at most `x` and whose
/// entry `i` exceeds it, exactly the entries from `i` on exceed `x`.
proof fn lemma_count_greater_sorted_split(s: Seq<u8>, i: int, x: u8)
    requires
        sorted(s),
        0 <= i <= s.len(),
        forall|k: int| 0 <= k < i ==> s[k] <= x,
        i < s.len() ==> s[i] > x,
    ensures
        count_greater(s, x) == s.len() - i,
{
    let a = s.take(i);
    let b = s.skip(i);
    assert(s =~= a + b);
    lemma_count_greater_concat(a, b, x);
    lemma_count_greater_none(a, x);
    lemma_count_greater_all(b, x);
}

/// Merges the sorted halves `arr[..mid]` and `arr[mid..]`; returns the
/// number of pairs across the halves that are out of order.
fn merge(arr: &mut [u8], mid: usize) -> (inv: u32)
    requires
        mid <= old(arr)@.len(),
        sorted(old(arr)@.take(mid as int)),
        sorted(old(arr)@.skip(mid as int)),
        cross(old(arr)@.take(mid as int), old(arr)@.skip(mid as int)) <= u32::MAX,
    ensures
        inv == cross(old(arr)@.take(mid as int), old(arr)@.skip(mid as int)),
        sorted(final(arr)@),
        final(arr)@.to_multiset() == old(arr)@.to_multiset(),
        final(arr)@.len() == old(arr)@.len(),
{
    let ghost orig = arr@;
    let mut left: Vec<u8> = Vec::new();
    let mut right: Vec<u8> = Vec::new();
    for x in 0..mid
        invariant
            arr@ == orig,
            mid <= orig.len(),
            left@ == orig.take(x as int),
    {
        left.push(arr[x]);
        proof {
            assert(orig.take(x + 1) =~= orig.take(x as int).push(orig[x as int]));
        }
    }
    for x in mid..arr.len()
        invariant
            arr@ == orig,
            mid <= orig.len(),
            right@ == orig.subrange(mid as int, x as int),
    {
        right.push(arr[x]);
        proof {
            assert(orig.subrange(mid as int, x + 1) =~= orig.subrange(mid as int, x as int).push(
                orig[x as int],
            ));
        }
    }
    proof {
        assert(left@ =~= orig.take(mid as int));
        assert(right@ =~= orig.skip(mid as int));
        assert(orig =~= left@ + right@);
    }
    let ghost l = left@;
    let ghost r = right@;
    let mut i: usize = 0;
    let mut j: usize = 0;
    let mut k: usize = 0;
    let mut inv = 0u32;
    proof {
        lemma_empty_to_multiset(arr@.take(0));
        lemma_empty_to_multiset(l.take(0));
        lemma_empty_to_multiset(r.take(0));
        assert(Multiset::<u8>::empty().add(Multiset::empty()) =~= Multiset::empty());
        assert(r.take(0) =~= Seq::<u8>::empty());
    }
    while i < left.len() && j < right.len()
        invariant
            l == left@,
            r == right@,
            sorted(l),
            sorted(r),
            arr@.len() == l.len() + r.len(),
            cross(l, r) <= u32::MAX,
            i <= l.len(),
            j <= r.len(),
            k == i + j,
            sorted(arr@.take(k as int)),
            arr@.take(k as int).to_multiset() == l.take(i as int).to_multiset().add(
                r.take(j as int).to_multiset(),
            ),
            k > 0 && i < l.len() ==> arr@[k - 1] <= l[i as int],
            k > 0 && j < r.len() ==> arr@[k - 1] <= r[j as int],
            j < r.len() ==> forall|p: int| 0 <= p < i ==> l[p] <= r[j as int],
            inv == cross(l, r.take(j as int)),
        decreases l.len() + r.len() - k,
    {
        let ghost prev = arr@.take(k as int);
        if left[i] <= right[j] {
            arr[k] = left[i];
            proof {
                assert(arr@.take(k + 1) =~= prev.push(l[i as int]));
                lemma_sorted_push(prev, l[i as int]);
                assert(l.take(i + 1) =~= l.take(i as int).push(l[i as int]));
                vstd::seq_lib::to_multiset_build(prev, l[i as int]);
                vstd::seq_lib::to_multiset_build(l.take(i as int), l[i as int]);
            }
            i = i + 1;
        } else {
            proof {
                lemma_count_greater_sorted_split(l, i as int, r[j as int]);
                assert(r.take(j + 1) =~= r.take(j as int).push(r[j as int]));
                assert(r.take(j + 1).drop_last() =~= r.take(j as int));
                lemma_cross_prefix_bound(l, r, j + 1);
            }
            arr[k] = right[j];
            inv = inv + (left.len() - i) as u32;
            proof {
                assert(arr@.take(k + 1) =~= prev.push(r[j as int]));
                lemma_sorted_push(prev, r[j as int]);
                vstd::seq_lib::to_multiset_build(prev, r[j as int]);
                vstd::seq_lib::to_multiset_build(r.take(j as int), r[j as int]);
            }
            j = j + 1;
        }
        k = k + 1;
    }
    while i < left.len()
        invariant
            l == left@,
            r == right@,
            sorted(l),
            arr@.len() == l.len() + r.len(),
            i <= l.len(),
            j <= r.len(),
            i < l.len() ==> j == r.len(),
            k == i + j,
            sorted(arr@.take(k as int)),
            arr@.take(k as int).to_multiset() == l.take(i as int).to_multiset().add(
                r.take(j as int).to_multiset(),
            ),
            k > 0 && i < l.len() ==> arr@[k - 1] <= l[i as int],
            k > 0 && j < r.len() ==> arr@[k - 1] <= r[j as int],
            j < r.len() ==> forall|p: int| 0 <= p < i ==> l[p] <= r[j as int],
            inv == cross(l, r.take(j as int)),
        decreases l.len() - i,
    {
        let ghost prev = arr@.take(k as int);
        arr[k] = left[i];
        proof {
            assert(arr@.take(k + 1) =~= prev.push(l[i as int]));
            lemma_sorted_push(prev, l[i as int]);
            assert(l.take(i + 1) =~= l.take(i as int).push(l[i as int]));
            vstd::seq_lib::to_multiset_build(prev, l[i as int]);
            vstd::seq_lib::to_multiset_build(l.take(i as int), l[i as int]);
        }
        i = i + 1;
        k = k + 1;
    }
    while j < right.len()
        invariant
            l == left@,
            r == right@,
            sorted(r),
            arr@.len() == l.len() + r.len(),
            i == l.len(),
            j <= r.len(),
            k == i + j,
            sorted(arr@.take(k as int)),
            arr@.take(k as int).to_multiset() == l.take(i as int).to_multiset().add(
                r.take(j as int).to_multiset(),
            ),
            k > 0 && j < r.len() ==> arr@[k - 1] <= r[j as int],
            j < r.len() ==> forall|p: int| 0 <= p < i ==> l[p] <= r[j as int],
            inv == cross(l, r.take(j as int)),
        decreases r.len() - j,
    {
        let ghost prev = arr@.take(k as int);
        proof {
            lemma_count_greater_none(l, r[j as int]);
            assert(r.take(j + 1) =~= r.take(j as int).push(r[j as int]));
            assert(r.take(j + 1).drop_last() =~= r.take(j as int));
        }
        arr[k] = right[j];
        proof {
            assert(arr@.take(k + 1) =~= prev.push(r[j as int]));
            lemma_sorted_push(prev, r[j as int]);
            vstd::seq_lib::to_multiset_build(prev, r[j as int]);
            vstd::seq_lib::to_multiset_build(r.take(j as int), r[j as int]);
        }
        j = j + 1;
        k = k + 1;
    }
    proof {
        assert(arr@.take(k as int) =~= arr@);
        assert(l.take(i as int) =~= l);
        assert(r.take(j as int) =~= r);
        vstd::seq_lib::lemma_multiset_commutative(l, r);
    }
    inv
}

/// `cross` against a prefix of `r` is at most `cross` against all of `r`.
proof fn lemma_cross_prefix_bound(l: Seq<u8>, r: Seq<u8>, j: int)
    requires
        0 <= j <= r.len(),
    ensures
        cross(l, r.take(j)) <= cross(l, r),
    decreases r.len() - j,
{
    if j < r.len() {
        lemma_cross_prefix_bound(l, r, j + 1);
        assert(r.take(j + 1).drop_last() =~= r.take(j));
    } else {
        assert(r.take(j) =~= r);
    }
}

/// Merge sort of `arr` that returns its inversions, zeros included.
fn count_all(arr: &mut [u8]) -> (r: u32)
    requires
        inversions(old(arr)@) <= u32::MAX,
    ensures
        r == inversions(old(arr)@),
        sorted(final(arr)@),
        final(arr)@.to_multiset() == old(arr)@.to_multiset(),
        final(arr)@.len() == old(arr)@.len(),
    decreases old(arr)@.len(),
{
    let len = arr.len();
    if len <= 1 {
        proof {
            assert(sorted(arr@));
            lemma_sorted_no_inversions(arr@);
        }
        return 0;
    }
    let mid = len / 2;
    let ghost orig = arr@;
    proof {
        assert(orig =~= orig.take(mid as int) + orig.skip(mid as int));
        lemma_inversions_concat(orig.take(mid as int), orig.skip(mid as int));
    }
    let ghost mut lv: Seq<u8> = Seq::empty();
    let ghost mut rv: Seq<u8> = Seq::empty();
    let (left_inv, right_inv) = {
        let (l, r) = arr.split_at_mut(mid);
        let li = count_all(l);
        let ri = count_all(r);
        proof {
            lv = l@;
            rv = r@;
        }
        (li, ri)
    };
    let ghost halves = arr@;
    proof {
        assert(halves == lv + rv);
        assert(halves.take(mid as int) =~= lv);
        assert(halves.skip(mid as int) =~= rv);
        vstd::seq_lib::lemma_multiset_commutative(lv, rv);
        vstd::seq_lib::lemma_multiset_commutative(orig.take(mid as int), orig.skip(mid as int));
        lemma_cross_permutation(
            orig.take(mid as int),
            orig.skip(mid as int),
            halves.take(mid as int),
            halves.skip(mid as int),
        );
    }
    let merge_inv = merge(arr, mid);
    left_inv + right_inv + merge_inv
}

/// Number of inversions of `s` whose smaller entry is a zero: for each zero,
/// the non-zero entries before it.
pub open spec fn zero_pairs(s: Seq<u8>) -> nat
    decreases s.len(),
{
    if s.len() == 0 {
        0
    } else {
        zero_pairs(s.drop_last()) + if s.last() == 0 {
            count_greater(s.drop_last(), 0)
        } else {
            0nat
        }
    }
}

/// Zeros never count as the greater entry, so dropping them leaves every
/// `count_greater` unchanged.
proof fn lemma_count_greater_nonzero(s: Seq<u8>, x: u8)
    ensures
        count_greater(nonzero_tiles(s), x) == count_greater(s, x),
    decreases s.len(),
{
    if s.len() > 0 {
        lemma_count_greater_nonzero(s.drop_last(), x);
        if s.last() != 0 {
            assert(nonzero_tiles(s).drop_last() =~= nonzero_tiles(s.drop_last()));
        }
    }
}

/// The entries of `s` above zero are its non-zero tiles.
proof fn lemma_count_greater_zero(s: Seq<u8>)
    ensures
        count_greater(s, 0) == nonzero_tiles(s).len(),
    decreases s.len(),
{
    if s.len() > 0 {
        lemma_count_greater_zero(s.drop_last());
    }
}

/// The inversions of `s` split into those among its non-zero tiles and those
/// with a zero.
pub proof fn lemma_inversions_split_zeros(s: Seq<u8>)
    ensures
        inversions(s) == inversions(nonzero_tiles(s)) + zero_pairs(s),
    decreases s.len(),
{
    if s.len() > 0 {
        let t = s.drop_last();
        lemma_inversions_split_zeros(t);
        lemma_count_greater_nonzero(t, s.last());
        if s.last() != 0 {
            assert(nonzero_tiles(s).drop_last() =~= nonzero_tiles(t));
        }
    }
}

/// A sequence with no zero is its own list of non-zero tiles.
pub proof fn lemma_nonzero_tiles_of_zero_free(s: Seq<u8>)
    requires
        forall|i: int| 0 <= i < s.len() ==> s[i] != 0,
    ensures
        nonzero_tiles(s) == s,
    decreases s.len(),
{
    if s.len() > 0 {
        lemma_nonzero_tiles_of_zero_free(s.drop_last());
        assert(s.drop_last().push(s.last()) =~= s);
    }
}

/// `zero_pairs` of a prefix is at most that of the whole sequence.
proof fn lemma_zero_pairs_prefix(s: Seq<u8>, j: int)
    requires
        0 <= j <= s.len(),
    ensures
        zero_pairs(s.take(j)) <= zero_pairs(s),
    decreases s.len() - j,
{
    if j < s.len() {
        lemma_zero_pairs_prefix(s, j + 1);
        assert(s.take(j + 1).drop_last() =~= s.take(j));
    } else {
        assert(s.take(j) =~= s);
    }
}

/// Counting again what `count` left behind changes nothing: a sorted
/// sequence has no inversions among its non-zero tiles, and the only sorted
/// arrangement of its entries is itself.
pub proof fn lemma_count_sorted_again(s: Seq<u8>, r: Seq<u8>)
    requires
        sorted(s),
        sorted(r),
        r.to_multiset() == s.to_multiset(),
    ensures
        inversions(nonzero_tiles(s)) == 0,
        r == s,
{
    lemma_sorted_no_inversions(s);
    lemma_inversions_split_zeros(s);
    let leq = |x: u8, y: u8| x <= y;
    assert(vstd::relations::total_ordering(leq));
    assert(vstd::relations::sorted_by(s, leq));
    assert(vstd::relations::sorted_by(r, leq));
    vstd::seq_lib::lemma_sorted_unique(r, s, leq);
}

/// Merge-sort-based inversion count. Returns number of inversions in `arr`
/// (ignoring zeros). Sorts `arr` in place as a side-effect.
pub fn count(arr: &mut [u8]) -> (r: u32)
    requires
        inversions(old(arr)@) <= u32::MAX,
    ensures
        r == inversions(nonzero_tiles(old(arr)@)),
        sorted(final(arr)@),
        final(arr)@.to_multiset() == old(arr)@.to_multiset(),
        final(arr)@.len() == old(arr)@.len(),
{
    let ghost orig = arr@;
    proof {
        lemma_inversions_split_zeros(orig);
    }
    let mut zp: u32 = 0;
    let mut nonzero: usize = 0;
    let mut j: usize = 0;
    while j < arr.len()
        invariant
            arr@ == orig,
            j <= orig.len(),
            zp == zero_pairs(orig.take(j as int)),
            nonzero == nonzero_tiles(orig.take(j as int)).len(),
            nonzero <= j,
            zero_pairs(orig) <= u32::MAX,
        decreases orig.len() - j,
    {
        proof {
            let p = orig.take(j + 1);
            assert(p.drop_last() =~= orig.take(j as int));
            lemma_count_greater_zero(orig.take(j as int));
            lemma_zero_pairs_prefix(orig, j + 1);
        }
        if arr[j] == 0 {
            zp = zp + nonzero as u32;
        } else {
            nonzero = nonzero + 1;
        }
        j = j + 1;
    }
    proof {
        assert(orig.take(j as int) =~= orig);
    }
    let all = count_all(arr);
    all - zp
}

} // verus!
