//! The parity rule of `is_solvable` is kept by every move: a position the
//! rule rejects can never reach the solved layout.
use super::grid::{
    lemma_cell_row_col, lemma_first_zero, lemma_first_zero_single, lemma_goal_single_blank,
    lemma_move_targets, lemma_swap_single_blank, lemma_targets_from_contains,
};
use super::{
    abs_diff, blank_row_from_bottom, dir_target, first_zero, goal_cells, is_walk,
    move_targets, moves_of, nonzero_tiles, one_move, reachable, side_in_range, single_blank,
    solvable, solvable_in_range, swap_cells,
};
use crate::inversions::{
    count_greater, cross, inversions, lemma_cross_permutation, lemma_inversions_concat,
    lemma_sorted_no_inversions, sorted,
};
use vstd::prelude::*;

verus! {

/// No tile other than the blank occurs twice.
pub open spec fn distinct_tiles(s: Seq<u8>) -> bool {
    forall|i: int, j: int| 0 <= i < j < s.len() && s[i] == s[j] ==> s[i] == 0
}

/// The non-blank tiles of a concatenation are those of each part.
pub proof fn lemma_nonzero_concat(a: Seq<u8>, b: Seq<u8>)
    ensures
        nonzero_tiles(a + b) == nonzero_tiles(a) + nonzero_tiles(b),
    decreases b.len(),
{
    if b.len() == 0 {
        assert(a + b =~= a);
        assert(nonzero_tiles(a) + nonzero_tiles(b) =~= nonzero_tiles(a));
    } else {
        lemma_nonzero_concat(a, b.drop_last());
        assert((a + b).drop_last() =~= a + b.drop_last());
        assert((a + b).last() == b.last());
        if b.last() != 0 {
            assert(nonzero_tiles(a) + nonzero_tiles(b) =~= (nonzero_tiles(a) + nonzero_tiles(
                b.drop_last(),
            )).push(b.last()));
        }
    }
}

/// A sequence without a blank is its own non-blank tiles.
pub proof fn lemma_nonzero_all(s: Seq<u8>)
    requires
        forall|i: int| 0 <= i < s.len() ==> s[i] != 0,
    ensures
        nonzero_tiles(s) == s,
    decreases s.len(),
{
    if s.len() > 0 {
        lemma_nonzero_all(s.drop_last());
        assert(s.drop_last().push(s.last()) =~= s);
    }
}

/// A single-entry sequence has no inversions.
proof fn lemma_inversions_single(x: u8)
    ensures
        inversions(seq![x]) == 0,
{
    let e = Seq::<u8>::empty();
    assert(seq![x].drop_last() =~= e);
    assert(inversions(e) == 0);
    assert(count_greater(e, x) == 0);
}

/// An entry alone exceeds `y` once or not at all.
proof fn lemma_count_greater_single(x: u8, y: u8)
    ensures
        count_greater(seq![x], y) == if x > y {
            1nat
        } else {
            0nat
        },
{
    let e = Seq::<u8>::empty();
    assert(seq![x].drop_last() =~= e);
    assert(count_greater(e, y) == 0);
}

/// Against an entry `x` it never equals, every entry of `m` is either
/// smaller or greater.
proof fn lemma_cross_split(m: Seq<u8>, x: u8)
    requires
        forall|i: int| 0 <= i < m.len() ==> m[i] != x,
    ensures
        cross(seq![x], m) + count_greater(m, x) == m.len(),
    decreases m.len(),
{
    if m.len() > 0 {
        lemma_cross_split(m.drop_last(), x);
        lemma_count_greater_single(x, m.last());
    }
}

/// Moving `x` from after the block `m` to before it changes the number of
/// inversions by the length of `m`, modulo two.
proof fn lemma_move_across_parity(a: Seq<u8>, m: Seq<u8>, x: u8, c: Seq<u8>)
    requires
        forall|i: int| 0 <= i < m.len() ==> m[i] != x,
    ensures
        (inversions(a + (seq![x] + m) + c) + inversions(a + (m + seq![x]) + c) + m.len()) % 2
            == 0,
{
    let p = seq![x] + m;
    let q = m + seq![x];
    vstd::seq_lib::lemma_seq_union_to_multiset_commutative(seq![x], m);
    vstd::seq_lib::lemma_multiset_commutative(a, p);
    vstd::seq_lib::lemma_multiset_commutative(a, q);
    lemma_inversions_concat(a + p, c);
    lemma_inversions_concat(a + q, c);
    lemma_inversions_concat(a, p);
    lemma_inversions_concat(a, q);
    lemma_cross_permutation(a, p, a, q);
    lemma_cross_permutation(a + p, c, a + q, c);
    lemma_inversions_concat(seq![x], m);
    lemma_inversions_concat(m, seq![x]);
    lemma_inversions_single(x);
    assert(seq![x].drop_last() =~= Seq::<u8>::empty());
    assert(cross(m, Seq::<u8>::empty()) == 0);
    assert(cross(m, seq![x]) == count_greater(m, x));
    lemma_cross_split(m, x);
}

/// The non-blank tiles of `s` when the cells between `lo` and `hi` and the
/// rest are blank-free, except one blank at `lo` or at `hi`.
proof fn lemma_nonzero_layout(s: Seq<u8>, lo: int, hi: int, blank_at_lo: bool)
    requires
        0 <= lo < hi < s.len(),
        single_blank(s, (if blank_at_lo { lo } else { hi }) as nat),
    ensures
        nonzero_tiles(s) == if blank_at_lo {
            s.take(lo) + (s.subrange(lo + 1, hi) + seq![s[hi]]) + s.skip(hi + 1)
        } else {
            s.take(lo) + (seq![s[lo]] + s.subrange(lo + 1, hi)) + s.skip(hi + 1)
        },
{
    let a = s.take(lo);
    let m = s.subrange(lo + 1, hi);
    let c = s.skip(hi + 1);
    let lo_cell = seq![s[lo]];
    let hi_cell = seq![s[hi]];
    assert(s =~= a + lo_cell + m + hi_cell + c);
    lemma_nonzero_all(a);
    lemma_nonzero_all(m);
    lemma_nonzero_all(c);
    lemma_nonzero_concat(a + lo_cell + m + hi_cell, c);
    lemma_nonzero_concat(a + lo_cell + m, hi_cell);
    lemma_nonzero_concat(a + lo_cell, m);
    lemma_nonzero_concat(a, lo_cell);
    assert(lo_cell.drop_last() =~= Seq::<u8>::empty());
    assert(hi_cell.drop_last() =~= Seq::<u8>::empty());
    assert(nonzero_tiles(Seq::<u8>::empty()) =~= Seq::<u8>::empty());
    if blank_at_lo {
        assert(nonzero_tiles(lo_cell) =~= Seq::<u8>::empty());
        lemma_nonzero_all(hi_cell);
        assert(nonzero_tiles(s) =~= a + (m + hi_cell) + c);
    } else {
        assert(nonzero_tiles(hi_cell) =~= Seq::<u8>::empty());
        lemma_nonzero_all(lo_cell);
        assert(nonzero_tiles(s) =~= a + (lo_cell + m) + c);
    }
}

/// Swapping the blank with any tile changes the inversions of the non-blank
/// tiles by one less than the distance between the two cells, modulo two.
proof fn lemma_swap_blank_parity(cells: Seq<u8>, e: int, t: int)
    requires
        0 <= e,
        single_blank(cells, e as nat),
        distinct_tiles(cells),
        0 <= t < cells.len(),
        t != e,
    ensures
        (inversions(nonzero_tiles(swap_cells(cells, e, t))) + inversions(nonzero_tiles(cells))
            + abs_diff(e, t) - 1) % 2 == 0,
{
    let s = swap_cells(cells, e, t);
    lemma_swap_single_blank(cells, e, t);
    let lo = if e < t { e } else { t };
    let hi = if e < t { t } else { e };
    assert(s.take(lo) =~= cells.take(lo));
    assert(s.subrange(lo + 1, hi) =~= cells.subrange(lo + 1, hi));
    assert(s.skip(hi + 1) =~= cells.skip(hi + 1));
    let a = cells.take(lo);
    let m = cells.subrange(lo + 1, hi);
    let c = cells.skip(hi + 1);
    let x = cells[t];
    assert forall|i: int| 0 <= i < m.len() implies m[i] != x by {
        assert(m[i] == cells[lo + 1 + i]);
        if m[i] == x {
            if lo + 1 + i < t {
                assert(cells[lo + 1 + i] == cells[t]);
            } else {
                assert(cells[t] == cells[lo + 1 + i]);
            }
        }
    }
    lemma_move_across_parity(a, m, x, c);
    if e < t {
        lemma_nonzero_layout(cells, lo, hi, true);
        lemma_nonzero_layout(s, lo, hi, false);
    } else {
        lemma_nonzero_layout(cells, lo, hi, false);
        lemma_nonzero_layout(s, lo, hi, true);
    }
}

/// The parity rule gives the same verdict after any move of a position with
/// distinct tiles.
pub proof fn lemma_move_keeps_solvable(n: nat, cells: Seq<u8>, blank: nat, t: int)
    requires
        n >= 1,
        cells.len() == n * n,
        single_blank(cells, blank),
        distinct_tiles(cells),
        move_targets(n as int, blank as int).contains(t),
    ensures
        solvable(n, swap_cells(cells, blank as int, t), t as nat) == solvable(n, cells, blank),
{
    let e = blank as int;
    let ni = n as int;
    lemma_move_targets(ni, e);
    lemma_swap_blank_parity(cells, e, t);
    lemma_targets_from_contains(ni, e, 0, t);
    let k = choose|k: int| 0 <= k < 4 && #[trigger] dir_target(ni, e, k) == Some(t);
    lemma_cell_row_col(ni, e);
    let r = e / ni;
    let c = e % ni;
    assert((r - 1) * ni + c == e - ni && (r + 1) * ni + c == e + ni) by (nonlinear_arith)
        requires
            e == r * ni + c,
    ;
    if k == 0 {
        vstd::arithmetic::div_mod::lemma_fundamental_div_mod_converse(t, ni, r - 1, c);
    } else if k == 1 {
        vstd::arithmetic::div_mod::lemma_fundamental_div_mod_converse(t, ni, r + 1, c);
    } else if k == 2 {
        vstd::arithmetic::div_mod::lemma_fundamental_div_mod_converse(t, ni, r, c - 1);
    } else {
        vstd::arithmetic::div_mod::lemma_fundamental_div_mod_converse(t, ni, r, c + 1);
    }
    let q = ni / 2;
    let b = ni % 2;
    assert(ni * ni == 2 * (2 * q * q + 2 * q * b) + b * b) by (nonlinear_arith)
        requires
            ni == 2 * q + b,
    ;
    assert(b * b == b) by (nonlinear_arith)
        requires
            0 <= b < 2,
    ;
}

/// The solved layout satisfies the parity rule when every tile number fits
/// in a byte.
pub proof fn lemma_goal_solvable(n: nat)
    requires
        n >= 1,
        n * n <= 256,
    ensures
        solvable(n, goal_cells(n), (n * n - 1) as nat),
{
    let g = goal_cells(n);
    let last = n * n - 1;
    lemma_goal_single_blank(n);
    let front = g.take(last as int);
    assert(g =~= front + seq![0u8]);
    assert(seq![0u8].drop_last() =~= Seq::<u8>::empty());
    assert(nonzero_tiles(Seq::<u8>::empty()) =~= Seq::<u8>::empty());
    lemma_nonzero_concat(front, seq![0u8]);
    lemma_nonzero_all(front);
    assert(nonzero_tiles(g) =~= front);
    assert(sorted(front));
    lemma_sorted_no_inversions(front);
    assert(last / (n as int) == n - 1) by (nonlinear_arith)
        requires
            last == n * n - 1,
            n >= 1,
    {
        vstd::arithmetic::div_mod::lemma_fundamental_div_mod_converse(
            last as int,
            n as int,
            n - 1,
            n - 1,
        );
    }
    assert(blank_row_from_bottom(n, last as nat) == 1);
}

/// Along a walk from a position with one blank and distinct tiles, every
/// position keeps those and the parity rule's verdict.
pub proof fn lemma_walk_keeps_solvable(n: nat, w: Seq<Seq<u8>>, i: int)
    requires
        n >= 1,
        is_walk(n, w),
        w[0].len() == n * n,
        single_blank(w[0], first_zero(w[0])),
        distinct_tiles(w[0]),
        0 <= i < w.len(),
    ensures
        w[i].len() == n * n,
        single_blank(w[i], first_zero(w[i])),
        distinct_tiles(w[i]),
        solvable(n, w[i], first_zero(w[i])) == solvable(n, w[0], first_zero(w[0])),
    decreases i,
{
    if i > 0 {
        lemma_walk_keeps_solvable(n, w, i - 1);
        let a = w[i - 1];
        assert(one_move(n, a, w[i]));
        let e = first_zero(a) as int;
        let ts = move_targets(n as int, e);
        lemma_move_targets(n as int, e);
        let j = choose|j: int| 0 <= j < moves_of(n, a).len() && #[trigger] moves_of(n, a)[j] == w[i];
        let t = ts[j];
        assert(ts.contains(t));
        assert(w[i] == swap_cells(a, e, t));
        lemma_swap_single_blank(a, e, t);
        lemma_first_zero_single(w[i], t as nat);
        lemma_move_keeps_solvable(n, a, first_zero(a), t);
        let s = w[i];
        assert forall|p: int, q: int| 0 <= p < q < s.len() && s[p] == s[q] implies s[p] == 0 by {
            let pp = if p == e { t } else if p == t { e } else { p };
            let qq = if q == e { t } else if q == t { e } else { q };
            assert(s[p] == a[pp] && s[q] == a[qq]);
            if pp < qq {
                assert(a[pp] == a[qq]);
            } else {
                assert(a[qq] == a[pp]);
            }
        }
    }
}

/// A position with one blank and distinct tiles that the parity rule
/// rejects can never reach the solved layout.
pub proof fn lemma_unsolvable_unreachable(n: nat, cells: Seq<u8>)
    requires
        n >= 1,
        n * n <= 256,
        cells.len() == n * n,
        single_blank(cells, first_zero(cells)),
        distinct_tiles(cells),
        !solvable(n, cells, first_zero(cells)),
    ensures
        !reachable(n, cells, goal_cells(n)),
{
    if reachable(n, cells, goal_cells(n)) {
        let w = choose|w: Seq<Seq<u8>>| is_walk(n, w) && w[0] == cells && w.last() == goal_cells(n);
        lemma_walk_keeps_solvable(n, w, w.len() - 1);
        lemma_goal_single_blank(n);
        lemma_first_zero_single(goal_cells(n), (n * n - 1) as nat);
        lemma_goal_solvable(n);
    }
}

/// No more than every earlier entry exceeds `x`.
proof fn lemma_count_greater_len(s: Seq<u8>, x: u8)
    ensures
        count_greater(s, x) <= s.len(),
    decreases s.len(),
{
    if s.len() > 0 {
        lemma_count_greater_len(s.drop_last(), x);
    }
}

/// A sequence has at most one inversion per pair of entries.
proof fn lemma_inversions_pairs(s: Seq<u8>)
    ensures
        2 * inversions(s) <= s.len() * (s.len() - 1),
    decreases s.len(),
{
    if s.len() > 0 {
        let p = s.drop_last();
        lemma_inversions_pairs(p);
        lemma_count_greater_len(p, s.last());
        assert(p.len() * (p.len() - 1) + 2 * p.len() == s.len() * (s.len() - 1)) by (nonlinear_arith)
            requires
                s.len() == p.len() + 1,
        ;
    }
}

/// Keeping the non-blank tiles never lengthens a sequence.
proof fn lemma_nonzero_len(s: Seq<u8>)
    ensures
        nonzero_tiles(s).len() <= s.len(),
    decreases s.len(),
{
    if s.len() > 0 {
        lemma_nonzero_len(s.drop_last());
    }
}

/// On a side of at most 255, the counts of the parity rule fit in `u32` and
/// the heuristic's arithmetic fits in `i32`, whatever the tiles.
pub proof fn lemma_small_side_in_range(n: nat, cells: Seq<u8>, blank: nat)
    requires
        1 <= n <= 255,
        cells.len() == n * n,
        blank < n * n,
    ensures
        solvable_in_range(n, cells, blank),
        side_in_range(n),
{
    let t = nonzero_tiles(cells);
    lemma_nonzero_len(cells);
    lemma_inversions_pairs(t);
    let l = t.len();
    assert(n * n <= 65025) by (nonlinear_arith)
        requires
            n <= 255,
    ;
    assert(l * (l - 1) <= 65025 * 65024) by (nonlinear_arith)
        requires
            l <= 65025,
    ;
    assert(2 * n * n * n <= 2 * 255 * 255 * 255) by (nonlinear_arith)
        requires
            n <= 255,
    ;
    assert(0 <= blank as int / n as int) by (nonlinear_arith)
        requires
            n >= 1,
    ;
}

} // verus!
