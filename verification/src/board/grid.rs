//! Facts about the grid model: distances, move targets, swaps, blanks and
//! the Manhattan sum.
use super::{
    dir_target, first_zero, goal_cells, grid_dist, last_pos, manhattan, manhattan_prefix,
    move_targets, moves_of, one_move, single_blank, swap_cells, targets_from, tile_term,
    tiles_at_most,
};
use vstd::prelude::*;

verus! {

/// Row and column of a cell inside the grid are inside the grid.
pub proof fn lemma_cell_row_col(n: int, a: int)
    requires
        n >= 1,
        0 <= a < n * n,
    ensures
        0 <= a / n < n,
        0 <= a % n < n,
        a == (a / n) * n + a % n,
{
    assert(0 <= a / n < n) by (nonlinear_arith)
        requires
            n >= 1,
            0 <= a < n * n,
    ;
    assert(a == (a / n) * n + a % n) by (nonlinear_arith)
        requires
            n >= 1,
    ;
}

/// Two cells of the grid are at most `2(n-1)` apart.
pub proof fn lemma_grid_dist_bound(a: int, b: int, n: int)
    requires
        n >= 1,
        0 <= a < n * n,
        0 <= b < n * n,
    ensures
        0 <= grid_dist(a, b, n) <= 2 * (n - 1),
{
    lemma_cell_row_col(n, a);
    lemma_cell_row_col(n, b);
}

/// `last_pos` is an index of the sequence (or 0 for the empty one).
pub proof fn lemma_last_pos_bound(s: Seq<u8>, t: u8)
    ensures
        0 <= last_pos(s, t),
        s.len() > 0 ==> last_pos(s, t) < s.len(),
    decreases s.len(),
{
    if s.len() > 0 && s.last() != t {
        lemma_last_pos_bound(s.drop_last(), t);
    }
}

/// `last_pos` after appending one element.
pub proof fn lemma_last_pos_push(s: Seq<u8>, x: u8, t: u8)
    ensures
        last_pos(s.push(x), t) == (if x == t { s.len() as int } else { last_pos(s, t) }),
{
    assert(s.push(x).drop_last() =~= s);
}

/// Every distance term is at most `2(n-1)`.
pub proof fn lemma_tile_term_bound(n: nat, cells: Seq<u8>, target: Seq<u8>, i: int)
    requires
        n >= 1,
        cells.len() == n * n,
        target.len() == n * n,
        0 <= i < cells.len(),
    ensures
        0 <= tile_term(n, cells, target, i) <= 2 * (n - 1),
{
    if cells[i] != 0 {
        lemma_last_pos_bound(target, cells[i]);
        lemma_grid_dist_bound(i, last_pos(target, cells[i]), n as int);
    }
}

/// The Manhattan prefix sums are bounded by the number of terms times `2(n-1)`.
pub proof fn lemma_manhattan_prefix_bound(n: nat, cells: Seq<u8>, target: Seq<u8>, k: int)
    requires
        n >= 1,
        cells.len() == n * n,
        target.len() == n * n,
        0 <= k <= cells.len(),
    ensures
        0 <= manhattan_prefix(n, cells, target, k) <= k * (2 * (n - 1)),
    decreases k,
{
    if k > 0 {
        lemma_manhattan_prefix_bound(n, cells, target, k - 1);
        lemma_tile_term_bound(n, cells, target, k - 1);
        assert((k - 1) * (2 * (n - 1)) + 2 * (n - 1) == k * (2 * (n - 1))) by (nonlinear_arith);
    }
}

/// The Manhattan prefix sums grow with the number of terms.
pub proof fn lemma_manhattan_prefix_mono(n: nat, cells: Seq<u8>, target: Seq<u8>, k: int, m: int)
    requires
        0 <= k <= m,
    ensures
        manhattan_prefix(n, cells, target, k) <= manhattan_prefix(n, cells, target, m),
    decreases m - k,
{
    if k < m {
        lemma_manhattan_prefix_mono(n, cells, target, k, m - 1);
        assert(tile_term(n, cells, target, m - 1) >= 0);
    }
}

/// The Manhattan sum of a board is below `2 n^3`.
pub proof fn lemma_manhattan_bound(n: nat, cells: Seq<u8>, target: Seq<u8>)
    requires
        n >= 1,
        cells.len() == n * n,
        target.len() == n * n,
    ensures
        0 <= manhattan(n, cells, target) <= n * n * (2 * (n - 1)),
        manhattan(n, cells, target) + 2 * n <= 2 * n * n * n,
{
    lemma_manhattan_prefix_bound(n, cells, target, cells.len() as int);
    assert(n * n * (2 * (n - 1)) + 2 * n <= 2 * n * n * n) by (nonlinear_arith)
        requires
            n >= 1,
    ;
}

/// The move targets listed from direction `d` on.
pub proof fn lemma_targets_from(n: int, e: int, d: int)
    requires
        n >= 1,
        0 <= e < n * n,
        0 <= d <= 4,
    ensures
        targets_from(n, e, d).len() <= 4 - d,
        forall|i: int|
            0 <= i < targets_from(n, e, d).len() ==> {
                let t = #[trigger] targets_from(n, e, d)[i];
                &&& 0 <= t < n * n
                &&& t != e
                &&& grid_dist(e, t, n) == 1
            },
    decreases 4 - d,
{
    lemma_cell_row_col(n, e);
    if d < 4 {
        lemma_targets_from(n, e, d + 1);
        let r = e / n;
        let c = e % n;
        match dir_target(n, e, d) {
            Some(t) => {
                assert(0 <= t < n * n && t != e && grid_dist(e, t, n) == 1) by {
                    if d == 0 {
                        assert((r - 1) * n + c == e - n) by (nonlinear_arith)
                            requires
                                e == r * n + c,
                        ;
                        assert(0 <= (r - 1) * n) by (nonlinear_arith)
                            requires
                                r >= 1,
                                n >= 1,
                        ;
                        vstd::arithmetic::div_mod::lemma_fundamental_div_mod_converse(
                            e - n,
                            n,
                            r - 1,
                            c,
                        );
                    } else if d == 1 {
                        assert((r + 1) * n + c == e + n) by (nonlinear_arith)
                            requires
                                e == r * n + c,
                        ;
                        assert((r + 1) * n + c < n * n) by (nonlinear_arith)
                            requires
                                r + 1 < n,
                                c < n,
                                n >= 1,
                        ;
                        vstd::arithmetic::div_mod::lemma_fundamental_div_mod_converse(
                            e + n,
                            n,
                            r + 1,
                            c,
                        );
                    } else if d == 2 {
                        vstd::arithmetic::div_mod::lemma_fundamental_div_mod_converse(
                            e - 1,
                            n,
                            r,
                            c - 1,
                        );
                    } else {
                        assert(r * n + c + 1 < n * n) by (nonlinear_arith)
                            requires
                                r < n,
                                c + 1 < n,
                                n >= 1,
                        ;
                        vstd::arithmetic::div_mod::lemma_fundamental_div_mod_converse(
                            e + 1,
                            n,
                            r,
                            c + 1,
                        );
                    }
                }
                assert forall|i: int| 0 <= i < targets_from(n, e, d).len() implies {
                    let t = #[trigger] targets_from(n, e, d)[i];
                    &&& 0 <= t < n * n
                    &&& t != e
                    &&& grid_dist(e, t, n) == 1
                } by {
                    if i > 0 {
                        assert(targets_from(n, e, d)[i] == targets_from(n, e, d + 1)[i - 1]);
                    }
                }
            },
            None => {},
        }
    }
}

/// The move targets of a cell are cells of the grid, distinct from it and adjacent to it.
pub proof fn lemma_move_targets(n: int, e: int)
    requires
        n >= 1,
        0 <= e < n * n,
    ensures
        move_targets(n, e).len() <= 4,
        forall|i: int|
            0 <= i < move_targets(n, e).len() ==> {
                let t = #[trigger] move_targets(n, e)[i];
                &&& 0 <= t < n * n
                &&& t != e
                &&& grid_dist(e, t, n) == 1
            },
{
    lemma_targets_from(n, e, 0);
}

/// `first_zero` finds the first zero.
pub proof fn lemma_first_zero(s: Seq<u8>)
    ensures
        first_zero(s) <= s.len(),
        s.contains(0) <==> first_zero(s) < s.len(),
        first_zero(s) < s.len() ==> s[first_zero(s) as int] == 0,
        forall|j: int| 0 <= j < first_zero(s) ==> s[j] != 0,
    decreases s.len(),
{
    if s.len() > 0 && s[0] != 0 {
        let r = s.drop_first();
        lemma_first_zero(r);
        assert forall|j: int| 0 <= j < first_zero(s) implies s[j] != 0 by {
            if j > 0 {
                assert(s[j] == r[j - 1]);
            }
        }
        if s.contains(0) {
            let k = choose|k: int| 0 <= k < s.len() && s[k] == 0;
            assert(r[k - 1] == 0);
        }
        if r.contains(0) {
            let k = choose|k: int| 0 <= k < r.len() && r[k] == 0;
            assert(s[k + 1] == 0);
        }
    } else if s.len() > 0 {
        assert(s.contains(0)) by {
            assert(s[0] == 0);
        }
    }
}

/// On a puzzle position, the first zero is the blank.
pub proof fn lemma_first_zero_single(s: Seq<u8>, blank: nat)
    requires
        single_blank(s, blank),
    ensures
        first_zero(s) == blank,
        s.contains(0),
{
    lemma_first_zero(s);
    assert(s[blank as int] == 0);
}

/// Moving the blank of a puzzle position to another cell gives a puzzle position.
pub proof fn lemma_swap_single_blank(s: Seq<u8>, e: int, t: int)
    requires
        0 <= e,
        single_blank(s, e as nat),
        0 <= t < s.len(),
        t != e,
    ensures
        single_blank(swap_cells(s, e, t), t as nat),
        swap_cells(s, e, t).len() == s.len(),
{
    let r = swap_cells(s, e, t);
    let u = s.update(e, s[t]);
    assert(u.len() == s.len());
    assert(r.len() == s.len());
    assert(r[t] == 0);
    assert forall|i: int| 0 <= i < r.len() && r[i] == 0 implies i == t by {
        if i != t {
            if i == e {
                assert(r[i] == s[t]);
            } else {
                assert(r[i] == s[i]);
            }
        }
    }
}

/// Swapping keeps every bound on the tiles.
pub proof fn lemma_swap_tiles_at_most(s: Seq<u8>, e: int, t: int, bound: int)
    requires
        tiles_at_most(s, bound),
        0 <= e < s.len(),
        0 <= t < s.len(),
    ensures
        tiles_at_most(swap_cells(s, e, t), bound),
{
}

} // verus!

verus! {

/// Swapping two entries keeps every value the sequence holds.
pub proof fn lemma_swap_contains(s: Seq<u8>, a: int, b: int, x: u8)
    requires
        s.contains(x),
        0 <= a < s.len(),
        0 <= b < s.len(),
    ensures
        swap_cells(s, a, b).contains(x),
{
    let i = choose|i: int| 0 <= i < s.len() && s[i] == x;
    let r = swap_cells(s, a, b);
    if i == a {
        assert(r[b] == x);
    } else if i == b {
        assert(r[a] == x);
    } else {
        assert(r[i] == x);
    }
}

} // verus!

verus! {

/// The directions from `d` on that lead from `e` to `t`.
pub proof fn lemma_targets_from_contains(n: int, e: int, d: int, t: int)
    requires
        0 <= d <= 4,
        targets_from(n, e, d).contains(t),
    ensures
        exists|k: int| d <= k < 4 && #[trigger] dir_target(n, e, k) == Some(t),
    decreases 4 - d,
{
    if d < 4 {
        match dir_target(n, e, d) {
            Some(u) => {
                if u != t {
                    let i = choose|i: int| 0 <= i < targets_from(n, e, d).len() && #[trigger] targets_from(n, e, d)[i] == t;
                    assert(targets_from(n, e, d + 1)[i - 1] == t);
                    lemma_targets_from_contains(n, e, d + 1, t);
                }
            },
            None => {
                lemma_targets_from_contains(n, e, d + 1, t);
            },
        }
    }
}

/// A direction that leads from `e` to `t` puts `t` among the targets listed from `d` on.
pub proof fn lemma_dir_in_targets(n: int, e: int, d: int, k: int, t: int)
    requires
        0 <= d <= k < 4,
        dir_target(n, e, k) == Some(t),
    ensures
        targets_from(n, e, d).contains(t),
    decreases k - d,
{
    if d == k {
        assert(targets_from(n, e, d)[0] == t);
    } else {
        lemma_dir_in_targets(n, e, d + 1, k, t);
        let i = choose|i: int| 0 <= i < targets_from(n, e, d + 1).len() && #[trigger] targets_from(n, e, d + 1)[i] == t;
        match dir_target(n, e, d) {
            Some(u) => {
                assert(targets_from(n, e, d)[i + 1] == t);
            },
            None => {
                assert(targets_from(n, e, d)[i] == t);
            },
        }
    }
}

/// Moving back: if the blank at `e` can move to `t`, the blank at `t` can move to `e`.
pub proof fn lemma_move_targets_symmetric(n: int, e: int, t: int)
    requires
        n >= 1,
        0 <= e < n * n,
        move_targets(n, e).contains(t),
    ensures
        move_targets(n, t).contains(e),
{
    lemma_targets_from_contains(n, e, 0, t);
    let k = choose|k: int| 0 <= k < 4 && #[trigger] dir_target(n, e, k) == Some(t);
    lemma_cell_row_col(n, e);
    let r = e / n;
    let c = e % n;
    assert((r - 1) * n + c == e - n && (r + 1) * n + c == e + n) by (nonlinear_arith)
        requires
            e == r * n + c,
    ;
    if k == 0 {
        vstd::arithmetic::div_mod::lemma_fundamental_div_mod_converse(e - n, n, r - 1, c);
        assert(dir_target(n, t, 1) == Some(e));
        lemma_dir_in_targets(n, t, 0, 1, e);
    } else if k == 1 {
        vstd::arithmetic::div_mod::lemma_fundamental_div_mod_converse(e + n, n, r + 1, c);
        assert(dir_target(n, t, 0) == Some(e));
        lemma_dir_in_targets(n, t, 0, 0, e);
    } else if k == 2 {
        vstd::arithmetic::div_mod::lemma_fundamental_div_mod_converse(e - 1, n, r, c - 1);
        assert(dir_target(n, t, 3) == Some(e));
        lemma_dir_in_targets(n, t, 0, 3, e);
    } else {
        vstd::arithmetic::div_mod::lemma_fundamental_div_mod_converse(e + 1, n, r, c + 1);
        assert(dir_target(n, t, 2) == Some(e));
        lemma_dir_in_targets(n, t, 0, 2, e);
    }
}

/// Moves can be undone.
pub proof fn lemma_one_move_symmetric(n: nat, a: Seq<u8>, b: Seq<u8>)
    requires
        n >= 1,
        a.len() == n * n,
        single_blank(a, first_zero(a)),
        one_move(n, a, b),
    ensures
        one_move(n, b, a),
        single_blank(b, first_zero(b)),
        b.len() == n * n,
{
    let e = first_zero(a) as int;
    lemma_first_zero(a);
    let ts = move_targets(n as int, e);
    let i = choose|i: int| 0 <= i < moves_of(n, a).len() && #[trigger] moves_of(n, a)[i] == b;
    let t = ts[i];
    lemma_move_targets(n as int, e);
    assert(b == swap_cells(a, e, t));
    lemma_swap_single_blank(a, e, t);
    lemma_first_zero_single(b, t as nat);
    assert(ts.contains(t));
    lemma_move_targets_symmetric(n as int, e, t);
    let ts2 = move_targets(n as int, t);
    let j = choose|j: int| 0 <= j < ts2.len() && #[trigger] ts2[j] == e;
    assert(swap_cells(b, t, e) =~= a);
    assert(moves_of(n, b)[j] == a);
}

/// The solved layout has a single blank, in its last cell, when every tile
/// number fits in a byte.
pub proof fn lemma_goal_single_blank(n: nat)
    requires
        n >= 1,
        n * n <= 256,
    ensures
        single_blank(goal_cells(n), (n * n - 1) as nat),
{
    assert(n * n >= 1) by (nonlinear_arith)
        requires
            n >= 1,
    ;
}

} // verus!
