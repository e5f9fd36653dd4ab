//! What a single move does: to the Manhattan heuristic, to the bucket a
//! neighbour lands in, and to reachability.
use super::grid::{
    lemma_cell_row_col, lemma_first_zero, lemma_first_zero_single, lemma_manhattan_bound,
    lemma_move_targets, lemma_move_targets_symmetric, lemma_one_move_symmetric,
    lemma_swap_single_blank, lemma_targets_from_contains,
};
use super::parity::distinct_tiles;
use super::{
    Board, Neighbor,
    dir_target, first_zero, grid_dist, is_walk, manhattan, manhattan_prefix, move_delta,
    move_targets, moves_of, one_move, reachable, side_in_range, single_blank, swap_cells,
    tile_term,
};
use vstd::prelude::*;

verus! {

/// Swapping the blank at `e` with cell `t` changes the first `k` distance
/// terms only at `e` (the moved tile's new term) and at `t` (its old term).
proof fn lemma_swap_prefix(n: nat, cells: Seq<u8>, target: Seq<u8>, e: int, t: int, k: int)
    requires
        0 <= e,
        single_blank(cells, e as nat),
        0 <= t < cells.len(),
        t != e,
        0 <= k <= cells.len(),
    ensures
        manhattan_prefix(n, swap_cells(cells, e, t), target, k) == manhattan_prefix(
            n,
            cells,
            target,
            k,
        ) + (if e < k {
            tile_term(n, swap_cells(cells, e, t), target, e)
        } else {
            0
        }) - (if t < k {
            tile_term(n, cells, target, t)
        } else {
            0
        }),
    decreases k,
{
    if k > 0 {
        lemma_swap_prefix(n, cells, target, e, t, k - 1);
        let s = swap_cells(cells, e, t);
        let i = k - 1;
        if i != e && i != t {
            assert(s[i] == cells[i]);
        }
    }
}

/// Adjacent cells are one step closer to or farther from any cell `p`.
proof fn lemma_adjacent_dist(n: int, e: int, t: int, p: int)
    requires
        n >= 1,
        0 <= e < n * n,
        move_targets(n, e).contains(t),
    ensures
        grid_dist(e, p, n) - grid_dist(t, p, n) == 1 || grid_dist(e, p, n) - grid_dist(t, p, n)
            == -1,
{
    lemma_targets_from_contains(n, e, 0, t);
    let k = choose|k: int| 0 <= k < 4 && #[trigger] dir_target(n, e, k) == Some(t);
    lemma_cell_row_col(n, e);
    let r = e / n;
    let c = e % n;
    assert((r - 1) * n + c == e - n && (r + 1) * n + c == e + n) by (nonlinear_arith)
        requires
            e == r * n + c,
    ;
    if k == 0 {
        vstd::arithmetic::div_mod::lemma_fundamental_div_mod_converse(t, n, r - 1, c);
    } else if k == 1 {
        vstd::arithmetic::div_mod::lemma_fundamental_div_mod_converse(t, n, r + 1, c);
    } else if k == 2 {
        vstd::arithmetic::div_mod::lemma_fundamental_div_mod_converse(t, n, r, c - 1);
    } else {
        vstd::arithmetic::div_mod::lemma_fundamental_div_mod_converse(t, n, r, c + 1);
    }
}

/// A move of the blank changes the Manhattan distance to any target by
/// exactly one, and the per-move delta a neighbour reports is that whole
/// change: the heuristic of the new position is the old one plus the delta.
pub proof fn lemma_move_changes_heuristic_by_one(
    n: nat,
    cells: Seq<u8>,
    target: Seq<u8>,
    blank: nat,
    t: int,
)
    requires
        n >= 1,
        cells.len() == n * n,
        single_blank(cells, blank),
        move_targets(n as int, blank as int).contains(t),
    ensures
        manhattan(n, swap_cells(cells, blank as int, t), target) == manhattan(n, cells, target)
            + move_delta(n, cells, target, blank as int, t),
        move_delta(n, cells, target, blank as int, t) == 1 || move_delta(
            n,
            cells,
            target,
            blank as int,
            t,
        ) == -1,
{
    let e = blank as int;
    lemma_move_targets(n as int, e);
    lemma_swap_prefix(n, cells, target, e, t, cells.len() as int);
    let s = swap_cells(cells, e, t);
    assert(s[e] == cells[t]);
    assert(cells[t] != 0);
    lemma_adjacent_dist(n as int, e, t, super::last_pos(target, cells[t]));
}

/// Every position one move away is one step nearer to or farther from any
/// target.
pub proof fn lemma_moves_change_heuristic_by_one(
    n: nat,
    cells: Seq<u8>,
    target: Seq<u8>,
    m: Seq<u8>,
)
    requires
        n >= 1,
        cells.len() == n * n,
        single_blank(cells, first_zero(cells)),
        moves_of(n, cells).contains(m),
    ensures
        manhattan(n, m, target) == manhattan(n, cells, target) + 1 || manhattan(n, m, target)
            == manhattan(n, cells, target) - 1,
{
    let e = first_zero(cells) as int;
    lemma_first_zero(cells);
    let ts = move_targets(n as int, e);
    let i = choose|i: int| 0 <= i < moves_of(n, cells).len() && #[trigger] moves_of(n, cells)[i] == m;
    assert(ts.contains(ts[i]));
    lemma_move_changes_heuristic_by_one(n, cells, target, first_zero(cells), ts[i]);
}

/// On a puzzle position, the bucket test a neighbour carries — the new
/// distance, formed as `h + delta` in `u32`, is above the old `h` — holds
/// exactly when the move took the position farther from the target.
pub proof fn lemma_next_box_iff_farther(
    n: nat,
    cells: Seq<u8>,
    target: Seq<u8>,
    blank: nat,
    t: int,
)
    requires
        side_in_range(n),
        cells.len() == n * n,
        target.len() == n * n,
        single_blank(cells, blank),
        move_targets(n as int, blank as int).contains(t),
    ensures
        ({
            let h = manhattan(n, cells, target);
            let d = move_delta(n, cells, target, blank as int, t);
            ((h + d) as u32 > h) <==> manhattan(n, swap_cells(cells, blank as int, t), target) > h
        }),
{
    let e = blank as int;
    lemma_move_changes_heuristic_by_one(n, cells, target, blank, t);
    lemma_move_targets(n as int, e);
    let s = swap_cells(cells, e, t);
    lemma_manhattan_bound(n, s, target);
    lemma_manhattan_bound(n, cells, target);
    assert(2 * n * n * n < i32::MAX);
}

/// Every position on a walk that starts at a puzzle position is a puzzle
/// position of the same size.
pub proof fn lemma_walk_single_blank(n: nat, w: Seq<Seq<u8>>, i: int)
    requires
        n >= 1,
        is_walk(n, w),
        w[0].len() == n * n,
        single_blank(w[0], first_zero(w[0])),
        0 <= i < w.len(),
    ensures
        w[i].len() == n * n,
        single_blank(w[i], first_zero(w[i])),
    decreases i,
{
    if i > 0 {
        lemma_walk_single_blank(n, w, i - 1);
        assert(one_move(n, w[i - 1], w[i]));
        lemma_one_move_symmetric(n, w[i - 1], w[i]);
    }
}

/// Moves can be undone, so a puzzle position reachable from `a` can reach
/// `a` back.
pub proof fn lemma_reachable_symmetric(n: nat, a: Seq<u8>, b: Seq<u8>)
    requires
        n >= 1,
        a.len() == n * n,
        single_blank(a, first_zero(a)),
        reachable(n, a, b),
    ensures
        reachable(n, b, a),
{
    let w = choose|w: Seq<Seq<u8>>| is_walk(n, w) && w[0] == a && w.last() == b;
    let r = w.reverse();
    assert forall|j: int| 0 <= j < r.len() - 1 implies one_move(n, #[trigger] r[j], r[j + 1]) by {
        let i = w.len() - 2 - j;
        assert(r[j] == w[i + 1] && r[j + 1] == w[i]);
        assert(one_move(n, w[i], w[i + 1]));
        lemma_walk_single_blank(n, w, i);
        lemma_one_move_symmetric(n, w[i], w[i + 1]);
    }
    assert(is_walk(n, r));
    assert(r[0] == b && r.last() == a);
}

/// `r` is what `b.neighbors(target)` returns: the boards one move away, in
/// the order up, down, left, right, each with the signed change of the
/// Manhattan distance to `target` and whether that distance went up.
pub open spec fn neighbors_of<B: Board>(b: B, target: B, r: Seq<Neighbor<B>>) -> bool {
    let n = b.side();
    let ts = move_targets(n as int, b.blank() as int);
    &&& r.len() == ts.len()
    &&& forall|i: int|
        #![trigger r[i]]
        0 <= i < r.len() ==> {
            let t = ts[i];
            let d = move_delta(n, b.cells(), target.cells(), b.blank() as int, t);
            let h = manhattan(n, b.cells(), target.cells());
            &&& r[i].board.wf()
            &&& r[i].board.side() == n
            &&& r[i].board.cells() == swap_cells(b.cells(), b.blank() as int, t)
            &&& r[i].board.blank() == t
            &&& r[i].manhattan_delta == d
            &&& r[i].is_next_box == ((h + d) as u32 > h)
        }
}

/// Two board types give the same neighbours for the same position and
/// target: as many, and item by item the same cells, blank, heuristic change
/// and bucket flag.
pub proof fn lemma_neighbor_lists_agree<B1: Board, B2: Board>(
    b1: B1,
    t1: B1,
    r1: Seq<Neighbor<B1>>,
    b2: B2,
    t2: B2,
    r2: Seq<Neighbor<B2>>,
)
    requires
        neighbors_of(b1, t1, r1),
        neighbors_of(b2, t2, r2),
        b1.side() == b2.side(),
        b1.cells() == b2.cells(),
        b1.blank() == b2.blank(),
        t1.cells() == t2.cells(),
    ensures
        r1.len() == r2.len(),
        forall|i: int|
            #![trigger r1[i], r2[i]]
            0 <= i < r1.len() ==> {
                &&& r1[i].board.side() == r2[i].board.side()
                &&& r1[i].board.cells() == r2[i].board.cells()
                &&& r1[i].board.blank() == r2[i].board.blank()
                &&& r1[i].manhattan_delta == r2[i].manhattan_delta
                &&& r1[i].is_next_box == r2[i].is_next_box
            },
{
}

/// A neighbour of a puzzle position whose tiles are distinct is again such a
/// position, holding the same tiles, with its blank at the first zero of its
/// cells: rebuilding it from its cells gives it back.
pub proof fn lemma_neighbor_is_puzzle<B: Board>(b: B, target: B, r: Seq<Neighbor<B>>, i: int)
    requires
        b.wf(),
        neighbors_of(b, target, r),
        single_blank(b.cells(), b.blank()),
        distinct_tiles(b.cells()),
        0 <= i < r.len(),
    ensures
        single_blank(r[i].board.cells(), r[i].board.blank()),
        distinct_tiles(r[i].board.cells()),
        r[i].board.cells().to_multiset() == b.cells().to_multiset(),
        r[i].board.cells().contains(0),
        first_zero(r[i].board.cells()) == r[i].board.blank(),
{
    b.lemma_wf();
    let n = b.side();
    let c = b.cells();
    let e = b.blank() as int;
    let t = move_targets(n as int, e)[i];
    lemma_move_targets(n as int, e);
    assert(0 <= t < n * n && t != e);
    let s = swap_cells(c, e, t);
    lemma_swap_single_blank(c, e, t);
    lemma_first_zero_single(s, t as nat);
    assert forall|x: int, y: int| 0 <= x < y < s.len() && s[x] == s[y] implies s[x] == 0 by {
        let px = if x == e { t } else if x == t { e } else { x };
        let py = if y == e { t } else if y == t { e } else { y };
        assert(s[x] == c[px] && s[y] == c[py]);
        if px < py {
            assert(c[px] == 0);
        } else {
            assert(c[py] == 0);
        }
    }
    let u = c.update(e, c[t]);
    vstd::seq_lib::to_multiset_update(c, e, c[t]);
    vstd::seq_lib::to_multiset_update(u, t, c[e]);
    assert(u[t] == c[t]);
    broadcast use vstd::multiset::group_multiset_axioms;
    vstd::seq_lib::to_multiset_contains(c, c[e]);
    vstd::seq_lib::to_multiset_contains(c, c[t]);
    assert(c.contains(c[e]) && c.contains(c[t]));
    assert forall|v: u8| #[trigger] s.to_multiset().count(v) == c.to_multiset().count(v) by {}
    assert(s.to_multiset() =~= c.to_multiset());
}

/// Every move can be undone: among the neighbours of a neighbour of `b` is
/// a board with the cells and blank of `b`.
pub proof fn lemma_neighbor_undone<B: Board>(
    b: B,
    target: B,
    r: Seq<Neighbor<B>>,
    i: int,
    target2: B,
    r2: Seq<Neighbor<B>>,
)
    requires
        b.wf(),
        neighbors_of(b, target, r),
        0 <= i < r.len(),
        neighbors_of(r[i].board, target2, r2),
    ensures
        exists|j: int|
            0 <= j < r2.len() && (#[trigger] r2[j]).board.cells() == b.cells() && r2[j].board.blank()
                == b.blank(),
{
    b.lemma_wf();
    let n = b.side();
    let e = b.blank() as int;
    let ts = move_targets(n as int, e);
    let t = ts[i];
    lemma_move_targets(n as int, e);
    assert(ts.contains(t));
    lemma_move_targets_symmetric(n as int, e, t);
    let ts2 = move_targets(n as int, t);
    let j = choose|j: int| 0 <= j < ts2.len() && ts2[j] == e;
    assert(r2[j].board.cells() =~= b.cells());
}

} // verus!
