//! Every position the parity rule accepts can reach the solved layout.
//!
//! The proof reads the cells along the snake that runs left to right on even
//! rows and right to left on odd ones.  Moving the blank along the snake
//! leaves the order of the tiles read that way unchanged, so only that order
//! matters.  A vertical move that skips part of the snake rotates a stretch
//! of the order; from those rotations come three-cycles of any three
//! neighbouring tiles, which sort the order up to its first two tiles, and
//! the parity rule rules out that these two end up swapped.
use super::grid::{
    lemma_cell_row_col, lemma_dir_in_targets, lemma_first_zero_single, lemma_goal_single_blank,
    lemma_move_targets, lemma_one_move_symmetric,
};
use super::parity::{distinct_tiles, lemma_goal_solvable, lemma_walk_keeps_solvable};
use super::properties::lemma_walk_single_blank;
use super::{
    dir_target, first_zero, goal_cells, is_walk, move_targets, moves_of, nonzero_tiles, one_move,
    reachable, single_blank, solvable, swap_cells, tiles_at_most,
};
use crate::inversions::{
    count_greater, inversions, lemma_cross_permutation, lemma_inversions_concat,
};
use vstd::arithmetic::div_mod::lemma_fundamental_div_mod_converse;
use vstd::prelude::*;

verus! {

/// The grid cell at place `k` of the snake through an `n`×`n` grid.
pub open spec fn snake(n: int, k: int) -> int {
    let r = k / n;
    let j = k % n;
    r * n + if r % 2 == 0 {
        j
    } else {
        n - 1 - j
    }
}

/// The snake visits every cell once: its row is that of the place, and
/// reading it twice leads back.
proof fn lemma_snake(n: int, k: int)
    requires
        n >= 1,
        0 <= k < n * n,
    ensures
        0 <= snake(n, k) < n * n,
        snake(n, k) / n == k / n,
        snake(n, k) % n == (if (k / n) % 2 == 0 {
            k % n
        } else {
            n - 1 - k % n
        }),
        snake(n, snake(n, k)) == k,
{
    lemma_cell_row_col(n, k);
    let r = k / n;
    let j = k % n;
    let c = if r % 2 == 0 {
        j
    } else {
        n - 1 - j
    };
    let s = r * n + c;
    lemma_fundamental_div_mod_converse(s, n, r, c);
    assert(s < n * n) by (nonlinear_arith)
        requires
            0 <= r < n,
            0 <= c < n,
            s == r * n + c,
    ;
}

/// The cell below `e`, when there is a row below.
proof fn lemma_down_target(n: int, e: int)
    requires
        n >= 1,
        0 <= e < n * n,
        e / n + 1 < n,
    ensures
        move_targets(n, e).contains(e + n),
{
    assert(dir_target(n, e, 1) == Some(e + n));
    lemma_dir_in_targets(n, e, 0, 1, e + n);
}

/// Consecutive places of the snake are neighbouring cells.
proof fn lemma_snake_step(n: int, k: int)
    requires
        n >= 1,
        0 <= k,
        k + 1 < n * n,
    ensures
        move_targets(n, snake(n, k)).contains(snake(n, k + 1)),
{
    lemma_snake(n, k);
    lemma_snake(n, k + 1);
    lemma_cell_row_col(n, k);
    let r = k / n;
    let j = k % n;
    let e = snake(n, k);
    if j + 1 < n {
        lemma_fundamental_div_mod_converse(k + 1, n, r, j + 1);
        if r % 2 == 0 {
            assert(dir_target(n, e, 3) == Some(e + 1));
            lemma_dir_in_targets(n, e, 0, 3, e + 1);
        } else {
            assert(dir_target(n, e, 2) == Some(e - 1));
            lemma_dir_in_targets(n, e, 0, 2, e - 1);
        }
    } else {
        assert((r + 1) * n == r * n + n) by (nonlinear_arith);
        lemma_fundamental_div_mod_converse(k + 1, n, r + 1, 0);
        assert(snake(n, k + 1) == e + n);
        lemma_down_target(n, e);
    }
}

/// Places `u` of row `r` and `2rn + 2n - 1 - u` of row `r + 1` lie in the
/// same column, one above the other.
proof fn lemma_snake_vertical(n: int, r: int, u: int)
    requires
        n >= 1,
        0 <= r,
        r + 2 <= n,
        r * n <= u < r * n + n,
    ensures
        move_targets(n, snake(n, u)).contains(snake(n, 2 * r * n + 2 * n - 1 - u)),
        r * n + n <= 2 * r * n + 2 * n - 1 - u < r * n + 2 * n,
{
    let v = 2 * r * n + 2 * n - 1 - u;
    let j = u - r * n;
    assert((r + 1) * n == r * n + n) by (nonlinear_arith);
    assert(2 * r * n == r * n + r * n) by (nonlinear_arith);
    assert(r * n + 2 * n <= n * n) by (nonlinear_arith)
        requires
            r + 2 <= n,
            n >= 1,
    ;
    lemma_fundamental_div_mod_converse(u, n, r, j);
    lemma_fundamental_div_mod_converse(v, n, r + 1, n - 1 - j);
    lemma_snake(n, u);
    lemma_snake(n, v);
    assert(snake(n, v) == snake(n, u) + n);
    lemma_down_target(n, snake(n, u));
}

/// The cells with the tiles `l` laid along the snake and the blank at place `z`.
pub open spec fn lay(n: int, l: Seq<u8>, z: int) -> Seq<u8> {
    Seq::new(
        (n * n) as nat,
        |p: int|
            {
                let k = snake(n, p);
                if k < z {
                    l[k]
                } else if k == z {
                    0u8
                } else {
                    l[k - 1]
                }
            },
    )
}

/// The tiles of `c` read along the snake, leaving out the blank at place `z`.
pub open spec fn read(n: int, c: Seq<u8>, z: int) -> Seq<u8> {
    Seq::new(
        (n * n - 1) as nat,
        |k: int|
            if k < z {
                c[snake(n, k)]
            } else {
                c[snake(n, k + 1)]
            },
    )
}

/// No entry of `s` is the blank.
pub open spec fn no_blank(s: Seq<u8>) -> bool {
    forall|i: int| 0 <= i < s.len() ==> s[i] != 0
}

/// Laying out the tiles read from a position gives the position back.
proof fn lemma_lay_read(n: int, c: Seq<u8>, b: int)
    requires
        n >= 1,
        c.len() == n * n,
        0 <= b,
        single_blank(c, b as nat),
    ensures
        lay(n, read(n, c, snake(n, b)), snake(n, b)) == c,
        no_blank(read(n, c, snake(n, b))),
        read(n, c, snake(n, b)).len() == n * n - 1,
{
    let z = snake(n, b);
    lemma_snake(n, b);
    let l = read(n, c, z);
    assert forall|p: int| 0 <= p < n * n implies #[trigger] lay(n, l, z)[p] == c[p] by {
        lemma_snake(n, p);
        let k = snake(n, p);
        if k > z {
            lemma_snake(n, k - 1);
        }
        if k == z {
            assert(p == b);
        }
    }
    assert(lay(n, l, z) =~= c);
    assert forall|k: int| 0 <= k < l.len() implies l[k] != 0 by {
        let q = if k < z {
            k
        } else {
            k + 1
        };
        lemma_snake(n, q);
        assert(snake(n, q) != b);
    }
}

/// A layout of blank-free tiles has its one blank at the snake's place `z`.
proof fn lemma_lay_single(n: int, l: Seq<u8>, z: int)
    requires
        n >= 1,
        l.len() == n * n - 1,
        no_blank(l),
        0 <= z < n * n,
    ensures
        single_blank(lay(n, l, z), snake(n, z) as nat),
        first_zero(lay(n, l, z)) == snake(n, z),
        lay(n, l, z).len() == n * n,
{
    lemma_snake(n, z);
    let c = lay(n, l, z);
    assert forall|p: int| 0 <= p < c.len() && c[p] == 0 implies p == snake(n, z) by {
        lemma_snake(n, p);
    }
    lemma_first_zero_single(c, snake(n, z) as nat);
}

/// A move from `a`, whose one blank is at `e`, to the neighbouring cell `t`.
proof fn lemma_one_move_to(n: int, a: Seq<u8>, e: int, t: int)
    requires
        n >= 1,
        0 <= e,
        single_blank(a, e as nat),
        move_targets(n, e).contains(t),
    ensures
        one_move(n as nat, a, swap_cells(a, e, t)),
{
    lemma_first_zero_single(a, e as nat);
    let ts = move_targets(n, e);
    let i = choose|i: int| 0 <= i < ts.len() && ts[i] == t;
    assert(moves_of(n as nat, a)[i] == swap_cells(a, e, t));
}

/// Moving the blank one place along the snake keeps the tiles' order.
proof fn lemma_lay_step(n: int, l: Seq<u8>, z: int)
    requires
        n >= 1,
        l.len() == n * n - 1,
        no_blank(l),
        0 <= z,
        z + 1 < n * n,
    ensures
        one_move(n as nat, lay(n, l, z), lay(n, l, z + 1)),
{
    lemma_lay_single(n, l, z);
    lemma_snake_step(n, z);
    lemma_snake(n, z);
    lemma_snake(n, z + 1);
    let a = lay(n, l, z);
    let e = snake(n, z);
    let t = snake(n, z + 1);
    lemma_one_move_to(n, a, e, t);
    let s = swap_cells(a, e, t);
    assert forall|p: int| 0 <= p < n * n implies #[trigger] s[p] == lay(n, l, z + 1)[p] by {
        lemma_snake(n, p);
    }
    assert(s =~= lay(n, l, z + 1));
}

/// `l` with its entry at `b` moved to `a`, the entries from `a` on shifted
/// one place right.
pub open spec fn rot_r(l: Seq<u8>, a: int, b: int) -> Seq<u8> {
    Seq::new(
        l.len(),
        |p: int|
            if p == a {
                l[b]
            } else if a < p <= b {
                l[p - 1]
            } else {
                l[p]
            },
    )
}

/// `l` with its entry at `a` moved to `b`, the entries after `a` shifted one
/// place left.
pub open spec fn rot_l(l: Seq<u8>, a: int, b: int) -> Seq<u8> {
    Seq::new(
        l.len(),
        |p: int|
            if p == b {
                l[a]
            } else if a <= p < b {
                l[p + 1]
            } else {
                l[p]
            },
    )
}

/// A vertical move from snake place `u` to the later place `v` moves the
/// tile read just before `v` back to `u`.
proof fn lemma_lay_jump(n: int, l: Seq<u8>, u: int, v: int)
    requires
        n >= 1,
        l.len() == n * n - 1,
        no_blank(l),
        0 <= u < v < n * n,
        move_targets(n, snake(n, u)).contains(snake(n, v)),
    ensures
        one_move(n as nat, lay(n, l, u), lay(n, rot_r(l, u, v - 1), v)),
{
    lemma_lay_single(n, l, u);
    lemma_snake(n, u);
    lemma_snake(n, v);
    let a = lay(n, l, u);
    let e = snake(n, u);
    let t = snake(n, v);
    lemma_one_move_to(n, a, e, t);
    let s = swap_cells(a, e, t);
    let m = rot_r(l, u, v - 1);
    assert forall|p: int| 0 <= p < n * n implies #[trigger] s[p] == lay(n, m, v)[p] by {
        lemma_snake(n, p);
    }
    assert(s =~= lay(n, m, v));
}

/// `b` can be reached from `a` in at most `k` moves.
pub open spec fn reachable_within(n: nat, a: Seq<u8>, b: Seq<u8>, k: int) -> bool {
    exists|w: Seq<Seq<u8>>| is_walk(n, w) && w[0] == a && w.last() == b && w.len() <= k + 1
}

/// A position reaches itself.
proof fn lemma_reach_refl(n: nat, a: Seq<u8>)
    ensures
        reachable_within(n, a, a, 0),
{
    let w = seq![a];
    assert(is_walk(n, w) && w[0] == a && w.last() == a);
}

/// One move reaches.
proof fn lemma_reach_move(n: nat, a: Seq<u8>, b: Seq<u8>)
    requires
        one_move(n, a, b),
    ensures
        reachable_within(n, a, b, 1),
{
    let w = seq![a, b];
    assert(is_walk(n, w) && w[0] == a && w.last() == b);
}

/// Reaching is transitive, the moves adding up.
proof fn lemma_reach_trans(n: nat, a: Seq<u8>, b: Seq<u8>, c: Seq<u8>, k1: int, k2: int)
    requires
        reachable_within(n, a, b, k1),
        reachable_within(n, b, c, k2),
    ensures
        reachable_within(n, a, c, k1 + k2),
{
    let w1 = choose|w: Seq<Seq<u8>>|
        is_walk(n, w) && w[0] == a && w.last() == b && w.len() <= k1 + 1;
    let w2 = choose|w: Seq<Seq<u8>>|
        is_walk(n, w) && w[0] == b && w.last() == c && w.len() <= k2 + 1;
    let w = w1 + w2.skip(1);
    assert forall|i: int| 0 <= i < w.len() - 1 implies one_move(n, #[trigger] w[i], w[i + 1]) by {
        if i < w1.len() - 1 {
            assert(one_move(n, w1[i], w1[i + 1]));
        } else {
            let j = i - (w1.len() - 1);
            assert(w[i] == w2[j]);
            assert(w[i + 1] == w2[j + 1]);
            assert(one_move(n, w2[j], w2[j + 1]));
        }
    }
    if w2.len() == 1 {
        assert(w =~= w1);
    } else {
        assert(w.last() == w2.last());
    }
}

/// A bound on the moves can always be raised.
proof fn lemma_reach_mono(n: nat, a: Seq<u8>, b: Seq<u8>, k1: int, k2: int)
    requires
        reachable_within(n, a, b, k1),
        k1 <= k2,
    ensures
        reachable_within(n, a, b, k2),
{
    let w = choose|w: Seq<Seq<u8>>|
        is_walk(n, w) && w[0] == a && w.last() == b && w.len() <= k1 + 1;
    assert(w.len() <= k2 + 1);
}

/// Reaching within some bound is reaching.
pub proof fn lemma_within_reachable(n: nat, a: Seq<u8>, b: Seq<u8>, k: int)
    requires
        reachable_within(n, a, b, k),
    ensures
        reachable(n, a, b),
{
    let w = choose|w: Seq<Seq<u8>>|
        is_walk(n, w) && w[0] == a && w.last() == b && w.len() <= k + 1;
    assert(is_walk(n, w) && w[0] == a && w.last() == b);
}

/// Moves can be undone, in as many moves.
proof fn lemma_reach_back(n: nat, a: Seq<u8>, b: Seq<u8>, k: int)
    requires
        n >= 1,
        a.len() == n * n,
        single_blank(a, first_zero(a)),
        reachable_within(n, a, b, k),
    ensures
        reachable_within(n, b, a, k),
{
    let w = choose|w: Seq<Seq<u8>>|
        is_walk(n, w) && w[0] == a && w.last() == b && w.len() <= k + 1;
    let r = w.reverse();
    assert forall|j: int| 0 <= j < r.len() - 1 implies one_move(n, #[trigger] r[j], r[j + 1]) by {
        let i = w.len() - 2 - j;
        assert(r[j] == w[i + 1] && r[j + 1] == w[i]);
        assert(one_move(n, w[i], w[i + 1]));
        lemma_walk_single_blank(n, w, i);
        lemma_one_move_symmetric(n, w[i], w[i + 1]);
    }
    assert(is_walk(n, r));
    assert(r[0] == b && r.last() == a);
}

/// The blank can travel forward along the snake, one move a place.
proof fn lemma_travel_forward(n: int, l: Seq<u8>, z1: int, z2: int)
    requires
        n >= 1,
        l.len() == n * n - 1,
        no_blank(l),
        0 <= z1 <= z2 < n * n,
    ensures
        reachable_within(n as nat, lay(n, l, z1), lay(n, l, z2), z2 - z1),
    decreases z2 - z1,
{
    if z1 < z2 {
        lemma_lay_step(n, l, z1);
        lemma_reach_move(n as nat, lay(n, l, z1), lay(n, l, z1 + 1));
        lemma_travel_forward(n, l, z1 + 1, z2);
        lemma_reach_trans(
            n as nat,
            lay(n, l, z1),
            lay(n, l, z1 + 1),
            lay(n, l, z2),
            1,
            z2 - z1 - 1,
        );
    } else {
        lemma_reach_refl(n as nat, lay(n, l, z1));
    }
}

/// The blank can travel to any place of the snake in fewer than `n*n` moves.
proof fn lemma_travel(n: int, l: Seq<u8>, z1: int, z2: int)
    requires
        n >= 1,
        l.len() == n * n - 1,
        no_blank(l),
        0 <= z1 < n * n,
        0 <= z2 < n * n,
    ensures
        reachable_within(n as nat, lay(n, l, z1), lay(n, l, z2), n * n),
{
    if z1 <= z2 {
        lemma_travel_forward(n, l, z1, z2);
        lemma_reach_mono(n as nat, lay(n, l, z1), lay(n, l, z2), z2 - z1, n * n);
    } else {
        lemma_travel_forward(n, l, z2, z1);
        lemma_lay_single(n, l, z2);
        lemma_reach_back(n as nat, lay(n, l, z2), lay(n, l, z1), z1 - z2);
        lemma_reach_mono(n as nat, lay(n, l, z1), lay(n, l, z2), z1 - z2, n * n);
    }
}

/// The tiles `l2`, read along the snake, can be reached from the tiles `l1`
/// in at most `k` moves, the blank at the snake's end in both.
pub open spec fn linked(n: int, l1: Seq<u8>, l2: Seq<u8>, k: int) -> bool {
    reachable_within(n as nat, lay(n, l1, n * n - 1), lay(n, l2, n * n - 1), k)
}

/// `l` holds the tiles of a position of side `n`, read along the snake.
pub open spec fn snake_tiles(n: int, l: Seq<u8>) -> bool {
    l.len() == n * n - 1 && no_blank(l)
}

proof fn lemma_linked_refl(n: int, l: Seq<u8>)
    ensures
        linked(n, l, l, 0),
{
    lemma_reach_refl(n as nat, lay(n, l, n * n - 1));
}

proof fn lemma_linked_trans(n: int, a: Seq<u8>, b: Seq<u8>, c: Seq<u8>, k1: int, k2: int)
    requires
        linked(n, a, b, k1),
        linked(n, b, c, k2),
    ensures
        linked(n, a, c, k1 + k2),
{
    lemma_reach_trans(
        n as nat,
        lay(n, a, n * n - 1),
        lay(n, b, n * n - 1),
        lay(n, c, n * n - 1),
        k1,
        k2,
    );
}

proof fn lemma_linked_mono(n: int, a: Seq<u8>, b: Seq<u8>, k1: int, k2: int)
    requires
        linked(n, a, b, k1),
        k1 <= k2,
    ensures
        linked(n, a, b, k2),
{
    lemma_reach_mono(n as nat, lay(n, a, n * n - 1), lay(n, b, n * n - 1), k1, k2);
}

proof fn lemma_linked_sym(n: int, a: Seq<u8>, b: Seq<u8>, k: int)
    requires
        n >= 1,
        snake_tiles(n, a),
        linked(n, a, b, k),
    ensures
        linked(n, b, a, k),
{
    lemma_lay_single(n, a, n * n - 1);
    lemma_reach_back(n as nat, lay(n, a, n * n - 1), lay(n, b, n * n - 1), k);
}

/// Rotating right and left on the same stretch undo each other.
proof fn lemma_rot_inverse(l: Seq<u8>, a: int, b: int)
    requires
        0 <= a <= b < l.len(),
    ensures
        rot_r(rot_l(l, a, b), a, b) == l,
        rot_l(rot_r(l, a, b), a, b) == l,
{
    assert(rot_r(rot_l(l, a, b), a, b) =~= l);
    assert(rot_l(rot_r(l, a, b), a, b) =~= l);
}

/// No blank and no tile twice.
pub open spec fn snake_like(l: Seq<u8>) -> bool {
    &&& no_blank(l)
    &&& forall|p: int, q: int| 0 <= p < q < l.len() ==> l[p] != l[q]
}

/// The moves one vertical jump takes, with the travel to it and back.
pub open spec fn jump_cost(n: int) -> int {
    2 * n * n + 1
}

/// The vertical move from place `u` of row `r` down into row `r + 1`.
proof fn lemma_linked_jump(n: int, r: int, u: int, l: Seq<u8>)
    requires
        n >= 1,
        0 <= r,
        r + 2 <= n,
        r * n <= u < r * n + n,
        snake_tiles(n, l),
    ensures
        linked(n, l, rot_r(l, u, 2 * r * n + 2 * n - 2 - u), jump_cost(n)),
        snake_tiles(n, rot_r(l, u, 2 * r * n + 2 * n - 2 - u)),
{
    let v = 2 * r * n + 2 * n - 1 - u;
    lemma_snake_vertical(n, r, u);
    assert(r * n + 2 * n <= n * n) by (nonlinear_arith)
        requires
            r + 2 <= n,
            n >= 1,
    ;
    let m = rot_r(l, u, v - 1);
    assert forall|p: int| 0 <= p < m.len() implies m[p] != 0 by {
        if p == u {
            assert(l[v - 1] != 0);
        } else if u < p <= v - 1 {
            assert(l[p - 1] != 0);
        }
    }
    assert(snake_tiles(n, m));
    assert(n * n >= 1) by (nonlinear_arith)
        requires
            n >= 1,
    ;
    let nn = n * n;
    assert(2 * n * n == nn + nn) by (nonlinear_arith)
        requires
            nn == n * n,
    ;
    lemma_travel(n, l, nn - 1, u);
    lemma_lay_jump(n, l, u, v);
    lemma_reach_move(n as nat, lay(n, l, u), lay(n, m, v));
    lemma_travel(n, m, v, nn - 1);
    lemma_reach_trans(n as nat, lay(n, l, nn - 1), lay(n, l, u), lay(n, m, v), nn, 1);
    lemma_reach_trans(
        n as nat,
        lay(n, l, nn - 1),
        lay(n, m, v),
        lay(n, m, nn - 1),
        nn + 1,
        nn,
    );
}

/// The same move taken back.
proof fn lemma_linked_jump_back(n: int, r: int, u: int, l: Seq<u8>)
    requires
        n >= 1,
        0 <= r,
        r + 2 <= n,
        r * n <= u < r * n + n,
        snake_tiles(n, l),
    ensures
        linked(n, l, rot_l(l, u, 2 * r * n + 2 * n - 2 - u), jump_cost(n)),
        snake_tiles(n, rot_l(l, u, 2 * r * n + 2 * n - 2 - u)),
{
    let b = 2 * r * n + 2 * n - 2 - u;
    lemma_snake_vertical(n, r, u);
    assert(r * n + 2 * n <= n * n) by (nonlinear_arith)
        requires
            r + 2 <= n,
            n >= 1,
    ;
    let m = rot_l(l, u, b);
    assert(snake_tiles(n, m));
    lemma_linked_jump(n, r, u, m);
    lemma_rot_inverse(l, u, b);
    lemma_linked_sym(n, m, l, jump_cost(n));
}

/// The three tiles read from place `i` on, the last moved in front.
pub open spec fn cyc3(l: Seq<u8>, i: int) -> Seq<u8> {
    rot_r(l, i, i + 2)
}

/// Three neighbouring tiles inside the stretch that row `r`'s first cell
/// rotates can be cycled, in a number of jumps that grows with their
/// distance `d` from the turn at the end of row `r`.
proof fn lemma_window_in_turn(n: int, r: int, i: int, l: Seq<u8>)
    requires
        n >= 2,
        0 <= r,
        r + 2 <= n,
        r * n <= i <= r * n + 2 * n - 4,
        snake_tiles(n, l),
    ensures
        linked(n, l, cyc3(l, i), jump_cost(n) * (2 * (if i <= r * n + n - 2 {
            r * n + n - 2 - i
        } else {
            i - (r * n + n - 2)
        }) + 1)),
    decreases if i <= r * n + n - 2 {
        r * n + n - 2 - i
    } else {
        i - (r * n + n - 2)
    },
{
    let k = r * n + n - 2;
    let a = r * n;
    let b = r * n + 2 * n - 2;
    let j = jump_cost(n);
    let d = if i <= k {
        k - i
    } else {
        i - k
    };
    assert(2 * r * n == r * n + r * n) by (nonlinear_arith);
    assert(r * n + 2 * n <= n * n) by (nonlinear_arith)
        requires
            r + 2 <= n,
            n >= 1,
    ;
    assert(j * (2 * d + 1) == j * (2 * (d - 1) + 1) + 2 * j) by (nonlinear_arith);
    if i == k {
        lemma_linked_jump(n, r, k, l);
        assert(d == 0);
        assert(j * (2 * d + 1) == j) by (nonlinear_arith)
            requires
                d == 0,
        ;
    } else if i < k {
        lemma_linked_jump(n, r, a, l);
        let l1 = rot_r(l, a, b);
        lemma_window_in_turn(n, r, i + 1, l1);
        let l3 = cyc3(l1, i + 1);
        assert(snake_tiles(n, l3));
        lemma_linked_jump_back(n, r, a, l3);
        assert(rot_l(l3, a, b) =~= cyc3(l, i));
        lemma_linked_trans(n, l, l1, l3, j, j * (2 * (d - 1) + 1));
        lemma_linked_trans(n, l, l3, cyc3(l, i), j + j * (2 * (d - 1) + 1), j);
    } else {
        lemma_linked_jump_back(n, r, a, l);
        let l1 = rot_l(l, a, b);
        lemma_window_in_turn(n, r, i - 1, l1);
        let l3 = cyc3(l1, i - 1);
        assert(snake_tiles(n, l3));
        lemma_linked_jump(n, r, a, l3);
        assert(rot_r(l3, a, b) =~= cyc3(l, i));
        lemma_linked_trans(n, l, l1, l3, j, j * (2 * (d - 1) + 1));
        lemma_linked_trans(n, l, l3, cyc3(l, i), j + j * (2 * (d - 1) + 1), j);
    }
}

/// The moves a cycle of three neighbouring tiles takes at most.
pub open spec fn cycle_cost(n: int) -> int {
    jump_cost(n) * (4 * n)
}

/// Any three neighbouring tiles read along the snake can be cycled.
proof fn lemma_window(n: int, i: int, l: Seq<u8>)
    requires
        n >= 2,
        0 <= i,
        i + 4 <= n * n,
        snake_tiles(n, l),
    ensures
        linked(n, l, cyc3(l, i), cycle_cost(n)),
{
    assert(0 <= i < n * n) by (nonlinear_arith)
        requires
            n >= 2,
            0 <= i,
            i + 4 <= n * n,
    ;
    lemma_cell_row_col(n, i);
    let q = i / n;
    let r = if q <= n - 2 {
        q
    } else {
        n - 2
    };
    if q <= n - 2 {
        assert(q * n <= i < q * n + n);
        if n == 2 {
            assert(i == 0);
        }
    } else {
        assert(q == n - 1);
        assert(r * n <= i <= r * n + 2 * n - 4) by (nonlinear_arith)
            requires
                r == n - 2,
                (n - 1) * n <= i,
                i + 4 <= n * n,
        ;
    }
    lemma_window_in_turn(n, r, i, l);
    let k = r * n + n - 2;
    let d = if i <= k {
        k - i
    } else {
        i - k
    };
    assert(jump_cost(n) * (2 * d + 1) <= jump_cost(n) * (4 * n)) by (nonlinear_arith)
        requires
            0 <= d <= 2 * n - 2,
            jump_cost(n) >= 0,
    ;
    lemma_linked_mono(n, l, cyc3(l, i), jump_cost(n) * (2 * d + 1), cycle_cost(n));
}

/// Cycling three tiles keeps every tile and every other place.
proof fn lemma_cyc3(l: Seq<u8>, i: int)
    requires
        0 <= i,
        i + 2 < l.len(),
    ensures
        cyc3(l, i).len() == l.len(),
        cyc3(l, i)[i] == l[i + 2],
        cyc3(l, i)[i + 1] == l[i],
        cyc3(l, i)[i + 2] == l[i + 1],
        forall|p: int| 0 <= p < l.len() && (p < i || p > i + 2) ==> #[trigger] cyc3(l, i)[p] == l[p],
        snake_like(l) ==> snake_like(cyc3(l, i)),
        forall|x: u8| cyc3(l, i).contains(x) <==> l.contains(x),
{
    let m = cyc3(l, i);
    assert forall|x: u8| m.contains(x) <==> l.contains(x) by {
        if m.contains(x) {
            let p = choose|p: int| 0 <= p < m.len() && m[p] == x;
            let f = if p == i {
                i + 2
            } else if i < p <= i + 2 {
                p - 1
            } else {
                p
            };
            assert(l[f] == x);
        }
        if l.contains(x) {
            let q = choose|q: int| 0 <= q < l.len() && l[q] == x;
            let g = if q == i + 2 {
                i
            } else if i <= q < i + 2 {
                q + 1
            } else {
                q
            };
            assert(m[g] == x);
        }
    }
    if snake_like(l) {
        assert forall|p: int, q: int| 0 <= p < q < m.len() implies m[p] != m[q] by {
            let fp = if p == i {
                i + 2
            } else if i < p <= i + 2 {
                p - 1
            } else {
                p
            };
            let fq = if q == i {
                i + 2
            } else if i < q <= i + 2 {
                q - 1
            } else {
                q
            };
            assert(m[p] == l[fp] && m[q] == l[fq] && fp != fq);
            if fp < fq {
                assert(l[fp] != l[fq]);
            } else {
                assert(l[fq] != l[fp]);
            }
        }
    }
}

/// The tile at place `j` can be brought to any later place `t` from the
/// third on, keeping every tile and every place after `t`.
proof fn lemma_bring(n: int, l: Seq<u8>, j: int, t: int) -> (l2: Seq<u8>)
    requires
        n >= 2,
        snake_tiles(n, l),
        snake_like(l),
        0 <= j <= t < l.len(),
        2 <= t,
    ensures
        linked(n, l, l2, cycle_cost(n) * (t - j + 1)),
        snake_tiles(n, l2),
        snake_like(l2),
        l2[t] == l[j],
        forall|p: int| t < p < l.len() ==> #[trigger] l2[p] == l[p],
        forall|x: u8| l2.contains(x) <==> l.contains(x),
    decreases t - j,
{
    let c = cycle_cost(n);
    assert(c >= 0) by (nonlinear_arith)
        requires
            n >= 2,
            c == (2 * n * n + 1) * (4 * n),
    ;
    if j == t {
        lemma_linked_refl(n, l);
        lemma_linked_mono(n, l, l, 0, c * (t - j + 1));
        l
    } else if j + 2 <= t {
        lemma_window(n, j, l);
        lemma_cyc3(l, j);
        let l1 = cyc3(l, j);
        lemma_window(n, j, l1);
        lemma_cyc3(l1, j);
        let m = cyc3(l1, j);
        lemma_linked_trans(n, l, l1, m, c, c);
        assert(m[j + 2] == l[j]);
        let l2 = lemma_bring(n, m, j + 2, t);
        lemma_linked_trans(n, l, m, l2, c + c, c * (t - j - 1));
        assert(c + c + c * (t - j - 1) == c * (t - j + 1)) by (nonlinear_arith);
        l2
    } else {
        lemma_window(n, t - 2, l);
        lemma_cyc3(l, t - 2);
        assert(c <= c * (t - j + 1)) by (nonlinear_arith)
            requires
                c >= 0,
                t - j + 1 >= 1,
        ;
        lemma_linked_mono(n, l, cyc3(l, t - 2), c, c * (t - j + 1));
        cyc3(l, t - 2)
    }
}

/// `g` with its first two tiles exchanged.
pub open spec fn swap_front(g: Seq<u8>) -> Seq<u8> {
    g.update(0, g[1]).update(1, g[0])
}

/// Tiles holding the same values as `g` and agreeing with it from place `p`
/// on can be sorted into `g`, up to the order of its first two tiles.
proof fn lemma_sort(n: int, l: Seq<u8>, g: Seq<u8>, p: int)
    requires
        n >= 2,
        snake_tiles(n, l),
        snake_tiles(n, g),
        snake_like(l),
        snake_like(g),
        forall|x: u8| l.contains(x) <==> g.contains(x),
        2 <= p <= l.len(),
        forall|q: int| p <= q < l.len() ==> #[trigger] l[q] == g[q],
    ensures
        linked(n, l, g, cycle_cost(n) * (n * n) * (p - 2)) || linked(
            n,
            l,
            swap_front(g),
            cycle_cost(n) * (n * n) * (p - 2),
        ),
    decreases p,
{
    if p == 2 {
        assert(l.contains(l[0]) && l.contains(l[1]));
        let q0 = choose|q: int| 0 <= q < g.len() && g[q] == l[0];
        let q1 = choose|q: int| 0 <= q < g.len() && g[q] == l[1];
        if q0 >= 2 {
            assert(l[q0] == g[q0]);
        }
        if q1 >= 2 {
            assert(l[q1] == g[q1]);
        }
        lemma_linked_refl(n, l);
        assert(cycle_cost(n) * (n * n) * (p - 2) == 0);
        if q0 == 0 {
            assert(l =~= g);
        } else {
            assert(l =~= swap_front(g));
        }
    } else {
        let x = g[p - 1];
        assert(g.contains(x));
        let j = choose|j: int| 0 <= j < l.len() && l[j] == x;
        if j >= p {
            assert(g[j] == l[j]);
        }
        let l2 = lemma_bring(n, l, j, p - 1);
        let c = cycle_cost(n);
        let nn = n * n;
        assert(c * (p - 1 - j + 1) <= c * nn) by (nonlinear_arith)
            requires
                c >= 0,
                0 <= j,
                p <= nn,
        ;
        assert(c >= 0) by (nonlinear_arith)
            requires
                n >= 2,
                c == (2 * n * n + 1) * (4 * n),
        ;
        lemma_linked_mono(n, l, l2, c * (p - 1 - j + 1), c * nn);
        assert forall|x: u8| l2.contains(x) <==> g.contains(x) by {}
        lemma_sort(n, l2, g, p - 1);
        assert(c * nn + c * nn * (p - 3) == c * nn * (p - 2)) by (nonlinear_arith);
        if linked(n, l2, g, c * nn * (p - 3)) {
            lemma_linked_trans(n, l, l2, g, c * nn, c * nn * (p - 3));
        } else {
            lemma_linked_trans(n, l, l2, swap_front(g), c * nn, c * nn * (p - 3));
        }
    }
}

/// Distinct tiles from `1` to `k` are at most `k`.
proof fn lemma_tiles_bound(s: Seq<u8>, k: int)
    requires
        k >= 0,
        snake_like(s),
        forall|i: int| 0 <= i < s.len() ==> s[i] <= k,
    ensures
        s.len() <= k,
    decreases k,
{
    if k == 0 {
        if s.len() > 0 {
            assert(s[0] != 0);
        }
    } else if exists|q: int| 0 <= q < s.len() && s[q] == k {
        let q = choose|q: int| 0 <= q < s.len() && s[q] == k;
        let t = s.remove(q);
        assert forall|i: int| 0 <= i < t.len() implies t[i] <= k - 1 by {
            if i < q {
                assert(s[i] != s[q]);
            } else {
                assert(s[i + 1] != s[q]);
            }
        }
        assert(snake_like(t)) by {
            assert forall|a: int, b: int| 0 <= a < b < t.len() implies t[a] != t[b] by {
                let fa = if a < q { a } else { a + 1 };
                let fb = if b < q { b } else { b + 1 };
                assert(s[fa] != s[fb]);
            }
        }
        lemma_tiles_bound(t, k - 1);
    } else {
        lemma_tiles_bound(s, k - 1);
    }
}

/// `k` distinct tiles from `1` to `k` are all of them.
proof fn lemma_tiles_full(s: Seq<u8>, k: int, x: u8)
    requires
        snake_like(s),
        s.len() == k,
        forall|i: int| 0 <= i < s.len() ==> s[i] <= k,
        1 <= x <= k,
    ensures
        s.contains(x),
{
    if !s.contains(x) {
        let t = s.map_values(|v: u8| if v > x { (v - 1) as u8 } else { v });
        assert forall|i: int| 0 <= i < t.len() implies t[i] <= k - 1 by {
            assert(s[i] != x);
        }
        assert(snake_like(t)) by {
            assert forall|a: int| 0 <= a < t.len() implies t[a] != 0 by {
                assert(s[a] != x);
            }
            assert forall|a: int, b: int| 0 <= a < b < t.len() implies t[a] != t[b] by {
                assert(s[a] != s[b] && s[a] != x && s[b] != x);
            }
        }
        lemma_tiles_bound(t, k - 1);
    }
}

/// Exchanging the tiles in the first two cells, the blank elsewhere, turns
/// the parity rule's verdict around.
proof fn lemma_swap_front_flips(n: nat, y: Seq<u8>, bl: nat)
    requires
        y.len() == n * n,
        2 <= bl < y.len(),
        y[0] != 0,
        y[1] != 0,
        y[0] != y[1],
    ensures
        solvable(n, swap_cells(y, 0, 1), bl) == !solvable(n, y, bl),
{
    let x = swap_cells(y, 0, 1);
    let a = y[0];
    let b = y[1];
    let rest = y.skip(2);
    let py = seq![a, b];
    let px = seq![b, a];
    assert(y =~= py + rest);
    assert(x =~= px + rest);
    super::parity::lemma_nonzero_concat(py, rest);
    super::parity::lemma_nonzero_concat(px, rest);
    super::parity::lemma_nonzero_all(py);
    super::parity::lemma_nonzero_all(px);
    let t = nonzero_tiles(rest);
    lemma_inversions_concat(py, t);
    lemma_inversions_concat(px, t);
    vstd::seq_lib::lemma_multiset_commutative(seq![a], seq![b]);
    vstd::seq_lib::lemma_multiset_commutative(seq![b], seq![a]);
    assert(py =~= seq![a] + seq![b]);
    assert(px =~= seq![b] + seq![a]);
    broadcast use vstd::multiset::group_multiset_axioms;
    assert(py.to_multiset() =~= px.to_multiset());
    lemma_cross_permutation(py, t, px, t);
    let e = Seq::<u8>::empty();
    assert(py.drop_last() =~= seq![a]);
    assert(px.drop_last() =~= seq![b]);
    assert(seq![a].drop_last() =~= e);
    assert(seq![b].drop_last() =~= e);
    assert(inversions(e) == 0);
    assert(count_greater(e, a) == 0 && count_greater(e, b) == 0);
    assert(inversions(seq![a]) == 0);
    assert(inversions(seq![b]) == 0);
    assert(count_greater(seq![a], b) == if a > b { 1nat } else { 0nat });
    assert(count_greater(seq![b], a) == if b > a { 1nat } else { 0nat });
    assert(nonzero_tiles(y) == py + t);
    assert(nonzero_tiles(x) == px + t);
}

/// The parity rule's verdict stays the same along moves.
proof fn lemma_reach_keeps_solvable(n: nat, a: Seq<u8>, c: Seq<u8>)
    requires
        n >= 1,
        a.len() == n * n,
        single_blank(a, first_zero(a)),
        distinct_tiles(a),
        reachable(n, a, c),
    ensures
        solvable(n, c, first_zero(c)) == solvable(n, a, first_zero(a)),
{
    let w = choose|w: Seq<Seq<u8>>| is_walk(n, w) && w[0] == a && w.last() == c;
    lemma_walk_keeps_solvable(n, w, w.len() - 1);
}

/// A bound on the moves any position of side `n` that can be solved needs.
pub open spec fn solve_bound(n: int) -> int {
    2 * n * n + cycle_cost(n) * (n * n) * (n * n)
}

/// For every side whose tile numbers fit in a byte, that bound is below
/// `u32::MAX`.
pub proof fn lemma_solve_bound(n: int)
    requires
        n >= 1,
        n * n <= 256,
    ensures
        0 <= solve_bound(n) < u32::MAX,
{
    assert(n <= 16) by (nonlinear_arith)
        requires
            n >= 1,
            n * n <= 256,
    ;
    let nn = n * n;
    let j = 2 * nn + 1;
    assert(j <= 513);
    assert(4 * n <= 64);
    let c = j * (4 * n);
    assert(0 <= c <= 32832) by (nonlinear_arith)
        requires
            0 <= j <= 513,
            0 <= 4 * n <= 64,
            c == j * (4 * n),
    ;
    assert(2 * n * n == 2 * nn) by (nonlinear_arith)
        requires
            nn == n * n,
    ;
    assert(0 <= c * nn * nn <= 32832 * 65536) by (nonlinear_arith)
        requires
            0 <= c <= 32832,
            0 <= nn <= 256,
    ;
}

/// A position with one blank and distinct tiles, its tiles numbered from
/// `1` to `n*n - 1`, that the parity rule accepts can reach the solved
/// layout.
pub proof fn lemma_solvable_reachable(n: nat, c: Seq<u8>, b: nat)
    requires
        n >= 1,
        n * n <= 256,
        c.len() == n * n,
        single_blank(c, b),
        distinct_tiles(c),
        tiles_at_most(c, n * n - 1),
        solvable(n, c, b),
    ensures
        reachable_within(n, c, goal_cells(n), solve_bound(n as int)),
        reachable(n, c, goal_cells(n)),
{
    let g = goal_cells(n);
    let ni = n as int;
    let nn = ni * ni;
    lemma_solve_bound(ni);
    if n == 1 {
        assert(c =~= g);
        lemma_reach_refl(n, c);
        lemma_reach_mono(n, c, c, 0, solve_bound(ni));
        lemma_within_reachable(n, c, c, 0);
        return;
    }
    assert(nn >= 4) by (nonlinear_arith)
        requires
            ni >= 2,
            nn == ni * ni,
    ;
    assert(cycle_cost(ni) >= 0) by (nonlinear_arith)
        requires
            ni >= 2,
    ;
    let z = snake(ni, b as int);
    lemma_snake(ni, b as int);
    lemma_lay_read(ni, c, b as int);
    let l = read(ni, c, z);
    // the tiles read from the start: distinct, from 1 to nn - 1
    assert forall|p: int, q: int| 0 <= p < q < l.len() implies l[p] != l[q] by {
        let fp = if p < z { p } else { p + 1 };
        let fq = if q < z { q } else { q + 1 };
        lemma_snake(ni, fp);
        lemma_snake(ni, fq);
        let cp = snake(ni, fp);
        let cq = snake(ni, fq);
        assert(cp != cq);
        assert(l[p] == c[cp] && l[q] == c[cq]);
        assert(l[p] != 0);
        if cp < cq {
            assert(c[cp] != c[cq]);
        } else {
            assert(c[cq] != c[cp]);
        }
    }
    assert forall|p: int| 0 <= p < l.len() implies l[p] <= nn - 1 by {
        let fp = if p < z { p } else { p + 1 };
        lemma_snake(ni, fp);
    }
    // the same for the solved layout
    lemma_goal_single_blank(n);
    let gb = nn - 1;
    let gz = snake(ni, gb);
    lemma_snake(ni, gb);
    lemma_lay_read(ni, g, gb);
    let gl = read(ni, g, gz);
    assert forall|p: int, q: int| 0 <= p < q < g.len() && g[p] == g[q] implies g[p] == 0 by {
        if q < nn - 1 {
            assert(g[p] == (p + 1) as u8 && g[q] == (q + 1) as u8);
        }
    }
    assert(distinct_tiles(g));
    assert forall|p: int, q: int| 0 <= p < q < gl.len() implies gl[p] != gl[q] by {
        let fp = if p < gz { p } else { p + 1 };
        let fq = if q < gz { q } else { q + 1 };
        lemma_snake(ni, fp);
        lemma_snake(ni, fq);
        let cp = snake(ni, fp);
        let cq = snake(ni, fq);
        assert(cp != cq);
        assert(gl[p] != 0);
        if cp < cq {
            assert(g[cp] != g[cq]);
        } else {
            assert(g[cq] != g[cp]);
        }
    }
    assert forall|p: int| 0 <= p < gl.len() implies gl[p] <= nn - 1 by {
        let fp = if p < gz { p } else { p + 1 };
        lemma_snake(ni, fp);
    }
    assert forall|x: u8| l.contains(x) <==> gl.contains(x) by {
        if 1 <= x <= nn - 1 {
            lemma_tiles_full(l, nn - 1, x);
            lemma_tiles_full(gl, nn - 1, x);
        }
    }
    let cs = cycle_cost(ni) * nn * (nn - 3);
    lemma_sort(ni, l, gl, nn - 1);
    // from the start to the tiles laid with the blank at the snake's end
    lemma_travel(ni, l, z, nn - 1);
    // from there, by the goal's tiles, to the goal
    lemma_travel(ni, gl, nn - 1, gz);
    if linked(ni, l, gl, cs) {
        lemma_reach_trans(n, c, lay(ni, l, nn - 1), lay(ni, gl, nn - 1), nn, cs);
        lemma_reach_trans(n, c, lay(ni, gl, nn - 1), g, nn + cs, nn);
        assert(nn + cs + nn <= solve_bound(ni)) by (nonlinear_arith)
            requires
                cs == cycle_cost(ni) * nn * (nn - 3),
                cycle_cost(ni) >= 0,
                nn >= 4,
                nn == ni * ni,
        ;
        lemma_reach_mono(n, c, g, nn + cs + nn, solve_bound(ni));
    } else {
        let sg = swap_front(gl);
        let xs = lay(ni, sg, nn - 1);
        let ys = lay(ni, gl, nn - 1);
        lemma_reach_trans(n, c, lay(ni, l, nn - 1), xs, nn, cs);
        lemma_within_reachable(n, c, xs, nn + cs);
        lemma_first_zero_single(c, b);
        lemma_reach_keeps_solvable(n, c, xs);
        lemma_travel(ni, gl, gz, nn - 1);
        lemma_within_reachable(n, g, ys, nn);
        lemma_first_zero_single(g, gb as nat);
        lemma_reach_keeps_solvable(n, g, ys);
        lemma_goal_solvable(n);
        assert(snake_tiles(ni, sg));
        lemma_lay_single(ni, sg, nn - 1);
        lemma_lay_single(ni, gl, nn - 1);
        lemma_snake(ni, 0);
        lemma_snake(ni, 1);
        lemma_snake(ni, nn - 1);
        assert(snake(ni, 0) == 0);
        assert(snake(ni, 1) == 1) by {
            lemma_fundamental_div_mod_converse(1, ni, 0, 1);
        }
        assert((nn - 1) / ni == ni - 1) by {
            assert((ni - 1) * ni + ni - 1 == nn - 1) by (nonlinear_arith)
                requires
                    nn == ni * ni,
            ;
            lemma_fundamental_div_mod_converse(nn - 1, ni, ni - 1, ni - 1);
        }
        let bl = snake(ni, nn - 1);
        assert(bl >= 2) by (nonlinear_arith)
            requires
                bl / ni == ni - 1,
                ni >= 2,
                bl >= 0,
        ;
        assert forall|p: int| 0 <= p < nn implies #[trigger] xs[p] == swap_cells(ys, 0, 1)[p] by {
            lemma_snake(ni, p);
        }
        assert(xs =~= swap_cells(ys, 0, 1));
        assert(gl[0] != gl[1]);
        lemma_swap_front_flips(n, ys, bl as nat);
    }
}

/// On a position with one blank and distinct tiles numbered from `1` to
/// `n*n - 1`, the parity rule holds exactly when the solved layout can be
/// reached.
pub proof fn lemma_solvable_iff_reachable(n: nat, c: Seq<u8>, b: nat)
    requires
        n >= 1,
        n * n <= 256,
        c.len() == n * n,
        single_blank(c, b),
        distinct_tiles(c),
        tiles_at_most(c, n * n - 1),
    ensures
        solvable(n, c, b) <==> reachable(n, c, goal_cells(n)),
{
    lemma_first_zero_single(c, b);
    if solvable(n, c, b) {
        lemma_solvable_reachable(n, c, b);
    } else {
        super::parity::lemma_unsolvable_unreachable(n, c);
    }
}

/// Swapping two cells keeps every tile.
proof fn lemma_swap_same_tiles(c: Seq<u8>, e: int, t: int)
    requires
        0 <= e < c.len(),
        0 <= t < c.len(),
    ensures
        swap_cells(c, e, t).to_multiset() == c.to_multiset(),
{
    broadcast use vstd::multiset::group_multiset_axioms;

    let u = c.update(e, c[t]);
    vstd::seq_lib::to_multiset_update(c, e, c[t]);
    vstd::seq_lib::to_multiset_update(u, t, c[e]);
    vstd::seq_lib::to_multiset_contains(c, c[e]);
    vstd::seq_lib::to_multiset_contains(c, c[t]);
    assert(c.contains(c[e]) && c.contains(c[t]));
    if e == t {
        assert(swap_cells(c, e, t) =~= c);
    } else {
        assert(u[t] == c[t]);
    }
    let s = swap_cells(c, e, t);
    assert forall|v: u8| #[trigger] s.to_multiset().count(v) == c.to_multiset().count(v) by {}
    assert(s.to_multiset() =~= c.to_multiset());
}

/// Moves keep every tile: along a walk from a puzzle position, every
/// position holds the tiles of the first.
proof fn lemma_walk_same_tiles(n: nat, w: Seq<Seq<u8>>, i: int)
    requires
        n >= 1,
        is_walk(n, w),
        w[0].len() == n * n,
        single_blank(w[0], first_zero(w[0])),
        0 <= i < w.len(),
    ensures
        w[i].to_multiset() == w[0].to_multiset(),
    decreases i,
{
    if i > 0 {
        lemma_walk_same_tiles(n, w, i - 1);
        lemma_walk_single_blank(n, w, i - 1);
        let a = w[i - 1];
        assert(one_move(n, a, w[i]));
        let e = first_zero(a) as int;
        let ts = move_targets(n as int, e);
        lemma_move_targets(n as int, e);
        let j = choose|j: int| 0 <= j < moves_of(n, a).len() && #[trigger] moves_of(n, a)[j] == w[i];
        assert(w[i] == swap_cells(a, e, ts[j]));
        lemma_swap_same_tiles(a, e, ts[j]);
    }
}

/// A puzzle position that can reach the solved layout can do so in at most
/// `solve_bound(n)` moves, fewer than `u32::MAX`.
pub proof fn lemma_reachable_soon(n: nat, c: Seq<u8>)
    requires
        n >= 1,
        n * n <= 256,
        c.len() == n * n,
        single_blank(c, first_zero(c)),
        reachable(n, c, goal_cells(n)),
    ensures
        reachable_within(n, c, goal_cells(n), solve_bound(n as int)),
        solve_bound(n as int) < u32::MAX,
{
    broadcast use vstd::multiset::group_multiset_axioms;

    let g = goal_cells(n);
    let w = choose|w: Seq<Seq<u8>>| is_walk(n, w) && w[0] == c && w.last() == g;
    lemma_walk_same_tiles(n, w, w.len() - 1);
    assert(c.to_multiset() == g.to_multiset());
    let nn = (n * n) as int;
    assert(g.no_duplicates()) by {
        assert forall|p: int, q: int| 0 <= p < g.len() && 0 <= q < g.len() && p != q implies g[p]
            != g[q] by {
            if p < nn - 1 && q < nn - 1 {
                assert(g[p] == (p + 1) as u8 && g[q] == (q + 1) as u8);
            }
        }
    }
    g.lemma_multiset_has_no_duplicates();
    c.lemma_multiset_has_no_duplicates_conv();
    assert forall|p: int| 0 <= p < c.len() implies c[p] <= nn - 1 by {
        vstd::seq_lib::to_multiset_contains(c, c[p]);
        vstd::seq_lib::to_multiset_contains(g, c[p]);
        assert(c.contains(c[p]));
        let q = choose|q: int| 0 <= q < g.len() && g[q] == c[p];
    }
    assert(distinct_tiles(c));
    lemma_goal_single_blank(n);
    if !solvable(n, c, first_zero(c)) {
        super::parity::lemma_unsolvable_unreachable(n, c);
    }
    lemma_solvable_reachable(n, c, first_zero(c));
    lemma_solve_bound(n as int);
}

} // verus!
