//! Levels of the bucket search.  A position's level is its depth plus its
//! Manhattan distance to the solved layout; every move changes the distance
//! by one, so the level never drops along a walk, and the two stacks of the
//! search hold the current level and the next one.  What the search keeps
//! true of the levels shows that the solution it returns is a shortest one.
use super::bucket_dfs::on_stack;
use crate::board::distance::lemma_manhattan_to_itself;
use crate::board::grid::{lemma_first_zero_single, lemma_goal_single_blank};
use crate::board::parity::distinct_tiles;
use crate::board::properties::{lemma_moves_change_heuristic_by_one, lemma_walk_single_blank};
use crate::board::{
    first_zero, goal_cells, is_walk, last_pos, manhattan, manhattan_prefix, moves_of, one_move,
    single_blank, tile_term, Board,
};
use vstd::prelude::*;

verus! {

/// Manhattan distance of `c` to the position `t` a side searches for.
pub open spec fn h_to(n: nat, t: Seq<u8>, c: Seq<u8>) -> int {
    manhattan(n, c, t)
}

/// `b` can be reached from `a` in exactly `k` moves.
pub open spec fn reachable_in(n: nat, a: Seq<u8>, b: Seq<u8>, k: nat) -> bool {
    exists|w: Seq<Seq<u8>>| is_walk(n, w) && w.len() == k + 1 && w[0] == a && w.last() == b
}

/// The level of a visited position.
pub open spec fn level(n: nat, t: Seq<u8>, depth: Map<Seq<u8>, nat>, c: Seq<u8>) -> int {
    depth[c] + h_to(n, t, c)
}

/// The level a stack entry offers its position: one move past its parent.
pub open spec fn offer<B: Board>(n: nat, t: Seq<u8>, depth: Map<Seq<u8>, nat>, e: (B, B::Key)) -> int {
    depth[B::key_cells(&e.1)] + 1 + h_to(n, t, e.0.cells())
}

/// The move from the expanded position `c` to `m` is accounted for: `m` is
/// visited no higher than the move offers, or waits on the stack of the
/// level the move offers.
pub open spec fn edge_ok<B: Board>(
    n: nat,
    t: Seq<u8>,
    p: Map<Seq<u8>, Seq<u8>>,
    depth: Map<Seq<u8>, nat>,
    current: Seq<(B, B::Key)>,
    next_box: Seq<(B, B::Key)>,
    fl: int,
    c: Seq<u8>,
    m: Seq<u8>,
) -> bool {
    let o = depth[c] + 1 + h_to(n, t, m);
    ||| p.contains_key(m) && level(n, t, depth, m) <= o
    ||| o == fl && on_stack(current, m)
    ||| o == fl + 2 && on_stack(next_box, m)
}

/// What the search keeps true of the levels, `fl` being the level of the
/// current bucket: expanded positions and the parents on the stacks are
/// visited; visited positions are at most at `fl`, and exactly at it
/// unless expanded (or `pending`, being expanded); unvisited entries of the
/// current stack offer `fl`, those of the next one `fl + 2` unless their
/// position also waits on the current stack; and every move out of an
/// expanded position is accounted for.
pub open spec fn level_inv<B: Board>(
    n: nat,
    t: Seq<u8>,
    p: Map<Seq<u8>, Seq<u8>>,
    depth: Map<Seq<u8>, nat>,
    expanded: Set<Seq<u8>>,
    pending: Set<Seq<u8>>,
    current: Seq<(B, B::Key)>,
    next_box: Seq<(B, B::Key)>,
    fl: int,
) -> bool {
    &&& expanded.subset_of(p.dom())
    &&& forall|i: int|
        0 <= i < current.len() ==> p.contains_key(B::key_cells(&(#[trigger] current[i]).1))
    &&& forall|i: int|
        0 <= i < next_box.len() ==> p.contains_key(B::key_cells(&(#[trigger] next_box[i]).1))
    &&& forall|c: Seq<u8>| #[trigger] p.contains_key(c) ==> level(n, t, depth, c) <= fl
    &&& forall|c: Seq<u8>|
        #[trigger] p.contains_key(c) && !expanded.contains(c) && !pending.contains(c) ==> level(n, t, depth,
            c,
        ) == fl
    &&& forall|i: int|
        0 <= i < current.len() && !p.contains_key((#[trigger] current[i]).0.cells()) ==> offer(n, t, depth,
            current[i],
        ) == fl
    &&& forall|i: int|
        0 <= i < next_box.len() && !p.contains_key((#[trigger] next_box[i]).0.cells()) ==> offer(n, t, depth,
            next_box[i],
        ) == fl + 2 || on_stack(current, next_box[i].0.cells())
    &&& forall|c: Seq<u8>, m: Seq<u8>|
        expanded.contains(c) && #[trigger] moves_of(n, c).contains(m) ==> edge_ok(n, t, p,
            depth,
            current,
            next_box,
            fl,
            c,
            m,
        )
}

/// An accounted move stays accounted for as the visited map grows and the
/// stacks change, provided whatever leaves the current stack is visited at
/// most at the current level.
proof fn lemma_edge_ok_grow<B: Board>(
    n: nat,
    t: Seq<u8>,
    p: Map<Seq<u8>, Seq<u8>>,
    depth: Map<Seq<u8>, nat>,
    cur: Seq<(B, B::Key)>,
    nb: Seq<(B, B::Key)>,
    p2: Map<Seq<u8>, Seq<u8>>,
    depth2: Map<Seq<u8>, nat>,
    cur2: Seq<(B, B::Key)>,
    nb2: Seq<(B, B::Key)>,
    fl: int,
    c: Seq<u8>,
    m: Seq<u8>,
)
    requires
        edge_ok(n, t, p, depth, cur, nb, fl, c, m),
        p.contains_key(c),
        forall|k: Seq<u8>| p.contains_key(k) ==> p2.contains_key(k) && depth2[k] == depth[k],
        forall|z: Seq<u8>|
            on_stack(cur, z) ==> on_stack(cur2, z) || (p2.contains_key(z) && level(n, t, depth2, z)
                <= fl),
        forall|z: Seq<u8>| on_stack(nb, z) ==> on_stack(nb2, z),
    ensures
        edge_ok(n, t, p2, depth2, cur2, nb2, fl, c, m),
{
}

/// Popping the last entry of the current stack and visiting its position.
pub proof fn lemma_level_pop<B: Board>(
    n: nat,
    t: Seq<u8>,
    p: Map<Seq<u8>, Seq<u8>>,
    depth: Map<Seq<u8>, nat>,
    expanded: Set<Seq<u8>>,
    current: Seq<(B, B::Key)>,
    next_box: Seq<(B, B::Key)>,
    fl: int,
    p2: Map<Seq<u8>, Seq<u8>>,
    depth2: Map<Seq<u8>, nat>,
)
    requires
        level_inv(n, t, p, depth, expanded, Set::empty(), current, next_box, fl),
        current.len() > 0,
        p.contains_key(B::key_cells(&current.last().1)),
        expanded.subset_of(p.dom()),
        p.contains_key(current.last().0.cells()) ==> p2 == p && depth2 == depth,
        !p.contains_key(current.last().0.cells()) ==> p2 == p.insert(
            current.last().0.cells(),
            B::key_cells(&current.last().1),
        ) && depth2 == depth.insert(
            current.last().0.cells(),
            depth[B::key_cells(&current.last().1)] + 1,
        ),
    ensures
        level_inv(n, t, p2,
            depth2,
            expanded,
            set![current.last().0.cells()],
            current.drop_last(),
            next_box,
            fl,
        ),
        p2.contains_key(current.last().0.cells()),
        level(n, t, depth2, current.last().0.cells()) <= fl,
        !expanded.contains(current.last().0.cells()) ==> level(n, t, depth2,
            current.last().0.cells(),
        ) == fl,
{
    let x = current.last().0.cells();
    let last = current.len() - 1;
    let cur2 = current.drop_last();
    assert(current[last] == current.last());
    assert forall|z: Seq<u8>| on_stack(current, z) implies on_stack(cur2, z) || (p2.contains_key(z)
        && level(n, t, depth2, z) <= fl) by {
        let i = choose|i: int| 0 <= i < current.len() && (#[trigger] current[i]).0.cells() == z;
        if i != last {
            assert(cur2[i] == current[i]);
        }
    }
    assert forall|i: int|
        0 <= i < cur2.len() && !p2.contains_key((#[trigger] cur2[i]).0.cells()) implies offer(n, t, depth2,
        cur2[i],
    ) == fl by {
        assert(cur2[i] == current[i]);
    }
    assert forall|i: int|
        0 <= i < next_box.len() && !p2.contains_key(
            (#[trigger] next_box[i]).0.cells(),
        ) implies offer(n, t, depth2, next_box[i]) == fl + 2 || on_stack(
        cur2,
        next_box[i].0.cells(),
    ) by {
        let z = next_box[i].0.cells();
        if on_stack(current, z) && z != x {
            let j = choose|j: int| 0 <= j < current.len() && (#[trigger] current[j]).0.cells() == z;
            assert(cur2[j] == current[j]);
        }
    }
    assert forall|c: Seq<u8>, m: Seq<u8>|
        expanded.contains(c) && #[trigger] moves_of(n, c).contains(m) implies edge_ok(n, t, p2,
        depth2,
        cur2,
        next_box,
        fl,
        c,
        m,
    ) by {
        lemma_edge_ok_grow(n, t, p, depth, current, next_box, p2, depth2, cur2, next_box, fl, c, m);
    }
}

/// A neighbour already visited: the move is accounted for when the expanded
/// position is at the current level.
pub proof fn lemma_level_seen<B: Board>(
    n: nat,
    t: Seq<u8>,
    p: Map<Seq<u8>, Seq<u8>>,
    depth: Map<Seq<u8>, nat>,
    expanded: Set<Seq<u8>>,
    pending: Set<Seq<u8>>,
    current: Seq<(B, B::Key)>,
    next_box: Seq<(B, B::Key)>,
    fl: int,
    x: Seq<u8>,
    m: Seq<u8>,
)
    requires
        level_inv(n, t, p, depth, expanded, pending, current, next_box, fl),
        p.contains_key(x),
        p.contains_key(m),
        level(n, t, depth, x) == fl,
        h_to(n, t, m) == h_to(n, t, x) + 1 || h_to(n, t, m) == h_to(n, t, x) - 1,
    ensures
        edge_ok(n, t, p, depth, current, next_box, fl, x, m),
{
}

/// Visiting a neighbour that stays in the current bucket and pushing it on
/// the current stack.
pub proof fn lemma_level_push_current<B: Board>(
    n: nat,
    t: Seq<u8>,
    p: Map<Seq<u8>, Seq<u8>>,
    depth: Map<Seq<u8>, nat>,
    expanded: Set<Seq<u8>>,
    pending: Set<Seq<u8>>,
    current: Seq<(B, B::Key)>,
    next_box: Seq<(B, B::Key)>,
    fl: int,
    x: Seq<u8>,
    e: (B, B::Key),
)
    requires
        level_inv(n, t, p, depth, expanded, pending, current, next_box, fl),
        p.contains_key(x),
        !p.contains_key(e.0.cells()),
        B::key_cells(&e.1) == x,
        level(n, t, depth, x) == fl,
        h_to(n, t, e.0.cells()) == h_to(n, t, x) - 1,
    ensures
        level_inv(n, t, p.insert(e.0.cells(), x),
            depth.insert(e.0.cells(), depth[x] + 1),
            expanded,
            pending,
            current.push(e),
            next_box,
            fl,
        ),
        edge_ok(n, t, p.insert(e.0.cells(), x),
            depth.insert(e.0.cells(), depth[x] + 1),
            current.push(e),
            next_box,
            fl,
            x,
            e.0.cells(),
        ),
        forall|c: Seq<u8>, m: Seq<u8>|
            p.contains_key(c) && edge_ok(n, t, p, depth, current, next_box, fl, c, m) ==> edge_ok(n, t, p.insert(e.0.cells(), x),
                depth.insert(e.0.cells(), depth[x] + 1),
                current.push(e),
                next_box,
                fl,
                c,
                m,
            ),
{
    let mc = e.0.cells();
    let p2 = p.insert(mc, x);
    let depth2 = depth.insert(mc, depth[x] + 1);
    let cur2 = current.push(e);
    assert forall|z: Seq<u8>| on_stack(current, z) implies on_stack(cur2, z) by {
        let i = choose|i: int| 0 <= i < current.len() && (#[trigger] current[i]).0.cells() == z;
        assert(cur2[i] == current[i]);
    }
    assert forall|c: Seq<u8>, m: Seq<u8>|
        p.contains_key(c) && edge_ok(n, t, p, depth, current, next_box, fl, c, m) implies edge_ok(n, t, p2,
        depth2,
        cur2,
        next_box,
        fl,
        c,
        m,
    ) by {
        lemma_edge_ok_grow(n, t, p, depth, current, next_box, p2, depth2, cur2, next_box, fl, c, m);
    }
    assert forall|i: int|
        0 <= i < cur2.len() && !p2.contains_key((#[trigger] cur2[i]).0.cells()) implies offer(n, t, depth2,
        cur2[i],
    ) == fl by {
        assert(cur2[i] == current[i]);
    }
    assert forall|i: int|
        0 <= i < next_box.len() && !p2.contains_key(
            (#[trigger] next_box[i]).0.cells(),
        ) implies offer(n, t, depth2, next_box[i]) == fl + 2 || on_stack(
        cur2,
        next_box[i].0.cells(),
    ) by {}
    assert forall|c: Seq<u8>, m: Seq<u8>|
        expanded.contains(c) && #[trigger] moves_of(n, c).contains(m) implies edge_ok(n, t, p2,
        depth2,
        cur2,
        next_box,
        fl,
        c,
        m,
    ) by {
        lemma_edge_ok_grow(n, t, p, depth, current, next_box, p2, depth2, cur2, next_box, fl, c, m);
    }
}

/// Pushing a neighbour one bucket up on the next stack.  A position expanded
/// below the current level pushes only neighbours already waiting on the
/// current stack.
pub proof fn lemma_level_push_next<B: Board>(
    n: nat,
    t: Seq<u8>,
    p: Map<Seq<u8>, Seq<u8>>,
    depth: Map<Seq<u8>, nat>,
    expanded: Set<Seq<u8>>,
    pending: Set<Seq<u8>>,
    current: Seq<(B, B::Key)>,
    next_box: Seq<(B, B::Key)>,
    fl: int,
    x: Seq<u8>,
    e: (B, B::Key),
)
    requires
        level_inv(n, t, p, depth, expanded, pending, current, next_box, fl),
        p.contains_key(x),
        !p.contains_key(e.0.cells()),
        B::key_cells(&e.1) == x,
        level(n, t, depth, x) == fl || on_stack(current, e.0.cells()),
        h_to(n, t, e.0.cells()) == h_to(n, t, x) + 1,
    ensures
        level_inv(n, t, p, depth, expanded, pending, current, next_box.push(e), fl),
        level(n, t, depth, x) == fl ==> edge_ok(n, t, p,
            depth,
            current,
            next_box.push(e),
            fl,
            x,
            e.0.cells(),
        ),
        forall|c: Seq<u8>, m: Seq<u8>|
            p.contains_key(c) && edge_ok(n, t, p, depth, current, next_box, fl, c, m) ==> edge_ok(n, t, p,
                depth,
                current,
                next_box.push(e),
                fl,
                c,
                m,
            ),
{
    let nb2 = next_box.push(e);
    assert forall|z: Seq<u8>| on_stack(next_box, z) implies on_stack(nb2, z) by {
        let i = choose|i: int| 0 <= i < next_box.len() && (#[trigger] next_box[i]).0.cells() == z;
        assert(nb2[i] == next_box[i]);
    }
    assert(nb2[next_box.len() as int] == e);
    assert(on_stack(nb2, e.0.cells()));
    assert forall|c: Seq<u8>, m: Seq<u8>|
        p.contains_key(c) && edge_ok(n, t, p, depth, current, next_box, fl, c, m) implies edge_ok(n, t, p,
        depth,
        current,
        nb2,
        fl,
        c,
        m,
    ) by {
        lemma_edge_ok_grow(n, t, p, depth, current, next_box, p, depth, current, nb2, fl, c, m);
    }
    assert forall|i: int|
        0 <= i < nb2.len() && !p.contains_key((#[trigger] nb2[i]).0.cells()) implies offer(n, t, depth,
        nb2[i],
    ) == fl + 2 || on_stack(current, nb2[i].0.cells()) by {
        if i < next_box.len() {
            assert(nb2[i] == next_box[i]);
        }
    }
    assert forall|c: Seq<u8>, m: Seq<u8>|
        expanded.contains(c) && #[trigger] moves_of(n, c).contains(m) implies edge_ok(n, t, p,
        depth,
        current,
        nb2,
        fl,
        c,
        m,
    ) by {
        lemma_edge_ok_grow(n, t, p, depth, current, next_box, p, depth, current, nb2, fl, c, m);
    }
}

/// The expansion of `x` is complete: `x` joins the expanded positions.
pub proof fn lemma_level_finish<B: Board>(
    n: nat,
    t: Seq<u8>,
    p: Map<Seq<u8>, Seq<u8>>,
    depth: Map<Seq<u8>, nat>,
    expanded: Set<Seq<u8>>,
    current: Seq<(B, B::Key)>,
    next_box: Seq<(B, B::Key)>,
    fl: int,
    x: Seq<u8>,
)
    requires
        level_inv(n, t, p, depth, expanded, set![x], current, next_box, fl),
        p.contains_key(x),
        expanded.contains(x) || forall|m: Seq<u8>|
            #[trigger] moves_of(n, x).contains(m) ==> edge_ok(n, t, p,
                depth,
                current,
                next_box,
                fl,
                x,
                m,
            ),
    ensures
        level_inv(n, t, p, depth, expanded.insert(x), Set::empty(), current, next_box, fl),
{
    let e2 = expanded.insert(x);
    assert forall|c: Seq<u8>, m: Seq<u8>|
        e2.contains(c) && #[trigger] moves_of(n, c).contains(m) implies edge_ok(n, t, p,
        depth,
        current,
        next_box,
        fl,
        c,
        m,
    ) by {
        if c != x {
            assert(expanded.contains(c));
        }
    }
}

/// Moving on to the next bucket once the current stack is empty and every
/// visited position is expanded.
pub proof fn lemma_level_promote<B: Board>(
    n: nat,
    t: Seq<u8>,
    p: Map<Seq<u8>, Seq<u8>>,
    depth: Map<Seq<u8>, nat>,
    expanded: Set<Seq<u8>>,
    current: Seq<(B, B::Key)>,
    next_box: Seq<(B, B::Key)>,
    fl: int,
)
    requires
        level_inv(n, t, p, depth, expanded, Set::empty(), current, next_box, fl),
        current.len() == 0,
        forall|c: Seq<u8>| #[trigger] p.contains_key(c) ==> expanded.contains(c),
    ensures
        level_inv(n, t, p, depth, expanded, Set::empty(), next_box, current, fl + 2),
{
    assert forall|c: Seq<u8>, m: Seq<u8>|
        expanded.contains(c) && #[trigger] moves_of(n, c).contains(m) implies edge_ok(n, t, p,
        depth,
        next_box,
        current,
        fl + 2,
        c,
        m,
    ) by {
        assert(edge_ok(n, t, p, depth, current, next_box, fl, c, m));
    }
}

/// Along a walk, the level counted by steps never drops.
pub proof fn lemma_walk_level_mono(n: nat, t: Seq<u8>, w: Seq<Seq<u8>>, i: int, j: int)
    requires
        n >= 1,
        is_walk(n, w),
        w[0].len() == n * n,
        single_blank(w[0], first_zero(w[0])),
        0 <= i <= j < w.len(),
    ensures
        i + h_to(n, t, w[i]) <= j + h_to(n, t, w[j]),
    decreases j - i,
{
    if i < j {
        lemma_walk_level_mono(n, t, w, i + 1, j);
        lemma_walk_single_blank(n, w, i);
        assert(one_move(n, w[i], w[i + 1]));
        lemma_moves_change_heuristic_by_one(n, w[i], t, w[i + 1]);
    }
}

/// Following a walk from the root whose step-counted levels stay below the
/// current level: each position on it is visited no deeper than its step,
/// and is expanded, until the walk meets `x`.
pub proof fn lemma_walk_expanded<B: Board>(
    n: nat,
    t: Seq<u8>,
    p: Map<Seq<u8>, Seq<u8>>,
    depth: Map<Seq<u8>, nat>,
    expanded: Set<Seq<u8>>,
    current: Seq<(B, B::Key)>,
    next_box: Seq<(B, B::Key)>,
    fl: int,
    x: Seq<u8>,
    w: Seq<Seq<u8>>,
    i: int,
)
    requires
        level_inv(n, t, p, depth, expanded, set![x], current, next_box, fl),
        is_walk(n, w),
        p.contains_key(w[0]),
        depth[w[0]] == 0,
        0 <= i < w.len(),
        forall|j: int| 0 <= j <= i ==> j + h_to(n, t, #[trigger] w[j]) < fl,
    ensures
        (exists|j: int| 0 <= j <= i && #[trigger] w[j] == x && depth[x] <= j) || (p.contains_key(
            w[i],
        ) && depth[w[i]] <= i && expanded.contains(w[i])),
    decreases i,
{
    if i == 0 {
        if w[0] != x {
            assert(0 + h_to(n, t, w[0]) < fl);
        }
    } else {
        lemma_walk_expanded(n, t, p, depth, expanded, current, next_box, fl, x, w, i - 1);
        if exists|j: int| 0 <= j <= i - 1 && #[trigger] w[j] == x && depth[x] <= j {
        } else {
            let c = w[i - 1];
            let m = w[i];
            assert(one_move(n, w[i - 1], w[i]));
            assert(moves_of(n, c).contains(m));
            assert(edge_ok(n, t, p, depth, current, next_box, fl, c, m));
            assert(i + h_to(n, t, w[i]) < fl);
            if m == x {
                assert(w[i] == x && depth[x] <= i);
            }
        }
    }
}

/// A position visited while `x` is being expanded is reached by no walk
/// from the root shorter than its depth.
pub proof fn lemma_depth_shortest<B: Board>(
    n: nat,
    t: Seq<u8>,
    p: Map<Seq<u8>, Seq<u8>>,
    depth: Map<Seq<u8>, nat>,
    expanded: Set<Seq<u8>>,
    current: Seq<(B, B::Key)>,
    next_box: Seq<(B, B::Key)>,
    fl: int,
    x: Seq<u8>,
    root: Seq<u8>,
    c: Seq<u8>,
    k: nat,
)
    requires
        n >= 1,
        root.len() == n * n,
        single_blank(root, first_zero(root)),
        level_inv(n, t, p, depth, expanded, set![x], current, next_box, fl),
        x == c || level_inv(n, t, p, depth, expanded, set![c], current, next_box, fl),
        p.contains_key(c),
        p.contains_key(root),
        depth[root] == 0,
        reachable_in(n, root, c, k),
    ensures
        depth[c] <= k,
{
    if depth[c] > k {
        let w = choose|w: Seq<Seq<u8>>|
            is_walk(n, w) && w.len() == k + 1 && w[0] == root && w.last() == c;
        assert(w[k as int] == c);
        assert(level(n, t, depth, c) <= fl);
        assert forall|j: int| 0 <= j <= k implies j + h_to(n, t, #[trigger] w[j]) < fl by {
            lemma_walk_level_mono(n, t, w, j, k as int);
        }
        lemma_walk_expanded(n, t, p, depth, expanded, current, next_box, fl, c, w, k as int);
    }
}

/// With both stacks empty every move out of an expanded position lands on a
/// visited one, so the levels hold for any higher bucket.
pub proof fn lemma_level_raise<B: Board>(
    n: nat,
    t: Seq<u8>,
    p: Map<Seq<u8>, Seq<u8>>,
    depth: Map<Seq<u8>, nat>,
    expanded: Set<Seq<u8>>,
    current: Seq<(B, B::Key)>,
    next_box: Seq<(B, B::Key)>,
    fl: int,
    fl2: int,
)
    requires
        level_inv(n, t, p, depth, expanded, Set::empty(), current, next_box, fl),
        current.len() == 0,
        next_box.len() == 0,
        forall|c: Seq<u8>| #[trigger] p.contains_key(c) ==> expanded.contains(c),
        fl <= fl2,
    ensures
        level_inv(n, t, p, depth, expanded, Set::empty(), current, next_box, fl2),
{
    assert forall|c: Seq<u8>, m: Seq<u8>|
        expanded.contains(c) && #[trigger] moves_of(n, c).contains(m) implies edge_ok(
        n,
        t,
        p,
        depth,
        current,
        next_box,
        fl2,
        c,
        m,
    ) by {
        assert(edge_ok(n, t, p, depth, current, next_box, fl, c, m));
    }
}

/// The last occurrence of `s[i]` is `i` when no later entry equals it.
proof fn lemma_last_pos_unique(s: Seq<u8>, i: int)
    requires
        0 <= i < s.len(),
        forall|j: int| i < j < s.len() ==> s[j] != s[i],
    ensures
        last_pos(s, s[i]) == i,
    decreases s.len(),
{
    if s.len() - 1 != i {
        let d = s.drop_last();
        assert(d[i] == s[i]);
        lemma_last_pos_unique(d, i);
    }
}

/// The solved layout is at distance zero from itself.
pub proof fn lemma_goal_at_zero(n: nat)
    requires
        n >= 1,
        n * n <= 256,
    ensures
        h_to(n, goal_cells(n), goal_cells(n)) == 0,
{
    lemma_goal_prefix_zero(n, (n * n) as int);
}

proof fn lemma_goal_prefix_zero(n: nat, k: int)
    requires
        n >= 1,
        n * n <= 256,
        0 <= k <= n * n,
    ensures
        manhattan_prefix(n, goal_cells(n), goal_cells(n), k) == 0,
    decreases k,
{
    let g = goal_cells(n);
    if k > 0 {
        lemma_goal_prefix_zero(n, k - 1);
        let i = k - 1;
        if g[i] != 0 {
            assert forall|j: int| i < j < g.len() implies g[j] != g[i] by {}
            lemma_last_pos_unique(g, i);
            assert(tile_term(n, g, g, i) == 0);
        }
    }
}

/// What holds with nothing being expanded holds while `x` is.
pub proof fn lemma_level_pending<B: Board>(
    n: nat,
    t: Seq<u8>,
    p: Map<Seq<u8>, Seq<u8>>,
    depth: Map<Seq<u8>, nat>,
    expanded: Set<Seq<u8>>,
    current: Seq<(B, B::Key)>,
    next_box: Seq<(B, B::Key)>,
    fl: int,
    x: Seq<u8>,
)
    requires
        level_inv(n, t, p, depth, expanded, Set::empty(), current, next_box, fl),
    ensures
        level_inv(n, t, p, depth, expanded, set![x], current, next_box, fl),
{
}

/// A visited position below an expanded one's move is no deeper than one
/// more than that position.
pub proof fn lemma_level_edge_depth<B: Board>(
    n: nat,
    t: Seq<u8>,
    p: Map<Seq<u8>, Seq<u8>>,
    depth: Map<Seq<u8>, nat>,
    expanded: Set<Seq<u8>>,
    pending: Set<Seq<u8>>,
    current: Seq<(B, B::Key)>,
    next_box: Seq<(B, B::Key)>,
    fl: int,
    c: Seq<u8>,
    k: Seq<u8>,
)
    requires
        level_inv(n, t, p, depth, expanded, pending, current, next_box, fl),
        expanded.contains(c),
        moves_of(n, c).contains(k),
        p.contains_key(k),
    ensures
        depth[k] <= depth[c] + 1,
{
    assert(edge_ok(n, t, p, depth, current, next_box, fl, c, k));
    assert(level(n, t, depth, k) <= fl);
}

/// The Manhattan distance never overestimates: a puzzle position that
/// reaches a position with distinct tiles in `k` moves is at most `k` away
/// from it.
pub proof fn lemma_manhattan_admissible(n: nat, c: Seq<u8>, t: Seq<u8>, k: nat)
    requires
        n >= 1,
        c.len() == n * n,
        single_blank(c, first_zero(c)),
        distinct_tiles(t),
        reachable_in(n, c, t, k),
    ensures
        manhattan(n, c, t) <= k,
{
    let w = choose|w: Seq<Seq<u8>>| is_walk(n, w) && w.len() == k + 1 && w[0] == c && w.last() == t;
    lemma_walk_level_mono(n, t, w, 0, k as int);
    assert(w[k as int] == t);
    lemma_manhattan_to_itself(n, t);
}

} // verus!
