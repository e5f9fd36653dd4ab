//! Bidirectional bucketed search: one bucket search forward from the start,
//! one backward from the solved layout, until they meet.
use super::bucket_dfs::{
    all_visited, entry_ok, lemma_push_keeps_on_stack, lemma_push_on_stack, on_stack, search_inv,
};
use super::levels::{
    edge_ok, h_to, lemma_depth_shortest, lemma_goal_at_zero, lemma_level_edge_depth,
    lemma_level_finish, lemma_level_pending, lemma_level_pop, lemma_level_promote,
    lemma_level_push_current, lemma_level_push_next, lemma_level_raise, lemma_level_seen,
    lemma_walk_expanded, lemma_walk_level_mono, level, level_inv, reachable_in,
};
use super::{
    lemma_closed_reachable, lemma_strict_superset_len, lemma_tree_walk, lemma_visited_bound,
    move_tree, one_blank, parent_tree, search_in_range, solution_path, walk_path, Solution,
};
use crate::board::grid::{
    lemma_first_zero_single, lemma_goal_single_blank, lemma_manhattan_bound, lemma_move_targets,
    lemma_one_move_symmetric, lemma_swap_single_blank, lemma_swap_tiles_at_most,
};
use crate::board::parity::{distinct_tiles, lemma_unsolvable_unreachable};
use crate::board::properties::{
    lemma_move_changes_heuristic_by_one, lemma_next_box_iff_farther, lemma_walk_single_blank,
};
use crate::board::space::{cell_space, lemma_cell_space_finite};
use crate::board::{
    first_zero, goal_cells, is_walk, manhattan, move_delta, move_targets, moves_of, one_move,
    reachable, side_in_range, single_blank, solvable, swap_cells, tiles_at_most, Board, Neighbor,
};
use crate::board::parity::lemma_goal_solvable;
use crate::board::solvability::{lemma_reachable_soon, lemma_solvable_reachable, solve_bound};
use vstd::prelude::*;

verus! {

/// One direction of the search.
struct Side<B: Board> {
    current: Vec<(B, B::Key)>,
    next_box: Vec<(B, B::Key)>,
    /// child_key → parent_key (root points to itself)
    visited: B::KeyMap,
    bucket_index: u32,
    h_initial: u32,
    target: B,
    /// Moves from the root to each visited position.
    depth: Ghost<Map<Seq<u8>, nat>>,
    /// The positions already expanded.
    expanded: Ghost<Set<Seq<u8>>>,
    /// The level of the current bucket: depth plus distance to the target.
    fl: Ghost<int>,
}

/// Some entry of the stack holds a position not yet visited.
spec fn has_fresh<B: Board>(s: Seq<(B, B::Key)>, p: Map<Seq<u8>, Seq<u8>>) -> bool {
    exists|i: int| 0 <= i < s.len() && !p.contains_key((#[trigger] s[i]).0.cells())
}

impl<B: Board> Side<B> {
    spec fn map(&self) -> Map<Seq<u8>, Seq<u8>> {
        B::map_view(&self.visited)
    }

    /// The side's search state is consistent: its visited map is a tree
    /// rooted at `root` (of moves, with its buckets in level order, when
    /// `puzzle`), it aims at `target`, and its bucket counter is the number
    /// of the current bucket modulo `2^32`.
    spec fn inv(&self, n: nat, root: Seq<u8>, puzzle: bool, target: Seq<u8>) -> bool {
        &&& search_inv(
            n,
            self.map(),
            self.depth@,
            root,
            puzzle,
            self.expanded@,
            Set::empty(),
            self.current@,
            self.next_box@,
        )
        &&& self.target.wf()
        &&& self.target.side() == n
        &&& self.target.cells() == target
        &&& tiles_at_most(target, (n * n) as int)
        &&& self.h_initial == manhattan(n, root, target)
        &&& self.fl@ >= self.h_initial
        &&& (self.fl@ - self.h_initial) % 2 == 0
        &&& self.bucket_index == ((self.fl@ - self.h_initial) / 2) % 0x1_0000_0000
        &&& puzzle ==> level_inv(
            n,
            target,
            self.map(),
            self.depth@,
            self.expanded@,
            Set::empty(),
            self.current@,
            self.next_box@,
            self.fl@,
        )
    }

    /// The estimate `f` reports: the level of the current bucket, or of the
    /// next one when the current stack is empty, with the bucket counted
    /// modulo `2^32`; `u64::MAX` when the side has nothing left.
    spec fn f_spec(&self) -> int {
        if self.current.len() == 0 && self.next_box.len() == 0 {
            u64::MAX as int
        } else if self.current.len() == 0 {
            self.h_initial + 2 * (self.bucket_index + 1)
        } else {
            self.h_initial + 2 * self.bucket_index
        }
    }

    /// The position `c` is visited or waits on one of the stacks.
    spec fn reaches(&self, c: Seq<u8>) -> bool {
        self.map().contains_key(c) || on_stack(self.current@, c) || on_stack(self.next_box@, c)
    }

    /// Where the stacks stand towards exhaustion, given the visited set.
    spec fn flag(&self) -> int {
        if has_fresh(self.current@, self.map()) {
            0
        } else if has_fresh(self.next_box@, self.map()) {
            1
        } else {
            2
        }
    }

    spec fn count(&self) -> int {
        if self.flag() == 2 {
            self.current.len() + 2 * self.next_box.len()
        } else {
            self.current.len() as int
        }
    }

    /// The positions of side `n` not yet visited.
    spec fn gap(&self, n: nat) -> int {
        cell_space(n * n).len() - self.map().dom().len()
    }

    /// The side made progress from `old`: fewer unvisited positions, or as
    /// many and its stacks closer to running out.
    spec fn progressed(&self, old: &Self, n: nat) -> bool {
        ||| self.gap(n) < old.gap(n)
        ||| self.gap(n) == old.gap(n) && self.flag() < old.flag()
        ||| self.gap(n) == old.gap(n) && self.flag() == old.flag() && self.count() < old.count()
    }

    /// Estimated total cost of the nodes in the current bucket, or `u64::MAX`
    /// when the side has nothing left.  The sum is formed in `u64`, so it
    /// never wraps.
    fn f(&self) -> (r: u64)
        ensures
            r == u64::MAX <==> (self.current.len() == 0 && self.next_box.len() == 0),
            r == self.f_spec(),
    {
        if self.current.is_empty() && self.next_box.is_empty() {
            u64::MAX
        } else if self.current.is_empty() {
            self.h_initial as u64 + 2 * (self.bucket_index as u64 + 1)
        } else {
            self.h_initial as u64 + 2 * self.bucket_index as u64
        }
    }

    /// Moves on to the next bucket.
    fn promote(&mut self)
        ensures
            final(self).current@ == old(self).next_box@,
            final(self).next_box@ == old(self).current@,
            final(self).visited == old(self).visited,
            final(self).target == old(self).target,
            final(self).depth == old(self).depth,
            final(self).expanded == old(self).expanded,
            final(self).h_initial == old(self).h_initial,
            final(self).fl == old(self).fl,
            final(self).bucket_index as int == (old(self).bucket_index + 1) % 0x1_0000_0000,
    {
        std::mem::swap(&mut self.current, &mut self.next_box);
        self.bucket_index = self.bucket_index.wrapping_add(1);
    }
}

/// `x` capped at `u32::MAX`.
spec fn capped(x: int) -> int {
    if x < u32::MAX {
        x
    } else {
        u32::MAX as int
    }
}

/// Number of parent links from `key` back to the root, saturating at
/// `u32::MAX`.
fn chain_len<B: Board>(
    visited: &B::KeyMap,
    key: &B::Key,
    n: usize,
    Ghost(depth): Ghost<Map<Seq<u8>, nat>>,
    Ghost(root): Ghost<Seq<u8>>,
) -> (len: u32)
    requires
        parent_tree::<B>(n as nat, B::map_view(visited), depth, root),
        B::map_view(visited).contains_key(B::key_cells(key)),
        B::valid_side(n as nat),
    ensures
        len as int == capped(depth[B::key_cells(key)] as int),
{
    let ghost p = B::map_view(visited);
    let ghost d0 = depth[B::key_cells(key)];
    let mut len: u32 = 0;
    proof {
        B::lemma_accepts_key(key);
    }
    let mut k = B::rebuild(key, n).key();
    loop
        invariant
            p == B::map_view(visited),
            parent_tree::<B>(n as nat, p, depth, root),
            p.contains_key(B::key_cells(&k)),
            depth[B::key_cells(&k)] <= d0,
            len as int == capped(d0 - depth[B::key_cells(&k)]),
        ensures
            len as int == capped(d0 as int),
        decreases depth[B::key_cells(&k)],
    {
        let parent = B::map_get(visited, &k);
        if B::key_eq(&parent, &k) {
            proof {
                super::lemma_tree_root::<B>(n as nat, p, depth, root, B::key_cells(&k));
            }
            break;
        }
        proof {
            assert(d0 - depth[B::key_cells(&k)] + 1 == d0 - depth[B::key_cells(&parent)]);
        }
        len = len.saturating_add(1);
        k = parent;
    }
    len
}

proof fn lemma_mod_succ(s: int)
    requires
        s >= 0,
    ensures
        (s + 1) % 0x1_0000_0000 == if s % 0x1_0000_0000 + 1 == 0x1_0000_0000 {
            0
        } else {
            s % 0x1_0000_0000 + 1
        },
{
    vstd::arithmetic::div_mod::lemma_add_mod_noop(s, 1, 0x1_0000_0000);
    vstd::arithmetic::div_mod::lemma_mod_bound(s, 0x1_0000_0000);
    if s % 0x1_0000_0000 + 1 < 0x1_0000_0000 {
        vstd::arithmetic::div_mod::lemma_small_mod(
            (s % 0x1_0000_0000 + 1) as nat,
            0x1_0000_0000,
        );
    } else {
        vstd::arithmetic::div_mod::lemma_mod_self_0(0x1_0000_0000);
    }
}

/// The meeting point found so far: with none, `mu` is unset and the visited
/// sets are disjoint; with one, `mu` is set and the meeting position is
/// visited or waiting on either side.
spec fn meet_ok<B: Board>(meet: Option<B::Key>, mu: u64, a: &Side<B>, b: &Side<B>) -> bool {
    match meet {
        None => mu == u64::MAX && forall|c: Seq<u8>|
            !(#[trigger] a.map().contains_key(c) && b.map().contains_key(c)),
        Some(k) => mu < u64::MAX && a.reaches(B::key_cells(&k)) && b.reaches(B::key_cells(&k)),
    }
}

/// How far the meeting position is from one side's root, as the meeting
/// was recorded: its depth (`w` is `None`), or one more than the depth of
/// the expanded position `c` it is a move of (`w` is `Some(c)`).
spec fn bound_at(
    n: nat,
    p: Map<Seq<u8>, Seq<u8>>,
    depth: Map<Seq<u8>, nat>,
    e: Set<Seq<u8>>,
    k: Seq<u8>,
    a: int,
    w: Option<Seq<u8>>,
) -> bool {
    match w {
        None => p.contains_key(k) && depth[k] == a,
        Some(c) => e.contains(c) && moves_of(n, c).contains(k) && depth[c] + 1 == a,
    }
}

/// The recorded cost of the meeting: `mu` is at most the sum of the two
/// recorded distances, and equal to it when below `u32::MAX`.
#[verifier::opaque]
spec fn meet_cost<B: Board>(
    n: nat,
    meet: Option<B::Key>,
    mu: u64,
    pa: Map<Seq<u8>, Seq<u8>>,
    da: Map<Seq<u8>, nat>,
    ea: Set<Seq<u8>>,
    pb: Map<Seq<u8>, Seq<u8>>,
    db: Map<Seq<u8>, nat>,
    eb: Set<Seq<u8>>,
    wit: (int, Option<Seq<u8>>, int, Option<Seq<u8>>),
) -> bool {
    match meet {
        None => true,
        Some(k) => {
            &&& bound_at(n, pa, da, ea, B::key_cells(&k), wit.0, wit.1)
            &&& bound_at(n, pb, db, eb, B::key_cells(&k), wit.2, wit.3)
            &&& mu <= wit.0 + wit.2
            &&& (mu < u32::MAX ==> mu == wit.0 + wit.2)
        },
    }
}

/// The visited map `p2` (with depths `d2`) extends `p` (with depths `d`),
/// keeping the parent and the depth of every position `p` holds.
#[verifier::opaque]
spec fn grows(
    p: Map<Seq<u8>, Seq<u8>>,
    d: Map<Seq<u8>, nat>,
    p2: Map<Seq<u8>, Seq<u8>>,
    d2: Map<Seq<u8>, nat>,
) -> bool {
    forall|c: Seq<u8>|
        #[trigger] p.contains_key(c) ==> p2.contains_key(c) && p2[c] == p[c] && d2[c] == d[c]
}

proof fn lemma_grows_refl(p: Map<Seq<u8>, Seq<u8>>, d: Map<Seq<u8>, nat>)
    ensures
        grows(p, d, p, d),
{
    reveal(grows);
}

proof fn lemma_grows_insert(
    p: Map<Seq<u8>, Seq<u8>>,
    d: Map<Seq<u8>, nat>,
    k: Seq<u8>,
    pk: Seq<u8>,
    v: nat,
)
    requires
        !p.contains_key(k),
    ensures
        grows(p, d, p.insert(k, pk), d.insert(k, v)),
{
    reveal(grows);
}

proof fn lemma_grows_trans(
    p: Map<Seq<u8>, Seq<u8>>,
    d: Map<Seq<u8>, nat>,
    p2: Map<Seq<u8>, Seq<u8>>,
    d2: Map<Seq<u8>, nat>,
    p3: Map<Seq<u8>, Seq<u8>>,
    d3: Map<Seq<u8>, nat>,
)
    requires
        grows(p, d, p2, d2),
        grows(p2, d2, p3, d3),
    ensures
        grows(p, d, p3, d3),
{
    reveal(grows);
    assert forall|c: Seq<u8>| p.contains_key(c) implies p3.contains_key(c) && p3[c] == p[c] && d3[c]
        == d[c] by {
        assert(p2.contains_key(c) && p2[c] == p[c] && d2[c] == d[c]);
    }
}

proof fn lemma_grows_at(
    p: Map<Seq<u8>, Seq<u8>>,
    d: Map<Seq<u8>, nat>,
    p2: Map<Seq<u8>, Seq<u8>>,
    d2: Map<Seq<u8>, nat>,
    c: Seq<u8>,
)
    requires
        grows(p, d, p2, d2),
        p.contains_key(c),
    ensures
        p2.contains_key(c),
        p2[c] == p[c],
        d2[c] == d[c],
{
    reveal(grows);
}

/// Nothing is recorded before a meeting.
proof fn lemma_meet_none<B: Board>(
    n: nat,
    mu: u64,
    pa: Map<Seq<u8>, Seq<u8>>,
    da: Map<Seq<u8>, nat>,
    ea: Set<Seq<u8>>,
    pb: Map<Seq<u8>, Seq<u8>>,
    db: Map<Seq<u8>, nat>,
    eb: Set<Seq<u8>>,
    wit: (int, Option<Seq<u8>>, int, Option<Seq<u8>>),
)
    ensures
        meet_cost::<B>(n, None, mu, pa, da, ea, pb, db, eb, wit),
{
    reveal(meet_cost);
}

/// The recorded cost stays recorded as the first side's maps grow.
proof fn lemma_meet_grow<B: Board>(
    n: nat,
    meet: Option<B::Key>,
    mu: u64,
    p: Map<Seq<u8>, Seq<u8>>,
    depth: Map<Seq<u8>, nat>,
    e: Set<Seq<u8>>,
    p2: Map<Seq<u8>, Seq<u8>>,
    depth2: Map<Seq<u8>, nat>,
    e2: Set<Seq<u8>>,
    pb: Map<Seq<u8>, Seq<u8>>,
    db: Map<Seq<u8>, nat>,
    eb: Set<Seq<u8>>,
    wit: (int, Option<Seq<u8>>, int, Option<Seq<u8>>),
)
    requires
        meet_cost::<B>(n, meet, mu, p, depth, e, pb, db, eb, wit),
        e.subset_of(p.dom()),
        grows(p, depth, p2, depth2),
        e.subset_of(e2),
    ensures
        meet_cost::<B>(n, meet, mu, p2, depth2, e2, pb, db, eb, wit),
{
    reveal(meet_cost);
    reveal(grows);
}

/// A meeting found on a position visited on both sides costs the sum of
/// its two depths, each capped at `u32::MAX`.
proof fn lemma_meet_popped<B: Board>(
    n: nat,
    k: B::Key,
    mu: u64,
    p: Map<Seq<u8>, Seq<u8>>,
    depth: Map<Seq<u8>, nat>,
    e: Set<Seq<u8>>,
    pb: Map<Seq<u8>, Seq<u8>>,
    db: Map<Seq<u8>, nat>,
    eb: Set<Seq<u8>>,
)
    requires
        p.contains_key(B::key_cells(&k)),
        pb.contains_key(B::key_cells(&k)),
        mu == capped(depth[B::key_cells(&k)] as int) + capped(db[B::key_cells(&k)] as int),
    ensures
        meet_cost::<B>(
            n,
            Some(k),
            mu,
            p,
            depth,
            e,
            pb,
            db,
            eb,
            (depth[B::key_cells(&k)] as int, None, db[B::key_cells(&k)] as int, None),
        ),
{
    reveal(meet_cost);
}

/// A meeting found on a move out of the position `c` being expanded costs
/// one more than the depth of `c` plus the other side's depth, each depth
/// capped at `u32::MAX` as the search adds them.
proof fn lemma_meet_neighbor<B: Board>(
    n: nat,
    k: B::Key,
    c: Seq<u8>,
    mu: u64,
    p: Map<Seq<u8>, Seq<u8>>,
    depth: Map<Seq<u8>, nat>,
    e: Set<Seq<u8>>,
    pb: Map<Seq<u8>, Seq<u8>>,
    db: Map<Seq<u8>, nat>,
    eb: Set<Seq<u8>>,
)
    requires
        e.contains(c),
        moves_of(n, c).contains(B::key_cells(&k)),
        pb.contains_key(B::key_cells(&k)),
        mu == capped(depth[c] as int) + 1 + capped(db[B::key_cells(&k)] as int),
    ensures
        meet_cost::<B>(
            n,
            Some(k),
            mu,
            p,
            depth,
            e,
            pb,
            db,
            eb,
            (depth[c] + 1 as int, Some(c), db[B::key_cells(&k)] as int, None),
        ),
{
    reveal(meet_cost);
}

/// The recorded cost reads the same with the two sides exchanged.
proof fn lemma_meet_swap<B: Board>(
    n: nat,
    meet: Option<B::Key>,
    mu: u64,
    pa: Map<Seq<u8>, Seq<u8>>,
    da: Map<Seq<u8>, nat>,
    ea: Set<Seq<u8>>,
    pb: Map<Seq<u8>, Seq<u8>>,
    db: Map<Seq<u8>, nat>,
    eb: Set<Seq<u8>>,
    wit: (int, Option<Seq<u8>>, int, Option<Seq<u8>>),
)
    requires
        meet_cost::<B>(n, meet, mu, pa, da, ea, pb, db, eb, wit),
    ensures
        meet_cost::<B>(n, meet, mu, pb, db, eb, pa, da, ea, (wit.2, wit.3, wit.0, wit.1)),
{
    reveal(meet_cost);
}

/// A remainder modulo `2^32` is at most the number, and the number itself
/// when it is smaller.
proof fn lemma_mod_word(x: int)
    requires
        x >= 0,
    ensures
        x % 0x1_0000_0000 <= x,
        x < 0x1_0000_0000 ==> x % 0x1_0000_0000 == x,
{
    vstd::arithmetic::div_mod::lemma_mod_decreases(x as nat, 0x1_0000_0000);
    if x < 0x1_0000_0000 {
        vstd::arithmetic::div_mod::lemma_small_mod(x as nat, 0x1_0000_0000);
    }
}


/// Moves the side on to its next bucket when its current stack is empty.
fn promote_if_empty<B: Board>(
    side: &mut Side<B>,
    other: &Side<B>,
    meet: &Option<B::Key>,
    mu: u64,
    n: usize,
    Ghost(root): Ghost<Seq<u8>>,
    Ghost(puzzle): Ghost<bool>,
    Ghost(target): Ghost<Seq<u8>>,
)
    requires
        old(side).inv(n as nat, root, puzzle, target),
        old(side).current.len() > 0 || old(side).next_box.len() > 0,
        meet_ok(*meet, mu, old(side), other),
    ensures
        final(side).inv(n as nat, root, puzzle, target),
        final(side).current.len() > 0,
        final(side).visited == old(side).visited,
        final(side).depth == old(side).depth,
        final(side).expanded == old(side).expanded,
        final(side).h_initial == old(side).h_initial,
        final(side).target == old(side).target,
        old(side).current.len() > 0 ==> final(side).current@ == old(side).current@
            && final(side).next_box@ == old(side).next_box@,
        old(side).current.len() == 0 ==> final(side).current@ == old(side).next_box@
            && final(side).next_box@ == old(side).current@,
        meet_ok(*meet, mu, final(side), other),
{
    let ghost nn = n as nat;
    let ghost cur_old = side.current@;
    let ghost nb_old = side.next_box@;
    if side.current.is_empty() {
        let ghost fl_old = side.fl@;
        side.promote();
        proof {
            assert forall|c: Seq<u8>| on_stack(cur_old, c) implies on_stack(side.next_box@, c) by {}
            assert forall|c: Seq<u8>| on_stack(nb_old, c) implies on_stack(side.current@, c) by {}
            if puzzle {
                let p = side.map();
                assert forall|c: Seq<u8>| #[trigger] p.contains_key(c) implies side.expanded@.contains(
                    c,
                ) by {
                    assert(!on_stack(cur_old, c));
                }
                lemma_level_promote::<B>(
                    nn,
                    target,
                    p,
                    side.depth@,
                    side.expanded@,
                    cur_old,
                    nb_old,
                    fl_old,
                );
            }
            side.fl = Ghost(fl_old + 2);
            let q = (fl_old - side.h_initial) / 2;
            assert((side.fl@ - side.h_initial) / 2 == q + 1);
            lemma_mod_succ(q);
        }
    }
}

/// Pops the last entry of the current stack and visits its board, with the
/// entry's parent, unless the board is visited already.
fn pop_and_visit<B: Board>(
    side: &mut Side<B>,
    other: &Side<B>,
    meet: &Option<B::Key>,
    mu: u64,
    n: usize,
    Ghost(root): Ghost<Seq<u8>>,
    Ghost(puzzle): Ghost<bool>,
    Ghost(target): Ghost<Seq<u8>>,
) -> (r: B)
    requires
        old(side).inv(n as nat, root, puzzle, target),
        old(side).current.len() > 0,
        meet_ok(*meet, mu, old(side), other),
    ensures
        old(side).current@.last().0 == r,
        final(side).current@ == old(side).current@.drop_last(),
        final(side).next_box@ == old(side).next_box@,
        final(side).expanded == old(side).expanded,
        final(side).fl == old(side).fl,
        final(side).bucket_index == old(side).bucket_index,
        final(side).h_initial == old(side).h_initial,
        final(side).target == old(side).target,
        r.wf(),
        r.side() == n,
        tiles_at_most(r.cells(), (n * n) as int),
        puzzle ==> single_blank(r.cells(), r.blank()),
        old(side).map().contains_key(B::key_cells(&old(side).current@.last().1)),
        old(side).map().contains_key(r.cells()) ==> final(side).map() == old(side).map()
            && final(side).depth@ == old(side).depth@,
        !old(side).map().contains_key(r.cells()) ==> final(side).map() == old(side).map().insert(
            r.cells(),
            B::key_cells(&old(side).current@.last().1),
        ) && final(side).depth@ == old(side).depth@.insert(
            r.cells(),
            old(side).depth@[B::key_cells(&old(side).current@.last().1)] + 1,
        ),
        final(side).map().contains_key(r.cells()),
        search_inv(
            n as nat,
            final(side).map(),
            final(side).depth@,
            root,
            puzzle,
            final(side).expanded@,
            set![r.cells()],
            final(side).current@,
            final(side).next_box@,
        ),
        puzzle ==> level_inv(
            n as nat,
            target,
            final(side).map(),
            final(side).depth@,
            final(side).expanded@,
            set![r.cells()],
            final(side).current@,
            final(side).next_box@,
            final(side).fl@,
        ),
        puzzle ==> level(n as nat, target, final(side).depth@, r.cells()) <= final(side).fl@,
        puzzle && !final(side).expanded@.contains(r.cells()) ==> level(
            n as nat,
            target,
            final(side).depth@,
            r.cells(),
        ) == final(side).fl@,
        *meet is Some ==> meet_ok(*meet, mu, final(side), other),
        *meet is None ==> mu == u64::MAX && forall|c: Seq<u8>|
            #[trigger] final(side).map().contains_key(c) && other.map().contains_key(c) ==> c
                == r.cells(),
{
    let ghost nn = n as nat;
    let ghost cur_a = side.current@;
    let ghost dom0 = side.map().dom();
    let ghost len_a = side.current.len();
    let ghost p_a = side.map();
    let ghost depth_a = side.depth@;
    let ghost fl = side.fl@;
    let (board, parent_key_of_this) = side.current.pop().unwrap();
    let ghost bc = board.cells();
    proof {
        assert(cur_a[len_a - 1] == (board, parent_key_of_this));
        assert(entry_ok(nn, p_a, puzzle, cur_a[len_a - 1]));
        assert forall|i: int| 0 <= i < side.current.len() implies #[trigger] side.current@[i] == cur_a[i] by {}
        board.lemma_wf();
    }
    // Insert on pop if not already in visited (handles nodes promoted from next_box)
    if !B::map_contains(&side.visited, &board.key()) {
        B::map_insert(&mut side.visited, board.key(), parent_key_of_this);
        proof {
            let pk = B::key_cells(&parent_key_of_this);
            side.depth = Ghost(side.depth@.insert(bc, side.depth@[pk] + 1));
            assert(side.map().dom() =~= side.depth@.dom());
            assert(bc != root);
            if puzzle {
                lemma_first_zero_single(bc, board.blank());
            }
        }
    }
    proof {
        let p = side.map();
        assert(p.contains_key(bc));
        if puzzle {
            assert(cur_a.last() == (board, parent_key_of_this));
            assert(side.current@ =~= cur_a.drop_last());
            lemma_level_pop::<B>(
                nn,
                target,
                p_a,
                depth_a,
                side.expanded@,
                cur_a,
                side.next_box@,
                fl,
                p,
                side.depth@,
            );
        }
        assert forall|c: Seq<u8>| #[trigger] p.contains_key(c) implies side.expanded@.contains(c)
            || on_stack(side.current@, c) || set![bc].contains(c) by {
            if !side.expanded@.contains(c) && c != bc && dom0.contains(c) {
                let i = choose|i: int| 0 <= i < cur_a.len() && (#[trigger] cur_a[i]).0.cells() == c;
                assert(side.current@[i] == cur_a[i]);
            }
        }
        if puzzle {
            assert forall|c: Seq<u8>, m: Seq<u8>|
                side.expanded@.contains(c) && #[trigger] moves_of(nn, c).contains(m) implies p.contains_key(m)
                || on_stack(side.current@, m) || on_stack(side.next_box@, m) by {
                if !dom0.contains(m) && !on_stack(side.next_box@, m) {
                    let i = choose|i: int| 0 <= i < cur_a.len() && (#[trigger] cur_a[i]).0.cells() == m;
                    if i < len_a - 1 {
                        assert(side.current@[i] == cur_a[i]);
                    }
                }
            }
        }
        assert forall|i: int| 0 <= i < side.current.len() implies entry_ok(
            nn,
            p,
            puzzle,
            #[trigger] side.current@[i],
        ) by {
            assert(side.current@[i] == cur_a[i]);
        }
        // the meeting position is still visited or waiting
        match meet {
            Some(k) => {
                let kc = B::key_cells(k);
                if on_stack(cur_a, kc) && !p.contains_key(kc) {
                    let i = choose|i: int| 0 <= i < cur_a.len() && (#[trigger] cur_a[i]).0.cells() == kc;
                    assert(i != len_a - 1);
                    assert(side.current@[i] == cur_a[i]);
                }
            },
            None => {},
        }
    }
    board
}

/// Expands one board of `side`, promoting its next bucket first if the
/// current one is empty, and records meetings with `other`.
#[verifier::rlimit(100)]
#[verifier::spinoff_prover]
fn expand_side<B: Board>(
    side: &mut Side<B>,
    other: &Side<B>,
    mu: &mut u64,
    meet: &mut Option<B::Key>,
    n: usize,
    Ghost(root): Ghost<Seq<u8>>,
    Ghost(puzzle): Ghost<bool>,
    Ghost(target): Ghost<Seq<u8>>,
    Ghost(other_root): Ghost<Seq<u8>>,
    Ghost(other_puzzle): Ghost<bool>,
    Ghost(other_target): Ghost<Seq<u8>>,
    Ghost(wit): Ghost<(int, Option<Seq<u8>>, int, Option<Seq<u8>>)>,
) -> (wit2: Ghost<(int, Option<Seq<u8>>, int, Option<Seq<u8>>)>)
    requires
        old(side).inv(n as nat, root, puzzle, target),
        other.inv(n as nat, other_root, other_puzzle, other_target),
        B::valid_side(n as nat),
        side_in_range(n as nat),
        meet_ok(*old(meet), *old(mu), old(side), other),
        puzzle && other_puzzle ==> meet_cost::<B>(
            n as nat,
            *old(meet),
            *old(mu),
            old(side).map(),
            old(side).depth@,
            old(side).expanded@,
            other.map(),
            other.depth@,
            other.expanded@,
            wit,
        ),
    ensures
        final(side).inv(n as nat, root, puzzle, target),
        final(side).h_initial == old(side).h_initial,
        old(side).current.len() == 0 && old(side).next_box.len() == 0 ==> *final(side)
            == *old(side) && *final(mu) == *old(mu) && *final(meet) == *old(meet),
        old(side).current.len() > 0 || old(side).next_box.len() > 0 ==> final(side).progressed(
            old(side),
            n as nat,
        ),
        old(side).map().dom().subset_of(final(side).map().dom()),
        forall|c: Seq<u8>|
            #[trigger] old(side).map().contains_key(c) ==> final(side).map()[c] == old(
                side,
            ).map()[c] && final(side).depth@[c] == old(side).depth@[c],
        meet_ok(*final(meet), *final(mu), final(side), other),
        puzzle && other_puzzle ==> meet_cost::<B>(
            n as nat,
            *final(meet),
            *final(mu),
            final(side).map(),
            final(side).depth@,
            final(side).expanded@,
            other.map(),
            other.depth@,
            other.expanded@,
            wit2@,
        ),
        *final(mu) <= *old(mu),
        *final(meet) != *old(meet) ==> *final(mu) < *old(mu),
        *final(mu) < *old(mu) ==> (*final(meet) matches Some(k) && other.map().contains_key(
            B::key_cells(&k),
        )),
        grows(old(side).map(), old(side).depth@, final(side).map(), final(side).depth@),
        old(side).expanded@.subset_of(final(side).expanded@),
        forall|c: Seq<u8>|
            #[trigger] final(side).expanded@.contains(c) && !old(side).expanded@.contains(c)
                && other.map().contains_key(c) ==> *final(mu) <= final(side).depth@[c]
                + other.depth@[c],
        puzzle ==> forall|c: Seq<u8>, m: Seq<u8>|
            #![trigger final(side).expanded@.contains(c), moves_of(n as nat, c).contains(m)]
            final(side).expanded@.contains(c) && !old(side).expanded@.contains(c) && moves_of(
                n as nat,
                c,
            ).contains(m) && !old(side).map().contains_key(m) && other.map().contains_key(m)
                ==> *final(mu) <= final(side).depth@[c] + 1 + other.depth@[m],
{
    let ghost nn = n as nat;
    let ghost mu0 = *mu;
    let ghost mut w = wit;
    let ghost p_old = old(side).map();
    let ghost depth_old = old(side).depth@;
    let ghost e_old = old(side).expanded@;
    let ghost cur_old = old(side).current@;
    let ghost nb_old = old(side).next_box@;
    let ghost promoted = old(side).current.len() == 0;
    proof {
        lemma_visited_bound::<B>(nn, p_old, side.depth@, root);
        lemma_visited_bound::<B>(nn, other.map(), other.depth@, other_root);
    }
    let ghost meet0 = *meet;
    if side.current.is_empty() && side.next_box.is_empty() {
        proof {
            lemma_grows_refl(p_old, depth_old);
        }
        return Ghost(w);
    }
    promote_if_empty(side, other, &*meet, *mu, n, Ghost(root), Ghost(puzzle), Ghost(target));
    let ghost cur_a = side.current@;
    let ghost nb_a = side.next_box@;
    let ghost dom0 = side.map().dom();
    let ghost len_a = side.current.len();
    let ghost p_a = side.map();
    let ghost depth_a = side.depth@;
    let ghost fl = side.fl@;
    let ghost parent_cells = B::key_cells(&side.current@.last().1);
    let board = pop_and_visit(
        side,
        other,
        &*meet,
        *mu,
        n,
        Ghost(root),
        Ghost(puzzle),
        Ghost(target),
    );
    let ghost bc = board.cells();
    let ghost stale = side.expanded@.contains(bc);
    proof {
        board.lemma_wf();
        lemma_visited_bound::<B>(nn, side.map(), side.depth@, root);
    }
    let ghost mut met_here = false;
    let g = chain_len::<B>(&side.visited, &board.key(), n, Ghost(side.depth@), Ghost(root));
    // Meet check on popped node
    if B::map_contains(&other.visited, &board.key()) {
        let candidate = g as u64 + chain_len::<B>(
            &other.visited,
            &board.key(),
            n,
            Ghost(other.depth@),
            Ghost(other_root),
        ) as u64;
        if candidate < *mu {
            *mu = candidate;
            *meet = Some(board.key());
            proof {
                w = (side.depth@[bc] as int, None, other.depth@[bc] as int, None);
                met_here = true;
                match meet {
                    Some(kk) => {
                        lemma_meet_popped::<B>(
                            nn,
                            *kk,
                            *mu,
                            side.map(),
                            side.depth@,
                            side.expanded@.insert(bc),
                            other.map(),
                            other.depth@,
                            other.expanded@,
                        );
                    },
                    None => {},
                }
            }
        }
    }
    proof {
        assert(meet_ok(*meet, *mu, side, other));
        if p_a.contains_key(bc) {
            lemma_grows_refl(p_a, depth_a);
        } else {
            lemma_grows_insert(p_a, depth_a, bc, parent_cells, side.depth@[bc]);
        }
        assert(side.map() == p_a || side.map() == p_a.insert(bc, parent_cells));
        assert(p_a == p_old && depth_a == depth_old);
        if puzzle && other_puzzle && !met_here {
            lemma_meet_grow::<B>(
                nn,
                *meet,
                *mu,
                p_old,
                depth_old,
                e_old,
                side.map(),
                side.depth@,
                side.expanded@.insert(bc),
                other.map(),
                other.depth@,
                other.expanded@,
                w,
            );
        }
    }
    let ghost bl = board.blank() as int;
    let ghost ts = move_targets(nn as int, bl);
    let ghost mv = moves_of(nn, bc);
    proof {
        side.target.lemma_wf();
    }
    let mut nbs = board.neighbors(&side.target);
    let ghost orig = nbs@;
    proof {
        lemma_move_targets(nn as int, bl);
        if puzzle {
            lemma_first_zero_single(bc, board.blank());
            assert(mv.len() == ts.len());
        }
    }
    let ghost mut k: int = 0;
    let ghost depth_bc = side.depth@[bc];
    while nbs.len() > 0
        invariant
            nn == n,
            B::valid_side(nn),
            side_in_range(nn),
            side.target.wf(),
            side.target.side() == nn,
            side.target.cells() == target,
            target.len() == nn * nn,
            tiles_at_most(target, (nn * nn) as int),
            parent_tree::<B>(nn, other.map(), other.depth@, other_root),
            side.h_initial == old(side).h_initial,
            side.h_initial == manhattan(nn, root, target),
            side.fl@ == fl,
            fl >= side.h_initial,
            (fl - side.h_initial) % 2 == 0,
            side.bucket_index == ((fl - side.h_initial) / 2) % 0x1_0000_0000,
            stale == side.expanded@.contains(bc),
            side.expanded@ == e_old,
            *mu <= mu0,
            *meet != meet0 ==> *mu < mu0,
            *mu < mu0 ==> (*meet matches Some(kk) && other.map().contains_key(B::key_cells(&kk))),
            side.depth@[bc] == depth_bc,
            g as int == capped(depth_bc as int),
            other.map().contains_key(bc) ==> *mu <= side.depth@[bc] + other.depth@[bc],
            forall|c: Seq<u8>|
                #[trigger] side.map().contains_key(c) && !p_old.contains_key(c)
                    && other.map().contains_key(c) ==> *mu <= side.depth@[c] + other.depth@[c],
            forall|c: Seq<u8>|
                #[trigger] side.map().contains_key(c) && !p_old.contains_key(c) && c != bc
                    ==> side.depth@[c] == depth_bc + 1,
            puzzle ==> forall|j: int|
                0 <= j < k && other.map().contains_key(#[trigger] mv[j]) && !p_old.contains_key(
                    mv[j],
                ) ==> *mu <= depth_bc + 1 + other.depth@[mv[j]],
            grows(p_old, depth_old, side.map(), side.depth@),
            puzzle && other_puzzle ==> meet_cost::<B>(
                nn,
                *meet,
                *mu,
                side.map(),
                side.depth@,
                side.expanded@.insert(bc),
                other.map(),
                other.depth@,
                other.expanded@,
                w,
            ),
            puzzle ==> level_inv(
                nn,
                target,
                side.map(),
                side.depth@,
                side.expanded@,
                set![bc],
                side.current@,
                side.next_box@,
                fl,
            ),
            puzzle ==> level(nn, target, side.depth@, bc) <= fl,
            puzzle && !stale ==> level(nn, target, side.depth@, bc) == fl,
            puzzle && !stale ==> forall|j: int|
                0 <= j < k ==> edge_ok(
                    nn,
                    target,
                    side.map(),
                    side.depth@,
                    side.current@,
                    side.next_box@,
                    fl,
                    bc,
                    #[trigger] mv[j],
                ),
            dom0.subset_of(side.map().dom()),
            p_old.dom().subset_of(dom0),
            side.map().dom() == dom0 ==> side.current@ == cur_a.drop_last(),
            side.map().dom() == dom0 ==> side.next_box.len() >= nb_a.len(),
            side.map().dom() == dom0 ==> side.next_box@.take(nb_a.len() as int) == nb_a,
            side.map().dom() == dom0 ==> forall|i: int|
                nb_a.len() <= i < side.next_box.len() ==> !dom0.contains(
                    (#[trigger] side.next_box@[i]).0.cells(),
                ),
            board.wf(),
            board.side() == nn,
            board.cells() == bc,
            bl == board.blank(),
            0 <= bl < nn * nn,
            bc.len() == nn * nn,
            tiles_at_most(bc, (nn * nn) as int),
            puzzle ==> single_blank(bc, board.blank()),
            puzzle ==> first_zero(bc) == bl,
            ts == move_targets(nn as int, bl),
            mv == moves_of(nn, bc),
            side.map().contains_key(bc),
            orig.len() == ts.len(),
            ts.len() <= 4,
            forall|i: int| 0 <= i < ts.len() ==> 0 <= #[trigger] ts[i] < nn * nn && ts[i] != bl,
            forall|i: int|
                0 <= i < orig.len() ==> {
                    &&& (#[trigger] orig[i]).board.wf()
                    &&& orig[i].board.side() == nn
                    &&& orig[i].board.cells() == swap_cells(bc, bl, ts[i])
                    &&& orig[i].board.blank() == ts[i]
                    &&& orig[i].is_next_box == ((manhattan(nn, bc, target) + move_delta(
                        nn,
                        bc,
                        target,
                        bl,
                        ts[i],
                    )) as u32 > manhattan(nn, bc, target))
                },
            0 <= k <= orig.len(),
            nbs@ == orig.skip(k),
            puzzle ==> forall|j: int|
                0 <= j < k ==> side.map().contains_key(#[trigger] mv[j]) || on_stack(
                    side.current@,
                    mv[j],
                ) || on_stack(side.next_box@, mv[j]),
            search_inv(
                nn,
                side.map(),
                side.depth@,
                root,
                puzzle,
                side.expanded@,
                set![bc],
                side.current@,
                side.next_box@,
            ),
            meet_ok(*meet, *mu, side, other),
        decreases nbs.len(),
    {
        let ghost p_before = side.map();
        let ghost depth_before = side.depth@;
        let ghost cur_before = side.current@;
        let ghost nb_before = side.next_box@;
        let neighbor = nbs.remove(0);
        let ghost nc = neighbor.board.cells();
        let ghost t = ts[k];
        proof {
            assert(neighbor == orig[k]);
            assert(nbs@ =~= orig.skip(k + 1));
            lemma_swap_tiles_at_most(bc, bl, t, (nn * nn) as int);
            neighbor.board.lemma_wf();
            if puzzle {
                lemma_swap_single_blank(bc, bl, t);
                assert(mv[k] == nc);
                assert(one_move(nn, bc, nc));
                assert(moves_of(nn, bc).contains(nc));
                assert(ts[k] == t);
                lemma_move_changes_heuristic_by_one(nn, bc, target, board.blank(), t);
                lemma_next_box_iff_farther(nn, bc, target, board.blank(), t);
                assert(neighbor.is_next_box <==> h_to(nn, target, nc) == h_to(nn, target, bc) + 1);
            }
        }
        let nkey = neighbor.board.key();
        if B::map_contains(&side.visited, &nkey) {
            proof {
                if puzzle && !stale {
                    lemma_level_seen::<B>(
                        nn,
                        target,
                        p_before,
                        depth_before,
                        side.expanded@,
                        set![bc],
                        cur_before,
                        nb_before,
                        fl,
                        bc,
                        nc,
                    );
                }
                k = k + 1;
            }
            continue;
        }
        proof {
            if puzzle && stale {
                assert(edge_ok(nn, target, p_before, depth_before, cur_before, nb_before, fl, bc, nc));
            }
        }
        // Meet detection on neighbor
        if B::map_contains(&other.visited, &nkey) {
            let candidate = (g as u64 + 1) + chain_len::<B>(
                &other.visited,
                &nkey,
                n,
                Ghost(other.depth@),
                Ghost(other_root),
            ) as u64;
            if candidate < *mu {
                *mu = candidate;
                *meet = Some(neighbor.board.key());
                proof {
                    w = (side.depth@[bc] + 1 as int, Some(bc), other.depth@[nc] as int, None);
                    if puzzle && other_puzzle {
                        match meet {
                            Some(kk) => {
                                lemma_meet_neighbor::<B>(
                                    nn,
                                    *kk,
                                    bc,
                                    *mu,
                                    p_before,
                                    depth_before,
                                    e_old.insert(bc),
                                    other.map(),
                                    other.depth@,
                                    other.expanded@,
                                );
                            },
                            None => {},
                        }
                    }
                }
            }
        }
        if neighbor.is_next_box {
            side.next_box.push((neighbor.board, board.key()));
            proof {
                let e = side.next_box@[side.next_box.len() - 1];
                assert(entry_ok(nn, p_before, puzzle, e));
                lemma_push_on_stack(nb_before, e);
                assert forall|c: Seq<u8>| on_stack(nb_before, c) implies on_stack(side.next_box@, c) by {
                    lemma_push_keeps_on_stack(nb_before, e, c);
                }
                if side.map().dom() == dom0 {
                    assert(side.next_box@.take(nb_a.len() as int) =~= nb_before.take(nb_a.len() as int));
                }
                if puzzle {
                    assert(side.next_box@ == nb_before.push(e));
                    lemma_level_push_next::<B>(
                        nn,
                        target,
                        p_before,
                        depth_before,
                        side.expanded@,
                        set![bc],
                        cur_before,
                        nb_before,
                        fl,
                        bc,
                        e,
                    );
                }
            }
        } else {
            B::map_insert(&mut side.visited, nkey, board.key());
            proof {
                side.depth = Ghost(side.depth@.insert(nc, side.depth@[bc] + 1));
                let p = side.map();
                assert(p.dom() =~= side.depth@.dom());
                assert(nc != root);
                if puzzle {
                    lemma_first_zero_single(nc, t as nat);
                }
                lemma_visited_bound::<B>(nn, p, side.depth@, root);
                assert(!dom0.contains(nc));
            }
            side.current.push((neighbor.board, board.key()));
            proof {
                let e = side.current@[side.current.len() - 1];
                lemma_push_on_stack(cur_before, e);
                assert forall|c: Seq<u8>| on_stack(cur_before, c) implies on_stack(side.current@, c) by {
                    lemma_push_keeps_on_stack(cur_before, e, c);
                }
                if puzzle {
                    assert(side.current@ == cur_before.push(e));
                    assert(level(nn, target, depth_before, bc) == fl);
                    lemma_level_push_current::<B>(
                        nn,
                        target,
                        p_before,
                        depth_before,
                        side.expanded@,
                        set![bc],
                        cur_before,
                        nb_before,
                        fl,
                        bc,
                        e,
                    );
                }
            }
        }
        proof {
            k = k + 1;
            if side.map() == p_before {
                lemma_grows_refl(p_before, depth_before);
            } else {
                lemma_grows_insert(p_before, depth_before, nc, bc, (depth_before[bc] + 1) as nat);
            }
            lemma_grows_trans(p_old, depth_old, p_before, depth_before, side.map(), side.depth@);
            if puzzle && other_puzzle {
                lemma_meet_grow::<B>(
                    nn,
                    *meet,
                    *mu,
                    p_before,
                    depth_before,
                    e_old.insert(bc),
                    side.map(),
                    side.depth@,
                    e_old.insert(bc),
                    other.map(),
                    other.depth@,
                    other.expanded@,
                    w,
                );
            }
        }
    }
    proof {
        if puzzle {
            assert forall|m: Seq<u8>| #[trigger] moves_of(nn, bc).contains(m) && !stale implies edge_ok(
                nn,
                target,
                side.map(),
                side.depth@,
                side.current@,
                side.next_box@,
                fl,
                bc,
                m,
            ) by {
                let j = choose|j: int| 0 <= j < mv.len() && mv[j] == m;
                assert(edge_ok(
                    nn,
                    target,
                    side.map(),
                    side.depth@,
                    side.current@,
                    side.next_box@,
                    fl,
                    bc,
                    mv[j],
                ));
            }
            lemma_level_finish::<B>(
                nn,
                target,
                side.map(),
                side.depth@,
                side.expanded@,
                side.current@,
                side.next_box@,
                fl,
                bc,
            );
        }
        side.expanded = Ghost(side.expanded@.insert(bc));
        let p = side.map();
        assert forall|c: Seq<u8>| #[trigger] p_old.contains_key(c) implies p[c] == p_old[c]
            && side.depth@[c] == depth_old[c] by {
            lemma_grows_at(p_old, depth_old, p, side.depth@, c);
        }
        lemma_visited_bound::<B>(nn, p, side.depth@, root);
        if p.dom() != dom0 {
            lemma_strict_superset_len(dom0, p.dom());
        }
        if p.dom() != p_old.dom() {
            lemma_strict_superset_len(p_old.dom(), p.dom());
        } else {
            lemma_progress_same_visited(
                p_old,
                cur_old,
                nb_old,
                promoted,
                cur_a,
                nb_a,
                board.cells(),
                side.current@,
                side.next_box@,
            );
        }
    }
    Ghost(w)
}

/// With the visited set unchanged, one expansion still moves the stacks
/// closer to running out.
proof fn lemma_progress_same_visited<B: Board>(
    p: Map<Seq<u8>, Seq<u8>>,
    cur_old: Seq<(B, B::Key)>,
    nb_old: Seq<(B, B::Key)>,
    promoted: bool,
    cur_a: Seq<(B, B::Key)>,
    nb_a: Seq<(B, B::Key)>,
    popped: Seq<u8>,
    cur_new: Seq<(B, B::Key)>,
    nb_new: Seq<(B, B::Key)>,
)
    requires
        promoted ==> cur_old.len() == 0 && cur_a == nb_old && nb_a == cur_old,
        !promoted ==> cur_a == cur_old && nb_a == nb_old,
        cur_a.len() > 0,
        cur_a.last().0.cells() == popped,
        p.contains_key(popped),
        cur_new == cur_a.drop_last(),
        nb_new.len() >= nb_a.len(),
        nb_new.take(nb_a.len() as int) == nb_a,
        forall|i: int|
            nb_a.len() <= i < nb_new.len() ==> !p.contains_key((#[trigger] nb_new[i]).0.cells()),
    ensures
        ({
            let old_flag = if has_fresh(cur_old, p) {
                0int
            } else if has_fresh(nb_old, p) {
                1int
            } else {
                2int
            };
            let new_flag = if has_fresh(cur_new, p) {
                0int
            } else if has_fresh(nb_new, p) {
                1int
            } else {
                2int
            };
            let old_count = if old_flag == 2 {
                (cur_old.len() + 2 * nb_old.len()) as int
            } else {
                cur_old.len() as int
            };
            let new_count = if new_flag == 2 {
                (cur_new.len() + 2 * nb_new.len()) as int
            } else {
                cur_new.len() as int
            };
            new_flag < old_flag || (new_flag == old_flag && new_count < old_count)
        }),
{
    let last = cur_a.len() - 1;
    // fresh entries of cur_a other than the popped one stay on cur_new
    if has_fresh(cur_a, p) {
        let i = choose|i: int| 0 <= i < cur_a.len() && !p.contains_key((#[trigger] cur_a[i]).0.cells());
        assert(i != last);
        assert(cur_new[i] == cur_a[i]);
        assert(has_fresh(cur_new, p));
    }
    if has_fresh(cur_new, p) {
        let i = choose|i: int| 0 <= i < cur_new.len() && !p.contains_key((#[trigger] cur_new[i]).0.cells());
        assert(cur_new[i] == cur_a[i]);
    }
    if has_fresh(nb_a, p) {
        let i = choose|i: int| 0 <= i < nb_a.len() && !p.contains_key((#[trigger] nb_a[i]).0.cells());
        assert(nb_new.take(nb_a.len() as int)[i] == nb_new[i]);
        assert(has_fresh(nb_new, p));
    }
    if nb_new.len() > nb_a.len() {
        assert(!p.contains_key(nb_new[nb_a.len() as int].0.cells()));
        assert(has_fresh(nb_new, p));
    } else {
        assert(nb_new =~= nb_a) by {
            assert(nb_new =~= nb_new.take(nb_a.len() as int));
        }
    }
    if promoted {
        assert(!has_fresh(cur_old, p));
    }
}

/// The distance recorded for the meeting position on one side is within two
/// of its depth there, and no smaller.
proof fn lemma_witness_bound<B: Board>(
    n: nat,
    s: &Side<B>,
    root: Seq<u8>,
    target: Seq<u8>,
    k: Seq<u8>,
    a: int,
    w: Option<Seq<u8>>,
)
    requires
        n >= 1,
        s.inv(n, root, true, target),
        bound_at(n, s.map(), s.depth@, s.expanded@, k, a, w),
        s.map().contains_key(k),
    ensures
        s.depth@[k] <= a,
        a <= s.depth@[k] + 2,
{
    let p = s.map();
    let depth = s.depth@;
    match w {
        None => {},
        Some(c) => {
            lemma_level_edge_depth::<B>(
                n,
                target,
                p,
                depth,
                s.expanded@,
                Set::empty(),
                s.current@,
                s.next_box@,
                s.fl@,
                c,
                k,
            );
            assert(p.contains_key(c));
            assert(p.contains_key(root));
            lemma_tree_walk::<B>(n, p, depth, root, k);
            let wk = choose|wk: Seq<Seq<u8>>|
                is_walk(n, wk) && wk.len() == depth[k] + 1 && wk[0] == root && wk.last() == k;
            assert(one_move(n, c, k));
            lemma_one_move_symmetric(n, c, k);
            let wc = wk.push(c);
            assert forall|i: int| 0 <= i < wc.len() - 1 implies one_move(
                n,
                #[trigger] wc[i],
                wc[i + 1],
            ) by {
                if i < wk.len() - 1 {
                    assert(wc[i] == wk[i] && wc[i + 1] == wk[i + 1]);
                    assert(one_move(n, wk[i], wk[i + 1]));
                } else {
                    assert(wc[i] == k && wc[i + 1] == c);
                }
            }
            assert(is_walk(n, wc) && wc.len() == depth[k] + 2 && wc[0] == root && wc.last() == c);
            assert(reachable_in(n, root, c, (depth[k] + 1) as nat));
            lemma_level_pending::<B>(
                n,
                target,
                p,
                depth,
                s.expanded@,
                s.current@,
                s.next_box@,
                s.fl@,
                c,
            );
            lemma_depth_shortest::<B>(
                n,
                target,
                p,
                depth,
                s.expanded@,
                s.current@,
                s.next_box@,
                s.fl@,
                c,
                root,
                c,
                (depth[k] + 1) as nat,
            );
        },
    }
}

/// When the forward side's estimate is at least `mu`, no walk from the
/// start reaches the solved layout in fewer than `mu` moves: such a walk
/// would have led the forward side to expand the solved layout, which the
/// backward side holds at depth zero, and record a meeting that cheap.
proof fn lemma_mu_below_walks<B: Board>(
    n: nat,
    fwd: &Side<B>,
    root_f: Seq<u8>,
    mu: u64,
    k: nat,
)
    requires
        n >= 1,
        n * n <= 256,
        fwd.inv(n, root_f, true, goal_cells(n)),
        fwd.f_spec() >= mu,
        fwd.expanded@.contains(goal_cells(n)) ==> mu <= fwd.depth@[goal_cells(n)],
        reachable_in(n, root_f, goal_cells(n), k),
    ensures
        mu <= k,
{
    let g = goal_cells(n);
    let p = fwd.map();
    let depth = fwd.depth@;
    let e = fwd.expanded@;
    let cur = fwd.current@;
    let nb = fwd.next_box@;
    let fl = fwd.fl@;
    if k < mu {
        let w = choose|w: Seq<Seq<u8>>|
            is_walk(n, w) && w.len() == k + 1 && w[0] == root_f && w.last() == g;
        assert(p.contains_key(root_f));
        lemma_goal_at_zero(n);
        let q = (fl - fwd.h_initial) / 2;
        lemma_mod_word(q);
        let x = Seq::<u8>::empty();
        let fl2: int = if cur.len() > 0 {
            fl
        } else if nb.len() > 0 {
            fl + 2
        } else if fl > k + 1 {
            fl
        } else {
            k + 1 as int
        };
        let c2 = if cur.len() == 0 && nb.len() > 0 {
            nb
        } else {
            cur
        };
        let nb2 = if cur.len() == 0 && nb.len() > 0 {
            cur
        } else {
            nb
        };
        if cur.len() > 0 {
            assert(fl2 > k);
        } else {
            assert forall|c: Seq<u8>| #[trigger] p.contains_key(c) implies e.contains(c) by {
                assert(!on_stack(cur, c));
            }
            if nb.len() > 0 {
                lemma_level_promote::<B>(n, g, p, depth, e, cur, nb, fl);
            } else {
                lemma_level_raise::<B>(n, g, p, depth, e, cur, nb, fl, fl2);
            }
        }
        lemma_level_pending::<B>(n, g, p, depth, e, c2, nb2, fl2, x);
        assert forall|j: int| 0 <= j <= k implies j + h_to(n, g, #[trigger] w[j]) < fl2 by {
            lemma_walk_level_mono(n, g, w, j, k as int);
            assert(w[k as int] == g);
        }
        lemma_walk_expanded::<B>(n, g, p, depth, e, c2, nb2, fl2, x, w, k as int);
        if exists|j: int| 0 <= j <= k && #[trigger] w[j] == x && depth[x] <= j {
            let j = choose|j: int| 0 <= j <= k && #[trigger] w[j] == x && depth[x] <= j;
            lemma_walk_single_blank(n, w, j);
        }
        assert(w[k as int] == g);
    }
}

/// The forward path followed by the backward path turned around, the
/// shared meeting board kept once.
fn join_paths<B: Board>(fwd: Vec<B>, bwd: Vec<B>) -> (path: Vec<B>)
    requires
        fwd.len() >= 1,
        bwd.len() >= 1,
    ensures
        path.len() == fwd.len() + bwd.len() - 1,
        forall|i: int| 0 <= i < fwd.len() ==> #[trigger] path@[i] == fwd@[i],
        forall|t: int|
            0 <= t < bwd.len() - 1 ==> #[trigger] path@[fwd.len() + t] == bwd@[bwd.len() - 2 - t],
{
    let ghost f = fwd@;
    let ghost b = bwd@;
    let mut path = fwd;
    let mut rest = bwd;
    rest.pop();
    while rest.len() > 0
        invariant
            b.len() >= 1,
            rest@ == b.take(rest.len() as int),
            rest.len() <= b.len() - 1,
            path.len() == f.len() + (b.len() - 1 - rest.len()),
            forall|i: int| 0 <= i < f.len() ==> #[trigger] path@[i] == f[i],
            forall|t: int|
                0 <= t < path.len() - f.len() ==> #[trigger] path@[f.len() + t] == b[b.len() - 2 - t],
        decreases rest.len(),
    {
        let x = rest.pop().unwrap();
        path.push(x);
        proof {
            assert(rest@ =~= b.take(rest.len() as int));
        }
    }
    path
}

/// Bidirectional bucketed search between `initial` and the solved layout.
/// Returns the path of boards through the cheapest meeting point found, or
/// `None` when the start is unsolvable or the searches run out of positions
/// without meeting.  On a puzzle position the path is a shortest one: its
/// move counters reach `u32::MAX`, and every solvable position has a
/// solution of fewer moves than that.  The backward search runs over moves
/// only when the solved layout is itself a puzzle position, that is when its
/// tile numbers fit in a byte (`n * n <= 256`), hence that bound on the
/// path's description.
pub fn solve<B: Board>(initial: B) -> (res: Option<Solution<B>>)
    requires
        initial.wf(),
        search_in_range(initial.side(), initial.cells(), initial.blank()),
    ensures
        initial.cells() == goal_cells(initial.side()) ==> (res matches Some(sol) && sol.moves == 0
            && sol.path@ == seq![initial]),
        res matches Some(sol) ==> {
            &&& sol.path.len() >= 1
            &&& sol.moves == (sol.path.len() - 1) as u32
            &&& sol.path@[0].cells() == initial.cells()
            &&& sol.path@.last().cells() == goal_cells(initial.side())
            &&& forall|i: int|
                0 <= i < sol.path.len() ==> (#[trigger] sol.path@[i]).wf() && sol.path@[i].side()
                    == initial.side()
            &&& single_blank(initial.cells(), initial.blank()) && initial.side() * initial.side()
                <= 256 ==> solution_path(initial.side(), initial.cells(), sol.path@)
            &&& single_blank(initial.cells(), initial.blank()) && initial.side() * initial.side()
                <= 256 ==> forall|k: nat|
                reachable_in(initial.side(), initial.cells(), goal_cells(initial.side()), k)
                    ==> sol.path.len() - 1 <= k
        },
        initial.cells() != goal_cells(initial.side()) && !solvable(
            initial.side(),
            initial.cells(),
            initial.blank(),
        ) ==> res is None,
        single_blank(initial.cells(), initial.blank()) && distinct_tiles(initial.cells())
            && tiles_at_most(initial.cells(), initial.side() * initial.side() - 1)
            && initial.side() * initial.side() <= 256 ==> (res is Some <==> solvable(
            initial.side(),
            initial.cells(),
            initial.blank(),
        )),
        res is None ==> !solvable(initial.side(), initial.cells(), initial.blank()) || (
        single_blank(initial.cells(), initial.blank()) ==> !reachable(
            initial.side(),
            initial.cells(),
            goal_cells(initial.side()),
        )),
        res is None && single_blank(initial.cells(), initial.blank()) && distinct_tiles(
            initial.cells(),
        ) && initial.side() * initial.side() <= 256 ==> !reachable(
            initial.side(),
            initial.cells(),
            goal_cells(initial.side()),
        ),
{
    proof {
        initial.lemma_wf();
    }
    let n = initial.n();
    let goal = B::goal(n);
    if initial.is_goal() {
        proof {
            if single_blank(initial.cells(), initial.blank()) && initial.side() * initial.side()
                <= 256 {
                lemma_goal_single_blank(initial.side());
                lemma_goal_solvable(initial.side());
            }
        }
        return Some(Solution { moves: 0, path: vec![initial] });
    }
    if !initial.is_solvable() {
        proof {
            if single_blank(initial.cells(), initial.blank()) && distinct_tiles(initial.cells())
                && initial.side() * initial.side() <= 256 {
                lemma_first_zero_single(initial.cells(), initial.blank());
                lemma_unsolvable_unreachable(initial.side(), initial.cells());
            }
        }
        return None;
    }
    let ghost nn = n as nat;
    let ghost root_f = initial.cells();
    let ghost root_b = goal_cells(nn);
    let ghost puzzle_f = single_blank(initial.cells(), initial.blank());
    let ghost puzzle_b = single_blank(root_b, (nn * nn - 1) as nat);
    proof {
        goal.lemma_wf();
        assert(tiles_at_most(goal.cells(), (nn * nn) as int));
        lemma_manhattan_bound(nn, root_f, root_b);
        lemma_manhattan_bound(nn, root_b, root_f);
        if puzzle_f {
            lemma_first_zero_single(root_f, initial.blank());
        }
        if puzzle_b {
            lemma_first_zero_single(root_b, (nn * nn - 1) as nat);
        }
    }
    let init_h = initial.manhattan_to(&goal);
    let goal_h = goal.manhattan_to(&initial);
    let init_key = initial.key();
    let goal_key = goal.key();
    let target_key = initial.key();
    proof {
        B::lemma_accepts_key(&target_key);
    }
    let bwd_target = B::rebuild(&target_key, n);
    let bwd_start = B::goal(n);
    let mut fwd_visited = B::map_new();
    B::map_insert(&mut fwd_visited, initial.key(), initial.key());
    let mut bwd_visited = B::map_new();
    B::map_insert(&mut bwd_visited, goal.key(), goal.key());
    let mut fwd_current: Vec<(B, B::Key)> = Vec::new();
    fwd_current.push((initial, init_key));
    let mut bwd_current: Vec<(B, B::Key)> = Vec::new();
    bwd_current.push((bwd_start, goal_key));
    let mut fwd = Side {
        current: fwd_current,
        next_box: Vec::new(),
        visited: fwd_visited,
        bucket_index: 0,
        h_initial: init_h,
        target: goal,
        depth: Ghost(Map::empty().insert(root_f, 0nat)),
        expanded: Ghost(Set::empty()),
        fl: Ghost(init_h as int),
    };
    let mut bwd = Side {
        current: bwd_current,
        next_box: Vec::new(),
        visited: bwd_visited,
        bucket_index: 0,
        h_initial: goal_h,
        target: bwd_target,
        depth: Ghost(Map::empty().insert(root_b, 0nat)),
        expanded: Ghost(Set::empty()),
        fl: Ghost(goal_h as int),
    };
    proof {
        assert(fwd.map().dom() =~= fwd.depth@.dom());
        assert(bwd.map().dom() =~= bwd.depth@.dom());
        assert(on_stack(fwd.current@, root_f)) by {
            assert(fwd.current@[0].0.cells() == root_f);
        }
        assert(on_stack(bwd.current@, root_b)) by {
            assert(bwd.current@[0].0.cells() == root_b);
        }
        assert(fwd.inv(nn, root_f, puzzle_f, root_b));
        assert(bwd.inv(nn, root_b, puzzle_b, root_f));
        assert(meet_ok(None::<B::Key>, u64::MAX, &fwd, &bwd));
    }
    let mut mu: u64 = u64::MAX;
    let mut meet: Option<B::Key> = None;
    let ghost mut wit: (int, Option<Seq<u8>>, int, Option<Seq<u8>>) = (0, None, 0, None);
    proof {
        lemma_meet_none::<B>(
            nn,
            mu,
            fwd.map(),
            fwd.depth@,
            fwd.expanded@,
            bwd.map(),
            bwd.depth@,
            bwd.expanded@,
            wit,
        );
    }
    loop
        invariant
            nn == n,
            B::valid_side(nn),
            side_in_range(nn),
            root_f != root_b,
            root_b == goal_cells(nn),
            fwd.inv(nn, root_f, puzzle_f, root_b),
            bwd.inv(nn, root_b, puzzle_b, root_f),
            meet_ok(meet, mu, &fwd, &bwd),
            puzzle_f && puzzle_b ==> meet_cost::<B>(
                nn,
                meet,
                mu,
                fwd.map(),
                fwd.depth@,
                fwd.expanded@,
                bwd.map(),
                bwd.depth@,
                bwd.expanded@,
                wit,
            ),
            fwd.expanded@.contains(root_b) ==> mu <= fwd.depth@[root_b],
        ensures
            fwd.inv(nn, root_f, puzzle_f, root_b),
            bwd.inv(nn, root_b, puzzle_b, root_f),
            meet_ok(meet, mu, &fwd, &bwd),
            puzzle_f && puzzle_b ==> meet_cost::<B>(
                nn,
                meet,
                mu,
                fwd.map(),
                fwd.depth@,
                fwd.expanded@,
                bwd.map(),
                bwd.depth@,
                bwd.expanded@,
                wit,
            ),
            fwd.expanded@.contains(root_b) ==> mu <= fwd.depth@[root_b],
            fwd.f_spec() >= mu,
            meet is None ==> fwd.current.len() == 0 && fwd.next_box.len() == 0,
            meet matches Some(k) ==> fwd.map().contains_key(B::key_cells(&k))
                && bwd.map().contains_key(B::key_cells(&k)),
        decreases fwd.gap(nn) + bwd.gap(nn), fwd.flag() + bwd.flag(), fwd.count() + bwd.count(),
    {
        proof {
            lemma_visited_bound::<B>(nn, fwd.map(), fwd.depth@, root_f);
            lemma_visited_bound::<B>(nn, bwd.map(), bwd.depth@, root_b);
        }
        let f_fwd = fwd.f();
        let f_bwd = bwd.f();
        let min_f = if f_fwd < f_bwd {
            f_fwd
        } else {
            f_bwd
        };
        if min_f == u64::MAX {
            break;
        }
        if min_f >= mu {
            let settled = match &meet {
                Some(k) => B::map_contains(&fwd.visited, k) && B::map_contains(&bwd.visited, k),
                None => false,
            };
            if settled {
                break;
            }
        }
        // Pick the side with the smaller f; ties go to the larger frontier.
        let expand_fwd = if f_fwd != f_bwd {
            f_fwd < f_bwd
        } else {
            fwd.current.len() >= bwd.current.len()
        };
        if expand_fwd {
            let ghost mu_before = mu;
            let ghost fwd_map_before = fwd.map();
            let ghost fwd_depth_before = fwd.depth@;
            let ghost fwd_exp_before = fwd.expanded@;
            let r = expand_side(
                &mut fwd,
                &bwd,
                &mut mu,
                &mut meet,
                n,
                Ghost(root_f),
                Ghost(puzzle_f),
                Ghost(root_b),
                Ghost(root_b),
                Ghost(puzzle_b),
                Ghost(root_f),
                Ghost(wit),
            );
            proof {
                wit = r@;
                if fwd.expanded@.contains(root_b) {
                    if fwd_exp_before.contains(root_b) {
                        assert(fwd_map_before.contains_key(root_b));
                        lemma_grows_at(fwd_map_before, fwd_depth_before, fwd.map(), fwd.depth@, root_b);
                    } else {
                        assert(bwd.map().contains_key(root_b));
                        assert(bwd.depth@[root_b] == 0);
                    }
                }
            }
        } else {
            proof {
                if puzzle_f && puzzle_b {
                    lemma_meet_swap::<B>(
                        nn,
                        meet,
                        mu,
                        fwd.map(),
                        fwd.depth@,
                        fwd.expanded@,
                        bwd.map(),
                        bwd.depth@,
                        bwd.expanded@,
                        wit,
                    );
                }
            }
            let r = expand_side(
                &mut bwd,
                &fwd,
                &mut mu,
                &mut meet,
                n,
                Ghost(root_b),
                Ghost(puzzle_b),
                Ghost(root_f),
                Ghost(root_f),
                Ghost(puzzle_f),
                Ghost(root_b),
                Ghost((wit.2, wit.3, wit.0, wit.1)),
            );
            proof {
                if puzzle_f && puzzle_b {
                    lemma_meet_swap::<B>(
                        nn,
                        meet,
                        mu,
                        bwd.map(),
                        bwd.depth@,
                        bwd.expanded@,
                        fwd.map(),
                        fwd.depth@,
                        fwd.expanded@,
                        r@,
                    );
                }
                wit = (r@.2, r@.3, r@.0, r@.1);
            }
        }
        proof {
            lemma_visited_bound::<B>(nn, fwd.map(), fwd.depth@, root_f);
            lemma_visited_bound::<B>(nn, bwd.map(), bwd.depth@, root_b);
        }
    }
    let ghost meet_g = meet;
    match meet {
        None => {
            proof {
                let p = fwd.map();
                let x = fwd.expanded@;
                if puzzle_f && distinct_tiles(root_f) && tiles_at_most(root_f, (nn * nn - 1) as int)
                    && nn * nn <= 256 {
                    lemma_solvable_reachable(nn, root_f, initial.blank());
                }
                if puzzle_f {
                    assert forall|c: Seq<u8>, m: Seq<u8>|
                        x.contains(c) && #[trigger] moves_of(nn, c).contains(m) implies #[trigger] x.contains(m) by {
                        assert(p.contains_key(m));
                        assert(!on_stack(fwd.current@, m));
                    }
                    if reachable(nn, root_f, root_b) {
                        assert(!on_stack(fwd.current@, root_f));
                        assert(x.contains(root_f));
                        lemma_closed_reachable(nn, x, root_f, root_b);
                        assert(bwd.map().contains_key(root_b));
                    }
                }
            }
            None
        },
        Some(meet_key) => {
            let fwd_path = walk_path::<B>(
                &fwd.visited,
                &meet_key,
                n,
                Ghost(fwd.depth@),
                Ghost(root_f),
            );
            let bwd_path = walk_path::<B>(
                &bwd.visited,
                &meet_key,
                n,
                Ghost(bwd.depth@),
                Ghost(root_b),
            );
            let ghost fp = fwd_path@;
            let ghost bp = bwd_path@;
            let path = join_paths(fwd_path, bwd_path);
            #[verifier::truncate]
            let moves = (path.len() - 1) as u32;
            proof {
                lemma_path_joined::<B>(nn, root_f, root_b, fp, bp, path@, puzzle_f && puzzle_b);
                if puzzle_f && nn * nn <= 256 {
                    lemma_goal_single_blank(nn);
                    assert(puzzle_b);
                    let kc = B::key_cells(&meet_key);
                    assert(meet_g == Some(meet_key));
                    reveal(meet_cost);
                    lemma_witness_bound::<B>(nn, &fwd, root_f, root_b, kc, wit.0, wit.1);
                    lemma_witness_bound::<B>(nn, &bwd, root_b, root_f, kc, wit.2, wit.3);
                    assert(path.len() == fwd.depth@[kc] + bwd.depth@[kc] + 1);
                    assert forall|kk: nat|
                        reachable_in(nn, root_f, root_b, kk) && kk < u32::MAX implies path.len() - 1
                        <= kk by {
                        lemma_mu_below_walks::<B>(nn, &fwd, root_f, mu, kk);
                        assert(mu == wit.0 + wit.2);
                    }
                    assert forall|kk: nat| reachable_in(nn, root_f, root_b, kk) implies path.len()
                        - 1 <= kk by {
                        if kk >= u32::MAX {
                            let w = choose|w: Seq<Seq<u8>>|
                                is_walk(nn, w) && w.len() == kk + 1 && w[0] == root_f && w.last()
                                    == root_b;
                            assert(reachable(nn, root_f, root_b));
                            lemma_first_zero_single(root_f, initial.blank());
                            lemma_reachable_soon(nn, root_f);
                            let w2 = choose|w2: Seq<Seq<u8>>|
                                is_walk(nn, w2) && w2[0] == root_f && w2.last() == root_b
                                    && w2.len() <= solve_bound(nn as int) + 1;
                            assert(reachable_in(nn, root_f, root_b, (w2.len() - 1) as nat));
                        }
                    }
                }
            }
            Some(Solution { moves, path })
        },
    }
}

/// The joined path runs from the forward root to the backward root; with
/// both trees made of moves, each step is a move.
proof fn lemma_path_joined<B: Board>(
    n: nat,
    root_f: Seq<u8>,
    root_b: Seq<u8>,
    fp: Seq<B>,
    bp: Seq<B>,
    path: Seq<B>,
    moves: bool,
)
    requires
        n >= 1,
        fp.len() >= 1,
        bp.len() >= 1,
        fp[0].cells() == root_f,
        bp[0].cells() == root_b,
        fp.last().cells() == bp.last().cells(),
        forall|i: int| 0 <= i < fp.len() ==> (#[trigger] fp[i]).wf() && fp[i].side() == n,
        forall|i: int| 0 <= i < bp.len() ==> (#[trigger] bp[i]).wf() && bp[i].side() == n,
        moves ==> forall|i: int|
            0 <= i < fp.len() ==> single_blank((#[trigger] fp[i]).cells(), fp[i].blank()),
        moves ==> forall|i: int|
            0 <= i < bp.len() ==> single_blank((#[trigger] bp[i]).cells(), bp[i].blank()),
        moves ==> forall|i: int|
            0 <= i < fp.len() - 1 ==> one_move(n, #[trigger] fp[i].cells(), fp[i + 1].cells()),
        moves ==> forall|i: int|
            0 <= i < bp.len() - 1 ==> one_move(n, #[trigger] bp[i].cells(), bp[i + 1].cells()),
        path.len() == fp.len() + bp.len() - 1,
        forall|i: int| 0 <= i < fp.len() ==> #[trigger] path[i] == fp[i],
        forall|t: int| 0 <= t < bp.len() - 1 ==> #[trigger] path[fp.len() + t] == bp[bp.len() - 2 - t],
    ensures
        path.len() >= 1,
        path[0].cells() == root_f,
        path.last().cells() == root_b,
        forall|i: int| 0 <= i < path.len() ==> (#[trigger] path[i]).wf() && path[i].side() == n,
        moves ==> solution_path(n, root_f, path) || root_b != goal_cells(n),
{
    let lf = fp.len() as int;
    let lb = bp.len() as int;
    assert(path[0] == fp[0]);
    if lb >= 2 {
        assert(path[lf + (lb - 2)] == bp[0]);
    } else {
        assert(path[lf - 1] == fp[lf - 1]);
    }
    assert forall|i: int| 0 <= i < path.len() implies (#[trigger] path[i]).wf() && path[i].side() == n by {
        if i >= lf {
            assert(path[lf + (i - lf)] == bp[lb - 2 - (i - lf)]);
        }
    }
    if moves && root_b == goal_cells(n) {
        assert forall|i: int| 0 <= i < path.len() implies {
            &&& (#[trigger] path[i]).wf()
            &&& path[i].side() == n
            &&& single_blank(path[i].cells(), path[i].blank())
        } by {
            if i >= lf {
                assert(path[lf + (i - lf)] == bp[lb - 2 - (i - lf)]);
            }
        }
        assert forall|i: int| 0 <= i < path.len() - 1 implies one_move(
            n,
            #[trigger] path[i].cells(),
            path[i + 1].cells(),
        ) by {
            if i < lf - 1 {
                assert(path[i + 1] == fp[i + 1]);
            } else {
                // a backward step, taken the other way
                let t = i + 1 - lf;
                let j = lb - 2 - t;
                assert(path[lf + t] == bp[j]);
                if i == lf - 1 {
                    assert(path[i] == fp[lf - 1]);
                    assert(one_move(n, bp[j].cells(), bp[j + 1].cells()));
                } else {
                    assert(path[lf + (t - 1)] == bp[j + 1]);
                    assert(one_move(n, bp[j].cells(), bp[j + 1].cells()));
                }
                bp[j].lemma_wf();
                lemma_first_zero_single(bp[j].cells(), bp[j].blank());
                lemma_one_move_symmetric(n, bp[j].cells(), bp[j + 1].cells());
            }
        }
    }
}

} // verus!
