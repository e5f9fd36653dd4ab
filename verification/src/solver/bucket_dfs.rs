//! Two-stack bucket depth-first search: neighbours whose heuristic did not
//! go up stay in the current bucket, the others wait in the next one.
use super::levels::{
    edge_ok, h_to, lemma_depth_shortest, lemma_level_finish, lemma_level_pop,
    lemma_level_promote, lemma_level_push_current, lemma_level_push_next, lemma_level_seen, level,
    level_inv, reachable_in,
};
use super::{
    blank_from_cells, lemma_closed_reachable, lemma_strict_superset_len, lemma_visited_bound, move_tree, one_blank,
    parent_tree, search_in_range, solution_path, walk_path, Solution,
};
use crate::board::grid::{
    lemma_first_zero_single, lemma_goal_single_blank, lemma_move_targets, lemma_swap_single_blank, lemma_swap_tiles_at_most,
};
use crate::board::parity::{distinct_tiles, lemma_unsolvable_unreachable};
use crate::board::properties::{lemma_move_changes_heuristic_by_one, lemma_next_box_iff_farther};
use crate::board::space::cell_space;
use crate::board::{
    first_zero, goal_cells, manhattan, move_delta, move_targets, moves_of, one_move, reachable,
    side_in_range, single_blank, solvable, swap_cells, tiles_at_most, Board, Neighbor,
};
use crate::board::parity::lemma_goal_solvable;
use crate::board::solvability::lemma_solvable_reachable;
use vstd::prelude::*;

verus! {

/// A stack entry: a well-formed board of side `n` whose parent key is
/// visited; on a puzzle search, the board is a puzzle position that is either
/// visited or one move from its parent.
pub open spec fn entry_ok<B: Board>(
    n: nat,
    p: Map<Seq<u8>, Seq<u8>>,
    puzzle: bool,
    e: (B, B::Key),
) -> bool {
    &&& e.0.wf()
    &&& e.0.side() == n
    &&& tiles_at_most(e.0.cells(), (n * n) as int)
    &&& p.contains_key(B::key_cells(&e.1))
    &&& puzzle ==> single_blank(e.0.cells(), e.0.blank())
    &&& puzzle ==> (p.contains_key(e.0.cells()) || one_move(n, B::key_cells(&e.1), e.0.cells()))
}

/// Some entry of the stack holds the cells `c`.
pub open spec fn on_stack<B: Board>(s: Seq<(B, B::Key)>, c: Seq<u8>) -> bool {
    exists|i: int| 0 <= i < s.len() && (#[trigger] s[i]).0.cells() == c
}

/// Every entry of the stack is visited.
pub open spec fn all_visited<B: Board>(s: Seq<(B, B::Key)>, p: Map<Seq<u8>, Seq<u8>>) -> bool {
    forall|i: int| 0 <= i < s.len() ==> p.contains_key((#[trigger] s[i]).0.cells())
}

/// What the search keeps true: the visited map is a tree (of moves, on a
/// puzzle search), the stacks hold good entries, every visited position is expanded or waiting on the current
/// stack (or is `pending`), and on a puzzle search every move from an
/// expanded position is visited or waiting on a stack.
pub open spec fn search_inv<B: Board>(
    n: nat,
    p: Map<Seq<u8>, Seq<u8>>,
    depth: Map<Seq<u8>, nat>,
    root: Seq<u8>,
    puzzle: bool,
    expanded: Set<Seq<u8>>,
    pending: Set<Seq<u8>>,
    current: Seq<(B, B::Key)>,
    next_box: Seq<(B, B::Key)>,
) -> bool {
    &&& parent_tree::<B>(n, p, depth, root)
    &&& puzzle ==> move_tree(n, p, root)
    &&& forall|i: int| 0 <= i < current.len() ==> entry_ok(n, p, puzzle, #[trigger] current[i])
    &&& forall|i: int| 0 <= i < next_box.len() ==> entry_ok(n, p, puzzle, #[trigger] next_box[i])
    &&& expanded.subset_of(p.dom())
    &&& forall|c: Seq<u8>|
        #[trigger] p.contains_key(c) ==> expanded.contains(c) || on_stack(current, c)
            || pending.contains(c)
    &&& puzzle ==> forall|c: Seq<u8>, m: Seq<u8>|
        expanded.contains(c) && #[trigger] moves_of(n, c).contains(m) ==> p.contains_key(m)
            || on_stack(current, m) || on_stack(next_box, m)
}

/// Pushing keeps every position the stack holds.
pub proof fn lemma_push_keeps_on_stack<B: Board>(s: Seq<(B, B::Key)>, x: (B, B::Key), c: Seq<u8>)
    requires
        on_stack(s, c),
    ensures
        on_stack(s.push(x), c),
{
    let i = choose|i: int| 0 <= i < s.len() && (#[trigger] s[i]).0.cells() == c;
    assert(s.push(x)[i] == s[i]);
}

/// A pushed entry's position is on the stack.
pub proof fn lemma_push_on_stack<B: Board>(s: Seq<(B, B::Key)>, x: (B, B::Key))
    ensures
        on_stack(s.push(x), x.0.cells()),
{
    assert(s.push(x)[s.len() as int] == x);
}

/// The solution ending at `goal_key`: the walk back along parent keys, turned
/// around, and its number of moves.
fn reconstruct<B: Board>(
    parents: &B::KeyMap,
    goal_key: &B::Key,
    n: usize,
    Ghost(depth): Ghost<Map<Seq<u8>, nat>>,
    Ghost(root): Ghost<Seq<u8>>,
) -> (sol: Solution<B>)
    requires
        parent_tree::<B>(n as nat, B::map_view(parents), depth, root),
        B::map_view(parents).contains_key(B::key_cells(goal_key)),
        B::valid_side(n as nat),
    ensures
        sol.path.len() == depth[B::key_cells(goal_key)] + 1,
        sol.moves == (sol.path.len() - 1) as u32,
        sol.path@[0].cells() == root,
        sol.path@.last().cells() == B::key_cells(goal_key),
        forall|i: int|
            0 <= i < sol.path.len() ==> (#[trigger] sol.path@[i]).wf() && sol.path@[i].side() == n,
        forall|i: int|
            0 <= i < sol.path.len() ==> B::map_view(parents).contains_key(
                (#[trigger] sol.path@[i]).cells(),
            ) && blank_from_cells(sol.path@[i]),
        forall|i: int|
            1 <= i < sol.path.len() ==> B::map_view(parents)[(#[trigger] sol.path@[i]).cells()]
                == sol.path@[i - 1].cells(),
        B::map_view(parents)[sol.path@[0].cells()] == sol.path@[0].cells(),
        move_tree(n as nat, B::map_view(parents), root) ==> {
            &&& forall|i: int|
                0 <= i < sol.path.len() ==> single_blank(
                    (#[trigger] sol.path@[i]).cells(),
                    sol.path@[i].blank(),
                )
            &&& forall|i: int|
                0 <= i < sol.path.len() - 1 ==> one_move(
                    n as nat,
                    #[trigger] sol.path@[i].cells(),
                    sol.path@[i + 1].cells(),
                )
        },
{
    let path = walk_path::<B>(parents, goal_key, n, Ghost(depth), Ghost(root));
    #[verifier::truncate]
    let moves = (path.len() - 1) as u32;
    Solution { moves, path }
}

/// Bucketed search from `initial` to the solved layout.  Returns the path of
/// boards found, rebuilt from the visited map, or `None` when the start is
/// unsolvable or the search runs out of positions.  The buckets are taken in
/// order of depth plus Manhattan distance, so on a puzzle position the path
/// is a shortest one.
pub fn solve<B: Board>(initial: B) -> (res: Option<Solution<B>>)
    requires
        initial.wf(),
        search_in_range(initial.side(), initial.cells(), initial.blank()),
    ensures
        initial.cells() == goal_cells(initial.side()) ==> (res matches Some(sol) && sol.moves == 0
            && sol.path@ == seq![initial]),
        res matches Some(sol) ==> {
            &&& sol.path.len() >= 1
            &&& sol.moves == (sol.path.len() - 1) as u32
            &&& sol.path@[0].cells() == initial.cells()
            &&& sol.path@.last().cells() == goal_cells(initial.side())
            &&& forall|i: int|
                0 <= i < sol.path.len() ==> (#[trigger] sol.path@[i]).wf() && sol.path@[i].side()
                    == initial.side()
            &&& single_blank(initial.cells(), initial.blank()) ==> solution_path(
                initial.side(),
                initial.cells(),
                sol.path@,
            )
            &&& single_blank(initial.cells(), initial.blank()) && initial.side() * initial.side()
                <= 256 ==> forall|k: nat|
                reachable_in(initial.side(), initial.cells(), goal_cells(initial.side()), k)
                    ==> sol.path.len() - 1 <= k
        },
        initial.cells() != goal_cells(initial.side()) && !solvable(
            initial.side(),
            initial.cells(),
            initial.blank(),
        ) ==> res is None,
        single_blank(initial.cells(), initial.blank()) && distinct_tiles(initial.cells())
            && tiles_at_most(initial.cells(), initial.side() * initial.side() - 1)
            && initial.side() * initial.side() <= 256 ==> (res is Some <==> solvable(
            initial.side(),
            initial.cells(),
            initial.blank(),
        )),
        res is None ==> !solvable(initial.side(), initial.cells(), initial.blank()) || (
        single_blank(initial.cells(), initial.blank()) ==> !reachable(
            initial.side(),
            initial.cells(),
            goal_cells(initial.side()),
        )),
        res is None && single_blank(initial.cells(), initial.blank()) && distinct_tiles(
            initial.cells(),
        ) && initial.side() * initial.side() <= 256 ==> !reachable(
            initial.side(),
            initial.cells(),
            goal_cells(initial.side()),
        ),
{
    proof {
        initial.lemma_wf();
    }
    let n = initial.n();
    if initial.is_goal() {
        proof {
            if single_blank(initial.cells(), initial.blank()) && initial.side() * initial.side()
                <= 256 {
                lemma_goal_single_blank(initial.side());
                lemma_goal_solvable(initial.side());
            }
        }
        return Some(Solution { moves: 0, path: vec![initial] });
    }
    if !initial.is_solvable() {
        proof {
            if single_blank(initial.cells(), initial.blank()) && distinct_tiles(initial.cells())
                && initial.side() * initial.side() <= 256 {
                lemma_first_zero_single(initial.cells(), initial.blank());
                lemma_unsolvable_unreachable(initial.side(), initial.cells());
            }
        }
        return None;
    }
    let ghost nn = n as nat;
    let ghost root = initial.cells();
    let ghost puzzle = single_blank(initial.cells(), initial.blank());
    let ghost space = cell_space(nn * nn);
    let goal = B::goal(n);
    proof {
        goal.lemma_wf();
        assert(tiles_at_most(goal.cells(), (nn * nn) as int));
        if puzzle {
            lemma_first_zero_single(root, initial.blank());
        }
    }
    let init_key = initial.key();
    let mut parents = B::map_new();
    B::map_insert(&mut parents, initial.key(), initial.key());
    let ghost mut depth: Map<Seq<u8>, nat> = Map::empty().insert(root, 0nat);
    let ghost mut expanded: Set<Seq<u8>> = Set::empty();
    let ghost mut fl: int = h_to(nn, goal_cells(nn), root);
    let mut current: Vec<(B, B::Key)> = Vec::new();
    current.push((initial, init_key));
    let mut next_box: Vec<(B, B::Key)> = Vec::new();
    proof {
        let p = B::map_view(&parents);
        assert(p.dom() =~= depth.dom());
        assert(on_stack(current@, root)) by {
            assert(current@[0].0.cells() == root);
        }
        lemma_visited_bound::<B>(nn, p, depth, root);
        crate::board::space::lemma_cell_space_finite(nn * nn);
        assert(current@[0].0.cells() == root);
        assert(level_inv(nn, goal_cells(nn), p, depth, expanded, Set::empty(), current@, next_box@, fl));
    }
    loop
        invariant
            nn == n,
            nn == initial.side(),
            root == initial.cells(),
            root != goal_cells(nn),
            forall|c: Seq<u8>| #[trigger] expanded.contains(c) ==> c != goal_cells(nn),
            puzzle == single_blank(initial.cells(), initial.blank()),
            solvable(initial.side(), initial.cells(), initial.blank()),
            B::valid_side(nn),
            side_in_range(nn),
            goal.wf(),
            goal.side() == nn,
            goal.cells() == goal_cells(nn),
            tiles_at_most(goal.cells(), (nn * nn) as int),
            space == cell_space(nn * nn),
            space.finite(),
            B::map_view(&parents).dom().subset_of(space),
            next_box.len() == 0,
            puzzle ==> single_blank(root, first_zero(root)),
            puzzle ==> level_inv(
                nn,
                goal_cells(nn),
                B::map_view(&parents),
                depth,
                expanded,
                Set::empty(),
                current@,
                next_box@,
                fl,
            ),
            search_inv(
                nn,
                B::map_view(&parents),
                depth,
                root,
                puzzle,
                expanded,
                Set::empty(),
                current@,
                next_box@,
            ),
        decreases space.len() - B::map_view(&parents).dom().len(),
            if all_visited(current@, B::map_view(&parents)) {
                1int
            } else {
                0int
            },
    {
        let ghost dom_start = B::map_view(&parents).dom();
        let ghost stale_start = all_visited(current@, B::map_view(&parents));
        proof {
            vstd::set_lib::lemma_len_subset(dom_start, space);
        }
        while current.len() > 0
            invariant
                nn == n,
                nn == initial.side(),
                root == initial.cells(),
                root != goal_cells(nn),
                forall|c: Seq<u8>| #[trigger] expanded.contains(c) ==> c != goal_cells(nn),
                puzzle == single_blank(initial.cells(), initial.blank()),
                solvable(initial.side(), initial.cells(), initial.blank()),
                B::valid_side(nn),
                side_in_range(nn),
                goal.wf(),
                goal.side() == nn,
                goal.cells() == goal_cells(nn),
                tiles_at_most(goal.cells(), (nn * nn) as int),
                space == cell_space(nn * nn),
                space.finite(),
                B::map_view(&parents).dom().subset_of(space),
                dom_start.subset_of(B::map_view(&parents).dom()),
                puzzle ==> single_blank(root, first_zero(root)),
                puzzle ==> level_inv(
                    nn,
                    goal_cells(nn),
                    B::map_view(&parents),
                    depth,
                    expanded,
                    Set::empty(),
                    current@,
                    next_box@,
                    fl,
                ),
                B::map_view(&parents).dom() == dom_start ==> forall|i: int|
                    0 <= i < next_box.len() ==> !dom_start.contains(
                        (#[trigger] next_box@[i]).0.cells(),
                    ),
                B::map_view(&parents).dom() == dom_start && !stale_start ==> exists|i: int|
                    0 <= i < current.len() && !dom_start.contains(
                        (#[trigger] current@[i]).0.cells(),
                    ),
                search_inv(
                    nn,
                    B::map_view(&parents),
                    depth,
                    root,
                    puzzle,
                    expanded,
                    Set::empty(),
                    current@,
                    next_box@,
                ),
            decreases space.len() - B::map_view(&parents).dom().len(), current.len(),
        {
            let ghost dom0 = B::map_view(&parents).dom();
            let ghost len0 = current.len();
            let ghost cur0 = current@;
            let ghost p0 = B::map_view(&parents);
            let ghost depth0 = depth;
            let (board, entry_parent) = current.pop().unwrap();
            let ghost bc = board.cells();
            let ghost stale = expanded.contains(bc);
            proof {
                assert(cur0[len0 - 1] == (board, entry_parent));
                assert(entry_ok(nn, B::map_view(&parents), puzzle, cur0[len0 - 1]));
                assert forall|i: int| 0 <= i < current.len() implies #[trigger] current@[i] == cur0[i] by {
                }
                board.lemma_wf();
            }
            if !B::map_contains(&parents, &board.key()) {
                B::map_insert(&mut parents, board.key(), entry_parent);
                proof {
                    let p = B::map_view(&parents);
                    let pk = B::key_cells(&entry_parent);
                    depth = depth.insert(bc, depth[pk] + 1);
                    assert(p.dom() =~= depth.dom());
                    assert(bc != root);
                    if puzzle {
                        lemma_first_zero_single(bc, board.blank());
                    }
                }
            }
            proof {
                let p = B::map_view(&parents);
                assert(p.contains_key(bc));
                lemma_visited_bound::<B>(nn, p, depth, root);
                if puzzle {
                    assert(cur0.last() == (board, entry_parent));
                    assert(current@ =~= cur0.drop_last());
                    lemma_level_pop::<B>(nn, goal_cells(nn), p0, depth0, expanded, cur0, next_box@, fl, p, depth);
                }
                // what the pop kept of the stack invariants
                assert forall|c: Seq<u8>| #[trigger] p.contains_key(c) implies expanded.contains(c)
                    || on_stack(current@, c) || set![bc].contains(c) by {
                    if !expanded.contains(c) && c != bc && dom0.contains(c) {
                        let i = choose|i: int| 0 <= i < cur0.len() && (#[trigger] cur0[i]).0.cells() == c;
                        assert(current@[i] == cur0[i]);
                    }
                }
                if puzzle {
                    assert forall|c: Seq<u8>, m: Seq<u8>|
                        expanded.contains(c) && #[trigger] moves_of(nn, c).contains(m) implies p.contains_key(m)
                        || on_stack(current@, m) || on_stack(next_box@, m) by {
                        if !dom0.contains(m) && !on_stack(next_box@, m) {
                            let i = choose|i: int| 0 <= i < cur0.len() && (#[trigger] cur0[i]).0.cells() == m;
                            if i < len0 - 1 {
                                assert(current@[i] == cur0[i]);
                            }
                        }
                    }
                }
                if p.dom() == dom_start && !stale_start {
                    let w = choose|i: int|
                        0 <= i < cur0.len() && !dom_start.contains((#[trigger] cur0[i]).0.cells());
                    assert(w != len0 - 1);
                    assert(current@[w] == cur0[w]);
                }
                assert forall|i: int| 0 <= i < current.len() implies entry_ok(
                    nn,
                    p,
                    puzzle,
                    #[trigger] current@[i],
                ) by {
                    assert(current@[i] == cur0[i]);
                }
            }
            if board.is_goal() {
                let sol = reconstruct::<B>(&parents, &board.key(), n, Ghost(depth), Ghost(root));
                proof {
                    if puzzle {
                        assert(move_tree(nn, B::map_view(&parents), root));
                        assert forall|i: int| 0 <= i < sol.path.len() implies {
                            &&& (#[trigger] sol.path@[i]).wf()
                            &&& sol.path@[i].side() == nn
                            &&& single_blank(sol.path@[i].cells(), sol.path@[i].blank())
                        } by {}
                        assert(solution_path(nn, root, sol.path@));
                        if nn * nn <= 256 {
                            assert forall|kk: nat| reachable_in(nn, root, goal_cells(nn), kk) implies sol.path.len() - 1
                                <= kk by {
                                lemma_depth_shortest::<B>(
                                    nn,
                                    goal_cells(nn),
                                    B::map_view(&parents),
                                    depth,
                                    expanded,
                                    current@,
                                    next_box@,
                                    fl,
                                    bc,
                                    root,
                                    bc,
                                    kk,
                                );
                            }
                        }
                    }
                }
                return Some(sol);
            }
            let ghost bl = board.blank() as int;
            let ghost ts = move_targets(nn as int, bl);
            let ghost mv = moves_of(nn, bc);
            let mut nbs = board.neighbors(&goal);
            let ghost orig = nbs@;
            proof {
                lemma_move_targets(nn as int, bl);
                if puzzle {
                    lemma_first_zero_single(bc, board.blank());
                    assert(mv.len() == ts.len());
                }
            }
            let ghost mut k: int = 0;
            while nbs.len() > 0
                invariant
                    nn == n,
                    nn == initial.side(),
                    root == initial.cells(),
                    root != goal_cells(nn),
                    forall|c: Seq<u8>| #[trigger] expanded.contains(c) ==> c != goal_cells(nn),
                    puzzle == single_blank(initial.cells(), initial.blank()),
                    solvable(initial.side(), initial.cells(), initial.blank()),
                    B::valid_side(nn),
                    side_in_range(nn),
                    goal.wf(),
                    goal.side() == nn,
                    goal.cells() == goal_cells(nn),
                    tiles_at_most(goal.cells(), (nn * nn) as int),
                    space == cell_space(nn * nn),
                    space.finite(),
                    B::map_view(&parents).dom().subset_of(space),
                    dom_start.subset_of(dom0),
                    dom0.subset_of(B::map_view(&parents).dom()),
                    B::map_view(&parents).dom() == dom0 ==> current.len() == len0 - 1,
                    B::map_view(&parents).dom() == dom_start ==> forall|i: int|
                        0 <= i < next_box.len() ==> !dom_start.contains(
                            (#[trigger] next_box@[i]).0.cells(),
                        ),
                    B::map_view(&parents).dom() == dom_start && !stale_start ==> exists|i: int|
                        0 <= i < current.len() && !dom_start.contains(
                            (#[trigger] current@[i]).0.cells(),
                        ),
                    board.wf(),
                    board.side() == nn,
                    board.cells() == bc,
                    bl == board.blank(),
                    0 <= bl < nn * nn,
                    bc.len() == nn * nn,
                    tiles_at_most(bc, (nn * nn) as int),
                    puzzle ==> single_blank(bc, board.blank()),
                    puzzle ==> first_zero(bc) == bl,
                    bc != goal_cells(nn),
                    puzzle ==> single_blank(root, first_zero(root)),
                    stale == expanded.contains(bc),
                    puzzle ==> level_inv(
                        nn,
                        goal_cells(nn),
                        B::map_view(&parents),
                        depth,
                        expanded,
                        set![bc],
                        current@,
                        next_box@,
                        fl,
                    ),
                    puzzle ==> level(nn, goal_cells(nn), depth, bc) <= fl,
                    puzzle && !stale ==> level(nn, goal_cells(nn), depth, bc) == fl,
                    puzzle && !stale ==> forall|j: int|
                        0 <= j < k ==> edge_ok(
                            nn,
                            goal_cells(nn),
                            B::map_view(&parents),
                            depth,
                            current@,
                            next_box@,
                            fl,
                            bc,
                            #[trigger] mv[j],
                        ),
                    ts == move_targets(nn as int, bl),
                    mv == moves_of(nn, bc),
                    B::map_view(&parents).contains_key(bc),
                    orig.len() == ts.len(),
                    ts.len() <= 4,
                    forall|i: int|
                        0 <= i < ts.len() ==> 0 <= #[trigger] ts[i] < nn * nn && ts[i] != bl,
                    forall|i: int|
                        0 <= i < orig.len() ==> {
                            &&& (#[trigger] orig[i]).board.wf()
                            &&& orig[i].board.side() == nn
                            &&& orig[i].board.cells() == swap_cells(bc, bl, ts[i])
                            &&& orig[i].board.blank() == ts[i]
                            &&& orig[i].is_next_box == ((manhattan(nn, bc, goal_cells(nn))
                                + move_delta(nn, bc, goal_cells(nn), bl, ts[i])) as u32 > manhattan(
                                nn,
                                bc,
                                goal_cells(nn),
                            ))
                        },
                    0 <= k <= orig.len(),
                    nbs@ == orig.skip(k),
                    puzzle ==> forall|j: int|
                        0 <= j < k ==> B::map_view(&parents).contains_key(#[trigger] mv[j]) || on_stack(
                            current@,
                            mv[j],
                        ) || on_stack(next_box@, mv[j]),
                    search_inv(
                        nn,
                        B::map_view(&parents),
                        depth,
                        root,
                        puzzle,
                        expanded,
                        set![bc],
                        current@,
                        next_box@,
                    ),
                decreases nbs.len(),
            {
                let ghost p_before = B::map_view(&parents);
                let ghost depth_before = depth;
                let ghost cur_before = current@;
                let ghost nb_before = next_box@;
                let neighbor = nbs.remove(0);
                let ghost nc = neighbor.board.cells();
                let ghost t = ts[k];
                proof {
                    assert(neighbor == orig[k]);
                    assert(nbs@ =~= orig.skip(k + 1));
                    lemma_swap_tiles_at_most(bc, bl, t, (nn * nn) as int);
                    neighbor.board.lemma_wf();
                    if puzzle {
                        lemma_swap_single_blank(bc, bl, t);
                        assert(mv[k] == nc);
                        assert(one_move(nn, bc, nc));
                        assert(moves_of(nn, bc).contains(nc));
                        assert(ts[k] == t);
                        lemma_move_changes_heuristic_by_one(nn, bc, goal_cells(nn), board.blank(), t);
                        lemma_next_box_iff_farther(nn, bc, goal_cells(nn), board.blank(), t);
                        assert(neighbor.is_next_box <==> h_to(nn, goal_cells(nn), nc) == h_to(nn, goal_cells(nn), bc) + 1);
                    }
                }
                let nkey = neighbor.board.key();
                if B::map_contains(&parents, &nkey) {
                    proof {
                        if puzzle && !stale {
                            lemma_level_seen::<B>(
                                nn,
                                goal_cells(nn),
                                p_before,
                                depth,
                                expanded,
                                set![bc],
                                cur_before,
                                nb_before,
                                fl,
                                bc,
                                nc,
                            );
                        }
                        k = k + 1;
                    }
                    continue;
                }
                proof {
                    if puzzle && stale {
                        assert(edge_ok(nn, goal_cells(nn), p_before, depth, cur_before, nb_before, fl, bc, nc));
                    }
                }
                if neighbor.is_next_box {
                    next_box.push((neighbor.board, board.key()));
                    proof {
                        let e = next_box@[next_box.len() - 1];
                        assert(entry_ok(nn, p_before, puzzle, e));
                        lemma_push_on_stack(nb_before, e);
                        assert forall|c: Seq<u8>| on_stack(nb_before, c) implies on_stack(next_box@, c) by {
                            lemma_push_keeps_on_stack(nb_before, e, c);
                        }
                        if puzzle {
                            assert(next_box@ == nb_before.push(e));
                            lemma_level_push_next::<B>(
                                nn,
                                goal_cells(nn),
                                p_before,
                                depth,
                                expanded,
                                set![bc],
                                cur_before,
                                nb_before,
                                fl,
                                bc,
                                e,
                            );
                        }
                    }
                } else {
                    B::map_insert(&mut parents, nkey, board.key());
                    proof {
                        depth = depth.insert(nc, depth[bc] + 1);
                        let p = B::map_view(&parents);
                        assert(p.dom() =~= depth.dom());
                        assert(nc != root);
                        if puzzle {
                            lemma_first_zero_single(nc, t as nat);
                        }
                        lemma_visited_bound::<B>(nn, p, depth, root);
                        lemma_strict_superset_len(p_before.dom(), p.dom());
                    }
                    current.push((neighbor.board, board.key()));
                    proof {
                        let e = current@[current.len() - 1];
                        lemma_push_on_stack(cur_before, e);
                        assert forall|c: Seq<u8>| on_stack(cur_before, c) implies on_stack(current@, c) by {
                            lemma_push_keeps_on_stack(cur_before, e, c);
                        }
                        if puzzle {
                            assert(current@ == cur_before.push(e));
                            assert(level(nn, goal_cells(nn), depth_before, bc) == fl);
                            lemma_level_push_current::<B>(
                                nn,
                                goal_cells(nn),
                                p_before,
                                depth_before,
                                expanded,
                                set![bc],
                                cur_before,
                                nb_before,
                                fl,
                                bc,
                                e,
                            );
                        }
                    }
                }
                proof {
                    k = k + 1;
                }
            }
            proof {
                if puzzle {
                    assert forall|m: Seq<u8>| #[trigger] moves_of(nn, bc).contains(m) && !stale implies edge_ok(
                        nn,
                        goal_cells(nn),
                        B::map_view(&parents),
                        depth,
                        current@,
                        next_box@,
                        fl,
                        bc,
                        m,
                    ) by {
                        let j = choose|j: int| 0 <= j < mv.len() && mv[j] == m;
                        assert(edge_ok(
                            nn,
                            goal_cells(nn),
                            B::map_view(&parents),
                            depth,
                            current@,
                            next_box@,
                            fl,
                            bc,
                            mv[j],
                        ));
                    }
                    lemma_level_finish::<B>(
                        nn,
                        goal_cells(nn),
                        B::map_view(&parents),
                        depth,
                        expanded,
                        current@,
                        next_box@,
                        fl,
                        bc,
                    );
                }
                expanded = expanded.insert(bc);
                let p = B::map_view(&parents);
                lemma_visited_bound::<B>(nn, p, depth, root);
                if p.dom() != dom0 {
                    lemma_strict_superset_len(dom0, p.dom());
                }
            }
        }
        if next_box.is_empty() {
            proof {
                let p = B::map_view(&parents);
                if puzzle {
                    assert forall|c: Seq<u8>, m: Seq<u8>|
                        expanded.contains(c) && #[trigger] moves_of(nn, c).contains(m) implies #[trigger] expanded.contains(m) by {
                        assert(p.contains_key(m));
                        assert(!on_stack(current@, m));
                    }
                }
                if puzzle && distinct_tiles(root) && tiles_at_most(root, (nn * nn - 1) as int)
                    && nn * nn <= 256 {
                    lemma_solvable_reachable(nn, root, initial.blank());
                }
                if puzzle && reachable(nn, root, goal_cells(nn)) {
                    assert(expanded.contains(root));
                    lemma_closed_reachable(nn, expanded, root, goal_cells(nn));
                }
            }
            return None;
        }
        proof {
            if puzzle {
                let p = B::map_view(&parents);
                assert forall|c: Seq<u8>| #[trigger] p.contains_key(c) implies expanded.contains(c) by {
                    assert(!on_stack(current@, c));
                }
                lemma_level_promote::<B>(nn, goal_cells(nn), p, depth, expanded, current@, next_box@, fl);
            }
        }
        std::mem::swap(&mut current, &mut next_box);
        proof {
            fl = fl + 2;
            let p = B::map_view(&parents);
            lemma_visited_bound::<B>(nn, p, depth, root);
            if p.dom() != dom_start {
                lemma_strict_superset_len(dom_start, p.dom());
            } else {
                assert(!all_visited(current@, p)) by {
                    assert(!p.contains_key(current@[0].0.cells()));
                }
            }
        }
    }
}

} // verus!
