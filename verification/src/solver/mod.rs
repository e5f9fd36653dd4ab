//! Solvers and what they share: the solution type, the shape of the
//! visited maps, and the walk back along parent links.
pub mod bidirectional;
pub mod bucket_dfs;
pub mod levels;

use crate::board::grid::lemma_first_zero_single;
use crate::board::space::{cell_space, lemma_cell_space_finite};
use crate::board::{
    first_zero, goal_cells, moves_of, one_move, reachable, side_in_range, single_blank, solvable,
    solvable_in_range, tiles_at_most, Board,
};
use vstd::prelude::*;

verus! {

/// A solution: the boards from the start to the solved layout, and the
/// number of moves between them.
pub struct Solution<B: Board> {
    pub moves: u32,
    pub path: Vec<B>,
}

/// The cells hold exactly one blank.
pub open spec fn one_blank(c: Seq<u8>) -> bool {
    single_blank(c, first_zero(c))
}

/// `path` leads by moves from `start` to the solved layout of side `n`; every
/// board on it is a well-formed puzzle position of that side.
pub open spec fn solution_path<B: Board>(n: nat, start: Seq<u8>, path: Seq<B>) -> bool {
    &&& path.len() >= 1
    &&& path[0].cells() == start
    &&& path.last().cells() == goal_cells(n)
    &&& forall|i: int|
        0 <= i < path.len() ==> {
            &&& (#[trigger] path[i]).wf()
            &&& path[i].side() == n
            &&& single_blank(path[i].cells(), path[i].blank())
        }
    &&& forall|i: int| 0 <= i < path.len() - 1 ==> one_move(n, #[trigger] path[i].cells(), path[i + 1].cells())
}

/// The parent map is a tree rooted at `root`: following parents from any
/// visited position leads back to `root`, and `depth` counts the links.
/// Every visited position has `n * n` cells a board of type `B` can hold.
pub open spec fn parent_tree<B: Board>(
    n: nat,
    p: Map<Seq<u8>, Seq<u8>>,
    depth: Map<Seq<u8>, nat>,
    root: Seq<u8>,
) -> bool {
    &&& p.dom() == depth.dom()
    &&& p.contains_key(root)
    &&& p[root] == root
    &&& depth[root] == 0
    &&& forall|c: Seq<u8>|
        #[trigger] p.contains_key(c) ==> c.len() == n * n && B::accepts_cells(c)
    &&& forall|c: Seq<u8>|
        #[trigger] p.contains_key(c) && c != root ==> {
            &&& p.contains_key(p[c])
            &&& depth[c] == depth[p[c]] + 1
        }
}

/// Every link of the parent map is one move, and every visited position has
/// exactly one blank.
pub open spec fn move_tree(n: nat, p: Map<Seq<u8>, Seq<u8>>, root: Seq<u8>) -> bool {
    &&& forall|c: Seq<u8>| #[trigger] p.contains_key(c) ==> one_blank(c)
    &&& forall|c: Seq<u8>| #[trigger] p.contains_key(c) && c != root ==> one_move(n, p[c], c)
}

/// The inputs on which a search runs within its arithmetic: unless the start
/// is already solved, the solvability counts fit in `u32`, and unless it is
/// unsolvable, the side keeps the heuristic inside `i32` and every tile is a
/// cell number.
pub open spec fn search_in_range(n: nat, cells: Seq<u8>, blank: nat) -> bool {
    cells == goal_cells(n) || {
        &&& solvable_in_range(n, cells, blank)
        &&& solvable(n, cells, blank) ==> side_in_range(n) && tiles_at_most(cells, (n * n) as int)
    }
}

/// Only the root is its own parent.
pub proof fn lemma_tree_root<B: Board>(
    n: nat,
    p: Map<Seq<u8>, Seq<u8>>,
    depth: Map<Seq<u8>, nat>,
    root: Seq<u8>,
    c: Seq<u8>,
)
    requires
        parent_tree::<B>(n, p, depth, root),
        p.contains_key(c),
        p[c] == c,
    ensures
        c == root,
{
}

/// A strictly larger finite set has more elements.
pub proof fn lemma_strict_superset_len<A>(a: Set<A>, b: Set<A>)
    requires
        a.subset_of(b),
        b.finite(),
        a != b,
    ensures
        a.len() < b.len(),
{
    let x = choose|x: A| b.contains(x) && !a.contains(x);
    assert(b.contains(x) && !a.contains(x)) by {
        if forall|y: A| b.contains(y) ==> a.contains(y) {
            assert(a =~= b);
        }
    }
    vstd::set_lib::lemma_len_subset(a, b.remove(x));
}

/// The visited positions of side `n` fit in the finite space of cell sequences.
pub proof fn lemma_visited_bound<B: Board>(
    n: nat,
    p: Map<Seq<u8>, Seq<u8>>,
    depth: Map<Seq<u8>, nat>,
    root: Seq<u8>,
)
    requires
        parent_tree::<B>(n, p, depth, root),
    ensures
        p.dom().subset_of(cell_space(n * n)),
        p.dom().finite(),
        p.dom().len() <= cell_space(n * n).len(),
{
    lemma_cell_space_finite(n * n);
    vstd::set_lib::lemma_set_subset_finite(cell_space(n * n), p.dom());
    vstd::set_lib::lemma_len_subset(p.dom(), cell_space(n * n));
}

/// A set that holds `a` and is closed under moves holds every position reachable from `a`.
pub proof fn lemma_closed_reachable(n: nat, x: Set<Seq<u8>>, a: Seq<u8>, b: Seq<u8>)
    requires
        x.contains(a),
        forall|c: Seq<u8>, m: Seq<u8>|
            x.contains(c) && #[trigger] moves_of(n, c).contains(m) ==> #[trigger] x.contains(m),
        reachable(n, a, b),
    ensures
        x.contains(b),
{
    let w = choose|w: Seq<Seq<u8>>| crate::board::is_walk(n, w) && w[0] == a && w.last() == b;
    lemma_walk_stays(n, x, w, w.len() - 1);
}

proof fn lemma_walk_stays(n: nat, x: Set<Seq<u8>>, w: Seq<Seq<u8>>, i: int)
    requires
        crate::board::is_walk(n, w),
        x.contains(w[0]),
        forall|c: Seq<u8>, m: Seq<u8>|
            x.contains(c) && #[trigger] moves_of(n, c).contains(m) ==> #[trigger] x.contains(m),
        0 <= i < w.len(),
    ensures
        x.contains(w[i]),
    decreases i,
{
    if i > 0 {
        lemma_walk_stays(n, x, w, i - 1);
        assert(one_move(n, w[i - 1], w[i]));
    }
}

/// The board holds what rebuilding it from its cells gives: its blank is the
/// first zero of its cells (or index 0 when there is none).
pub open spec fn blank_from_cells<B: Board>(b: B) -> bool {
    b.blank() == (if b.cells().contains(0) {
        first_zero(b.cells())
    } else {
        0
    })
}

/// The boards from the root of the parent tree to `from`, rebuilt from their keys.
pub(crate) fn walk_path<B: Board>(
    visited: &B::KeyMap,
    from: &B::Key,
    n: usize,
    Ghost(depth): Ghost<Map<Seq<u8>, nat>>,
    Ghost(root): Ghost<Seq<u8>>,
) -> (path: Vec<B>)
    requires
        parent_tree::<B>(n as nat, B::map_view(visited), depth, root),
        B::map_view(visited).contains_key(B::key_cells(from)),
        B::valid_side(n as nat),
    ensures
        path.len() == depth[B::key_cells(from)] + 1,
        path@[0].cells() == root,
        path@.last().cells() == B::key_cells(from),
        forall|i: int| 0 <= i < path.len() ==> (#[trigger] path@[i]).wf() && path@[i].side() == n,
        forall|i: int|
            0 <= i < path.len() ==> B::map_view(visited).contains_key((#[trigger] path@[i]).cells())
                && blank_from_cells(path@[i]),
        forall|i: int|
            1 <= i < path.len() ==> B::map_view(visited)[(#[trigger] path@[i]).cells()]
                == path@[i - 1].cells(),
        B::map_view(visited)[path@[0].cells()] == path@[0].cells(),
        move_tree(n as nat, B::map_view(visited), root) ==> {
            &&& forall|i: int|
                0 <= i < path.len() ==> single_blank(
                    (#[trigger] path@[i]).cells(),
                    path@[i].blank(),
                )
            &&& forall|i: int|
                0 <= i < path.len() - 1 ==> one_move(
                    n as nat,
                    #[trigger] path@[i].cells(),
                    path@[i + 1].cells(),
                )
        },
{
    let ghost p = B::map_view(visited);
    let ghost nn = n as nat;
    let ghost moves = move_tree(nn, p, root);
    proof {
        B::lemma_accepts_key(from);
    }
    let mut key = B::rebuild(from, n).key();
    let mut rev: Vec<B> = Vec::new();
    loop
        invariant_except_break
            rev.len() > 0 ==> rev@.last().cells() != root,
            rev.len() + depth[B::key_cells(&key)] == depth[B::key_cells(from)],
        invariant
            p == B::map_view(visited),
            parent_tree::<B>(nn, p, depth, root),
            moves == move_tree(nn, p, root),
            B::valid_side(nn),
            nn == n,
            p.contains_key(B::key_cells(&key)),
            rev.len() == 0 ==> B::key_cells(&key) == B::key_cells(from),
            rev.len() > 0 ==> rev@[0].cells() == B::key_cells(from),
            rev.len() > 0 ==> p[rev@.last().cells()] == B::key_cells(&key),
            rev.len() > 0 ==> p.contains_key(rev@.last().cells()),
            forall|i: int| 0 <= i < rev.len() ==> (#[trigger] rev@[i]).wf() && rev@[i].side() == n,
            forall|i: int|
                0 <= i < rev.len() ==> p.contains_key((#[trigger] rev@[i]).cells())
                    && blank_from_cells(rev@[i]),
            forall|i: int|
                0 <= i < rev.len() - 1 ==> p[(#[trigger] rev@[i]).cells()] == rev@[i + 1].cells(),
            moves ==> forall|i: int|
                0 <= i < rev.len() ==> single_blank(
                    (#[trigger] rev@[i]).cells(),
                    rev@[i].blank(),
                ),
            moves ==> forall|i: int|
                0 <= i < rev.len() - 1 ==> one_move(
                    nn,
                    rev@[i + 1].cells(),
                    #[trigger] rev@[i].cells(),
                ),
        ensures
            rev.len() == depth[B::key_cells(from)] + 1,
            rev@[0].cells() == B::key_cells(from),
            rev@.last().cells() == root,
            forall|i: int| 0 <= i < rev.len() ==> (#[trigger] rev@[i]).wf() && rev@[i].side() == n,
            forall|i: int|
                0 <= i < rev.len() ==> p.contains_key((#[trigger] rev@[i]).cells())
                    && blank_from_cells(rev@[i]),
            forall|i: int|
                0 <= i < rev.len() - 1 ==> p[(#[trigger] rev@[i]).cells()] == rev@[i + 1].cells(),
            moves ==> forall|i: int|
                0 <= i < rev.len() ==> single_blank(
                    (#[trigger] rev@[i]).cells(),
                    rev@[i].blank(),
                ),
            moves ==> forall|i: int|
                0 <= i < rev.len() - 1 ==> one_move(
                    nn,
                    rev@[i + 1].cells(),
                    #[trigger] rev@[i].cells(),
                ),
        decreases depth[B::key_cells(&key)],
    {
        let ghost c = B::key_cells(&key);
        proof {
            B::lemma_accepts_key(&key);
            if moves {
                lemma_first_zero_single(c, first_zero(c));
            }
        }
        let parent_key = B::map_get(visited, &key);
        let board = B::rebuild(&key, n);
        let ghost prev = rev@;
        rev.push(board);
        proof {
            assert(rev@[rev.len() - 1] == board);
            assert forall|i: int| 0 <= i < rev.len() implies p.contains_key(
                (#[trigger] rev@[i]).cells(),
            ) && blank_from_cells(rev@[i]) by {
                if i < prev.len() {
                    assert(rev@[i] == prev[i]);
                }
            }
            assert forall|i: int| 0 <= i < rev.len() - 1 implies p[(#[trigger] rev@[i]).cells()]
                == rev@[i + 1].cells() by {
                assert(rev@[i] == prev[i]);
                if i < prev.len() - 1 {
                    assert(rev@[i + 1] == prev[i + 1]);
                }
            }
            if prev.len() > 0 && moves {
                assert(one_move(nn, c, prev.last().cells()));
                assert(rev@[rev.len() - 2] == prev.last());
            }
            if moves {
                assert forall|i: int| 0 <= i < rev.len() - 1 implies one_move(
                    nn,
                    rev@[i + 1].cells(),
                    #[trigger] rev@[i].cells(),
                ) by {
                    if i < prev.len() - 1 {
                        assert(rev@[i] == prev[i] && rev@[i + 1] == prev[i + 1]);
                    }
                }
                assert forall|i: int| 0 <= i < rev.len() implies single_blank(
                    (#[trigger] rev@[i]).cells(),
                    rev@[i].blank(),
                ) by {
                    if i < prev.len() {
                        assert(rev@[i] == prev[i]);
                    }
                }
            }
        }
        if B::key_eq(&parent_key, &key) {
            proof {
                lemma_tree_root::<B>(nn, p, depth, root, c);
            }
            break;
        }
        key = parent_key;
    }
    let mut path: Vec<B> = Vec::new();
    let ghost revs = rev@;
    let ghost len = rev.len();
    while rev.len() > 0
        invariant
            revs.len() == len,
            len >= 1,
            rev@ == revs.take(rev.len() as int),
            path.len() + rev.len() == len,
            forall|j: int| 0 <= j < path.len() ==> #[trigger] path@[j] == revs[len - 1 - j],
        decreases rev.len(),
    {
        let b = rev.pop().unwrap();
        path.push(b);
        proof {
            assert(rev@ =~= revs.take(rev.len() as int));
        }
    }
    proof {
        assert forall|i: int| 0 <= i < path.len() implies (#[trigger] path@[i]).wf() && path@[i].side()
            == n && p.contains_key(path@[i].cells()) && blank_from_cells(path@[i]) by {
            assert(path@[i] == revs[len - 1 - i]);
        }
        assert forall|i: int| 1 <= i < path.len() implies p[(#[trigger] path@[i]).cells()]
            == path@[i - 1].cells() by {
            assert(path@[i] == revs[len - 1 - i]);
            assert(path@[i - 1] == revs[(len - 1 - i) + 1]);
        }
        assert(path@[0] == revs[len - 1]);
        if moves {
            assert forall|i: int| 0 <= i < path.len() - 1 implies one_move(
                nn,
                #[trigger] path@[i].cells(),
                path@[i + 1].cells(),
            ) by {
                assert(path@[i] == revs[len - 1 - i]);
                assert(path@[i + 1] == revs[len - 1 - (i + 1)]);
                assert(one_move(nn, revs[(len - 2 - i) + 1].cells(), revs[len - 2 - i].cells()));
            }
            assert forall|i: int| 0 <= i < path.len() implies single_blank(
                (#[trigger] path@[i]).cells(),
                path@[i].blank(),
            ) by {
                assert(path@[i] == revs[len - 1 - i]);
            }
        }
    }
    path
}

/// Following parent links back from a visited position is a walk of moves
/// from the root as long as its depth.
pub proof fn lemma_tree_walk<B: Board>(
    n: nat,
    p: Map<Seq<u8>, Seq<u8>>,
    depth: Map<Seq<u8>, nat>,
    root: Seq<u8>,
    c: Seq<u8>,
)
    requires
        parent_tree::<B>(n, p, depth, root),
        move_tree(n, p, root),
        p.contains_key(c),
    ensures
        levels::reachable_in(n, root, c, depth[c]),
    decreases depth[c],
{
    if c == root {
        let w = seq![root];
        assert(crate::board::is_walk(n, w));
        assert(w[0] == root && w.last() == c);
    } else {
        let pc = p[c];
        lemma_tree_walk::<B>(n, p, depth, root, pc);
        let w = choose|w: Seq<Seq<u8>>|
            crate::board::is_walk(n, w) && w.len() == depth[pc] + 1 && w[0] == root && w.last()
                == pc;
        let w2 = w.push(c);
        assert forall|i: int| 0 <= i < w2.len() - 1 implies one_move(
            n,
            #[trigger] w2[i],
            w2[i + 1],
        ) by {
            if i < w.len() - 1 {
                assert(w2[i] == w[i] && w2[i + 1] == w[i + 1]);
                assert(one_move(n, w[i], w[i + 1]));
            } else {
                assert(w2[i] == pc && w2[i + 1] == c);
            }
        }
        assert(crate::board::is_walk(n, w2));
        assert(w2[0] == root && w2.last() == c);
    }
}

/// A solution path is a walk from its start to the solved layout, as many
/// moves long as it has boards after the first.
pub proof fn lemma_solution_walk<B: Board>(n: nat, start: Seq<u8>, path: Seq<B>)
    requires
        solution_path(n, start, path),
    ensures
        levels::reachable_in(n, start, goal_cells(n), (path.len() - 1) as nat),
{
    let w = path.map_values(|b: B| b.cells());
    assert forall|i: int| 0 <= i < w.len() - 1 implies one_move(n, #[trigger] w[i], w[i + 1]) by {
        assert(one_move(n, path[i].cells(), path[i + 1].cells()));
    }
    assert(crate::board::is_walk(n, w));
    assert(w[0] == start && w.last() == goal_cells(n));
}

/// Two shortest solutions from the same start have the same number of
/// moves: the paths the two solvers return on a puzzle position, each no
/// longer than any walk to the solved layout, agree on the move count,
/// whichever board types they hold.
pub proof fn lemma_shortest_lengths_agree<B1: Board, B2: Board>(
    n: nat,
    start: Seq<u8>,
    p1: Seq<B1>,
    p2: Seq<B2>,
)
    requires
        solution_path(n, start, p1),
        solution_path(n, start, p2),
        forall|k: nat| levels::reachable_in(n, start, goal_cells(n), k) ==> p1.len() - 1 <= k,
        forall|k: nat| levels::reachable_in(n, start, goal_cells(n), k) ==> p2.len() - 1 <= k,
    ensures
        p1.len() == p2.len(),
{
    lemma_solution_walk(n, start, p1);
    lemma_solution_walk(n, start, p2);
}

} // verus!
