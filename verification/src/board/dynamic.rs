//! N×N board for arbitrary N, backed by a byte vector.
use super::grid::{
    lemma_first_zero, lemma_last_pos_bound, lemma_last_pos_push, lemma_manhattan_bound,
    lemma_manhattan_prefix_mono, lemma_move_targets, lemma_swap_contains, lemma_targets_from, lemma_cell_row_col,
};
use super::keymap::{
    bytes_map_contains, bytes_map_contents, bytes_map_get, bytes_map_insert, bytes_map_new,
    BytesKeyMap,
};
use super::{
    dir_target, first_zero, goal_cells, grid_dist, last_pos, manhattan, manhattan_dist,
    manhattan_prefix, move_delta, move_targets, side_in_range, swap_cells, targets_from,
    tile_term, tiles_at_most, Board, Neighbor,
};
use vstd::prelude::*;

verus! {

/// N×N board for arbitrary N.
#[derive(Clone, PartialEq, Eq, Debug)]
pub struct DynamicBoard {
    n: usize,
    tiles: Vec<u8>,
    empty: usize,
}

/// Where each tile value sits in `target`: for every value `j <= total`, the
/// last index holding it (or 0).
fn target_positions(target: &DynamicBoard, total: usize) -> (pos: Vec<usize>)
    requires
        total == target.tiles.len(),
        total < usize::MAX,
        tiles_at_most(target.tiles@, total as int),
    ensures
        pos.len() == total + 1,
        forall|j: int|
            0 <= j <= total ==> #[trigger] pos[j] == (if j < 256 {
                last_pos(target.tiles@, j as u8)
            } else {
                0
            }),
{
    let mut target_pos = vec![0usize; total + 1];
    for i in 0..total
        invariant
            total == target.tiles.len(),
            tiles_at_most(target.tiles@, total as int),
            target_pos.len() == total + 1,
            forall|j: int|
                0 <= j <= total ==> #[trigger] target_pos[j] == (if j < 256 {
                    last_pos(target.tiles@.take(i as int), j as u8)
                } else {
                    0
                }),
    {
        let t = target.tiles[i] as usize;
        proof {
            assert(target.tiles@.take(i + 1) =~= target.tiles@.take(i as int).push(
                target.tiles@[i as int],
            ));
            assert forall|j: int| 0 <= j < 256 implies #[trigger] last_pos(
                target.tiles@.take(i + 1),
                j as u8,
            ) == (if target.tiles@[i as int] == j as u8 {
                i as int
            } else {
                last_pos(target.tiles@.take(i as int), j as u8)
            }) by {
                lemma_last_pos_push(target.tiles@.take(i as int), target.tiles@[i as int], j as u8);
            }
        }
        target_pos[t] = i;
    }
    proof {
        assert(target.tiles@.take(total as int) =~= target.tiles@);
    }
    target_pos
}

impl DynamicBoard {
    #[inline]
    fn swap(&mut self, a: usize, b: usize)
        requires
            a < old(self).tiles.len(),
            b < old(self).tiles.len(),
        ensures
            final(self).tiles@ == swap_cells(old(self).tiles@, a as int, b as int),
            final(self).n == old(self).n,
            final(self).empty == old(self).empty,
    {
        let ta = self.tiles[a];
        let tb = self.tiles[b];
        self.tiles[a] = tb;
        self.tiles[b] = ta;
    }

    /// A field-by-field copy.
    fn copy(&self) -> (r: Self)
        ensures
            r.n == self.n,
            r.tiles@ == self.tiles@,
            r.empty == self.empty,
    {
        let tiles = self.tiles.clone();
        proof {
            assert(tiles@ =~= self.tiles@);
        }
        DynamicBoard { n: self.n, tiles, empty: self.empty }
    }

    /// Index of the first zero of `tiles`.
    fn first_zero_index(tiles: &[u8]) -> (r: usize)
        requires
            tiles@.contains(0),
        ensures
            r == first_zero(tiles@),
    {
        proof {
            lemma_first_zero(tiles@);
        }
        let mut i: usize = 0;
        while i < tiles.len()
            invariant
                i <= first_zero(tiles@),
                first_zero(tiles@) < tiles@.len(),
                tiles@[first_zero(tiles@) as int] == 0,
                forall|j: int| 0 <= j < first_zero(tiles@) ==> tiles@[j] != 0,
            decreases tiles.len() - i,
        {
            if tiles[i] == 0 {
                return i;
            }
            i = i + 1;
        }
        i
    }
}

impl Board for DynamicBoard {
    type Key = Vec<u8>;

    type KeyMap = BytesKeyMap;

    closed spec fn side(&self) -> nat {
        self.n as nat
    }

    closed spec fn cells(&self) -> Seq<u8> {
        self.tiles@
    }

    closed spec fn blank(&self) -> nat {
        self.empty as nat
    }

    closed spec fn wf(&self) -> bool {
        &&& self.n >= 1
        &&& self.tiles@.len() == self.n * self.n
        &&& self.tiles@.len() < usize::MAX
        &&& self.empty < self.tiles@.len()
        &&& self.tiles@.contains(0)
    }

    open spec fn valid_side(n: nat) -> bool {
        n >= 1 && n * n < usize::MAX
    }

    /// A slice holds fewer than `usize::MAX` bytes.
    open spec fn accepts_tiles(n: usize, tiles: Seq<u8>) -> bool {
        &&& tiles.len() == n * n
        &&& tiles.len() < usize::MAX
        &&& tiles.contains(0)
    }

    open spec fn key_cells(k: &Vec<u8>) -> Seq<u8> {
        k@
    }

    open spec fn accepts_key(k: &Vec<u8>) -> bool {
        k@.contains(0)
    }

    open spec fn accepts_cells(c: Seq<u8>) -> bool {
        c.contains(0)
    }

    open spec fn map_view(m: &BytesKeyMap) -> Map<Seq<u8>, Seq<u8>> {
        bytes_map_contents(*m)
    }

    proof fn lemma_wf(&self) {
        let n = self.n as nat;
        assert(self.wf());
        assert(self.tiles@.len() < usize::MAX);
        assert(n * n == self.n * self.n);
        assert(n * n < usize::MAX);
        assert(self.side() == n);
        assert(Self::valid_side(n));
        assert(self.cells() == self.tiles@);
        assert(Self::accepts_cells(self.cells()));
    }

    proof fn lemma_accepts_key(k: &Vec<u8>) {
    }

    fn from_tiles(n: usize, tiles: &[u8]) -> (b: Self)
        ensures
            b.cells() == tiles@,
            b.blank() == first_zero(tiles@),
    {
        let empty = Self::first_zero_index(tiles);
        let mut v: Vec<u8> = Vec::new();
        for i in 0..tiles.len()
            invariant
                v@ == tiles@.take(i as int),
        {
            v.push(tiles[i]);
            proof {
                assert(tiles@.take(i + 1) =~= tiles@.take(i as int).push(tiles@[i as int]));
            }
        }
        proof {
            assert(tiles@.take(tiles@.len() as int) =~= tiles@);
            lemma_first_zero(tiles@);
        }
        DynamicBoard { n, tiles: v, empty }
    }

    fn goal(n: usize) -> (b: Self) {
        let total = n * n;
        proof {
            assert(n * n >= 1) by (nonlinear_arith)
                requires
                    n >= 1,
            ;
        }
        let mut tiles = Vec::with_capacity(total);
        for i in 1..total
            invariant
                total == n * n,
                1 <= total,
                tiles@.len() == i - 1,
                forall|j: int| 0 <= j < i - 1 ==> #[trigger] tiles@[j] == (j + 1) as u8,
        {
            tiles.push(i as u8);
        }
        tiles.push(0);
        let b = DynamicBoard { n, tiles, empty: total - 1 };
        proof {
            assert(b.tiles@[total - 1] == 0);
            assert(b.tiles@ =~= goal_cells(n as nat));
        }
        b
    }

    fn n(&self) -> usize {
        self.n
    }

    fn key(&self) -> Vec<u8> {
        let k = self.tiles.clone();
        proof {
            assert(k@ =~= self.tiles@);
        }
        k
    }

    fn empty_index(&self) -> usize {
        self.empty
    }

    fn tile_at(&self, idx: usize) -> u8 {
        self.tiles[idx]
    }

    fn is_goal(&self) -> (r: bool) {
        let total = self.n * self.n;
        for i in 0..total - 1
            invariant
                total == self.n * self.n,
                self.tiles@.len() == total,
                total >= 1,
                forall|j: int| 0 <= j < i ==> self.tiles@[j] == (j + 1) as u8,
        {
            if self.tiles[i] != (i + 1) as u8 {
                proof {
                    assert(self.tiles@[i as int] != goal_cells(self.n as nat)[i as int]);
                }
                return false;
            }
        }
        let last = self.tiles[total - 1] == 0;
        proof {
            if last {
                assert(self.tiles@ =~= goal_cells(self.n as nat));
            } else {
                assert(self.tiles@[total - 1] != goal_cells(self.n as nat)[total - 1]);
            }
        }
        last
    }

    fn manhattan_to(&self, target: &Self) -> (r: u32) {
        let n = self.n;
        let total = n * n;
        let target_pos = target_positions(target, total);
        let mut dist = 0u32;
        for i in 0..total
            invariant
                n == self.n,
                total == n * n,
                n >= 1,
                self.tiles@.len() == total,
                target.tiles@.len() == total,
                tiles_at_most(self.tiles@, total as int),
                target_pos.len() == total + 1,
                forall|j: int|
                    0 <= j <= total ==> #[trigger] target_pos[j] == (if j < 256 {
                        last_pos(target.tiles@, j as u8)
                    } else {
                        0
                    }),
                manhattan(n as nat, self.tiles@, target.tiles@) <= u32::MAX,
                dist == manhattan_prefix(n as nat, self.tiles@, target.tiles@, i as int),
        {
            let t = self.tiles[i] as usize;
            proof {
                lemma_manhattan_prefix_mono(
                    n as nat,
                    self.tiles@,
                    target.tiles@,
                    i + 1,
                    total as int,
                );
            }
            if t != 0 {
                let d = manhattan_dist(i, target_pos[t], n);
                proof {
                    assert(tile_term(n as nat, self.tiles@, target.tiles@, i as int) == grid_dist(
                        i as int,
                        target_pos[t as int] as int,
                        n as int,
                    ));
                }
                dist = dist + d;
            }
        }
        dist
    }

    fn neighbors(&self, target: &Self) -> (r: Vec<Neighbor<Self>>) {
        let mut it = DynamicNeighborIter::new(self, target);
        let mut out: Vec<Neighbor<Self>> = Vec::new();
        let ghost n = self.n as int;
        let ghost e = self.empty as int;
        proof {
            lemma_targets_from(n, e, 0);
        }
        loop
            invariant
                it.inv(),
                it.board == self,
                it.target@ == target.tiles@,
                self.wf(),
                n == self.n,
                e == self.empty,
                out.len() + targets_from(n, e, it.idx as int).len() == move_targets(n, e).len(),
                forall|j: int|
                    0 <= j < targets_from(n, e, it.idx as int).len() ==> move_targets(n, e)[out.len()
                        + j] == #[trigger] targets_from(n, e, it.idx as int)[j],
                forall|i: int| 0 <= i < out.len() ==> it.good(#[trigger] out[i], move_targets(n, e)[i]),
            ensures
                out.len() == move_targets(n, e).len(),
                forall|i: int| 0 <= i < out.len() ==> it.good(#[trigger] out[i], move_targets(n, e)[i]),
            decreases 4 - it.idx,
        {
            let ghost before = targets_from(n, e, it.idx as int);
            let ghost len0 = out.len();
            proof {
                if before.len() > 0 {
                    assert(move_targets(n, e)[out.len() + 0] == targets_from(n, e, it.idx as int)[0]);
                }
            }
            let r = it.next();
            match r {
                Some(nb) => {
                    out.push(nb);
                    proof {
                        assert(move_targets(n, e)[len0 as int] == before[0]);
                        assert forall|j: int|
                            0 <= j < targets_from(n, e, it.idx as int).len() implies move_targets(
                            n,
                            e,
                        )[out.len() + j] == #[trigger] targets_from(n, e, it.idx as int)[j] by {
                            assert(targets_from(n, e, it.idx as int)[j] == before[j + 1]);
                        }
                    }
                },
                None => {
                    break ;
                },
            }
        }
        out
    }

    fn rebuild(key: &Vec<u8>, n: usize) -> (b: Self) {
        let empty = Self::first_zero_index(key.as_slice());
        let tiles = key.clone();
        proof {
            assert(tiles@ =~= key@);
            lemma_first_zero(key@);
        }
        DynamicBoard { n, tiles, empty }
    }

    fn key_eq(a: &Vec<u8>, b: &Vec<u8>) -> (r: bool) {
        if a.len() != b.len() {
            return false;
        }
        for i in 0..a.len()
            invariant
                a@.len() == b@.len(),
                forall|j: int| 0 <= j < i ==> a@[j] == b@[j],
        {
            if a[i] != b[i] {
                return false;
            }
        }
        proof {
            assert(a@ =~= b@);
        }
        true
    }

    fn map_new() -> (m: BytesKeyMap) {
        bytes_map_new()
    }

    fn map_contains(m: &BytesKeyMap, k: &Vec<u8>) -> (r: bool) {
        bytes_map_contains(m, k)
    }

    fn map_get(m: &BytesKeyMap, k: &Vec<u8>) -> (r: Vec<u8>) {
        let v = bytes_map_get(m, k);
        let r = v.clone();
        proof {
            assert(r@ =~= v@);
        }
        r
    }

    fn map_insert(m: &mut BytesKeyMap, k: Vec<u8>, v: Vec<u8>) {
        bytes_map_insert(m, k, v);
    }
}

/// Yields the neighbours of `board` one direction at a time.
struct DynamicNeighborIter<'a> {
    board: &'a DynamicBoard,
    target: Ghost<Seq<u8>>,
    target_pos: Vec<usize>,
    h_current: u32,
    dirs: [(i32, i32); 4],
    idx: usize,
}

impl<'a> DynamicNeighborIter<'a> {
    spec fn inv(&self) -> bool {
        let n = self.board.n as nat;
        let total = n * n;
        &&& self.board.wf()
        &&& side_in_range(n)
        &&& tiles_at_most(self.board.tiles@, total as int)
        &&& self.target@.len() == total
        &&& tiles_at_most(self.target@, total as int)
        &&& self.target_pos.len() == total + 1
        &&& forall|j: int|
            0 <= j <= total ==> #[trigger] self.target_pos[j] == (if j < 256 {
                last_pos(self.target@, j as u8)
            } else {
                0
            })
        &&& self.h_current == manhattan(n, self.board.tiles@, self.target@)
        &&& self.dirs@ == seq![(-1i32, 0i32), (1i32, 0i32), (0i32, -1i32), (0i32, 1i32)]
        &&& self.idx <= 4
    }

    /// `nb` is the neighbour reached by moving the blank to `t`.
    spec fn good(&self, nb: Neighbor<DynamicBoard>, t: int) -> bool {
        let n = self.board.n as nat;
        let cells = self.board.tiles@;
        let e = self.board.empty as int;
        let d = move_delta(n, cells, self.target@, e, t);
        let h = manhattan(n, cells, self.target@);
        &&& nb.board.wf()
        &&& nb.board.side() == n
        &&& nb.board.cells() == swap_cells(cells, e, t)
        &&& nb.board.blank() == t
        &&& nb.manhattan_delta == d
        &&& nb.is_next_box == ((h + d) as u32 > h)
    }

    fn new(board: &'a DynamicBoard, target: &'a DynamicBoard) -> (it: Self)
        requires
            board.wf(),
            target.wf(),
            target.n == board.n,
            side_in_range(board.n as nat),
            tiles_at_most(board.tiles@, board.tiles@.len() as int),
            tiles_at_most(target.tiles@, target.tiles@.len() as int),
        ensures
            it.inv(),
            it.board == board,
            it.target@ == target.tiles@,
            it.idx == 0,
    {
        let n = board.n;
        let total = n * n;
        let target_pos = target_positions(target, total);
        proof {
            lemma_manhattan_bound(n as nat, board.tiles@, target.tiles@);
        }
        let h_current = board.manhattan_to(target);
        DynamicNeighborIter {
            board,
            target: Ghost(target.tiles@),
            target_pos,
            h_current,
            dirs: [(-1, 0), (1, 0), (0, -1), (0, 1)],
            idx: 0,
        }
    }

    #[verifier::rlimit(40)]
    #[verifier::spinoff_prover]
    fn next(&mut self) -> (r: Option<Neighbor<DynamicBoard>>)
        requires
            old(self).inv(),
        ensures
            final(self).inv(),
            final(self).board == old(self).board,
            final(self).target == old(self).target,
            ({
                let n = old(self).board.n as int;
                let e = old(self).board.empty as int;
                let rem = targets_from(n, e, old(self).idx as int);
                match r {
                    None => rem.len() == 0 && targets_from(n, e, final(self).idx as int).len() == 0,
                    Some(nb) => {
                        &&& rem.len() > 0
                        &&& old(self).good(nb, rem[0])
                        &&& targets_from(n, e, final(self).idx as int) == rem.drop_first()
                        &&& final(self).idx > old(self).idx
                    },
                }
            }),
    {
        let ghost nn = self.board.n as int;
        let ghost e0 = self.board.empty as int;
        let ghost idx0 = self.idx as int;
        proof {
            lemma_cell_row_col(nn, e0);
            lemma_side_small(nn as nat);
        }
        let n = self.board.n as i32;
        let empty = self.board.empty as i32;
        let er = empty / n;
        let ec = empty % n;
        while self.idx < 4
            invariant
                self.inv(),
                self.board == old(self).board,
                self.target == old(self).target,
                nn == self.board.n,
                e0 == self.board.empty,
                n == nn,
                empty == e0,
                er == e0 / nn,
                ec == e0 % nn,
                0 <= er < nn,
                0 <= ec < nn,
                e0 == er * nn + ec,
                nn * nn < 0x4000_0000,
                nn < 0x4000_0000,
                idx0 <= self.idx,
                idx0 == old(self).idx,
                targets_from(nn, e0, idx0) == targets_from(nn, e0, self.idx as int),
            decreases 4 - self.idx,
        {
            let (dr, dc) = self.dirs[self.idx];
            let ghost d = self.idx as int;
            self.idx += 1;
            let nr = er + dr;
            let nc = ec + dc;
            if nr < 0 || nr >= n || nc < 0 || nc >= n {
                proof {
                    assert(dir_target(nn, e0, d) is None);
                }
                continue ;
            }
            assert(0 <= nr * n + nc < nn * nn) by (nonlinear_arith)
                requires
                    0 <= nr < nn,
                    0 <= nc < nn,
                    n == nn,
            ;
            let neighbor_idx = (nr * n + nc) as usize;
            assert(dir_target(nn, e0, d) == Some(neighbor_idx as int)) by (nonlinear_arith)
                requires
                    0 <= d < 4,
                    d == 0 ==> dr == -1 && dc == 0,
                    d == 1 ==> dr == 1 && dc == 0,
                    d == 2 ==> dr == 0 && dc == -1,
                    d == 3 ==> dr == 0 && dc == 1,
                    nr == er + dr,
                    nc == ec + dc,
                    0 <= nr < nn,
                    0 <= nc < nn,
                    neighbor_idx == nr * nn + nc,
                    er == e0 / nn,
                    ec == e0 % nn,
                    e0 == er * nn + ec,
            ;
            proof {
                lemma_targets_from(nn, e0, d);
                assert(targets_from(nn, e0, d)[0] == neighbor_idx);
                assert(targets_from(nn, e0, self.idx as int) =~= targets_from(nn, e0, d).drop_first());
            }
            let tile = self.board.tiles[neighbor_idx] as usize;
            let mut new_board = self.board.copy();
            new_board.swap(self.board.empty, neighbor_idx);
            new_board.empty = neighbor_idx;
            proof {
                lemma_swap_contains(self.board.tiles@, e0, neighbor_idx as int, 0);
            }
            let total = (self.board.n * self.board.n) as usize;
            proof {
                lemma_last_pos_bound(self.target@, tile as u8);
                lemma_grid_dist_bound_in(nn, neighbor_idx as int, last_pos(self.target@, tile as u8));
                lemma_grid_dist_bound_in(nn, e0, last_pos(self.target@, tile as u8));
                lemma_manhattan_bound(nn as nat, self.board.tiles@, self.target@);
            }
            let tile_goal = self.target_pos[tile];
            let old_dist = manhattan_dist(neighbor_idx, tile_goal, self.board.n) as i32;
            let new_dist = manhattan_dist(self.board.empty, tile_goal, self.board.n) as i32;
            let delta = new_dist - old_dist;
            let new_h = (self.h_current as i32 + delta) as u32;
            let nb = Neighbor {
                board: new_board,
                is_next_box: new_h > self.h_current,
                manhattan_delta: delta,
            };
            proof {
                let rem = targets_from(nn, e0, idx0);
                assert(rem == targets_from(nn, e0, d));
                assert(rem.len() > 0);
                assert(rem[0] == neighbor_idx);
                assert(nb.board.cells() == swap_cells(self.board.tiles@, e0, neighbor_idx as int));
                assert(nb.board.blank() == neighbor_idx);
            }
            return Some(nb);
        }
        proof {
            assert(targets_from(nn, e0, self.idx as int) =~= Seq::<int>::empty());
        }
        None
    }
}

/// A side in range keeps every cell index far inside `i32`.
proof fn lemma_side_small(n: nat)
    requires
        side_in_range(n),
    ensures
        1 <= n,
        n * n < 0x4000_0000,
        n < 0x4000_0000,
{
    assert(n * n < 0x4000_0000 && n <= n * n) by (nonlinear_arith)
        requires
            1 <= n,
            2 * n * n * n < 0x7fff_ffff,
    ;
}

/// Distances between cells of the grid stay below `2n`.
proof fn lemma_grid_dist_bound_in(n: int, a: int, b: int)
    requires
        n >= 1,
        0 <= a < n * n,
        0 <= b < n * n,
    ensures
        0 <= grid_dist(a, b, n) <= 2 * (n - 1),
{
    super::grid::lemma_grid_dist_bound(a, b, n);
}

} // verus!
