//! Board representations and the operations the solvers share.
//!
//! A board of side `n` is modelled by its `n*n` cells (row-major, `0` is the
//! blank) together with the index of the blank.  Every board type exposes
//! this model through the `Board` trait, and the solvers reason only about it.
pub mod distance;
pub mod dynamic;
pub mod grid;
pub mod keymap;
pub mod packed;
pub mod parity;
pub mod properties;
pub mod solvability;
pub mod space;

pub use dynamic::DynamicBoard;
pub use packed::PackedBoard;

use crate::inversions;
use crate::inversions::inversions;
use vstd::prelude::*;

verus! {

/// Absolute difference of two integers.
pub open spec fn abs_diff(a: int, b: int) -> int {
    if a >= b {
        a - b
    } else {
        b - a
    }
}

/// Manhattan distance between cells `from` and `to` of a grid with `n` columns.
pub open spec fn grid_dist(from: int, to: int, n: int) -> int {
    abs_diff(from / n, to / n) + abs_diff(from % n, to % n)
}

/// The cell reached from cell `e` of an `n`×`n` grid in direction `d`
/// (0 up, 1 down, 2 left, 3 right), if it lies inside the grid.
pub open spec fn dir_target(n: int, e: int, d: int) -> Option<int> {
    let r = e / n;
    let c = e % n;
    if d == 0 {
        if r > 0 { Some(e - n) } else { None }
    } else if d == 1 {
        if r + 1 < n { Some(e + n) } else { None }
    } else if d == 2 {
        if c > 0 { Some(e - 1) } else { None }
    } else {
        if c + 1 < n { Some(e + 1) } else { None }
    }
}

/// The in-grid cells reached from `e` in directions `d`, `d+1`, ..., 3, in that order.
pub open spec fn targets_from(n: int, e: int, d: int) -> Seq<int>
    decreases 4 - d,
{
    if d >= 4 || d < 0 {
        Seq::empty()
    } else {
        match dir_target(n, e, d) {
            Some(t) => seq![t] + targets_from(n, e, d + 1),
            None => targets_from(n, e, d + 1),
        }
    }
}

/// The cells the blank at `e` can move to: up, down, left, right, as far as they exist.
pub open spec fn move_targets(n: int, e: int) -> Seq<int> {
    targets_from(n, e, 0)
}

/// `s` with the entries at `a` and `b` exchanged.
pub open spec fn swap_cells(s: Seq<u8>, a: int, b: int) -> Seq<u8> {
    s.update(a, s[b]).update(b, s[a])
}

/// Index of the first `0` in `s`, or `s.len()` when there is none.
pub open spec fn first_zero(s: Seq<u8>) -> nat
    decreases s.len(),
{
    if s.len() == 0 {
        0
    } else if s[0] == 0 {
        0
    } else {
        1 + first_zero(s.drop_first())
    }
}

/// Index of the last occurrence of `t` in `s`, or `0` when there is none.
pub open spec fn last_pos(s: Seq<u8>, t: u8) -> int
    decreases s.len(),
{
    if s.len() == 0 {
        0
    } else if s.last() == t {
        s.len() - 1
    } else {
        last_pos(s.drop_last(), t)
    }
}

/// The solved layout of side `n`: `1, 2, ..., n*n - 1` (as bytes), then the blank.
pub open spec fn goal_cells(n: nat) -> Seq<u8> {
    Seq::new(n * n, |i: int| if i < n * n - 1 { (i + 1) as u8 } else { 0u8 })
}

/// The shape every board value keeps: a positive side, `side * side` cells,
/// and a blank index inside the grid.
pub open spec fn board_shape(side: nat, cells: Seq<u8>, blank: nat) -> bool {
    &&& side >= 1
    &&& cells.len() == side * side
    &&& blank < cells.len()
}

/// A puzzle position: the blank index holds the only `0` of the cells.
pub open spec fn single_blank(cells: Seq<u8>, blank: nat) -> bool {
    &&& blank < cells.len()
    &&& cells[blank as int] == 0
    &&& forall|i: int| 0 <= i < cells.len() && cells[i] == 0 ==> i == blank
}

/// Every cell of `s` is at most `bound`.
pub open spec fn tiles_at_most(s: Seq<u8>, bound: int) -> bool {
    forall|i: int| 0 <= i < s.len() ==> s[i] <= bound
}

/// Sides for which every distance, sum and difference the heuristic forms
/// stays far inside `i32`.
pub open spec fn side_in_range(n: nat) -> bool {
    1 <= n && 2 * n * n * n < i32::MAX
}

/// The distance term of cell `i`: how far its tile is from where `target` keeps it.
pub open spec fn tile_term(n: nat, cells: Seq<u8>, target: Seq<u8>, i: int) -> int {
    if cells[i] == 0 {
        0
    } else {
        grid_dist(i, last_pos(target, cells[i]), n as int)
    }
}

/// Sum of the distance terms of cells `0..k`.
pub open spec fn manhattan_prefix(n: nat, cells: Seq<u8>, target: Seq<u8>, k: int) -> int
    decreases k,
{
    if k <= 0 {
        0
    } else {
        manhattan_prefix(n, cells, target, k - 1) + tile_term(n, cells, target, k - 1)
    }
}

/// Manhattan distance of a position to `target`: every non-blank tile's
/// distance to the (last) cell that holds the same tile in `target`.
pub open spec fn manhattan(n: nat, cells: Seq<u8>, target: Seq<u8>) -> int {
    manhattan_prefix(n, cells, target, cells.len() as int)
}

/// Change of the heuristic when the blank at `e` moves to `t`: the moved
/// tile's new distance minus its old one.
pub open spec fn move_delta(n: nat, cells: Seq<u8>, target: Seq<u8>, e: int, t: int) -> int {
    let p = last_pos(target, cells[t]);
    grid_dist(e, p, n as int) - grid_dist(t, p, n as int)
}

/// The positions one move away from `cells` (blank at its first zero), in
/// direction order.
pub open spec fn moves_of(n: nat, cells: Seq<u8>) -> Seq<Seq<u8>> {
    let e = first_zero(cells) as int;
    move_targets(n as int, e).map_values(|t: int| swap_cells(cells, e, t))
}

/// `b` is one move away from `a`.
pub open spec fn one_move(n: nat, a: Seq<u8>, b: Seq<u8>) -> bool {
    moves_of(n, a).contains(b)
}

/// `p` is a sequence of positions, each one move away from the previous.
pub open spec fn is_walk(n: nat, p: Seq<Seq<u8>>) -> bool {
    &&& p.len() >= 1
    &&& forall|i: int| 0 <= i < p.len() - 1 ==> one_move(n, #[trigger] p[i], p[i + 1])
}

/// Position `b` can be reached from `a` by moves.
pub open spec fn reachable(n: nat, a: Seq<u8>, b: Seq<u8>) -> bool {
    exists|p: Seq<Seq<u8>>| is_walk(n, p) && p[0] == a && p.last() == b
}

/// The non-blank tiles of `s`, in order.
pub open spec fn nonzero_tiles(s: Seq<u8>) -> Seq<u8>
    decreases s.len(),
{
    if s.len() == 0 {
        Seq::empty()
    } else if s.last() == 0 {
        nonzero_tiles(s.drop_last())
    } else {
        nonzero_tiles(s.drop_last()).push(s.last())
    }
}

/// Row of the blank counted from the bottom, starting at 1.
pub open spec fn blank_row_from_bottom(n: nat, blank: nat) -> int {
    n - blank as int / n as int
}

/// The parity rule for solvability: with an odd number of cells the
/// inversions of the tiles must be even; with an even number, inversions plus
/// the blank's row from the bottom must be odd.
pub open spec fn solvable(n: nat, cells: Seq<u8>, blank: nat) -> bool {
    let inv = inversions(nonzero_tiles(cells));
    if (n * n) % 2 == 1 {
        inv % 2 == 0
    } else {
        (inv + blank_row_from_bottom(n, blank)) % 2 == 1
    }
}

/// The counts the solvability check adds up fit in `u32`.
pub open spec fn solvable_in_range(n: nat, cells: Seq<u8>, blank: nat) -> bool {
    let inv = inversions(nonzero_tiles(cells));
    &&& inv <= u32::MAX
    &&& (n * n) % 2 == 0 ==> inv + blank_row_from_bottom(n, blank) <= u32::MAX
}

/// A neighbouring board produced by one move of the blank.
pub struct Neighbor<B> {
    pub board: B,
    /// true when the moved tile's Manhattan distance to goal increased
    pub is_next_box: bool,
    /// h_new - h_old against the supplied target
    pub manhattan_delta: i32,
}


/// A sliding-tile board. Both solvers are written once against this trait.
///
/// Besides the board operations, each board type supplies the visited map the
/// solvers keep (child key to parent key): the map and its operations are
/// specified over cell sequences, so the solvers can reason about them for
/// either key type.
pub trait Board: Sized + Clone + Eq {
    /// Canonical encoding of a board's cells, used as the visited-map key.
    type Key;

    /// Map from a board's key to its parent's key.
    type KeyMap;

    /// Side length of the grid.
    spec fn side(&self) -> nat;

    /// The cells, row-major; `0` is the blank.
    spec fn cells(&self) -> Seq<u8>;

    /// Index of the blank.
    spec fn blank(&self) -> nat;

    /// Internal consistency of a board value.
    spec fn wf(&self) -> bool;

    /// The sides this board type handles.
    spec fn valid_side(n: nat) -> bool;

    /// The tiles `from_tiles` accepts for side `n`.
    spec fn accepts_tiles(n: usize, tiles: Seq<u8>) -> bool;

    /// The cells a key encodes.
    spec fn key_cells(k: &Self::Key) -> Seq<u8>;

    /// The keys `rebuild` accepts.
    spec fn accepts_key(k: &Self::Key) -> bool;

    /// The cells a board of this type can hold.
    spec fn accepts_cells(c: Seq<u8>) -> bool;

    /// The contents of a visited map, by cells.
    spec fn map_view(m: &Self::KeyMap) -> Map<Seq<u8>, Seq<u8>>;

    /// A well-formed board has the board shape and a supported side.
    proof fn lemma_wf(&self)
        requires
            self.wf(),
        ensures
            board_shape(self.side(), self.cells(), self.blank()),
            Self::valid_side(self.side()),
            self.side() * self.side() < usize::MAX,
            Self::accepts_cells(self.cells()),
    ;

    /// The key of any cells a board can hold can be rebuilt.
    proof fn lemma_accepts_key(k: &Self::Key)
        requires
            Self::accepts_cells(Self::key_cells(k)),
        ensures
            Self::accepts_key(k),
    ;

    /// Builds a board of side `n` from its tiles, row-major.
    fn from_tiles(n: usize, tiles: &[u8]) -> (b: Self)
        requires
            Self::accepts_tiles(n, tiles@),
        ensures
            b.wf(),
            b.side() == n,
    ;

    /// The solved board of side `n`.
    fn goal(n: usize) -> (b: Self)
        requires
            Self::valid_side(n as nat),
        ensures
            b.wf(),
            b.side() == n,
            b.cells() == goal_cells(n as nat),
            b.blank() == n * n - 1,
    ;

    /// Side length.
    fn n(&self) -> (r: usize)
        requires
            self.wf(),
        ensures
            r == self.side(),
    ;

    /// The board's visited-map key.
    fn key(&self) -> (k: Self::Key)
        requires
            self.wf(),
        ensures
            Self::key_cells(&k) == self.cells(),
    ;

    /// Index of the blank.
    fn empty_index(&self) -> (r: usize)
        requires
            self.wf(),
        ensures
            r == self.blank(),
    ;

    /// The tile at cell `idx`.
    fn tile_at(&self, idx: usize) -> (r: u8)
        requires
            self.wf(),
            idx < self.cells().len(),
        ensures
            r == self.cells()[idx as int],
    ;

    /// Whether the board is the solved layout.
    fn is_goal(&self) -> (r: bool)
        requires
            self.wf(),
        ensures
            r == (self.cells() == goal_cells(self.side())),
    ;

    /// Whether the board satisfies the parity rule for solvability, which on
    /// a puzzle position holds exactly when the solved layout can be reached
    /// (`solvability::lemma_solvable_iff_reachable`).
    fn is_solvable(&self) -> (r: bool)
        requires
            self.wf(),
            solvable_in_range(self.side(), self.cells(), self.blank()),
        ensures
            r == solvable(self.side(), self.cells(), self.blank()),
    {
        proof {
            self.lemma_wf();
        }
        let n = self.n();
        let total = n * n;
        let mut tiles: Vec<u8> = Vec::new();
        for i in 0..total
            invariant
                self.wf(),
                n == self.side(),
                total == n * n,
                total == self.cells().len(),
                tiles@ == nonzero_tiles(self.cells().take(i as int)),
                forall|k: int| 0 <= k < tiles@.len() ==> tiles@[k] != 0,
        {
            let t = self.tile_at(i);
            proof {
                assert(self.cells().take(i + 1).drop_last() =~= self.cells().take(i as int));
            }
            if t != 0 {
                tiles.push(t);
            }
        }
        proof {
            assert(self.cells().take(total as int) =~= self.cells());
            inversions::lemma_nonzero_tiles_of_zero_free(tiles@);
        }
        let inv = inversions::count(tiles.as_mut_slice());
        let empty_idx = self.empty_index();
        proof {
            assert(empty_idx / n < n) by (nonlinear_arith)
                requires
                    empty_idx < n * n,
                    n >= 1,
            ;
            assert(n <= u32::MAX) by (nonlinear_arith)
                requires
                    n * n < usize::MAX,
                    usize::MAX <= u64::MAX,
            ;
            assert(total & 1 == total % 2) by (bit_vector);
        }
        let empty_row_from_bottom = n - (empty_idx / n);
        if (total & 1) == 1 {
            inv % 2 == 0
        } else {
            (inv + empty_row_from_bottom as u32) % 2 == 1
        }
    }

    /// Manhattan distance from this board to `target`.
    fn manhattan_to(&self, target: &Self) -> (r: u32)
        requires
            self.wf(),
            target.wf(),
            target.side() == self.side(),
            tiles_at_most(self.cells(), self.cells().len() as int),
            tiles_at_most(target.cells(), target.cells().len() as int),
            manhattan(self.side(), self.cells(), target.cells()) <= u32::MAX,
        ensures
            r == manhattan(self.side(), self.cells(), target.cells()),
    ;

    /// The boards one move away, in the order up, down, left, right.  Each
    /// reports the signed change of the Manhattan distance to `target`, and
    /// whether that distance went up.
    fn neighbors(&self, target: &Self) -> (r: Vec<Neighbor<Self>>)
        requires
            self.wf(),
            target.wf(),
            target.side() == self.side(),
            side_in_range(self.side()),
            tiles_at_most(self.cells(), self.cells().len() as int),
            tiles_at_most(target.cells(), target.cells().len() as int),
        ensures
            r.len() == move_targets(self.side() as int, self.blank() as int).len(),
            forall|i: int|
                #![trigger r[i]]
                0 <= i < r.len() ==> {
                    let t = move_targets(self.side() as int, self.blank() as int)[i];
                    let d = move_delta(
                        self.side(),
                        self.cells(),
                        target.cells(),
                        self.blank() as int,
                        t,
                    );
                    let h = manhattan(self.side(), self.cells(), target.cells());
                    &&& r[i].board.wf()
                    &&& r[i].board.side() == self.side()
                    &&& r[i].board.cells() == swap_cells(self.cells(), self.blank() as int, t)
                    &&& r[i].board.blank() == t
                    &&& r[i].manhattan_delta == d
                    &&& r[i].is_next_box == ((h + d) as u32 > h)
                },
    ;

    /// Rebuilds a board from its key; the blank is the first `0` of the key.
    fn rebuild(key: &Self::Key, n: usize) -> (b: Self)
        requires
            Self::accepts_key(key),
        ensures
            b.cells() == Self::key_cells(key),
            b.blank() == (if Self::key_cells(key).contains(0) {
                first_zero(Self::key_cells(key))
            } else {
                0
            }),
            Self::valid_side(n as nat) && Self::key_cells(key).len() == n * n ==> b.wf() && b.side()
                == n,
    ;

    /// Whether two keys encode the same cells.
    fn key_eq(a: &Self::Key, b: &Self::Key) -> (r: bool)
        ensures
            r == (Self::key_cells(a) == Self::key_cells(b)),
    ;

    /// An empty visited map.
    fn map_new() -> (m: Self::KeyMap)
        ensures
            Self::map_view(&m) == Map::<Seq<u8>, Seq<u8>>::empty(),
    ;

    /// Whether the map holds `k`.
    fn map_contains(m: &Self::KeyMap, k: &Self::Key) -> (r: bool)
        ensures
            r == Self::map_view(m).contains_key(Self::key_cells(k)),
    ;

    /// The parent key stored for `k`.
    fn map_get(m: &Self::KeyMap, k: &Self::Key) -> (r: Self::Key)
        requires
            Self::map_view(m).contains_key(Self::key_cells(k)),
        ensures
            Self::key_cells(&r) == Self::map_view(m)[Self::key_cells(k)],
    ;

    /// Stores `v` as the parent of `k`.
    fn map_insert(m: &mut Self::KeyMap, k: Self::Key, v: Self::Key)
        ensures
            Self::map_view(final(m)) == Self::map_view(old(m)).insert(
                Self::key_cells(&k),
                Self::key_cells(&v),
            ),
    ;
}

proof fn lemma_row_col_sum_fits(q: int, r: int, n: int, max: int)
    by (nonlinear_arith)
    requires
        n >= 1,
        q * n <= max,
        0 <= q,
        0 <= r < n,
        n <= max,
    ensures
        q + r <= max,
{
    if q >= 1 {
        assert((q - 1) * (n - 1) >= 0);
    }
}

/// Compute Manhattan distance of a single tile from position `from` to `to` on an n×n grid.
pub fn manhattan_dist(from: usize, to: usize, n: usize) -> (d: u32)
    requires
        n > 0,
    ensures
        d == grid_dist(from as int, to as int, n as int) as u32,
{
    let r1 = from / n;
    let c1 = from % n;
    let r2 = to / n;
    let c2 = to % n;
    let dr = if r1 >= r2 { r1 - r2 } else { r2 - r1 };
    let dc = if c1 >= c2 { c1 - c2 } else { c2 - c1 };
    proof {
        let big: int = if r1 >= r2 { r1 as int } else { r2 as int };
        let src: int = if r1 >= r2 { from as int } else { to as int };
        assert(big * n <= src) by (nonlinear_arith)
            requires
                big == src / (n as int),
                n > 0,
                src >= 0,
        ;
        assert(dr * n <= big * n) by (nonlinear_arith)
            requires
                0 <= dr <= big,
                n > 0,
        ;
        lemma_row_col_sum_fits(dr as int, dc as int, n as int, usize::MAX as int);
    }
    #[verifier::truncate]
    ((dr + dc) as u32)
}

} // verus!
