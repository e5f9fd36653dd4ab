//! 4×4 board stored as a `u64`: the tile at index `i` lives in nibble `i`
//! (bits `4i..4i+4`).
use super::grid::{
    lemma_cell_row_col, lemma_first_zero, lemma_last_pos_bound, lemma_last_pos_push,
    lemma_manhattan_bound, lemma_manhattan_prefix_mono, lemma_targets_from,
};
use super::keymap::{u64_map_contains, u64_map_get, u64_map_insert, u64_map_new};
use super::{
    dir_target, first_zero, goal_cells, grid_dist, last_pos, manhattan, manhattan_dist,
    manhattan_prefix, move_delta, move_targets, side_in_range, swap_cells, targets_from,
    tile_term, tiles_at_most, Board, Neighbor,
};
use rustc_hash::FxHashMap;
use vstd::prelude::*;

verus! {

/// Nibble `i` of `x`.
pub open spec fn nibble(x: u64, i: int) -> u8 {
    ((x >> ((4 * i) as u64)) & 0xf) as u8
}

/// The sixteen nibbles of `x`, lowest first.
pub open spec fn nibbles(x: u64) -> Seq<u8> {
    Seq::new(16, |i: int| nibble(x, i))
}

/// `tiles[0..k]` or-ed into a word, tile `i` shifted to nibble `i`.
pub open spec fn pack_prefix(tiles: Seq<u8>, k: int) -> u64
    decreases k,
{
    if k <= 0 {
        0
    } else {
        pack_prefix(tiles, k - 1) | ((tiles[k - 1] as u64) << ((4 * (k - 1)) as u64))
    }
}

proof fn lemma_nibble_small(x: u64, s: u64)
    by (bit_vector)
    ensures
        (x >> s) & 0xf < 16,
{
}

/// Clearing nibble `i` and writing `v` there leaves the other nibbles alone.
proof fn lemma_set_nibble(x: u64, s: u64, v: u64, t: u64)
    by (bit_vector)
    requires
        s < 64,
        t < 64,
        s % 4 == 0,
        t % 4 == 0,
        v < 16,
    ensures
        (((x & !(0xf_u64 << s)) | (v << s)) >> t) & 0xf == if s == t {
            v
        } else {
            (x >> t) & 0xf
        },
{
}

/// Or-ing a small tile into an empty nibble `i` of a word whose nibbles from
/// `i` on are empty.
proof fn lemma_pack_step(x: u64, v: u64, s: u64, t: u64)
    by (bit_vector)
    requires
        s < 64,
        t < 64,
        s % 4 == 0,
        t % 4 == 0,
        v < 16,
        x >> s == 0,
    ensures
        ((x | (v << s)) >> t) & 0xf == if t == s {
            v
        } else {
            (x >> t) & 0xf
        },
        s + 4 < 64 ==> (x | (v << s)) >> (s + 4) == 0,
        t > s ==> (x >> t) & 0xf == 0,
{
}

/// A word is determined by its nibbles.
proof fn lemma_nibbles_determine(a: u64, b: u64)
    by (bit_vector)
    requires
        (a >> 0u64) & 0xf == (b >> 0u64) & 0xf,
        (a >> 4u64) & 0xf == (b >> 4u64) & 0xf,
        (a >> 8u64) & 0xf == (b >> 8u64) & 0xf,
        (a >> 12u64) & 0xf == (b >> 12u64) & 0xf,
        (a >> 16u64) & 0xf == (b >> 16u64) & 0xf,
        (a >> 20u64) & 0xf == (b >> 20u64) & 0xf,
        (a >> 24u64) & 0xf == (b >> 24u64) & 0xf,
        (a >> 28u64) & 0xf == (b >> 28u64) & 0xf,
        (a >> 32u64) & 0xf == (b >> 32u64) & 0xf,
        (a >> 36u64) & 0xf == (b >> 36u64) & 0xf,
        (a >> 40u64) & 0xf == (b >> 40u64) & 0xf,
        (a >> 44u64) & 0xf == (b >> 44u64) & 0xf,
        (a >> 48u64) & 0xf == (b >> 48u64) & 0xf,
        (a >> 52u64) & 0xf == (b >> 52u64) & 0xf,
        (a >> 56u64) & 0xf == (b >> 56u64) & 0xf,
        (a >> 60u64) & 0xf == (b >> 60u64) & 0xf,
    ensures
        a == b,
{
}

proof fn lemma_small_cast(x: u64, y: u64)
    by (bit_vector)
    requires
        x < 16,
        y < 16,
        x as u8 == y as u8,
    ensures
        x == y,
{
}

/// Every nibble is below 16.
pub proof fn lemma_nibbles_at_most(x: u64)
    ensures
        tiles_at_most(nibbles(x), 15),
{
    assert forall|i: int| 0 <= i < 16 implies #[trigger] nibbles(x)[i] <= 15 by {
        let sh = (4 * i) as u64;
        lemma_nibble_small(x, sh);
        lemma_small_u8((x >> sh) & 0xf);
    }
}

proof fn lemma_small_u8(x: u64)
    by (bit_vector)
    requires
        x < 16,
    ensures
        (x as u8) < 16,
{
}

/// Equal nibble sequences agree on nibble `i`.
proof fn lemma_nibble_eq(a: u64, b: u64, i: int)
    requires
        nibbles(a) == nibbles(b),
        0 <= i < 16,
    ensures
        (a >> ((4 * i) as u64)) & 0xf == (b >> ((4 * i) as u64)) & 0xf,
{
    assert(nibbles(a)[i] == nibbles(b)[i]);
    assert(nibbles(a)[i] == nibble(a, i));
    assert(nibbles(b)[i] == nibble(b, i));
    let sh = (4 * i) as u64;
    lemma_nibble_small(a, sh);
    lemma_nibble_small(b, sh);
    lemma_small_cast((a >> sh) & 0xf, (b >> sh) & 0xf);
}

/// Different words have different nibbles.
pub proof fn lemma_nibbles_injective(a: u64, b: u64)
    requires
        nibbles(a) == nibbles(b),
    ensures
        a == b,
{
    lemma_nibble_eq(a, b, 0);
    lemma_nibble_eq(a, b, 1);
    lemma_nibble_eq(a, b, 2);
    lemma_nibble_eq(a, b, 3);
    lemma_nibble_eq(a, b, 4);
    lemma_nibble_eq(a, b, 5);
    lemma_nibble_eq(a, b, 6);
    lemma_nibble_eq(a, b, 7);
    lemma_nibble_eq(a, b, 8);
    lemma_nibble_eq(a, b, 9);
    lemma_nibble_eq(a, b, 10);
    lemma_nibble_eq(a, b, 11);
    lemma_nibble_eq(a, b, 12);
    lemma_nibble_eq(a, b, 13);
    lemma_nibble_eq(a, b, 14);
    lemma_nibble_eq(a, b, 15);
    lemma_nibbles_determine(a, b);
}

/// Packing tiles below 16 keeps each in its own nibble.
proof fn lemma_pack_prefix(tiles: Seq<u8>, k: int)
    requires
        0 <= k <= 16,
        tiles.len() == 16,
        tiles_at_most(tiles, 15),
    ensures
        k < 16 ==> pack_prefix(tiles, k) >> ((4 * k) as u64) == 0,
        forall|j: int| 0 <= j < 16 ==> #[trigger] nibble(pack_prefix(tiles, k), j) == if j < k {
            tiles[j]
        } else {
            0u8
        },
    decreases k,
{
    if k == 0 {
        assert forall|j: int| 0 <= j < 16 implies #[trigger] nibble(0u64, j) == 0u8 by {
            lemma_zero_nibble((4 * j) as u64);
        }
        lemma_zero_shift(0u64);
    } else {
        lemma_pack_prefix(tiles, k - 1);
        let x = pack_prefix(tiles, k - 1);
        let v = tiles[k - 1] as u64;
        let sh = (4 * (k - 1)) as u64;
        assert forall|j: int| 0 <= j < 16 implies #[trigger] nibble(pack_prefix(tiles, k), j) == if j
            < k {
            tiles[j]
        } else {
            0u8
        } by {
            let tj = (4 * j) as u64;
            lemma_pack_step(x, v, sh, tj);
            assert(nibble(x, j) == if j < k - 1 {
                tiles[j]
            } else {
                0u8
            });
            if j == k - 1 {
                lemma_u8_small_roundtrip(tiles[j]);
            }
        }
        if k < 16 {
            lemma_pack_step(x, v, sh, sh);
            assert(sh + 4 == (4 * k) as u64);
        }
    }
}

proof fn lemma_zero_nibble(s: u64)
    by (bit_vector)
    ensures
        ((0u64 >> s) & 0xf) as u8 == 0u8,
{
}

proof fn lemma_zero_shift(x: u64)
    by (bit_vector)
    requires
        x == 0,
    ensures
        x >> 0u64 == 0,
{
}

proof fn lemma_u8_small_roundtrip(t: u8)
    by (bit_vector)
    requires
        t < 16,
    ensures
        ((t as u64) & 0xf) as u8 == t,
        (t as u64) < 16,
{
}

/// 4×4 board stored as a u64: tile at index i lives in nibble i (bits 4i..4i+4).
#[derive(Clone, PartialEq, Eq, Debug)]
pub struct PackedBoard {
    tiles: u64,
    empty: u8,  // index of the blank (0..16)
}

impl PackedBoard {
    #[inline]
    fn get(&self, idx: usize) -> (r: u8)
        requires
            idx < 16,
        ensures
            r == nibble(self.tiles, idx as int),
            r < 16,
    {
        proof {
            lemma_nibble_small(self.tiles, (4 * idx) as u64);
        }
        ((self.tiles >> (idx * 4)) & 0xF) as u8
    }

    #[inline]
    fn set(&mut self, idx: usize, val: u8)
        requires
            idx < 16,
            val < 16,
        ensures
            nibbles(final(self).tiles) == nibbles(old(self).tiles).update(idx as int, val),
            final(self).empty == old(self).empty,
    {
        let shift = idx * 4;
        let ghost old_tiles = self.tiles;
        self.tiles = (self.tiles & !(0xF_u64 << shift)) | ((val as u64) << shift);
        proof {
            assert forall|j: int| 0 <= j < 16 implies #[trigger] nibbles(self.tiles)[j] == nibbles(
                old_tiles,
            ).update(idx as int, val)[j] by {
                let t = (4 * j) as u64;
                lemma_set_nibble(old_tiles, shift as u64, val as u64, t);
                if j == idx {
                    lemma_u8_small_roundtrip(val);
                }
            }
            assert(nibbles(self.tiles) =~= nibbles(old_tiles).update(idx as int, val));
        }
    }

    fn swap(&mut self, a: usize, b: usize)
        requires
            a < 16,
            b < 16,
        ensures
            nibbles(final(self).tiles) == swap_cells(nibbles(old(self).tiles), a as int, b as int),
            final(self).empty == old(self).empty,
    {
        let va = self.get(a);
        let vb = self.get(b);
        self.set(a, vb);
        self.set(b, va);
    }

    /// A field-by-field copy.
    fn copy(&self) -> (r: Self)
        ensures
            r.tiles == self.tiles,
            r.empty == self.empty,
    {
        PackedBoard { tiles: self.tiles, empty: self.empty }
    }
}

impl Board for PackedBoard {
    type Key = u64;

    type KeyMap = FxHashMap<u64, u64>;

    closed spec fn side(&self) -> nat {
        4
    }

    closed spec fn cells(&self) -> Seq<u8> {
        nibbles(self.tiles)
    }

    closed spec fn blank(&self) -> nat {
        self.empty as nat
    }

    closed spec fn wf(&self) -> bool {
        self.empty < 16
    }

    open spec fn valid_side(n: nat) -> bool {
        n == 4
    }

    open spec fn accepts_tiles(n: usize, tiles: Seq<u8>) -> bool {
        n == 4 && tiles.len() == 16
    }

    open spec fn key_cells(k: &u64) -> Seq<u8> {
        nibbles(*k)
    }

    open spec fn accepts_key(k: &u64) -> bool {
        true
    }

    open spec fn accepts_cells(c: Seq<u8>) -> bool {
        true
    }

    open spec fn map_view(m: &FxHashMap<u64, u64>) -> Map<Seq<u8>, Seq<u8>> {
        Map::new(
            |c: Seq<u8>| exists|k: u64| #[trigger] m@.contains_key(k) && nibbles(k) == c,
            |c: Seq<u8>| nibbles(m@[choose|k: u64| #[trigger] m@.contains_key(k) && nibbles(k) == c]),
        )
    }

    proof fn lemma_wf(&self) {
        assert(Self::valid_side(self.side()));
        assert(Self::accepts_cells(self.cells()));
    }

    proof fn lemma_accepts_key(k: &u64) {
    }

    fn from_tiles(n: usize, tiles: &[u8]) -> (b: Self)
        ensures
            b.cells() == nibbles(pack_prefix(tiles@, 16)),
            b.blank() == last_pos(tiles@, 0),
            tiles_at_most(tiles@, 15) ==> b.cells() == tiles@,
    {
        let mut packed = 0u64;
        let mut empty = 0u8;
        for i in 0..16
            invariant
                tiles@.len() == 16,
                packed == pack_prefix(tiles@, i as int),
                empty == last_pos(tiles@.take(i as int), 0),
        {
            let t = tiles[i];
            packed = packed | ((t as u64) << (i * 4));
            proof {
                lemma_last_pos_push(tiles@.take(i as int), t, 0);
                assert(tiles@.take(i + 1) =~= tiles@.take(i as int).push(t));
                lemma_last_pos_bound(tiles@.take(i as int), 0);
            }
            if t == 0 {
                empty = i as u8;
            }
        }
        proof {
            assert(tiles@.take(16) =~= tiles@);
            lemma_last_pos_bound(tiles@, 0);
            if tiles_at_most(tiles@, 15) {
                lemma_pack_prefix(tiles@, 16);
                assert(nibbles(packed) =~= tiles@);
            }
        }
        PackedBoard { tiles: packed, empty }
    }

    fn goal(n: usize) -> (b: Self) {
        let mut tiles: Vec<u8> = Vec::new();
        for i in 1..16u8
            invariant
                tiles@.len() == i - 1,
                forall|j: int| 0 <= j < i - 1 ==> #[trigger] tiles@[j] == (j + 1) as u8,
        {
            tiles.push(i);
        }
        tiles.push(0);
        proof {
            assert(tiles@ =~= goal_cells(4));
            assert(tiles@.last() == 0);
        }
        Self::from_tiles(4, tiles.as_slice())
    }

    fn n(&self) -> usize {
        4
    }

    fn key(&self) -> u64 {
        self.tiles
    }

    fn empty_index(&self) -> usize {
        self.empty as usize
    }

    fn tile_at(&self, idx: usize) -> u8 {
        self.get(idx)
    }

    fn is_goal(&self) -> (r: bool) {
        for i in 0..15usize
            invariant
                forall|j: int| 0 <= j < i ==> nibbles(self.tiles)[j] == (j + 1) as u8,
        {
            if self.get(i) != (i + 1) as u8 {
                proof {
                    assert(nibbles(self.tiles)[i as int] != goal_cells(4)[i as int]);
                }
                return false;
            }
        }
        let last = self.get(15) == 0;
        proof {
            if last {
                assert(nibbles(self.tiles) =~= goal_cells(4));
            } else {
                assert(nibbles(self.tiles)[15] != goal_cells(4)[15]);
            }
        }
        last
    }

    fn manhattan_to(&self, target: &Self) -> (r: u32) {
        let n: usize = 4;
        let target_pos = target_positions(target);
        let mut dist = 0u32;
        for i in 0..16
            invariant
                n == 4,
                forall|j: int|
                    0 <= j < 16 ==> #[trigger] target_pos@[j] == last_pos(nibbles(target.tiles), j as u8),
                manhattan(4, nibbles(self.tiles), nibbles(target.tiles)) <= u32::MAX,
                dist == manhattan_prefix(4, nibbles(self.tiles), nibbles(target.tiles), i as int),
        {
            let t = self.get(i) as usize;
            proof {
                lemma_manhattan_prefix_mono(4, nibbles(self.tiles), nibbles(target.tiles), i + 1, 16);
            }
            if t != 0 {
                let d = manhattan_dist(i, target_pos[t], n);
                proof {
                    assert(tile_term(4, nibbles(self.tiles), nibbles(target.tiles), i as int) == grid_dist(
                        i as int,
                        target_pos@[t as int] as int,
                        4,
                    ));
                }
                dist = dist + d;
            }
        }
        dist
    }

    fn neighbors(&self, target: &Self) -> (r: Vec<Neighbor<Self>>) {
        let mut it = PackedNeighborIter::new(self, target);
        let mut out: Vec<Neighbor<Self>> = Vec::new();
        let ghost e = self.empty as int;
        proof {
            lemma_targets_from(4, e, 0);
        }
        loop
            invariant
                it.inv(),
                it.board == self,
                it.target == target,
                self.wf(),
                e == self.empty,
                out.len() + targets_from(4, e, it.idx as int).len() == move_targets(4, e).len(),
                forall|j: int|
                    0 <= j < targets_from(4, e, it.idx as int).len() ==> move_targets(4, e)[out.len()
                        + j] == #[trigger] targets_from(4, e, it.idx as int)[j],
                forall|i: int| 0 <= i < out.len() ==> it.good(#[trigger] out[i], move_targets(4, e)[i]),
            ensures
                out.len() == move_targets(4, e).len(),
                forall|i: int| 0 <= i < out.len() ==> it.good(#[trigger] out[i], move_targets(4, e)[i]),
            decreases 4 - it.idx,
        {
            let ghost before = targets_from(4, e, it.idx as int);
            let ghost len0 = out.len();
            proof {
                if before.len() > 0 {
                    assert(move_targets(4, e)[out.len() + 0] == targets_from(4, e, it.idx as int)[0]);
                }
            }
            let r = it.next();
            match r {
                Some(nb) => {
                    out.push(nb);
                    proof {
                        assert(move_targets(4, e)[len0 as int] == before[0]);
                        assert forall|j: int|
                            0 <= j < targets_from(4, e, it.idx as int).len() implies move_targets(
                            4,
                            e,
                        )[out.len() + j] == #[trigger] targets_from(4, e, it.idx as int)[j] by {
                            assert(targets_from(4, e, it.idx as int)[j] == before[j + 1]);
                        }
                    }
                },
                None => {
                    break ;
                },
            }
        }
        out
    }

    fn rebuild(key: &u64, n: usize) -> (b: Self) {
        let ghost c = nibbles(*key);
        proof {
            lemma_first_zero(c);
        }
        let mut empty = 0u8;
        for i in 0..16usize
            invariant
                c == nibbles(*key),
                first_zero(c) <= c.len(),
                c.contains(0) <==> first_zero(c) < c.len(),
                first_zero(c) < c.len() ==> c[first_zero(c) as int] == 0,
                forall|j: int| 0 <= j < first_zero(c) ==> c[j] != 0,
                i <= first_zero(c),
                empty == 0,
        {
            proof {
                lemma_nibble_small(*key, (4 * i) as u64);
            }
            if ((*key >> (i * 4)) & 0xF) == 0 {
                proof {
                    assert(c[i as int] == 0);
                }
                empty = i as u8;
                return PackedBoard { tiles: *key, empty };
            }
        }
        PackedBoard { tiles: *key, empty }
    }

    fn key_eq(a: &u64, b: &u64) -> (r: bool) {
        proof {
            if nibbles(*a) == nibbles(*b) {
                lemma_nibbles_injective(*a, *b);
            }
        }
        *a == *b
    }

    fn map_new() -> (m: FxHashMap<u64, u64>) {
        let m = u64_map_new();
        proof {
            assert(Self::map_view(&m) =~= Map::<Seq<u8>, Seq<u8>>::empty());
        }
        m
    }

    fn map_contains(m: &FxHashMap<u64, u64>, k: &u64) -> (r: bool) {
        proof {
            if Self::map_view(m).contains_key(nibbles(*k)) {
                let k2 = choose|k2: u64| #[trigger] m@.contains_key(k2) && nibbles(k2) == nibbles(*k);
                lemma_nibbles_injective(k2, *k);
            }
        }
        u64_map_contains(m, *k)
    }

    fn map_get(m: &FxHashMap<u64, u64>, k: &u64) -> (r: u64) {
        proof {
            let k2 = choose|k2: u64| #[trigger] m@.contains_key(k2) && nibbles(k2) == nibbles(*k);
            lemma_nibbles_injective(k2, *k);
        }
        u64_map_get(m, *k)
    }

    fn map_insert(m: &mut FxHashMap<u64, u64>, k: u64, v: u64) {
        let ghost before = *m;
        u64_map_insert(m, k, v);
        proof {
            let old_view = Self::map_view(&before);
            let new_view = Self::map_view(m);
            let want = old_view.insert(nibbles(k), nibbles(v));
            assert forall|c: Seq<u8>| #[trigger] new_view.contains_key(c) <==> want.contains_key(c) by {
                if new_view.contains_key(c) {
                    let k2 = choose|k2: u64| #[trigger] m@.contains_key(k2) && nibbles(k2) == c;
                    if k2 != k {
                        assert(before@.contains_key(k2));
                    }
                }
                if want.contains_key(c) && c != nibbles(k) {
                    let k2 = choose|k2: u64| #[trigger] before@.contains_key(k2) && nibbles(k2) == c;
                    assert(m@.contains_key(k2));
                }
                if c == nibbles(k) {
                    assert(m@.contains_key(k));
                }
            }
            assert forall|c: Seq<u8>| #[trigger] new_view.contains_key(c) implies new_view[c] == want[c] by {
                let k2 = choose|k2: u64| #[trigger] m@.contains_key(k2) && nibbles(k2) == c;
                if c == nibbles(k) {
                    lemma_nibbles_injective(k2, k);
                } else {
                    let k3 = choose|k3: u64| #[trigger] before@.contains_key(k3) && nibbles(k3) == c;
                    lemma_nibbles_injective(k2, k3);
                    assert(k2 != k);
                }
            }
            assert(new_view =~= want);
        }
    }
}

/// Where each tile value sits in `target`: the last index holding it (or 0).
fn target_positions(target: &PackedBoard) -> (pos: [usize; 16])
    ensures
        forall|j: int| 0 <= j < 16 ==> #[trigger] pos@[j] == last_pos(nibbles(target.tiles), j as u8),
{
    let mut target_pos = [0usize; 16];
    for i in 0..16
        invariant
            forall|j: int|
                0 <= j < 16 ==> #[trigger] target_pos@[j] == last_pos(
                    nibbles(target.tiles).take(i as int),
                    j as u8,
                ),
    {
        let t = target.get(i) as usize;
        proof {
            let c = nibbles(target.tiles);
            assert(c.take(i + 1) =~= c.take(i as int).push(c[i as int]));
            assert forall|j: int| 0 <= j < 16 implies #[trigger] last_pos(c.take(i + 1), j as u8) == (
            if c[i as int] == j as u8 {
                i as int
            } else {
                last_pos(c.take(i as int), j as u8)
            }) by {
                lemma_last_pos_push(c.take(i as int), c[i as int], j as u8);
            }
        }
        target_pos[t] = i;
    }
    proof {
        assert(nibbles(target.tiles).take(16) =~= nibbles(target.tiles));
    }
    target_pos
}

/// Yields the neighbours of `board` one direction at a time.
struct PackedNeighborIter<'a> {
    board: &'a PackedBoard,
    #[allow(dead_code)]
    target: &'a PackedBoard,
    /// goal-position lookup: goal_pos[tile] = index in goal
    target_pos: [usize; 16],
    /// current h of board against target
    h_current: u32,
    dirs: [(i32, i32); 4],
    idx: usize,
}

impl<'a> PackedNeighborIter<'a> {
    spec fn inv(&self) -> bool {
        &&& self.board.wf()
        &&& self.target.wf()
        &&& forall|j: int|
            0 <= j < 16 ==> #[trigger] self.target_pos@[j] == last_pos(nibbles(self.target.tiles), j as u8)
        &&& self.h_current == manhattan(4, nibbles(self.board.tiles), nibbles(self.target.tiles))
        &&& self.dirs@ == seq![(-1i32, 0i32), (1i32, 0i32), (0i32, -1i32), (0i32, 1i32)]
        &&& self.idx <= 4
    }

    /// `nb` is the neighbour reached by moving the blank to `t`.
    spec fn good(&self, nb: Neighbor<PackedBoard>, t: int) -> bool {
        let cells = nibbles(self.board.tiles);
        let target = nibbles(self.target.tiles);
        let e = self.board.empty as int;
        let d = move_delta(4, cells, target, e, t);
        let h = manhattan(4, cells, target);
        &&& nb.board.wf()
        &&& nb.board.side() == 4
        &&& nb.board.cells() == swap_cells(cells, e, t)
        &&& nb.board.blank() == t
        &&& nb.manhattan_delta == d
        &&& nb.is_next_box == ((h + d) as u32 > h)
    }

    fn new(board: &'a PackedBoard, target: &'a PackedBoard) -> (it: Self)
        requires
            board.wf(),
            target.wf(),
        ensures
            it.inv(),
            it.board == board,
            it.target == target,
            it.idx == 0,
    {
        let target_pos = target_positions(target);
        proof {
            lemma_manhattan_bound(4, nibbles(board.tiles), nibbles(target.tiles));
        }
        proof {
            lemma_nibbles_at_most(board.tiles);
            lemma_nibbles_at_most(target.tiles);
        }
        let h_current = board.manhattan_to(target);
        PackedNeighborIter {
            board,
            target,
            target_pos,
            h_current,
            dirs: [(-1, 0), (1, 0), (0, -1), (0, 1)],
            idx: 0,
        }
    }

    #[verifier::rlimit(40)]
    #[verifier::spinoff_prover]
    fn next(&mut self) -> (r: Option<Neighbor<PackedBoard>>)
        requires
            old(self).inv(),
        ensures
            final(self).inv(),
            final(self).board == old(self).board,
            final(self).target == old(self).target,
            ({
                let e = old(self).board.empty as int;
                let rem = targets_from(4, e, old(self).idx as int);
                match r {
                    None => rem.len() == 0 && targets_from(4, e, final(self).idx as int).len() == 0,
                    Some(nb) => {
                        &&& rem.len() > 0
                        &&& old(self).good(nb, rem[0])
                        &&& targets_from(4, e, final(self).idx as int) == rem.drop_first()
                        &&& final(self).idx > old(self).idx
                    },
                }
            }),
    {
        let ghost e0 = self.board.empty as int;
        let ghost idx0 = self.idx as int;
        proof {
            lemma_cell_row_col(4, e0);
        }
        let n = 4i32;
        let empty = self.board.empty as i32;
        let er = empty / n;
        let ec = empty % n;
        while self.idx < 4
            invariant
                self.inv(),
                self.board == old(self).board,
                self.target == old(self).target,
                e0 == self.board.empty,
                n == 4,
                empty == e0,
                er == e0 / 4,
                ec == e0 % 4,
                0 <= er < 4,
                0 <= ec < 4,
                e0 == er * 4 + ec,
                idx0 <= self.idx,
                idx0 == old(self).idx,
                targets_from(4, e0, idx0) == targets_from(4, e0, self.idx as int),
            decreases 4 - self.idx,
        {
            let (dr, dc) = self.dirs[self.idx];
            let ghost d = self.idx as int;
            self.idx += 1;
            let nr = er + dr;
            let nc = ec + dc;
            if nr < 0 || nr >= n || nc < 0 || nc >= n {
                proof {
                    assert(dir_target(4, e0, d) is None);
                }
                continue ;
            }
            let neighbor_idx = (nr * n + nc) as usize;
            assert(dir_target(4, e0, d) == Some(neighbor_idx as int)) by (nonlinear_arith)
                requires
                    0 <= d < 4,
                    d == 0 ==> dr == -1 && dc == 0,
                    d == 1 ==> dr == 1 && dc == 0,
                    d == 2 ==> dr == 0 && dc == -1,
                    d == 3 ==> dr == 0 && dc == 1,
                    nr == er + dr,
                    nc == ec + dc,
                    0 <= nr < 4,
                    0 <= nc < 4,
                    neighbor_idx == nr * 4 + nc,
                    er == e0 / 4,
                    ec == e0 % 4,
                    e0 == er * 4 + ec,
            ;
            proof {
                lemma_targets_from(4, e0, d);
                assert(targets_from(4, e0, d)[0] == neighbor_idx);
                assert(targets_from(4, e0, self.idx as int) =~= targets_from(4, e0, d).drop_first());
            }
            let tile = self.board.get(neighbor_idx);
            let mut new_board = self.board.copy();
            new_board.swap(self.board.empty as usize, neighbor_idx);
            new_board.empty = neighbor_idx as u8;
            proof {
                lemma_last_pos_bound(nibbles(self.target.tiles), tile);
                super::grid::lemma_grid_dist_bound(
                    neighbor_idx as int,
                    last_pos(nibbles(self.target.tiles), tile),
                    4,
                );
                super::grid::lemma_grid_dist_bound(e0, last_pos(nibbles(self.target.tiles), tile), 4);
                lemma_manhattan_bound(4, nibbles(self.board.tiles), nibbles(self.target.tiles));
            }
            // Compute Manhattan delta for the moved tile
            // tile moved from neighbor_idx to old empty position
            let tile_goal = self.target_pos[tile as usize];
            let old_dist = manhattan_dist(neighbor_idx, tile_goal, 4) as i32;
            let new_dist = manhattan_dist(self.board.empty as usize, tile_goal, 4) as i32;
            let delta = new_dist - old_dist;
            let new_h = (self.h_current as i32 + delta) as u32;
            let nb = Neighbor {
                board: new_board,
                is_next_box: new_h > self.h_current,
                manhattan_delta: delta,
            };
            proof {
                let rem = targets_from(4, e0, idx0);
                assert(rem == targets_from(4, e0, d));
                assert(rem[0] == neighbor_idx);
            }
            return Some(nb);
        }
        proof {
            assert(targets_from(4, e0, self.idx as int) =~= Seq::<int>::empty());
        }
        None
    }
}

} // verus!

