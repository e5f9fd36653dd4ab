//! The Manhattan distance between two positions that hold the same tiles:
//! it is symmetric, and zero exactly when the positions are equal.
use super::grid::{lemma_cell_row_col, lemma_last_pos_bound};
use super::parity::distinct_tiles;
use super::{grid_dist, last_pos, manhattan, manhattan_prefix, tile_term};
use vstd::prelude::*;

verus! {

/// How far tile `x` is from where `t` keeps it, measured from where `c`
/// keeps it; nothing for the blank.
pub open spec fn tile_cost(n: nat, c: Seq<u8>, t: Seq<u8>, x: u8) -> int {
    if x == 0 {
        0
    } else {
        grid_dist(last_pos(c, x), last_pos(t, x), n as int)
    }
}

/// Sum of `tile_cost` over the entries of `s`.
pub open spec fn cost_sum(n: nat, c: Seq<u8>, t: Seq<u8>, s: Seq<u8>) -> int
    decreases s.len(),
{
    if s.len() == 0 {
        0
    } else {
        cost_sum(n, c, t, s.drop_last()) + tile_cost(n, c, t, s.last())
    }
}

/// With distinct tiles, the last place of a tile is its only place.
proof fn lemma_last_pos_distinct(s: Seq<u8>, i: int)
    requires
        distinct_tiles(s),
        0 <= i < s.len(),
        s[i] != 0,
    ensures
        last_pos(s, s[i]) == i,
    decreases s.len(),
{
    if s.last() != s[i] {
        lemma_last_pos_distinct(s.drop_last(), i);
    }
}

/// A value the sequence holds sits at its last place.
proof fn lemma_last_pos_holds(s: Seq<u8>, x: u8)
    requires
        s.contains(x),
    ensures
        0 <= last_pos(s, x) < s.len(),
        s[last_pos(s, x)] == x,
    decreases s.len(),
{
    if s.last() != x {
        let j = choose|j: int| 0 <= j < s.len() && s[j] == x;
        assert(s.drop_last()[j] == x);
        lemma_last_pos_holds(s.drop_last(), x);
    }
}

/// The distance over the first `k` cells of `c` is the cost of its first
/// `k` tiles.
proof fn lemma_prefix_as_costs(n: nat, c: Seq<u8>, t: Seq<u8>, k: int)
    requires
        distinct_tiles(c),
        0 <= k <= c.len(),
    ensures
        manhattan_prefix(n, c, t, k) == cost_sum(n, c, t, c.take(k)),
    decreases k,
{
    if k > 0 {
        lemma_prefix_as_costs(n, c, t, k - 1);
        assert(c.take(k).drop_last() =~= c.take(k - 1));
        if c[k - 1] != 0 {
            lemma_last_pos_distinct(c, k - 1);
        }
    }
}

/// Taking one entry out of `s` takes its cost out of the sum.
proof fn lemma_cost_sum_remove(n: nat, c: Seq<u8>, t: Seq<u8>, s: Seq<u8>, j: int)
    requires
        0 <= j < s.len(),
    ensures
        cost_sum(n, c, t, s) == cost_sum(n, c, t, s.remove(j)) + tile_cost(n, c, t, s[j]),
    decreases s.len(),
{
    if j == s.len() - 1 {
        assert(s.remove(j) =~= s.drop_last());
    } else {
        lemma_cost_sum_remove(n, c, t, s.drop_last(), j);
        assert(s.remove(j).drop_last() =~= s.drop_last().remove(j));
        assert(s.remove(j).last() == s.last());
    }
}

/// The sum depends only on which entries `s` holds, not on their order.
proof fn lemma_cost_sum_multiset(n: nat, c: Seq<u8>, t: Seq<u8>, s1: Seq<u8>, s2: Seq<u8>)
    requires
        s1.to_multiset() == s2.to_multiset(),
    ensures
        cost_sum(n, c, t, s1) == cost_sum(n, c, t, s2),
    decreases s1.len(),
{
    broadcast use vstd::multiset::group_multiset_axioms;

    vstd::seq_lib::to_multiset_len(s1);
    vstd::seq_lib::to_multiset_len(s2);
    if s1.len() > 0 {
        let x = s1.last();
        vstd::seq_lib::to_multiset_contains(s1, x);
        vstd::seq_lib::to_multiset_contains(s2, x);
        assert(s1.contains(x)) by {
            assert(s1[s1.len() - 1] == x);
        }
        let j = choose|j: int| 0 <= j < s2.len() && s2[j] == x;
        vstd::seq_lib::to_multiset_remove(s2, j);
        vstd::seq_lib::to_multiset_remove(s1, s1.len() - 1);
        assert(s1.remove(s1.len() - 1) =~= s1.drop_last());
        lemma_cost_sum_multiset(n, c, t, s1.drop_last(), s2.remove(j));
        lemma_cost_sum_remove(n, c, t, s2, j);
    }
}

/// Exchanging the two positions leaves every cost, and so the sum, unchanged.
proof fn lemma_cost_sum_swap(n: nat, c: Seq<u8>, t: Seq<u8>, s: Seq<u8>)
    ensures
        cost_sum(n, c, t, s) == cost_sum(n, t, c, s),
    decreases s.len(),
{
    if s.len() > 0 {
        lemma_cost_sum_swap(n, c, t, s.drop_last());
    }
}

/// Between two positions with distinct tiles and the same tiles, the
/// Manhattan distance is symmetric.
pub proof fn lemma_manhattan_symmetric(n: nat, c: Seq<u8>, t: Seq<u8>)
    requires
        distinct_tiles(c),
        distinct_tiles(t),
        c.to_multiset() == t.to_multiset(),
    ensures
        manhattan(n, c, t) == manhattan(n, t, c),
{
    lemma_prefix_as_costs(n, c, t, c.len() as int);
    lemma_prefix_as_costs(n, t, c, t.len() as int);
    assert(c.take(c.len() as int) =~= c);
    assert(t.take(t.len() as int) =~= t);
    lemma_cost_sum_multiset(n, c, t, c, t);
    lemma_cost_sum_swap(n, c, t, t);
}

/// Every distance term is non-negative, and a prefix sums to zero only when
/// each of its terms is zero.
proof fn lemma_prefix_zero(n: nat, c: Seq<u8>, t: Seq<u8>, k: int)
    requires
        0 <= k <= c.len(),
    ensures
        manhattan_prefix(n, c, t, k) >= 0,
        manhattan_prefix(n, c, t, k) == 0 ==> forall|i: int|
            0 <= i < k ==> #[trigger] tile_term(n, c, t, i) == 0,
    decreases k,
{
    if k > 0 {
        lemma_prefix_zero(n, c, t, k - 1);
    }
}

/// A position with distinct tiles is at distance zero from itself.
proof fn lemma_manhattan_self(n: nat, t: Seq<u8>, k: int)
    requires
        distinct_tiles(t),
        0 <= k <= t.len(),
    ensures
        manhattan_prefix(n, t, t, k) == 0,
    decreases k,
{
    if k > 0 {
        lemma_manhattan_self(n, t, k - 1);
        if t[k - 1] != 0 {
            lemma_last_pos_distinct(t, k - 1);
        }
    }
}

/// A position with distinct tiles is at Manhattan distance zero from itself.
pub proof fn lemma_manhattan_to_itself(n: nat, t: Seq<u8>)
    requires
        distinct_tiles(t),
    ensures
        manhattan(n, t, t) == 0,
{
    lemma_manhattan_self(n, t, t.len() as int);
}

/// Between two positions of side `n` with distinct tiles and the same tiles,
/// the Manhattan distance is zero exactly when the positions are equal.
pub proof fn lemma_manhattan_zero_iff_equal(n: nat, c: Seq<u8>, t: Seq<u8>)
    requires
        n >= 1,
        c.len() == n * n,
        distinct_tiles(c),
        distinct_tiles(t),
        c.to_multiset() == t.to_multiset(),
    ensures
        manhattan(n, c, t) == 0 <==> c == t,
{
    broadcast use vstd::multiset::group_multiset_axioms;

    vstd::seq_lib::to_multiset_len(c);
    vstd::seq_lib::to_multiset_len(t);
    if c == t {
        lemma_manhattan_self(n, t, t.len() as int);
    }
    if manhattan(n, c, t) == 0 {
        lemma_prefix_zero(n, c, t, c.len() as int);
        assert forall|i: int| 0 <= i < c.len() && c[i] != 0 implies t[i] == c[i] by {
            assert(tile_term(n, c, t, i) == 0);
            vstd::seq_lib::to_multiset_contains(c, c[i]);
            vstd::seq_lib::to_multiset_contains(t, c[i]);
            assert(c.contains(c[i]));
            lemma_last_pos_holds(t, c[i]);
            let p = last_pos(t, c[i]);
            lemma_cell_row_col(n as int, i);
            lemma_cell_row_col(n as int, p);
        }
        assert forall|i: int| 0 <= i < c.len() implies t[i] == c[i] by {
            if c[i] == 0 && t[i] != 0 {
                let y = t[i];
                vstd::seq_lib::to_multiset_contains(c, y);
                vstd::seq_lib::to_multiset_contains(t, y);
                assert(t.contains(y));
                let j = choose|j: int| 0 <= j < c.len() && c[j] == y;
                assert(t[j] == c[j]);
                assert(j != i);
                if i < j {
                    assert(t[i] == 0);
                } else {
                    assert(t[j] == 0);
                }
            }
        }
        assert(c =~= t);
    }
}

} // verus!
