//! The finite space of cell sequences of a given length; the solvers'
//! termination arguments measure how much of it is still unvisited.
use vstd::prelude::*;

verus! {

/// Every byte sequence of length `len`, listed.
pub open spec fn all_seqs(len: nat) -> Seq<Seq<u8>>
    decreases len,
{
    if len == 0 {
        seq![Seq::<u8>::empty()]
    } else {
        let prev = all_seqs((len - 1) as nat);
        Seq::new(prev.len() * 256, |i: int| prev[i / 256].push((i % 256) as u8))
    }
}

/// All cell sequences of length `len`.
pub open spec fn cell_space(len: nat) -> Set<Seq<u8>> {
    Set::new(|s: Seq<u8>| s.len() == len)
}

proof fn lemma_all_seqs_contains(s: Seq<u8>)
    ensures
        all_seqs(s.len()).contains(s),
    decreases s.len(),
{
    if s.len() == 0 {
        assert(all_seqs(0)[0] =~= s);
    } else {
        let len = s.len();
        let p = s.drop_last();
        lemma_all_seqs_contains(p);
        let prev = all_seqs((len - 1) as nat);
        assert(p.len() == len - 1);
        let j = choose|j: int| 0 <= j < prev.len() && prev[j] == p;
        let x = s.last();
        let i = j * 256 + x as int;
        assert(i / 256 == j && i % 256 == x as int) by (nonlinear_arith)
            requires
                i == j * 256 + x as int,
                0 <= x < 256,
                0 <= j,
        ;
        assert(0 <= i < prev.len() * 256) by (nonlinear_arith)
            requires
                i == j * 256 + x as int,
                0 <= x < 256,
                0 <= j < prev.len(),
        ;
        let all = all_seqs(len);
        assert(all[i] == prev[j].push(x));
        assert(prev[j].push(x) =~= s);
    }
}

/// The space of cell sequences of one length is finite.
pub proof fn lemma_cell_space_finite(len: nat)
    ensures
        cell_space(len).finite(),
{
    let all = all_seqs(len).to_set();
    assert forall|s: Seq<u8>| cell_space(len).contains(s) implies all.contains(s) by {
        lemma_all_seqs_contains(s);
    }
    vstd::seq_lib::seq_to_set_is_finite(all_seqs(len));
    vstd::set_lib::lemma_set_subset_finite(all, cell_space(len));
}

} // verus!
