//! Walking the set bits of a word, lowest first.

use vstd::prelude::*;
use vstd::std_specs::bits::u64_trailing_zeros;
use crate::bits::{lemma_lowest64, lemma_ops64, lemma_set_bits_hold64, lemma_set_bits_len64,
    lemma_set_bits_step64, ones64, set_bits64};

verus! {

/// The set bits of a word that are still to come.
#[derive(Debug, Clone, PartialEq, Eq)]
pub struct IterBits {
    pub bitboard: u64,
}

impl View for IterBits {
    type V = Seq<int>;

    /// The bits still to come, lowest first.
    open spec fn view(&self) -> Seq<int> {
        set_bits64(self.bitboard, 0)
    }
}

/// The word without bits has no set bits to list.
pub proof fn lemma_no_bits()
    ensures
        set_bits64(0, 0) == Seq::<int>::empty(),
{
    lemma_ops64(0, 0);
    lemma_set_bits_hold64(0, 0);
    if set_bits64(0, 0).len() > 0 {
        assert(set_bits64(0, 0).contains(set_bits64(0, 0)[0]));
    }
    assert(set_bits64(0, 0) =~= Seq::<int>::empty());
}

impl IterBits {
    /// The lowest bit still to come, which is taken off; `None` when no
    /// bit is left.
    pub fn next(&mut self) -> (r: Option<usize>)
        ensures
            match r {
                Some(bit) => old(self)@.len() > 0 && bit == old(self)@[0] && final(self)@ == old(
                    self,
                )@.skip(1) && bit < 64,
                None => old(self)@.len() == 0 && final(self)@ == old(self)@,
            },
    {
        if self.bitboard == 0 {
            proof {
                lemma_no_bits();
            }
            None
        } else {
            proof {
                lemma_set_bits_step64(self.bitboard);
                lemma_lowest64(self.bitboard);
            }
            let bit: u32 = self.bitboard.trailing_zeros();
            self.bitboard = self.bitboard & (self.bitboard - 1);
            assert(self@ =~= old(self)@.skip(1));
            Some(bit as usize)
        }
    }

    /// How many bits are still to come, as a lower and an upper bound.
    pub fn size_hint(&self) -> (r: (usize, Option<usize>))
        ensures
            r.0 == self@.len(),
            r.1 == Some(r.0),
    {
        proof {
            lemma_set_bits_len64(self.bitboard, 0);
            crate::bits::lemma_count_bound64(self.bitboard, 64);
        }
        let count: usize = ones64(self.bitboard) as usize;
        (count, Some(count))
    }
}

} // verus!
