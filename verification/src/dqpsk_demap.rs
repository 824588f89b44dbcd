//! Frequency deinterleaving of differentially demodulated symbols.

use vstd::prelude::*;
use crate::carriers::{bin_of, carrier_bin};
use crate::freq_interleaver::{law_permutation_is_a_bijection, permutation, FreqInterleaver};

verus! {

/// The soft bits of a symbol in logical order: the I bits of all carriers, then
/// the Q bits.
pub open spec fn demapped(bins: Seq<(i16, i16)>) -> Seq<i16> {
    Seq::new(
        3072,
        |i: int|
            if i < 1536 {
                bins[bin_of(permutation(2048)[i] as int)].0
            } else {
                bins[bin_of(permutation(2048)[i - 1536] as int)].1
            },
    )
}

/// Deinterleaver for the symbols of mode I.
pub struct DqpskDemap {
    interleaver: FreqInterleaver,
}

impl DqpskDemap {
    pub closed spec fn wf(&self) -> bool {
        self.interleaver.wf()
    }

    /// Mode I.
    pub fn mode_i() -> (d: Self)
        ensures
            d.wf(),
    {
        DqpskDemap { interleaver: FreqInterleaver::mode_i() }
    }

    /// Soft bits per symbol.
    pub fn out_size(&self) -> (n: usize)
        ensures
            n == 3072,
    {
        3072
    }

    /// Brings the soft I and Q values of the bins into logical order.
    pub fn demap(&self, bins: &[(i16, i16)]) -> (bits: Vec<i16>)
        requires
            self.wf(),
            bins@.len() == 2048,
        ensures
            bits@ == demapped(bins@),
    {
        let mut bits: Vec<i16> = Vec::new();
        let mut i: usize = 0;
        while i < 3072
            invariant
                self.wf(),
                bins@.len() == 2048,
                i <= 3072,
                bits@.len() == i,
                forall|j: int| 0 <= j < i ==> #[trigger] bits@[j] == demapped(bins@)[j],
            decreases 3072 - i,
        {
            if i < 1536 {
                let bin: usize = carrier_bin(self.interleaver.map_in(i) as i32);
                bits.push(bins[bin].0);
            } else {
                let bin: usize = carrier_bin(self.interleaver.map_in(i - 1536) as i32);
                bits.push(bins[bin].1);
            }
            i += 1;
        }
        assert(bits@ =~= demapped(bins@));
        bits
    }
}

/// No two logical indices read the same bin.
pub proof fn law_demapping_reads_each_bin_once(i: int, j: int)
    requires
        0 <= i < j < 1536,
    ensures
        0 < bin_of(permutation(2048)[i] as int) < 2048,
        bin_of(permutation(2048)[i] as int) != bin_of(permutation(2048)[j] as int),
{
    law_permutation_is_a_bijection();
    assert(permutation(2048)[i] != permutation(2048)[j]);
    crate::carriers::law_bins_are_distinct(
        permutation(2048)[i] as int,
        permutation(2048)[j] as int,
    );
}

/// The I and the Q soft bit of a carrier stand 1536 places apart, at the carrier's
/// place in the permutation and behind it.
pub proof fn law_i_and_q_of_a_carrier(bins: Seq<(i16, i16)>, i: int)
    requires
        bins.len() == 2048,
        0 <= i < 1536,
    ensures
        ({
            let pair = bins[bin_of(permutation(2048)[i] as int)];
            &&& demapped(bins).len() == 3072
            &&& demapped(bins)[i] == pair.0
            &&& demapped(bins)[i + 1536] == pair.1
        }),
{
}

/// Demapping undoes mapping: soft bits that were put on the carriers in the order of
/// the permutation come back in their own order.
pub proof fn law_demapping_undoes_mapping(bits: Seq<i16>, bins: Seq<(i16, i16)>)
    requires
        bits.len() == 3072,
        bins.len() == 2048,
        forall|i: int|
            0 <= i < 1536 ==> bins[bin_of(#[trigger] permutation(2048)[i] as int)] == (
                bits[i],
                bits[i + 1536],
            ),
    ensures
        demapped(bins) == bits,
{
    assert forall|i: int| 0 <= i < 3072 implies demapped(bins)[i] == bits[i] by {
        let k = if i < 1536 {
            i
        } else {
            i - 1536
        };
        law_i_and_q_of_a_carrier(bins, k);
        assert(bins[bin_of(permutation(2048)[k] as int)] == (bits[k], bits[k + 1536]));
    }
    assert(demapped(bins) =~= bits);
}

} // verus!
