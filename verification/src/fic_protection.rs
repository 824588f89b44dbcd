//! Protection of the fast information channel: 21 blocks punctured with PI_16,
//! three with PI_15, and the tail with PI_8.

use vstd::prelude::*;
use crate::bits::all_bits;
use crate::profile::{law_profile_capacity, law_punctured_round_trip, received_clean, Profile};
use crate::puncture::{count_kept, depuncture, depunctured, kept};
use crate::puncture::{lemma_depunctured_weight, transmitted, vector_keeps};
use crate::viterbi::{codeword, decoded, lemma_weight_bound, Viterbi};

verus! {

/// Decoded bits per block.
pub const FIC_OUT_BITS: usize = 768;

/// Soft bits received per block.
pub const FIC_IN_BITS: usize = 2304;

/// Length of the mother-code word, with its tail.
pub const FIC_VITERBI_LEN: usize = 3096;

/// The fixed profile of the fast information channel.
pub open spec fn fic_profile() -> Profile {
    Profile { rows_1: 21, pi_1: 16, rows_2: 3, pi_2: 15 }
}

/// `true` where a mother-code bit is transmitted.
pub open spec fn fic_table() -> Seq<bool> {
    fic_profile().table(3096)
}

/// The information bits that one block of soft bits decodes to.
pub open spec fn fic_decoded(soft: Seq<i16>) -> Seq<u8> {
    decoded(depunctured(soft, fic_table()), 768)
}

/// The profile transmits exactly the soft bits of one block.
pub proof fn law_fic_capacity()
    ensures
        kept(fic_table(), FIC_VITERBI_LEN as int) == FIC_IN_BITS,
{
    law_profile_capacity(fic_profile());
}

/// Depuncturer and decoder for the fast information channel.
pub struct FicProtection {
    index_table: Vec<bool>,
    viterbi: Viterbi,
}

impl FicProtection {
    /// The table is the channel's and the decoder has its block length.
    pub closed spec fn wf(&self) -> bool {
        &&& self.index_table@ == fic_table()
        &&& self.viterbi.wf()
        &&& self.viterbi.block_length() == FIC_OUT_BITS
    }

    /// Builds the decoder.
    pub fn new() -> (f: Self)
        ensures
            f.wf(),
    {
        let profile: Profile = Profile { rows_1: 21, pi_1: 16, rows_2: 3, pi_2: 15 };
        FicProtection {
            index_table: profile.index_table(FIC_VITERBI_LEN),
            viterbi: Viterbi::new(FIC_OUT_BITS),
        }
    }

    /// Number of decoded bits per block.
    pub fn out_size(&self) -> (n: usize)
        ensures
            n == 768,
    {
        FIC_OUT_BITS
    }

    /// The index table: `true` where a mother-code bit is transmitted.
    pub fn index_table(&self) -> (table: &[bool])
        requires
            self.wf(),
        ensures
            table@ == fic_table(),
    {
        self.index_table.as_slice()
    }

    /// Number of soft bits that one block takes.
    pub fn in_size(&self) -> (n: usize)
        requires
            self.wf(),
        ensures
            n == 2304,
    {
        proof {
            law_fic_capacity();
        }
        count_kept(&self.index_table)
    }

    /// Depunctures one block of received soft bits and decodes it.
    pub fn deconvolve(&mut self, soft: &[i16]) -> (bits: Vec<u8>)
        requires
            old(self).wf(),
            soft@.len() == 2304,
        ensures
            *final(self) == *old(self),
            bits@ == fic_decoded(soft@),
            bits@.len() == 768,
            all_bits(bits@),
    {
        proof {
            law_fic_capacity();
            lemma_weight_bound(soft@, 2304);
            lemma_depunctured_weight(soft@, self.index_table@, 3096);
        }
        let block: Vec<i16> = depuncture(soft, &self.index_table);
        self.viterbi.deconvolve(&block)
    }
}

impl Default for FicProtection {
    fn default() -> (f: Self)
        ensures
            f.wf(),
    {
        Self::new()
    }
}

/// What is encoded, punctured for the fast information channel and received
/// without sign errors decodes to the message.
pub proof fn law_fic_round_trip(message: Seq<u8>, soft: Seq<i16>)
    requires
        message.len() == 768,
        all_bits(message),
        received_clean(soft, transmitted(codeword(message), fic_table(), 3096)),
    ensures
        fic_decoded(soft) == message,
{
    law_punctured_round_trip(fic_profile(), message, soft, 768);
}

/// Which bits of a code word are sent: of the first 2688 those that PI_16 keeps, of the
/// next 384 those that PI_15 keeps, and of the 24 tail bits those that PI_8 keeps.
pub proof fn law_fic_places(i: int)
    requires
        0 <= i < 3096,
    ensures
        fic_table().len() == 3096,
        i < 2688 ==> fic_table()[i] == vector_keeps(16, i % 32),
        2688 <= i < 3072 ==> fic_table()[i] == vector_keeps(15, i % 32),
        3072 <= i ==> fic_table()[i] == vector_keeps(8, i - 3072),
{
}

} // verus!
