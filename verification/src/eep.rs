//! Equal error protection: depuncturing and decoding of a sub-channel.

use vstd::prelude::*;
use crate::bits::all_bits;
use crate::profile::{law_punctured_round_trip, received_clean, Profile};
use crate::puncture::{depuncture, depunctured, kept, lemma_depunctured_weight, transmitted};
use crate::viterbi::{codeword, decoded, soft_weight, Viterbi};

verus! {

/// The runs `(l1, pi1, l2, pi2)` of the profile that `prot_level` selects at
/// `bit_rate`: bit 2 of the level chooses the B series, bits 0 and 1 the level.
/// At low rates a run length can be negative; such a run is empty.
pub open spec fn eep_runs(bit_rate: i16, prot_level: i16) -> (int, int, int, int) {
    let br = bit_rate as int;
    let level = prot_level & 3;
    if prot_level & 4 == 0 {
        if level == 0 {
            (6 * br / 8 - 3, 24, 3, 23)
        } else if level == 1 && bit_rate == 8 {
            (5, 13, 1, 12)
        } else if level == 1 {
            (2 * br / 8 - 3, 14, 4 * br / 8 + 3, 13)
        } else if level == 2 {
            (6 * br / 8 - 3, 8, 3, 7)
        } else {
            (4 * br / 8 - 3, 3, 2 * br / 8 + 3, 2)
        }
    } else if level == 3 {
        (24 * br / 32 - 3, 2, 3, 1)
    } else if level == 2 {
        (24 * br / 32 - 3, 4, 3, 3)
    } else if level == 1 {
        (24 * br / 32 - 3, 6, 3, 5)
    } else {
        (24 * br / 32 - 3, 10, 3, 9)
    }
}

/// `l` blocks, or none if `l` is negative.
pub open spec fn run_length(l: int) -> usize {
    if l < 0 {
        0
    } else {
        l as usize
    }
}

/// The profile of `eep_runs`.
pub open spec fn eep_profile(bit_rate: i16, prot_level: i16) -> Profile {
    let (l1, pi1, l2, pi2) = eep_runs(bit_rate, prot_level);
    Profile {
        rows_1: run_length(l1),
        pi_1: pi1 as usize,
        rows_2: run_length(l2),
        pi_2: pi2 as usize,
    }
}

/// The profile and its tail fit the mother-code word of `24 * bit_rate` bits.
pub open spec fn eep_fits(bit_rate: i16, prot_level: i16) -> bool {
    0 <= bit_rate && eep_profile(bit_rate, prot_level).body() <= 96 * bit_rate
}

fn clip(l: i32) -> (rows: usize)
    ensures
        rows == run_length(l as int),
{
    if l < 0 {
        0
    } else {
        l as usize
    }
}

/// Selects the protection profile for `bit_rate` and `prot_level`.
pub fn select_profile(bit_rate: i16, prot_level: i16) -> (p: Profile)
    requires
        0 <= bit_rate,
    ensures
        p == eep_profile(bit_rate, prot_level),
        p.wf(),
{
    let br: i32 = bit_rate as i32;
    let level: i16 = prot_level & 3;
    let (l1, pi_1, l2, pi_2): (i32, usize, i32, usize) = if prot_level & 4 == 0 {
        if level == 0 {
            (6 * br / 8 - 3, 24, 3, 23)
        } else if level == 1 {
            if bit_rate == 8 {
                (5, 13, 1, 12)
            } else {
                (2 * br / 8 - 3, 14, 4 * br / 8 + 3, 13)
            }
        } else if level == 2 {
            (6 * br / 8 - 3, 8, 3, 7)
        } else {
            (4 * br / 8 - 3, 3, 2 * br / 8 + 3, 2)
        }
    } else if level == 3 {
        (24 * br / 32 - 3, 2, 3, 1)
    } else if level == 2 {
        (24 * br / 32 - 3, 4, 3, 3)
    } else if level == 1 {
        (24 * br / 32 - 3, 6, 3, 5)
    } else {
        (24 * br / 32 - 3, 10, 3, 9)
    };
    Profile { rows_1: clip(l1), pi_1, rows_2: clip(l2), pi_2 }
}

/// Whether [`EepProtection::new`] accepts the pair.
pub fn profile_fits(bit_rate: i16, prot_level: i16) -> (fits: bool)
    ensures
        fits == eep_fits(bit_rate, prot_level),
{
    if bit_rate < 0 {
        return false;
    }
    let p: Profile = select_profile(bit_rate, prot_level);
    128 * (p.rows_1 as u64 + p.rows_2 as u64) <= 96 * (bit_rate as u64)
}

/// Depuncturer and decoder for an equally protected sub-channel.
pub struct EepProtection {
    out_size: usize,
    index_table: Vec<bool>,
    viterbi: Viterbi,
}

impl EepProtection {
    /// Number of decoded bits per block.
    pub closed spec fn out_bits(&self) -> int {
        self.out_size as int
    }

    /// `true` where a mother-code bit is transmitted.
    pub closed spec fn table(&self) -> Seq<bool> {
        self.index_table@
    }

    /// Number of soft bits that one block takes.
    pub open spec fn in_bits(&self) -> int {
        kept(self.table(), self.table().len() as int)
    }

    /// The table covers one mother-code word.
    pub closed spec fn wf(&self) -> bool {
        &&& self.viterbi.wf()
        &&& self.viterbi.block_length() == self.out_size
        &&& self.index_table@.len() == 4 * self.out_size + 24
    }

    /// Builds the decoder for `24 * bit_rate` bits per block.
    pub fn new(bit_rate: i16, prot_level: i16) -> (e: Self)
        requires
            eep_fits(bit_rate, prot_level),
        ensures
            e.wf(),
            e.out_bits() == 24 * bit_rate,
            e.table() == eep_profile(bit_rate, prot_level).table(96 * bit_rate + 24),
    {
        let out_size: usize = 24 * (bit_rate as usize);
        let profile: Profile = select_profile(bit_rate, prot_level);
        let index_table: Vec<bool> = profile.index_table(4 * out_size + 24);
        EepProtection { out_size, index_table, viterbi: Viterbi::new(out_size) }
    }

    /// Number of decoded bits per block.
    pub fn out_size(&self) -> (n: usize)
        ensures
            n == self.out_bits(),
    {
        self.out_size
    }

    /// The index table: `true` where a mother-code bit is transmitted.
    pub fn index_table(&self) -> (table: &[bool])
        ensures
            table@ == self.table(),
    {
        self.index_table.as_slice()
    }

    /// Depunctures one block of received soft bits and decodes it.
    pub fn deconvolve(&mut self, soft: &[i16]) -> (bits: Vec<u8>)
        requires
            old(self).wf(),
            old(self).in_bits() <= soft@.len(),
            soft_weight(soft@, old(self).in_bits()) <= i32::MAX,
        ensures
            *final(self) == *old(self),
            bits@ == decoded(depunctured(soft@, old(self).table()), old(self).out_bits()),
            bits@.len() == old(self).out_bits(),
            all_bits(bits@),
    {
        let block: Vec<i16> = depuncture(soft, &self.index_table);
        proof {
            lemma_depunctured_weight(soft@, self.index_table@, self.index_table@.len() as int);
        }
        self.viterbi.deconvolve(&block)
    }
}

/// What is encoded, punctured with a profile that fills the code word, and
/// received without sign errors, decodes to the message.
pub proof fn law_eep_round_trip(
    bit_rate: i16,
    prot_level: i16,
    message: Seq<u8>,
    soft: Seq<i16>,
    table: Seq<bool>,
)
    requires
        0 < bit_rate,
        eep_profile(bit_rate, prot_level).body() == 96 * bit_rate,
        table == eep_profile(bit_rate, prot_level).table(96 * bit_rate + 24),
        message.len() == 24 * bit_rate,
        all_bits(message),
        received_clean(soft, transmitted(codeword(message), table, 96 * bit_rate + 24)),
    ensures
        decoded(depunctured(soft, table), 24 * bit_rate) == message,
{
    law_punctured_round_trip(eep_profile(bit_rate, prot_level), message, soft, 24 * bit_rate);
}

} // verus!
