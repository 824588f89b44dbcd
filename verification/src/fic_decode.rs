//! From the soft bits of a frame's fast information channel to its blocks.
//!
//! In mode I three symbols of 3072 soft bits carry the channel.  They are four
//! blocks of 2304 soft bits; each is depunctured, decoded, descrambled and packed
//! into 96 bytes.

use vstd::prelude::*;
use vstd::slice::slice_subrange;
use crate::bits::{all_bits, low_bits, packed};
use crate::descramble::{descramble_and_pack, descramble_bits, descrambled};
use crate::descramble::{law_pack_undoes_scrambling, lemma_prbs_is_bit, prbs_bit};
use crate::fic_protection::{fic_decoded, fic_table, law_fic_capacity, law_fic_round_trip};
use crate::fic_protection::{FicProtection, FIC_IN_BITS};
use crate::profile::received_clean;
use crate::puncture::{depuncture, depunctured, transmitted};
use crate::viterbi::codeword;

verus! {

/// Symbols per frame that carry the fast information channel.
pub const FIC_SYMBOLS: usize = 3;

/// Soft bits per symbol.
pub const BITS_PER_SYMBOL: usize = 3072;

/// Soft bits of the channel per frame.
pub const FIC_SOFT_BITS_PER_FRAME: usize = 9216;

/// Protected blocks per frame.
pub const FIC_BLOCKS_PER_FRAME: usize = 4;

/// Decoded bytes per frame.
pub const FIC_BYTES_PER_FRAME: usize = 384;

/// Block `b` of a frame's soft bits.
pub open spec fn soft_block(frame: Seq<i16>, b: int) -> Seq<i16> {
    frame.subrange(2304 * b, 2304 * b + 2304)
}

/// The 96 bytes of one block of soft bits.
pub open spec fn block_bytes(soft: Seq<i16>) -> Seq<u8> {
    packed(low_bits(descrambled(fic_decoded(soft))))
}

/// The bytes of the first `n` blocks.
pub open spec fn frame_bytes(frame: Seq<i16>, n: int) -> Seq<u8>
    decreases n,
{
    if n <= 0 {
        Seq::empty()
    } else {
        frame_bytes(frame, n - 1) + block_bytes(soft_block(frame, n - 1))
    }
}

/// The mother-code words of the first `n` blocks.
pub open spec fn frame_words(frame: Seq<i16>, n: int) -> Seq<i16>
    decreases n,
{
    if n <= 0 {
        Seq::empty()
    } else {
        frame_words(frame, n - 1) + depunctured(soft_block(frame, n - 1), fic_table())
    }
}

/// The decoded bits of the first `n` blocks, before descrambling.
pub open spec fn frame_bits(frame: Seq<i16>, n: int) -> Seq<u8>
    decreases n,
{
    if n <= 0 {
        Seq::empty()
    } else {
        frame_bits(frame, n - 1) + fic_decoded(soft_block(frame, n - 1))
    }
}

/// The decoded bits of the first `n` blocks, after descrambling.
pub open spec fn frame_clear_bits(frame: Seq<i16>, n: int) -> Seq<u8>
    decreases n,
{
    if n <= 0 {
        Seq::empty()
    } else {
        frame_clear_bits(frame, n - 1) + descrambled(fic_decoded(soft_block(frame, n - 1)))
    }
}

/// What the decoder passed through on the way, block after block.
#[derive(Debug)]
pub struct DecodeDumps {
    /// Mother-code words given to the Viterbi decoder.
    pub viterbi_in: Vec<i16>,
    /// Decoded bits before descrambling.
    pub viterbi_out: Vec<u8>,
    /// Decoded bits after descrambling.
    pub descrambled: Vec<u8>,
}

impl Default for DecodeDumps {
    fn default() -> (d: Self)
        ensures
            d.viterbi_in@ == Seq::<i16>::empty(),
            d.viterbi_out@ == Seq::<u8>::empty(),
            d.descrambled@ == Seq::<u8>::empty(),
    {
        DecodeDumps { viterbi_in: Vec::new(), viterbi_out: Vec::new(), descrambled: Vec::new() }
    }
}

/// Decodes the soft bits of one frame.
pub fn decode_fic_soft_bits_to_bytes(frame_soft: &[i16]) -> (out: Vec<u8>)
    requires
        frame_soft@.len() == FIC_SOFT_BITS_PER_FRAME,
    ensures
        out@ == frame_bytes(frame_soft@, 4),
        out@.len() == FIC_BYTES_PER_FRAME,
{
    let mut dumps: DecodeDumps = DecodeDumps::default();
    decode_fic_soft_bits_with_dumps(frame_soft, &mut dumps)
}

/// Decodes the soft bits of one frame and appends the intermediate stages to
/// `dumps`.
pub fn decode_fic_soft_bits_with_dumps(frame_soft: &[i16], dumps: &mut DecodeDumps) -> (out: Vec<
    u8,
>)
    requires
        frame_soft@.len() == FIC_SOFT_BITS_PER_FRAME,
    ensures
        out@ == frame_bytes(frame_soft@, 4),
        out@.len() == FIC_BYTES_PER_FRAME,
        final(dumps).viterbi_in@ == old(dumps).viterbi_in@ + frame_words(frame_soft@, 4),
        final(dumps).viterbi_out@ == old(dumps).viterbi_out@ + frame_bits(frame_soft@, 4),
        final(dumps).descrambled@ == old(dumps).descrambled@ + frame_clear_bits(frame_soft@, 4),
{
    let mut out: Vec<u8> = Vec::new();
    let mut fic: FicProtection = FicProtection::new();
    let mut b: usize = 0;
    assert(dumps.viterbi_in@ =~= old(dumps).viterbi_in@ + frame_words(frame_soft@, 0));
    assert(dumps.viterbi_out@ =~= old(dumps).viterbi_out@ + frame_bits(frame_soft@, 0));
    assert(dumps.descrambled@ =~= old(dumps).descrambled@ + frame_clear_bits(frame_soft@, 0));
    while b < FIC_BLOCKS_PER_FRAME
        invariant
            frame_soft@.len() == FIC_SOFT_BITS_PER_FRAME,
            b <= 4,
            fic.wf(),
            out@ == frame_bytes(frame_soft@, b as int),
            out@.len() == 96 * b,
            dumps.viterbi_in@ == old(dumps).viterbi_in@ + frame_words(frame_soft@, b as int),
            dumps.viterbi_out@ == old(dumps).viterbi_out@ + frame_bits(frame_soft@, b as int),
            dumps.descrambled@ == old(dumps).descrambled@ + frame_clear_bits(
                frame_soft@,
                b as int,
            ),
        decreases 4 - b,
    {
        let chunk: &[i16] = slice_subrange(frame_soft, b * FIC_IN_BITS, (b + 1) * FIC_IN_BITS);
        assert(chunk@ == soft_block(frame_soft@, b as int));
        proof {
            law_fic_capacity();
        }
        let word: Vec<i16> = depuncture(chunk, fic.index_table());
        dumps.viterbi_in.extend_from_slice(word.as_slice());
        let info: Vec<u8> = fic.deconvolve(chunk);
        dumps.viterbi_out.extend_from_slice(info.as_slice());
        let mut clear: Vec<u8> = Vec::new();
        clear.extend_from_slice(info.as_slice());
        assert(clear@ =~= info@);
        descramble_bits(clear.as_mut_slice());
        dumps.descrambled.extend_from_slice(clear.as_slice());
        let bytes: Vec<u8> = descramble_and_pack(info.as_slice());
        out.extend_from_slice(bytes.as_slice());
        b += 1;
        assert(out@ =~= frame_bytes(frame_soft@, b as int));
        assert(dumps.viterbi_in@ =~= old(dumps).viterbi_in@ + frame_words(frame_soft@, b as int));
        assert(dumps.viterbi_out@ =~= old(dumps).viterbi_out@ + frame_bits(frame_soft@, b as int));
        assert(dumps.descrambled@ =~= old(dumps).descrambled@ + frame_clear_bits(
            frame_soft@,
            b as int,
        ));
    }
    out
}

/// Bits that are scrambled, encoded, punctured and received without sign errors
/// come out packed.
pub proof fn law_fic_block_round_trip(clear: Seq<u8>, soft: Seq<i16>)
    requires
        clear.len() == 768,
        all_bits(clear),
        received_clean(soft, transmitted(codeword(descrambled(clear)), fic_table(), 3096)),
    ensures
        block_bytes(soft) == packed(clear),
{
    let sent = descrambled(clear);
    assert forall|i: int| 0 <= i < sent.len() implies #[trigger] sent[i] <= 1 by {
        lemma_prbs_is_bit(i);
        crate::bits::lemma_xor_bit(clear[i], prbs_bit(i));
    }
    law_fic_round_trip(sent, soft);
    law_pack_undoes_scrambling(clear);
}

/// A whole frame comes back: where every quarter of its soft bits was received without
/// sign errors for a quarter of the clear bits, each scrambled and encoded on its own,
/// the bytes are the clear bits packed.
pub proof fn law_fic_frame_round_trip(clear: Seq<u8>, frame: Seq<i16>)
    requires
        clear.len() == 3072,
        all_bits(clear),
        frame.len() == 9216,
        forall|b: int|
            0 <= b < 4 ==> received_clean(
                #[trigger] frame.subrange(2304 * b, 2304 * b + 2304),
                transmitted(
                    codeword(descrambled(clear.subrange(768 * b, 768 * b + 768))),
                    fic_table(),
                    3096,
                ),
            ),
    ensures
        frame_bytes(frame, 4) == packed(clear),
{
    assert(clear.take(3072) =~= clear);
    lemma_fic_blocks(clear, frame, 4);
}

proof fn lemma_fic_blocks(clear: Seq<u8>, frame: Seq<i16>, n: int)
    requires
        0 <= n <= 4,
        clear.len() == 3072,
        all_bits(clear),
        frame.len() == 9216,
        forall|b: int|
            0 <= b < 4 ==> received_clean(
                #[trigger] frame.subrange(2304 * b, 2304 * b + 2304),
                transmitted(
                    codeword(descrambled(clear.subrange(768 * b, 768 * b + 768))),
                    fic_table(),
                    3096,
                ),
            ),
    ensures
        frame_bytes(frame, n) == packed(clear.take(768 * n)),
    decreases n,
{
    if n == 0 {
        assert(packed(clear.take(0)) =~= Seq::empty());
    } else {
        let b = n - 1;
        let part = clear.subrange(768 * b, 768 * b + 768);
        lemma_fic_blocks(clear, frame, b);
        assert(received_clean(
            frame.subrange(2304 * b, 2304 * b + 2304),
            transmitted(codeword(descrambled(part)), fic_table(), 3096),
        ));
        law_fic_block_round_trip(part, soft_block(frame, b));
        let whole = clear.take(768 * n);
        let before = clear.take(768 * b);
        assert forall|k: int| 0 <= k < 96 * n implies packed(whole)[k] == (packed(before) + packed(
            part,
        ))[k] by {
            if k < 96 * b {
                assert(packed(before)[k] == crate::bits::msb_byte(before, 8 * k) as u8);
            } else {
                let q = k - 96 * b;
                assert(packed(part)[q] == crate::bits::msb_byte(part, 8 * q) as u8);
            }
        }
        assert(packed(whole) =~= packed(before) + packed(part));
    }
}

} // verus!
