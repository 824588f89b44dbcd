//! Reed-Solomon (204, 188) code of the T-DMB outer code: GF(256) with polynomial
//! 0x11D and generator roots 2^0 to 2^15.
//!
//! The code itself is the `reed_solomon` crate; this module adds the block
//! sizes, the treatment of uncorrectable blocks and the statistics.

use reed_solomon::{Decoder, DecoderError, Encoder};
use vstd::prelude::*;

verus! {

/// Code word length in bytes.
pub const N: usize = 204;

/// Message length in bytes.
pub const K: usize = 188;

/// Number of parity bytes.
pub const NSYM: usize = 16;

/// The error of `reed_solomon::Decoder`.
#[verifier::external_type_specification]
#[verifier::external_body]
pub struct ExDecoderError(DecoderError);

/// What `reed_solomon::Decoder` makes of `block` with `ecc_len` parity bytes: the
/// corrected message and the number of corrected bytes, or nothing.
pub uninterp spec fn rs_corrected(ecc_len: nat, block: Seq<u8>) -> Option<(Seq<u8>, nat)>;

/// The code word that `reed_solomon::Encoder` makes of `message` with `ecc_len`
/// parity bytes.
pub uninterp spec fn rs_codeword(ecc_len: nat, message: Seq<u8>) -> Seq<u8>;

/// At how many of the first `n` places `a` and `b` differ.
pub open spec fn wrong_bytes(a: Seq<u8>, b: Seq<u8>, n: int) -> nat
    decreases n,
{
    if n <= 0 {
        0
    } else {
        wrong_bytes(a, b, n - 1) + if a[n - 1] != b[n - 1] {
            1nat
        } else {
            0
        }
    }
}

pub proof fn lemma_nothing_wrong(a: Seq<u8>, n: int)
    ensures
        wrong_bytes(a, a, n) == 0,
    decreases n,
{
    if n > 0 {
        lemma_nothing_wrong(a, n - 1);
    }
}

/// Calls `reed_solomon::Decoder::correct_err_count` without erasures.
///
/// Of the outcome it claims that it is the one named `rs_corrected`; that a
/// corrected message is the block without its parity bytes in length; that at most
/// half as many bytes as there are parity bytes were corrected; that a message in
/// which nothing was corrected is the head of the block; and that the code word of
/// the message differs from the block at no more places than were corrected, for
/// the decoder checks the syndromes of what it hands out.  What becomes of a block
/// that is further than that from every code word is not stated beyond the name.
#[verifier::external_body]
fn correct_block(ecc_len: usize, block: &[u8]) -> (r: Result<(Vec<u8>, usize), DecoderError>)
    requires
        1 <= ecc_len <= 32,
        ecc_len < block@.len() < 256,
    ensures
        r is Err <==> rs_corrected(ecc_len as nat, block@) is None,
        r matches Ok((message, count)) ==> {
            &&& rs_corrected(ecc_len as nat, block@) == Some((message@, count as nat))
            &&& message@.len() == block@.len() - ecc_len
            &&& 2 * count <= ecc_len
            &&& count == 0 ==> message@ == block@.take(block@.len() - ecc_len)
            &&& wrong_bytes(
                rs_codeword(ecc_len as nat, message@),
                block@,
                block@.len() as int,
            ) <= count
        },
{
    let (buffer, count) = Decoder::new(ecc_len).correct_err_count(block, None)?;
    Ok((buffer.data().to_vec(), count))
}

/// Calls `reed_solomon::Encoder::encode`.
///
/// It claims that the result is the code word named `rs_codeword`; that the
/// message comes first and is followed by the parity bytes; and that a block which
/// differs from the code word at no more than half as many places as there are
/// parity bytes is what the decoder corrects to the message, and counts.  The
/// generator has that many consecutive powers of 2 as roots, and the decoder finds
/// the errors with the Berlekamp-Massey, Chien and Forney algorithms.
#[verifier::external_body]
fn encode_block(ecc_len: usize, message: &[u8]) -> (word: Vec<u8>)
    requires
        1 <= ecc_len <= 32,
        1 <= message@.len(),
        message@.len() + ecc_len < 256,
    ensures
        word@ == rs_codeword(ecc_len as nat, message@),
        word@.len() == message@.len() + ecc_len,
        word@.take(message@.len() as int) == message@,
        forall|block: Seq<u8>|
            block.len() == word@.len() && 2 * wrong_bytes(block, word@, block.len() as int)
                <= ecc_len ==> #[trigger] rs_corrected(ecc_len as nat, block) == Some(
                (message@, wrong_bytes(block, word@, block.len() as int)),
            ),
{
    Encoder::new(ecc_len).encode(message).to_vec()
}

/// Result of decoding one block.
pub struct RsResult {
    /// The 188 message bytes.
    pub data: Vec<u8>,
    /// Number of bytes corrected, or -1 if the block is uncorrectable.
    pub errors: i32,
    /// Whether decoding succeeded.
    pub ok: bool,
}

/// The message that a block stands for: corrected, or the head of the block as
/// it is where it cannot be corrected.
pub open spec fn block_message(block: Seq<u8>) -> Seq<u8> {
    match rs_corrected(16, block) {
        Some((message, _)) => message,
        None => block.take(188),
    }
}

/// The number of corrected bytes, or -1 where the block cannot be corrected.
pub open spec fn block_errors(block: Seq<u8>) -> int {
    match rs_corrected(16, block) {
        Some((_, count)) => count as int,
        None => -1,
    }
}

/// Every block that differs from `word` at no more than eight places is corrected
/// to `message`, and the places are counted.
pub open spec fn protects(word: Seq<u8>, message: Seq<u8>) -> bool {
    forall|block: Seq<u8>|
        block.len() == 204 && wrong_bytes(block, word, 204) <= 8 ==> #[trigger] block_message(block)
            == message && block_errors(block) == wrong_bytes(block, word, 204)
}

/// Up to eight wrong bytes of a protected code word, in the message or behind it, are
/// corrected and counted.
pub proof fn law_eight_wrong_bytes_are_corrected(message: Seq<u8>, word: Seq<u8>, block: Seq<u8>)
    requires
        protects(word, message),
        block.len() == 204,
        wrong_bytes(block, word, 204) <= 8,
    ensures
        block_message(block) == message,
        block_errors(block) == wrong_bytes(block, word, 204),
{
    assert(block_message(block) == message);
}

/// Decodes 204-byte blocks and counts what happened to them.
pub struct RsDecoder {
    pub frames_total: usize,
    pub frames_ok: usize,
    pub frames_corrected: usize,
    pub frames_failed: usize,
}

impl RsDecoder {
    /// Every block was good, corrected or given up.
    pub open spec fn wf(&self) -> bool {
        self.frames_total == self.frames_ok + self.frames_corrected + self.frames_failed
    }

    pub fn new() -> (d: Self)
        ensures
            d.wf(),
            d.frames_total == 0,
            d.frames_ok == 0,
            d.frames_corrected == 0,
            d.frames_failed == 0,
    {
        RsDecoder { frames_total: 0, frames_ok: 0, frames_corrected: 0, frames_failed: 0 }
    }

    /// Enters the outcome of one block into the statistics and forms the result.
    pub fn record(
        &mut self,
        block: &[u8],
        outcome: Option<(Vec<u8>, usize)>,
    ) -> (r: RsResult)
        requires
            old(self).wf(),
            old(self).frames_total < usize::MAX,
            block@.len() == 204,
            outcome matches Some((_, count)) ==> count <= 8,
        ensures
            final(self).wf(),
            final(self).frames_total == old(self).frames_total + 1,
            final(self).frames_ok == old(self).frames_ok + if outcome matches Some((_, count))
                && count == 0 {
                1int
            } else {
                0
            },
            final(self).frames_corrected == old(self).frames_corrected
                + if outcome matches Some((_, count)) && count > 0 {
                1int
            } else {
                0
            },
            final(self).frames_failed == old(self).frames_failed + if outcome is None {
                1int
            } else {
                0
            },
            r.ok == (outcome is Some),
            r.errors == match outcome {
                Some((_, count)) => count as int,
                None => -1,
            },
            r.data@ == match outcome {
                Some((message, _)) => message@,
                None => block@.take(188),
            },
    {
        self.frames_total += 1;
        match outcome {
            Some((message, count)) => {
                if count == 0 {
                    self.frames_ok += 1;
                } else {
                    self.frames_corrected += 1;
                }
                RsResult { data: message, errors: count as i32, ok: true }
            },
            None => {
                self.frames_failed += 1;
                let head: &[u8] = vstd::slice::slice_subrange(block, 0, K);
                RsResult { data: vstd::slice::slice_to_vec(head), errors: -1, ok: false }
            },
        }
    }

    /// Decodes one 204-byte block.
    pub fn decode(&mut self, block: &[u8]) -> (r: RsResult)
        requires
            old(self).wf(),
            old(self).frames_total < usize::MAX,
            block@.len() == 204,
        ensures
            final(self).wf(),
            final(self).frames_total == old(self).frames_total + 1,
            final(self).frames_ok == old(self).frames_ok + if block_errors(block@) == 0 {
                1int
            } else {
                0
            },
            final(self).frames_corrected == old(self).frames_corrected
                + if block_errors(block@) > 0 {
                1int
            } else {
                0
            },
            final(self).frames_failed == old(self).frames_failed + if block_errors(block@) < 0 {
                1int
            } else {
                0
            },
            r.ok == (rs_corrected(16, block@) is Some),
            r.errors == block_errors(block@),
            -1 <= r.errors <= 8,
            r.data@ == block_message(block@),
            r.data@.len() == 188,
            r.errors <= 0 ==> r.data@ == block@.take(188),
            r.ok ==> wrong_bytes(rs_codeword(16, r.data@), block@, 204) <= r.errors,
    {
        let outcome: Option<(Vec<u8>, usize)> = match correct_block(NSYM, block) {
            Ok(fixed) => Some(fixed),
            Err(_) => None,
        };
        self.record(block, outcome)
    }
}

impl Default for RsDecoder {
    fn default() -> (d: Self)
        ensures
            d.wf(),
            d.frames_total == 0,
            d.frames_ok == 0,
            d.frames_corrected == 0,
            d.frames_failed == 0,
    {
        Self::new()
    }
}

/// Makes 204-byte code words of 188-byte messages.
pub struct RsEncoder {}

impl RsEncoder {
    pub fn new() -> (e: Self)
        ensures
            e == (RsEncoder {  }),
    {
        RsEncoder {  }
    }

    /// Encodes a 188-byte message: the message followed by 16 parity bytes.
    /// The decoder gives the message back, also after up to eight wrong bytes.
    pub fn encode(&self, data: &[u8]) -> (word: Vec<u8>)
        requires
            data@.len() == 188,
        ensures
            word@ == rs_codeword(16, data@),
            word@.len() == 204,
            word@.take(188) == data@,
            protects(word@, data@),
            block_message(word@) == data@,
            block_errors(word@) == 0,
    {
        let word: Vec<u8> = encode_block(NSYM, data);
        proof {
            assert forall|block: Seq<u8>|
                block.len() == 204 && wrong_bytes(block, word@, 204) <= 8 implies #[trigger]
            block_message(block) == data@ && block_errors(block) == wrong_bytes(
                block,
                word@,
                204,
            ) by {
                assert(rs_corrected(16, block) == Some((data@, wrong_bytes(block, word@, 204))));
            }
            lemma_nothing_wrong(word@, 204);
            assert(block_message(word@) == data@);
        }
        word
    }
}

impl Default for RsEncoder {
    fn default() -> (e: Self)
        ensures
            e == (RsEncoder {  }),
    {
        Self::new()
    }
}

} // verus!
