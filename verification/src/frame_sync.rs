//! Where the symbols of a frame lie in the sample stream.
//!
//! At the internal rate of 2.048 million samples per second a mode-I frame starts
//! with a null symbol of 2656 samples.  The phase reference symbol and the data
//! symbols follow, 2552 samples each: a guard interval of 504 samples and a useful
//! part of 2048.

use vstd::prelude::*;
use crate::iq_format::IqFormat;
use crate::le::{law_reading_undoes_writing, law_sign_survives, le_bytes, le_value, pattern16};
use crate::le::{push_i16, push_le, signed16};

verus! {

/// Samples per symbol.
pub const TS: usize = 2552;

/// Samples in the guard interval.
pub const TG: usize = 504;

/// Samples in the null symbol.
pub const NULL_LEN: usize = 2656;

/// Symbols in a frame behind the null symbol.
pub const SYMBOLS_PER_FRAME: usize = 76;

/// Internal sample rate.
pub const INTERNAL_RATE: u32 = 2_048_000;

/// Samples below which a stream counts as cut off.
pub const MIN_SAMPLES: usize = 2_000_000;

/// The phase reference symbol at `start` and `symbols` data symbols lie within
/// `len` samples.
pub open spec fn frame_within(start: int, symbols: int, len: int) -> bool {
    start + (1 + symbols) * 2552 <= len
}

/// Whether the phase reference symbol at `start` and `symbols` data symbols lie
/// within `len` samples.
pub fn frame_fits_at(start: usize, symbols: usize, len: usize) -> (r: bool)
    requires
        symbols < SYMBOLS_PER_FRAME,
    ensures
        r == frame_within(start as int, symbols as int, len as int),
{
    let need: usize = (1 + symbols) * TS;
    need <= len && start <= len - need
}

/// Where the phase reference symbol is expected behind a null symbol, if it and
/// `symbols` data symbols lie within `len` samples.
pub fn expected_start(null_pos: usize, symbols: usize, len: usize) -> (r: Option<usize>)
    requires
        symbols < SYMBOLS_PER_FRAME,
    ensures
        r is Some <==> frame_within(null_pos + NULL_LEN, symbols as int, len as int),
        r matches Some(start) ==> start == null_pos + NULL_LEN,
{
    if null_pos > usize::MAX - NULL_LEN {
        return None;
    }
    let start: usize = null_pos + NULL_LEN;
    if frame_fits_at(start, symbols, len) {
        Some(start)
    } else {
        None
    }
}

/// Where symbol `s` of a frame starts; the phase reference symbol is number 0.
pub fn symbol_start(prs_start: usize, s: usize) -> (at: usize)
    requires
        prs_start + s * 2552 <= usize::MAX,
    ensures
        at == prs_start + s * 2552,
{
    prs_start + s * TS
}

/// Whether samples are taken as they come, without resampling.
pub fn bypasses_resampler(format: IqFormat, rate: u32) -> (r: bool)
    ensures
        r == (format == IqFormat::Cf32Le && rate == INTERNAL_RATE),
{
    match format {
        IqFormat::Cf32Le => rate == INTERNAL_RATE,
        _ => false,
    }
}

// ---------------------------------------------------------------------------
// Records for inspection
// ---------------------------------------------------------------------------

/// A record: frame number, then bytes.
pub open spec fn byte_record(frame: u32, payload: Seq<u8>) -> Seq<u8> {
    le_bytes(frame as int, 4) + payload
}

/// Writes a record of bytes.
pub fn make_byte_record(frame: u32, payload: &[u8]) -> (out: Vec<u8>)
    ensures
        out@ == byte_record(frame, payload@),
{
    let mut out: Vec<u8> = Vec::new();
    push_le(&mut out, frame as u64, 4);
    out.extend_from_slice(payload);
    assert(out@ =~= byte_record(frame, payload@));
    out
}

/// The first `n` of `soft`, two bytes each.
pub open spec fn soft_bytes(soft: Seq<i16>, n: int) -> Seq<u8>
    decreases n,
{
    if n <= 0 {
        Seq::empty()
    } else {
        soft_bytes(soft, n - 1) + le_bytes(pattern16(soft[n - 1]), 2)
    }
}

/// Writes a record of sixteen-bit soft bits.
pub fn make_soft_record(frame: u32, soft: &[i16]) -> (out: Vec<u8>)
    ensures
        out@ == byte_record(frame, soft_bytes(soft@, soft@.len() as int)),
{
    let mut out: Vec<u8> = Vec::new();
    push_le(&mut out, frame as u64, 4);
    assert(out@ =~= byte_record(frame, soft_bytes(soft@, 0)));
    let mut i: usize = 0;
    while i < soft.len()
        invariant
            i <= soft@.len(),
            out@ == byte_record(frame, soft_bytes(soft@, i as int)),
        decreases soft@.len() - i,
    {
        push_i16(&mut out, soft[i]);
        i += 1;
        assert(out@ =~= byte_record(frame, soft_bytes(soft@, i as int)));
    }
    out
}

/// Writes a record of the low bytes of soft bits.
pub fn make_narrow_record(frame: u32, soft: &[i16]) -> (out: Vec<u8>)
    ensures
        out@ == byte_record(
            frame,
            Seq::new(soft@.len(), |i: int| (pattern16(soft@[i]) % 256) as u8),
        ),
{
    let mut bytes: Vec<u8> = Vec::new();
    let mut i: usize = 0;
    while i < soft.len()
        invariant
            i <= soft@.len(),
            bytes@.len() == i,
            forall|j: int|
                0 <= j < i ==> #[trigger] bytes@[j] == (pattern16(soft@[j]) % 256) as u8,
        decreases soft@.len() - i,
    {
        let pattern: i32 = if soft[i] < 0 {
            soft[i] as i32 + 65536
        } else {
            soft[i] as i32
        };
        bytes.push((pattern % 256) as u8);
        i += 1;
    }
    let out: Vec<u8> = make_byte_record(frame, bytes.as_slice());
    assert(bytes@ =~= Seq::new(soft@.len(), |i: int| (pattern16(soft@[i]) % 256) as u8));
    out
}

/// Position records of the first `n` symbols of a frame: frame number, symbol
/// number counted from one, and where the useful part starts.
pub open spec fn position_records(frame: u32, prs_start: int, n: int) -> Seq<u8>
    decreases n,
{
    if n <= 0 {
        Seq::empty()
    } else {
        position_records(frame, prs_start, n - 1) + (le_bytes(frame as int, 4) + le_bytes(n, 4)
            + le_bytes(prs_start + (n - 1) * 2552 + 504, 8))
    }
}

/// Writes the position records of the phase reference symbol and the symbols of
/// the fast information channel.
pub fn make_position_records(frame: u32, prs_start: usize) -> (out: Vec<u8>)
    requires
        frame_within(prs_start as int, 3, usize::MAX as int),
    ensures
        out@ == position_records(frame, prs_start as int, 4),
{
    let mut out: Vec<u8> = Vec::new();
    let mut n: usize = 0;
    while n < 4
        invariant
            n <= 4,
            frame_within(prs_start as int, 3, usize::MAX as int),
            out@ == position_records(frame, prs_start as int, n as int),
        decreases 4 - n,
    {
        push_le(&mut out, frame as u64, 4);
        push_le(&mut out, n as u64 + 1, 4);
        push_le(&mut out, (prs_start + n * TS + TG) as u64, 8);
        n += 1;
        assert(out@ =~= position_records(frame, prs_start as int, n as int));
    }
    out
}

proof fn lemma_eight_bytes()
    ensures
        vstd::arithmetic::power::pow(256, 4) == 0x1_0000_0000,
        vstd::arithmetic::power::pow(256, 8) == 0x1_0000_0000_0000_0000,
        vstd::arithmetic::power::pow(256, 2) == 0x1_0000,
{
    reveal(vstd::arithmetic::power::pow);
    reveal_with_fuel(vstd::arithmetic::power::pow, 9);
}

proof fn lemma_positions(frame: u32, prs_start: int, n: int, s: int)
    requires
        0 <= n,
        0 <= prs_start,
        prs_start + 2552 * n + 504 < 0x1_0000_0000_0000_0000,
        n < 0x1_0000_0000,
        0 <= s < n,
    ensures
        position_records(frame, prs_start, n).len() == 16 * n,
        le_value(position_records(frame, prs_start, n), 16 * s, 4) == frame,
        le_value(position_records(frame, prs_start, n), 16 * s + 4, 4) == s + 1,
        le_value(position_records(frame, prs_start, n), 16 * s + 8, 8) == prs_start + 2552 * s
            + 504,
    decreases n,
{
    let before = position_records(frame, prs_start, n - 1);
    let all = position_records(frame, prs_start, n);
    let f = le_bytes(frame as int, 4);
    let k = le_bytes(n, 4);
    let at = prs_start + (n - 1) * 2552 + 504;
    let p = le_bytes(at, 8);
    lemma_eight_bytes();
    lemma_record_lengths(frame, prs_start, n - 1);
    law_reading_undoes_writing(before, frame as int, 4, k + p);
    law_reading_undoes_writing(before + f, n, 4, p);
    law_reading_undoes_writing(before + f + k, at, 8, Seq::empty());
    assert(all =~= before + f + (k + p));
    assert(all =~= (before + f) + k + p);
    assert(all =~= (before + f + k) + p + Seq::<u8>::empty());
    if s < n - 1 {
        lemma_positions(frame, prs_start, n - 1, s);
        lemma_value_of_prefix(before, f + k + p, 16 * s, 4);
        lemma_value_of_prefix(before, f + k + p, 16 * s + 4, 4);
        lemma_value_of_prefix(before, f + k + p, 16 * s + 8, 8);
        assert(all =~= before + (f + k + p));
    }
}

proof fn lemma_record_lengths(frame: u32, prs_start: int, n: int)
    requires
        0 <= n,
        0 <= prs_start,
        prs_start + 2552 * n + 504 < 0x1_0000_0000_0000_0000,
        n < 0x1_0000_0000,
    ensures
        position_records(frame, prs_start, n).len() == 16 * n,
    decreases n,
{
    if n > 0 {
        lemma_record_lengths(frame, prs_start, n - 1);
        lemma_eight_bytes();
        law_reading_undoes_writing(Seq::empty(), frame as int, 4, Seq::empty());
        law_reading_undoes_writing(Seq::empty(), n, 4, Seq::empty());
        law_reading_undoes_writing(
            Seq::empty(),
            prs_start + (n - 1) * 2552 + 504,
            8,
            Seq::empty(),
        );
    }
}

proof fn lemma_value_of_prefix(a: Seq<u8>, b: Seq<u8>, at: int, n: int)
    requires
        0 <= at,
        at + n <= a.len(),
    ensures
        le_value(a + b, at, n) == le_value(a, at, n),
    decreases n,
{
    if n > 0 {
        lemma_value_of_prefix(a, b, at + 1, n - 1);
    }
}

/// The position records of a frame read back: four records of sixteen bytes with the
/// frame's number, the symbol's number counted from one, and the sample at which the
/// useful part of the symbol starts.
pub proof fn law_position_records_read_back(frame: u32, prs_start: int, s: int)
    requires
        0 <= prs_start,
        prs_start + 4 * 2552 + 504 < 0x1_0000_0000_0000_0000,
        0 <= s < 4,
    ensures
        position_records(frame, prs_start, 4).len() == 64,
        le_value(position_records(frame, prs_start, 4), 16 * s, 4) == frame,
        le_value(position_records(frame, prs_start, 4), 16 * s + 4, 4) == s + 1,
        le_value(position_records(frame, prs_start, 4), 16 * s + 8, 8) == prs_start + 2552 * s
            + 504,
{
    lemma_positions(frame, prs_start, 4, s);
}

proof fn lemma_soft_bytes(soft: Seq<i16>, n: int, i: int)
    requires
        0 <= i < n <= soft.len(),
    ensures
        soft_bytes(soft, n).len() == 2 * n,
        soft_bytes(soft, n).subrange(2 * i, 2 * i + 2) == le_bytes(pattern16(soft[i]), 2),
    decreases n,
{
    lemma_soft_length(soft, n);
    lemma_soft_length(soft, n - 1);
    let all = soft_bytes(soft, n);
    if i < n - 1 {
        lemma_soft_bytes(soft, n - 1, i);
        assert(all.subrange(2 * i, 2 * i + 2) =~= soft_bytes(soft, n - 1).subrange(
            2 * i,
            2 * i + 2,
        ));
    } else {
        assert(all.subrange(2 * i, 2 * i + 2) =~= le_bytes(pattern16(soft[i]), 2));
    }
}

proof fn lemma_soft_length(soft: Seq<i16>, n: int)
    requires
        0 <= n <= soft.len(),
    ensures
        soft_bytes(soft, n).len() == 2 * n,
    decreases n,
{
    if n > 0 {
        lemma_soft_length(soft, n - 1);
        lemma_eight_bytes();
        law_sign_survives(soft[n - 1]);
        law_reading_undoes_writing(Seq::empty(), pattern16(soft[n - 1]), 2, Seq::empty());
    }
}

/// A record of soft bits reads back: the frame's number in four bytes, then every soft
/// bit in two.
pub proof fn law_soft_records_read_back(frame: u32, soft: Seq<i16>, i: int)
    requires
        0 <= i < soft.len(),
    ensures
        ({
            let record = byte_record(frame, soft_bytes(soft, soft.len() as int));
            &&& record.len() == 4 + 2 * soft.len()
            &&& le_value(record, 0, 4) == frame
            &&& signed16(le_value(record, 4 + 2 * i, 2)) == soft[i]
        }),
{
    let n = soft.len() as int;
    let body = soft_bytes(soft, n);
    let f = le_bytes(frame as int, 4);
    let record = byte_record(frame, body);
    let v = pattern16(soft[i]);
    let b = le_bytes(v, 2);
    lemma_eight_bytes();
    lemma_soft_bytes(soft, n, i);
    law_sign_survives(soft[i]);
    law_reading_undoes_writing(Seq::empty(), frame as int, 4, body);
    assert(Seq::<u8>::empty() + f + body =~= record);
    let before = record.take(4 + 2 * i);
    let after = record.skip(4 + 2 * i + 2);
    law_reading_undoes_writing(before, v, 2, after);
    assert(record.subrange(4 + 2 * i, 4 + 2 * i + 2) =~= b) by {
        assert(record.subrange(4 + 2 * i, 4 + 2 * i + 2) =~= body.subrange(2 * i, 2 * i + 2));
    }
    assert(record =~= before + record.subrange(4 + 2 * i, 4 + 2 * i + 2) + after);
}

/// The internal rate is 2.048 million samples per second, so that a transform of 2048
/// samples takes a millisecond; only samples that have it already are not resampled.
pub proof fn law_internal_rate()
    ensures
        INTERNAL_RATE == 2048 * 1000,
        TS == 2048 + TG,
        NULL_LEN + SYMBOLS_PER_FRAME * TS == 96 * 2048,
{
}

} // verus!
