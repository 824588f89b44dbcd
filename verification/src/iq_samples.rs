//! Framing of raw bytes into samples.
//!
//! Reads from a file may end anywhere in a sample.  The framer keeps the bytes of
//! an incomplete sample for the next call.

use vstd::prelude::*;
use vstd::slice::{slice_subrange, slice_to_vec};
use crate::iq_format::{sample_bytes, IqError, IqFormat};
use crate::le::{i16_at, le_value, signed16, u32_at};

verus! {

/// Most bytes that are read at once.
pub const READ_CHUNK: usize = 131072;

/// The bytes of the whole samples at the start of `bytes`.
pub open spec fn whole_samples(bytes: Seq<u8>, width: int) -> Seq<u8> {
    bytes.take(width * (bytes.len() as int / width))
}

/// The bytes of the incomplete sample at the end of `bytes`.
pub open spec fn left_over(bytes: Seq<u8>, width: int) -> Seq<u8> {
    bytes.skip(width * (bytes.len() as int / width))
}

/// Cuts a byte stream into whole samples.
pub struct SampleFramer {
    format: IqFormat,
    width: usize,
    remainder: Vec<u8>,
}

impl SampleFramer {
    /// The sample format.
    pub closed spec fn format_spec(&self) -> IqFormat {
        self.format
    }

    /// Bytes per sample.
    pub closed spec fn width(&self) -> int {
        self.width as int
    }

    /// The bytes of the incomplete sample.
    pub closed spec fn pending(&self) -> Seq<u8> {
        self.remainder@
    }

    /// Less than one sample is kept.
    pub closed spec fn wf(&self) -> bool {
        &&& sample_bytes(self.format) == Some(self.width as int)
        &&& 2 <= self.width <= 8
        &&& self.remainder@.len() < self.width
    }

    /// Starts a stream; refuses a format that is not supported.
    pub fn new(format: IqFormat) -> (r: Result<Self, IqError>)
        ensures
            match r {
                Ok(f) => f.wf() && f.format_spec() == format && sample_bytes(format) == Some(
                    f.width(),
                ) && f.pending().len() == 0,
                Err(e) => sample_bytes(format) is None && e == IqError::UnsupportedFormat(format),
            },
    {
        match format.bytes_per_sample() {
            Some(width) => Ok(SampleFramer { format, width, remainder: Vec::new() }),
            None => Err(IqError::UnsupportedFormat(format)),
        }
    }

    /// The sample format.
    pub fn format(&self) -> (f: IqFormat)
        ensures
            f == self.format_spec(),
    {
        self.format
    }

    /// Bytes to read for `samples` whole samples.
    pub fn bytes_wanted(&self, samples: usize) -> (n: usize)
        requires
            self.wf(),
            8 * samples <= usize::MAX,
        ensures
            n == if samples == 0 {
                0
            } else {
                samples * self.width() - self.pending().len()
            },
    {
        if samples == 0 {
            return 0;
        }
        proof {
            lemma_width_product(samples as int, self.width as int);
        }
        samples * self.width - self.remainder.len()
    }

    /// Takes in what was read for `samples` samples; returns the bytes of the
    /// whole samples, at most that many, and keeps the rest.
    pub fn take(&mut self, read: &[u8], samples: usize) -> (out: Vec<u8>)
        requires
            old(self).wf(),
            8 * samples <= usize::MAX,
            old(self).pending().len() + read@.len() <= samples * old(self).width(),
        ensures
            final(self).wf(),
            final(self).format_spec() == old(self).format_spec(),
            final(self).width() == old(self).width(),
            out@ == whole_samples(old(self).pending() + read@, old(self).width()),
            final(self).pending() == left_over(old(self).pending() + read@, old(self).width()),
            final(self).pending().len() < old(self).width(),
            out@.len() <= samples * old(self).width(),
    {
        let ghost all = self.remainder@ + read@;
        let mut raw: Vec<u8> = Vec::new();
        raw.extend_from_slice(self.remainder.as_slice());
        raw.extend_from_slice(read);
        assert(raw@ =~= all);
        let width: usize = self.width;
        let whole: usize = raw.len() / width;
        proof {
            lemma_whole(raw@.len() as int, width as int);
        }
        let used: usize = whole * width;
        let rest: Vec<u8> = slice_to_vec(slice_subrange(raw.as_slice(), used, raw.len()));
        let out: Vec<u8> = slice_to_vec(slice_subrange(raw.as_slice(), 0, used));
        self.remainder = rest;
        assert(out@ =~= whole_samples(all, width as int));
        assert(self.remainder@ =~= left_over(all, width as int));
        out
    }
}

proof fn lemma_width_product(samples: int, width: int)
    by (nonlinear_arith)
    requires
        1 <= samples,
        2 <= width <= 8,
    ensures
        width <= samples * width <= 8 * samples,
{
}

proof fn lemma_whole(len: int, width: int)
    by (nonlinear_arith)
    requires
        0 <= len,
        2 <= width <= 8,
    ensures
        0 <= (len / width) * width <= len,
        len - (len / width) * width < width,
        width * (len / width) == (len / width) * width,
{
}

/// Sample `i` of unsigned bytes.
pub open spec fn cs8_sample(bytes: Seq<u8>, i: int) -> (u8, u8) {
    (bytes[2 * i], bytes[2 * i + 1])
}

/// Sample `i` of signed 16-bit numbers.
pub open spec fn cs16_sample(bytes: Seq<u8>, i: int) -> (i16, i16) {
    (
        signed16(le_value(bytes, 4 * i, 2)) as i16,
        signed16(le_value(bytes, 4 * i + 2, 2)) as i16,
    )
}

/// The bit patterns of sample `i` of floating-point numbers.
pub open spec fn cf32_sample(bytes: Seq<u8>, i: int) -> (u32, u32) {
    (le_value(bytes, 8 * i, 4) as u32, le_value(bytes, 8 * i + 4, 4) as u32)
}

/// All samples of unsigned bytes.
pub open spec fn cs8_samples(bytes: Seq<u8>) -> Seq<(u8, u8)> {
    Seq::new(bytes.len() / 2, |i: int| cs8_sample(bytes, i))
}

/// All samples of signed 16-bit numbers.
pub open spec fn cs16_samples(bytes: Seq<u8>) -> Seq<(i16, i16)> {
    Seq::new(bytes.len() / 4, |i: int| cs16_sample(bytes, i))
}

/// The bit patterns of all samples of floating-point numbers.
pub open spec fn cf32_samples(bytes: Seq<u8>) -> Seq<(u32, u32)> {
    Seq::new(bytes.len() / 8, |i: int| cf32_sample(bytes, i))
}

/// Reads samples of unsigned bytes.
pub fn convert_cs8(bytes: &[u8]) -> (out: Vec<(u8, u8)>)
    ensures
        out@ == cs8_samples(bytes@),
{
    let n: usize = bytes.len() / 2;
    let mut out: Vec<(u8, u8)> = Vec::new();
    let mut i: usize = 0;
    while i < n
        invariant
            n == bytes.len() / 2,
            i <= n,
            out@.len() == i,
            forall|j: int| 0 <= j < i ==> #[trigger] out@[j] == cs8_sample(bytes@, j),
        decreases n - i,
    {
        out.push((bytes[2 * i], bytes[2 * i + 1]));
        i += 1;
    }
    out
}

/// Reads samples of signed 16-bit numbers.
pub fn convert_cs16le(bytes: &[u8]) -> (out: Vec<(i16, i16)>)
    ensures
        out@ == cs16_samples(bytes@),
{
    let n: usize = bytes.len() / 4;
    let mut out: Vec<(i16, i16)> = Vec::new();
    let mut i: usize = 0;
    while i < n
        invariant
            n == bytes.len() / 4,
            i <= n,
            out@.len() == i,
            forall|j: int| 0 <= j < i ==> #[trigger] out@[j] == cs16_sample(bytes@, j),
        decreases n - i,
    {
        out.push((i16_at(bytes, 4 * i), i16_at(bytes, 4 * i + 2)));
        i += 1;
    }
    out
}

/// Reads the bit patterns of floating-point samples.
pub fn convert_cf32le(bytes: &[u8]) -> (out: Vec<(u32, u32)>)
    ensures
        out@ == cf32_samples(bytes@),
{
    let n: usize = bytes.len() / 8;
    let mut out: Vec<(u32, u32)> = Vec::new();
    let mut i: usize = 0;
    while i < n
        invariant
            n == bytes.len() / 8,
            i <= n,
            out@.len() == i,
            forall|j: int| 0 <= j < i ==> #[trigger] out@[j] == cf32_sample(bytes@, j),
        decreases n - i,
    {
        out.push((u32_at(bytes, 8 * i), u32_at(bytes, 8 * i + 4)));
        i += 1;
    }
    out
}

// ---------------------------------------------------------------------------
// A stream in several reads
// ---------------------------------------------------------------------------

/// The first `n` of `reads`, one after the other.
pub open spec fn joined_reads(reads: Seq<Seq<u8>>, n: int) -> Seq<u8>
    decreases n,
{
    if n <= 0 {
        Seq::empty()
    } else {
        joined_reads(reads, n - 1) + reads[n - 1]
    }
}

/// What a framer gave and what it keeps after the first `n` of `reads`.
pub open spec fn framed(reads: Seq<Seq<u8>>, n: int, width: int) -> (Seq<u8>, Seq<u8>)
    decreases n,
{
    if n <= 0 {
        (Seq::empty(), Seq::empty())
    } else {
        let (given, kept) = framed(reads, n - 1, width);
        let bytes = kept + reads[n - 1];
        (given + whole_samples(bytes, width), left_over(bytes, width))
    }
}

proof fn lemma_division(len: int, width: int)
    requires
        0 <= len,
        0 < width,
    ensures
        0 <= width * (len / width) <= len < width * (len / width) + width,
{
    vstd::arithmetic::div_mod::lemma_fundamental_div_mod(len, width);
    vstd::arithmetic::div_mod::lemma_mod_bound(len, width);
    assert(0 <= width * (len / width)) by (nonlinear_arith)
        requires
            0 <= len,
            0 < width,
    ;
}

proof fn lemma_same_quotient(q: int, rest: int, width: int)
    requires
        0 <= q,
        0 <= rest,
        0 < width,
    ensures
        (width * q + rest) / width == q + rest / width,
        width * (q + rest / width) == width * q + width * (rest / width),
{
    vstd::arithmetic::div_mod::lemma_fundamental_div_mod(rest, width);
    vstd::arithmetic::div_mod::lemma_mod_bound(rest, width);
    let k = rest / width;
    assert(width * (q + k) == width * q + width * k) by (nonlinear_arith);
    assert((q + k) * width == width * (q + k)) by (nonlinear_arith);
    vstd::arithmetic::div_mod::lemma_fundamental_div_mod_converse(
        width * q + rest,
        width,
        q + k,
        rest % width,
    );
}

proof fn lemma_framing_joins(a: Seq<u8>, b: Seq<u8>, width: int)
    requires
        0 < width,
    ensures
        whole_samples(a + b, width) == whole_samples(a, width) + whole_samples(
            left_over(a, width) + b,
            width,
        ),
        left_over(a + b, width) == left_over(left_over(a, width) + b, width),
{
    let q = a.len() as int / width;
    let rest = left_over(a, width) + b;
    lemma_division(a.len() as int, width);
    lemma_division(rest.len() as int, width);
    assert(a.len() + b.len() == width * q + rest.len());
    vstd::arithmetic::div_mod::lemma_div_pos_is_pos(a.len() as int, width);
    lemma_same_quotient(q, rest.len() as int, width);
    assert(whole_samples(a + b, width) =~= whole_samples(a, width) + whole_samples(rest, width));
    assert(left_over(a + b, width) =~= left_over(rest, width));
}

/// What a framer gives of a stream does not depend on how the stream was cut into
/// reads: it is the whole samples of the stream.
pub proof fn law_framing_does_not_depend_on_reads(reads: Seq<Seq<u8>>, n: int, width: int)
    requires
        0 < width,
    ensures
        framed(reads, n, width).0 == whole_samples(joined_reads(reads, n), width),
        framed(reads, n, width).1 == left_over(joined_reads(reads, n), width),
    decreases n,
{
    if n <= 0 {
        lemma_division(0, width);
        assert(whole_samples(joined_reads(reads, n), width) =~= Seq::empty());
        assert(left_over(joined_reads(reads, n), width) =~= Seq::empty());
    } else {
        law_framing_does_not_depend_on_reads(reads, n - 1, width);
        lemma_framing_joins(joined_reads(reads, n - 1), reads[n - 1], width);
    }
}

proof fn lemma_number_in_prefix(a: Seq<u8>, b: Seq<u8>, at: int, n: int)
    requires
        0 <= at,
        at + n <= a.len(),
    ensures
        le_value(a + b, at, n) == le_value(a, at, n),
    decreases n,
{
    if n > 0 {
        lemma_number_in_prefix(a, b, at + 1, n - 1);
    }
}

proof fn lemma_number_behind(a: Seq<u8>, b: Seq<u8>, at: int, n: int)
    requires
        0 <= at,
        at + n <= b.len(),
    ensures
        le_value(a + b, a.len() + at, n) == le_value(b, at, n),
    decreases n,
{
    if n > 0 {
        lemma_number_behind(a, b, at + 1, n - 1);
    }
}

/// Behind whole samples the samples of the rest follow, in every format.
pub proof fn law_samples_join(a: Seq<u8>, b: Seq<u8>)
    ensures
        a.len() % 2 == 0 ==> cs8_samples(a + b) == cs8_samples(a) + cs8_samples(b),
        a.len() % 4 == 0 ==> cs16_samples(a + b) == cs16_samples(a) + cs16_samples(b),
        a.len() % 8 == 0 ==> cf32_samples(a + b) == cf32_samples(a) + cf32_samples(b),
{
    let all = a + b;
    if a.len() % 2 == 0 {
        assert(cs8_samples(all) =~= cs8_samples(a) + cs8_samples(b));
    }
    if a.len() % 4 == 0 {
        let m = a.len() as int / 4;
        assert forall|i: int| 0 <= i < cs16_samples(all).len() implies cs16_samples(all)[i] == (
        cs16_samples(a) + cs16_samples(b))[i] by {
            if i < m {
                lemma_number_in_prefix(a, b, 4 * i, 2);
                lemma_number_in_prefix(a, b, 4 * i + 2, 2);
            } else {
                lemma_number_behind(a, b, 4 * (i - m), 2);
                lemma_number_behind(a, b, 4 * (i - m) + 2, 2);
            }
        }
        assert(cs16_samples(all) =~= cs16_samples(a) + cs16_samples(b));
    }
    if a.len() % 8 == 0 {
        let m = a.len() as int / 8;
        assert forall|i: int| 0 <= i < cf32_samples(all).len() implies cf32_samples(all)[i] == (
        cf32_samples(a) + cf32_samples(b))[i] by {
            if i < m {
                lemma_number_in_prefix(a, b, 8 * i, 4);
                lemma_number_in_prefix(a, b, 8 * i + 4, 4);
            } else {
                lemma_number_behind(a, b, 8 * (i - m), 4);
                lemma_number_behind(a, b, 8 * (i - m) + 4, 4);
            }
        }
        assert(cf32_samples(all) =~= cf32_samples(a) + cf32_samples(b));
    }
}

/// The samples of a stream do not depend on how it was cut into reads: what a framer
/// gave holds the samples of the whole stream, in every format.
pub proof fn law_samples_do_not_depend_on_reads(reads: Seq<Seq<u8>>, n: int)
    ensures
        cs8_samples(framed(reads, n, 2).0) == cs8_samples(joined_reads(reads, n)),
        cs16_samples(framed(reads, n, 4).0) == cs16_samples(joined_reads(reads, n)),
        cf32_samples(framed(reads, n, 8).0) == cf32_samples(joined_reads(reads, n)),
{
    let all = joined_reads(reads, n);
    law_framing_does_not_depend_on_reads(reads, n, 2);
    law_framing_does_not_depend_on_reads(reads, n, 4);
    law_framing_does_not_depend_on_reads(reads, n, 8);
    assert(all =~= whole_samples(all, 2) + left_over(all, 2));
    assert(all =~= whole_samples(all, 4) + left_over(all, 4));
    assert(all =~= whole_samples(all, 8) + left_over(all, 8));
    law_samples_join(whole_samples(all, 2), left_over(all, 2));
    law_samples_join(whole_samples(all, 4), left_over(all, 4));
    law_samples_join(whole_samples(all, 8), left_over(all, 8));
    assert(cs8_samples(left_over(all, 2)) =~= Seq::empty());
    assert(cs16_samples(left_over(all, 4)) =~= Seq::empty());
    assert(cf32_samples(left_over(all, 8)) =~= Seq::empty());
    assert(cs8_samples(all) =~= cs8_samples(whole_samples(all, 2)));
    assert(cs16_samples(all) =~= cs16_samples(whole_samples(all, 4)));
    assert(cf32_samples(all) =~= cf32_samples(whole_samples(all, 8)));
}

/// A call that reads what was wanted, or all of the `rest` of a stream that has less,
/// gives as many samples as were asked for, or as many as are left.
pub proof fn law_call_gives_what_is_left(kept: Seq<u8>, rest: Seq<u8>, samples: int, width: int)
    requires
        0 < width,
        kept.len() < width,
        1 <= samples,
    ensures
        ({
            let wanted = samples * width - kept.len();
            let read = if wanted < rest.len() {
                rest.take(wanted)
            } else {
                rest
            };
            let left = (kept + rest).len() as int / width;
            whole_samples(kept + read, width).len() == width * if samples < left {
                samples
            } else {
                left
            }
        }),
{
    let wanted = samples * width - kept.len();
    let total = (kept + rest).len() as int;
    lemma_division(total, width);
    assert(width <= samples * width) by (nonlinear_arith)
        requires
            1 <= samples,
            0 < width,
    ;
    if wanted < rest.len() {
        let bytes = kept + rest.take(wanted);
        assert(bytes.len() == samples * width);
        lemma_same_quotient(samples, 0, width);
        assert(width * samples == samples * width) by (nonlinear_arith);
        assert(0int / width == 0) by (nonlinear_arith)
            requires
                0 < width,
        ;
        assert(samples <= total / width) by (nonlinear_arith)
            requires
                samples * width <= total,
                total < width * (total / width) + width,
                0 < width,
        ;
    } else {
        assert(total / width <= samples) by (nonlinear_arith)
            requires
                total <= samples * width,
                width * (total / width) <= total,
                0 < width,
        ;
    }
}

} // verus!
