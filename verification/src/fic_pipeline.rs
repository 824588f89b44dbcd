//! Bookkeeping of the way from samples to the ensemble: which frames are taken,
//! which are skipped, and what the decoded ones say.

use vstd::prelude::*;
use vstd::string::*;
use crate::ensemble::{fib_count, sound_fibs, unknown_ensemble, with_fibs, Ensemble};
use crate::ensemble::FicAccumulator;
use crate::fic_decode::{decode_fic_soft_bits_with_dumps, frame_bits, frame_bytes};
use crate::fic_decode::{frame_clear_bits, frame_words, DecodeDumps};
use crate::fic_decode::{FIC_SOFT_BITS_PER_FRAME, FIC_SYMBOLS};
use crate::frame_sync::{expected_start, frame_fits_at, frame_within, MIN_SAMPLES, NULL_LEN};
use crate::text::{decimal, push_decimal};

verus! {

/// What came of a capture.
#[derive(Debug)]
pub struct FicIqResult {
    /// The ensemble.
    pub ensemble: Ensemble,
    /// Blocks seen.
    pub fib_total: usize,
    /// Blocks with a correct checksum.
    pub fib_ok: usize,
    /// Frames decoded.
    pub frames_decoded: usize,
    /// Frames skipped.
    pub frames_skipped: usize,
    /// Samples at the internal rate.
    pub resampled_samples: usize,
    /// Null symbols found.
    pub null_dips: usize,
}

/// Why a capture cannot be processed.
#[derive(Debug)]
pub enum PipelineError {
    /// Only that many samples.
    TooShort(usize),
    /// No null symbol.
    NoNulls,
}

impl PipelineError {
    /// The error in words.
    pub fn message(&self) -> (s: String)
        ensures
            s@ == match *self {
                PipelineError::TooShort(n) => "resampled stream too short ("@ + decimal(n as nat)
                    + " samples) — capture appears truncated"@,
                PipelineError::NoNulls => "no null symbols detected in the capture"@,
            },
    {
        match *self {
            PipelineError::TooShort(n) => {
                let mut s: String = String::from_str("resampled stream too short (");
                push_decimal(&mut s, n as u64);
                s.append(" samples) — capture appears truncated");
                s
            },
            PipelineError::NoNulls => String::from_str("no null symbols detected in the capture"),
        }
    }
}

/// The frames of one capture.
pub struct FicPipeline {
    acc: FicAccumulator,
    samples: usize,
    null_dips: usize,
    frames_decoded: usize,
    frames_skipped: usize,
    in_frame: bool,
    handled: Ghost<nat>,
}

impl FicPipeline {
    /// Samples at the internal rate.
    pub closed spec fn samples(&self) -> nat {
        self.samples as nat
    }

    /// Null symbols found.
    pub closed spec fn nulls(&self) -> nat {
        self.null_dips as nat
    }

    /// Frames decoded.
    pub closed spec fn decoded(&self) -> nat {
        self.frames_decoded as nat
    }

    /// Frames skipped.
    pub closed spec fn skipped(&self) -> nat {
        self.frames_skipped as nat
    }

    /// The ensemble and block counts so far.
    pub closed spec fn gathered(&self) -> FicAccumulator {
        self.acc
    }

    /// A frame was started and is neither decoded nor skipped yet.
    pub closed spec fn in_frame(&self) -> bool {
        self.in_frame
    }

    /// Null symbols whose frame was started.
    pub closed spec fn handled(&self) -> nat {
        self.handled@
    }

    /// Twelve blocks were seen per decoded frame, and every started frame but the
    /// current one was decoded or skipped.
    pub closed spec fn wf(&self) -> bool {
        &&& self.acc.wf()
        &&& self.acc.fib_total == 12 * self.frames_decoded
        &&& self.handled@ == self.frames_decoded + self.frames_skipped + if self.in_frame {
            1int
        } else {
            0
        }
    }

    /// There is room for one frame more in the counters.
    pub open spec fn room(&self) -> bool {
        12 * (self.decoded() + 1) <= usize::MAX && self.skipped() < usize::MAX
    }

    /// Starts on a stream of `samples` samples with `null_dips` null symbols.
    pub fn begin(samples: usize, null_dips: usize) -> (r: Result<Self, PipelineError>)
        ensures
            match r {
                Ok(p) => {
                    &&& samples >= MIN_SAMPLES
                    &&& null_dips > 0
                    &&& p.wf()
                    &&& p.samples() == samples
                    &&& p.nulls() == null_dips
                    &&& p.decoded() == 0
                    &&& p.skipped() == 0
                    &&& p.handled() == 0
                    &&& !p.in_frame()
                    &&& p.gathered().ensemble@ == unknown_ensemble()
                    &&& p.gathered().fib_total == 0
                    &&& p.gathered().fib_ok == 0
                },
                Err(PipelineError::TooShort(n)) => samples < MIN_SAMPLES && n == samples,
                Err(PipelineError::NoNulls) => samples >= MIN_SAMPLES && null_dips == 0,
            },
    {
        if samples < MIN_SAMPLES {
            return Err(PipelineError::TooShort(samples));
        }
        if null_dips == 0 {
            return Err(PipelineError::NoNulls);
        }
        Ok(
            FicPipeline {
                acc: FicAccumulator::new(),
                samples,
                null_dips,
                frames_decoded: 0,
                frames_skipped: 0,
                in_frame: false,
                handled: Ghost(0),
            },
        )
    }

    /// Whether the counters can take one frame more.
    pub fn has_room(&self) -> (r: bool)
        ensures
            r == self.room(),
    {
        12 * (self.frames_decoded as u128 + 1) <= usize::MAX as u128 && self.frames_skipped
            < usize::MAX
    }

    /// Starts the frame behind a null symbol: where its phase reference symbol is
    /// expected.  If the frame goes beyond the samples, it is skipped.
    pub fn frame_start(&mut self, null_pos: usize) -> (r: Option<usize>)
        requires
            old(self).wf(),
            old(self).room(),
            !old(self).in_frame(),
        ensures
            final(self).wf(),
            final(self).gathered() == old(self).gathered(),
            final(self).samples() == old(self).samples(),
            final(self).nulls() == old(self).nulls(),
            final(self).decoded() == old(self).decoded(),
            final(self).handled() == old(self).handled() + 1,
            final(self).in_frame() == (r is Some),
            r is Some <==> frame_within(null_pos + NULL_LEN, 3, old(self).samples() as int),
            r matches Some(start) ==> start == null_pos + NULL_LEN,
            final(self).skipped() == old(self).skipped() + if r is None {
                1int
            } else {
                0
            },
    {
        let r: Option<usize> = expected_start(null_pos, FIC_SYMBOLS, self.samples);
        if r.is_none() {
            self.frames_skipped += 1;
        }
        self.in_frame = r.is_some();
        proof {
            self.handled@ = self.handled@ + 1;
        }
        r
    }

    /// Whether the frame with its phase reference symbol at `prs_start` lies within
    /// the samples; if not, it is skipped.
    pub fn accept_start(&mut self, prs_start: usize) -> (ok: bool)
        requires
            old(self).wf(),
            old(self).room(),
            old(self).in_frame(),
        ensures
            final(self).wf(),
            final(self).gathered() == old(self).gathered(),
            final(self).samples() == old(self).samples(),
            final(self).nulls() == old(self).nulls(),
            final(self).decoded() == old(self).decoded(),
            final(self).handled() == old(self).handled(),
            final(self).in_frame() == ok,
            ok == frame_within(prs_start as int, 3, old(self).samples() as int),
            final(self).skipped() == old(self).skipped() + if ok {
                0int
            } else {
                1
            },
    {
        let ok: bool = frame_fits_at(prs_start, FIC_SYMBOLS, self.samples);
        if !ok {
            self.frames_skipped += 1;
            self.in_frame = false;
        }
        ok
    }

    /// Skips the frame.
    pub fn skip(&mut self)
        requires
            old(self).wf(),
            old(self).room(),
            old(self).in_frame(),
        ensures
            final(self).wf(),
            final(self).gathered() == old(self).gathered(),
            final(self).samples() == old(self).samples(),
            final(self).nulls() == old(self).nulls(),
            final(self).decoded() == old(self).decoded(),
            final(self).handled() == old(self).handled(),
            !final(self).in_frame(),
            final(self).skipped() == old(self).skipped() + 1,
    {
        self.frames_skipped += 1;
        self.in_frame = false;
    }

    /// Whether no frame was decoded yet.
    pub fn is_first_frame(&self) -> (r: bool)
        ensures
            r == (self.decoded() == 0),
    {
        self.frames_decoded == 0
    }

    /// The number of the current frame, counted from one, if it fits in a record.
    pub fn frame_index(&self) -> (r: Option<u32>)
        ensures
            r is Some <==> self.decoded() + 1 <= u32::MAX,
            r matches Some(n) ==> n == self.decoded() + 1,
    {
        if self.frames_decoded >= u32::MAX as usize {
            return None;
        }
        Some(self.frames_decoded as u32 + 1)
    }

    /// Decodes the soft bits of a frame and takes in its blocks; a frame with any
    /// other number of soft bits is skipped.  The stages go to `dumps`.
    pub fn finish_frame(&mut self, soft: &[i16], dumps: &mut DecodeDumps) -> (r: Option<Vec<u8>>)
        requires
            old(self).wf(),
            old(self).room(),
            old(self).in_frame(),
        ensures
            final(self).wf(),
            final(self).samples() == old(self).samples(),
            final(self).nulls() == old(self).nulls(),
            final(self).handled() == old(self).handled(),
            !final(self).in_frame(),
            r is Some <==> soft@.len() == FIC_SOFT_BITS_PER_FRAME,
            r is None ==> {
                &&& final(self).gathered() == old(self).gathered()
                &&& final(self).decoded() == old(self).decoded()
                &&& final(self).skipped() == old(self).skipped() + 1
                &&& *final(dumps) == *old(dumps)
            },
            r matches Some(bytes) ==> {
                &&& bytes@ == frame_bytes(soft@, 4)
                &&& final(self).decoded() == old(self).decoded() + 1
                &&& final(self).skipped() == old(self).skipped()
                &&& final(self).gathered().ensemble@ == with_fibs(
                    old(self).gathered().ensemble@,
                    bytes@,
                    12,
                )
                &&& final(self).gathered().fib_total == old(self).gathered().fib_total + 12
                &&& final(self).gathered().fib_ok == old(self).gathered().fib_ok + sound_fibs(
                    bytes@,
                    12,
                )
                &&& final(dumps).viterbi_in@ == old(dumps).viterbi_in@ + frame_words(soft@, 4)
                &&& final(dumps).viterbi_out@ == old(dumps).viterbi_out@ + frame_bits(soft@, 4)
                &&& final(dumps).descrambled@ == old(dumps).descrambled@ + frame_clear_bits(
                    soft@,
                    4,
                )
            },
    {
        self.in_frame = false;
        if soft.len() != FIC_SOFT_BITS_PER_FRAME {
            self.frames_skipped += 1;
            return None;
        }
        let bytes: Vec<u8> = decode_fic_soft_bits_with_dumps(soft, dumps);
        assert(fib_count(bytes@) == 12);
        self.acc.feed_fic(bytes.as_slice());
        self.frames_decoded += 1;
        Some(bytes)
    }

    /// Ends the capture.
    pub fn finish(self) -> (r: FicIqResult)
        requires
            self.wf(),
        ensures
            r.ensemble == self.gathered().ensemble,
            r.fib_total == self.gathered().fib_total,
            r.fib_ok == self.gathered().fib_ok,
            r.fib_ok <= r.fib_total,
            r.fib_total == 12 * r.frames_decoded,
            r.frames_decoded == self.decoded(),
            r.frames_skipped == self.skipped(),
            r.resampled_samples == self.samples(),
            r.null_dips == self.nulls(),
            self.handled() == r.frames_decoded + r.frames_skipped + if self.in_frame() {
                1int
            } else {
                0
            },
            self.handled() == self.nulls() && !self.in_frame() ==> r.frames_decoded
                + r.frames_skipped == r.null_dips,
    {
        FicIqResult {
            ensemble: self.acc.ensemble,
            fib_total: self.acc.fib_total,
            fib_ok: self.acc.fib_ok,
            frames_decoded: self.frames_decoded,
            frames_skipped: self.frames_skipped,
            resampled_samples: self.samples,
            null_dips: self.null_dips,
        }
    }
}

} // verus!
