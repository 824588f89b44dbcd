//! ETI(NI, G.703) frames.
//!
//! A frame is 6144 bytes:
//!
//! ```text
//! SYNC  ERR(1), FSYNC(3), alternating 07-3A-B6 and F8-C5-49
//! FC    FCT[8] FICF[1] NST[7] FP[3] MID[2] FL[11]
//! STC   per stream: SCID[6] SAD[10] TPL[6] STL[10]
//! EOH   MNSC[16] CRC[16]
//! MST   fast information channel, then the sub-channels
//! EOF   CRC[16] RFU[16]
//! TIST  32 bits, then padding
//! ```

use vstd::prelude::*;
use vstd::slice::{slice_subrange, slice_to_vec};
use vstd::string::*;
use crate::text::{decimal, hexadecimal, push_decimal, push_hexadecimal};

verus! {

/// Frame size in bytes.
pub const FRAME_SIZE: usize = 6144;

/// Sync word of even frames.
pub const FSYNC_EVEN: [u8; 3] = [0x07, 0x3a, 0xb6];

/// Sync word of odd frames.
pub const FSYNC_ODD: [u8; 3] = [0xf8, 0xc5, 0x49];

/// Size of a fast information block.
pub const FIB_SIZE: usize = 32;

/// Fast information blocks per frame in mode I.
pub const FIC_FIBS_MODE_I: usize = 4;

/// Descriptor of one stream.
#[derive(Debug, Clone, PartialEq, Eq, Structural)]
pub struct StreamChar {
    /// Sub-channel id.
    pub scid: u8,
    /// Start address in the common interleaved frame.
    pub sad: u16,
    /// Protection level.
    pub tpl: u8,
    /// Length in 64-bit groups.
    pub stl: u16,
}

impl StreamChar {
    /// Length in bytes.
    pub fn length_bytes(&self) -> (n: usize)
        ensures
            n == 8 * self.stl,
    {
        self.stl as usize * 8
    }
}

/// A parsed frame.
#[derive(Debug, Clone)]
pub struct Frame {
    /// ERR byte; 0xFF means no error.
    pub err: u8,
    /// Frame count.
    pub fct: u8,
    /// Whether the fast information channel is present.
    pub fic_present: bool,
    /// Number of streams.
    pub nst: u8,
    /// Frame phase.
    pub fp: u8,
    /// Transmission mode.
    pub mid: u8,
    /// Frame length in 32-bit words.
    pub fl: u16,
    /// Stream descriptors.
    pub streams: Vec<StreamChar>,
    /// Fast information channel; empty if absent or in mode III.
    pub fic: Vec<u8>,
    /// Data of all sub-channels, one after the other.
    pub msc: Vec<u8>,
}

/// Why a frame was refused.
#[derive(Debug)]
pub enum EtiError {
    /// The buffer has only that many bytes.
    ShortFrame(usize),
    /// The sync word is neither of the two.
    BadFsync(u32),
}

impl EtiError {
    /// The error in words.
    pub fn message(&self) -> (s: String)
        ensures
            s@ == match *self {
                EtiError::ShortFrame(n) => "short frame: "@ + decimal(n as nat) + " bytes"@,
                EtiError::BadFsync(v) => "bad fsync: "@ + hexadecimal(v as nat, 6),
            },
    {
        match *self {
            EtiError::ShortFrame(n) => {
                let mut s: String = String::from_str("short frame: ");
                push_decimal(&mut s, n as u64);
                s.append(" bytes");
                s
            },
            EtiError::BadFsync(v) => {
                let mut s: String = String::from_str("bad fsync: ");
                push_hexadecimal(&mut s, v, 6);
                s
            },
        }
    }
}

// ---------------------------------------------------------------------------
// Layout of a frame
// ---------------------------------------------------------------------------

/// A sync word stands behind the byte at `i`.
pub open spec fn sync_at(buf: Seq<u8>, i: int) -> bool {
    &&& 0 <= i
    &&& i + 4 <= buf.len()
    &&& ((buf[i + 1] == 0x07 && buf[i + 2] == 0x3a && buf[i + 3] == 0xb6) || (buf[i + 1] == 0xf8
        && buf[i + 2] == 0xc5 && buf[i + 3] == 0x49))
}

/// Number of streams.
pub open spec fn stream_count(buf: Seq<u8>) -> int {
    buf[5] as int % 128
}

/// Descriptor `k`.
pub open spec fn stream_at(buf: Seq<u8>, k: int) -> StreamChar {
    let at = 8 + 4 * k;
    StreamChar {
        scid: (buf[at] / 4) as u8,
        sad: ((buf[at] as int % 4) * 256 + buf[at + 1]) as u16,
        tpl: (buf[at + 2] / 4) as u8,
        stl: ((buf[at + 2] as int % 4) * 256 + buf[at + 3]) as u16,
    }
}

/// The stream descriptors.
pub open spec fn streams_of(buf: Seq<u8>) -> Seq<StreamChar> {
    Seq::new(stream_count(buf) as nat, |k: int| stream_at(buf, k))
}

/// Bytes that the first `n` of `streams` take.
pub open spec fn stream_bytes(streams: Seq<StreamChar>, n: int) -> int
    decreases n,
{
    if n <= 0 {
        0
    } else {
        stream_bytes(streams, n - 1) + 8 * streams[n - 1].stl
    }
}

/// Transmission mode.
pub open spec fn mode_of(buf: Seq<u8>) -> int {
    (buf[6] as int / 8) % 4
}

/// Where the fast information channel starts.
pub open spec fn fic_start(buf: Seq<u8>) -> int {
    8 + 4 * stream_count(buf) + 4
}

/// Length of the fast information channel.
pub open spec fn fic_length(buf: Seq<u8>) -> int {
    if buf[5] >= 128 && mode_of(buf) != 3 {
        128
    } else {
        0
    }
}

/// Where the sub-channel data starts.
pub open spec fn msc_start(buf: Seq<u8>) -> int {
    fic_start(buf) + fic_length(buf)
}

/// Length of the sub-channel data.
pub open spec fn msc_length(buf: Seq<u8>) -> int {
    stream_bytes(streams_of(buf), stream_count(buf))
}

/// The sub-channel data that the header announces lies within the buffer.
pub open spec fn data_fits(buf: Seq<u8>) -> bool {
    msc_start(buf) + msc_length(buf) <= buf.len()
}

/// `buf` is long enough and starts with a sync word.
pub open spec fn is_frame(buf: Seq<u8>) -> bool {
    buf.len() >= FRAME_SIZE && sync_at(buf, 0)
}

/// `frame` is what `buf` holds.
pub open spec fn frame_matches(buf: Seq<u8>, frame: Frame) -> bool {
    &&& frame.err == buf[0]
    &&& frame.fct == buf[4]
    &&& frame.fic_present == (buf[5] >= 128)
    &&& frame.nst == stream_count(buf)
    &&& frame.fp == buf[6] / 32
    &&& frame.mid == mode_of(buf)
    &&& frame.fl == (buf[6] as int % 8) * 256 + buf[7]
    &&& frame.streams@ == streams_of(buf)
    &&& frame.fic@ == buf.subrange(fic_start(buf), msc_start(buf))
    &&& frame.msc@ == buf.subrange(msc_start(buf), msc_start(buf) + msc_length(buf))
}

/// The error that `buf` gives, if it is not a frame.
pub open spec fn error_matches(buf: Seq<u8>, e: EtiError) -> bool {
    if buf.len() < FRAME_SIZE {
        e == EtiError::ShortFrame(buf.len() as usize)
    } else {
        e == EtiError::BadFsync((65536 * buf[1] + 256 * buf[2] + buf[3]) as u32)
    }
}

pub proof fn lemma_stream_bytes_monotone(streams: Seq<StreamChar>, a: int, b: int)
    requires
        a <= b,
    ensures
        0 <= stream_bytes(streams, a) <= stream_bytes(streams, b),
        b >= 0 ==> stream_bytes(streams, b) <= 524280 * b,
    decreases b, a,
{
    if 0 < a {
        lemma_stream_bytes_monotone(streams, a - 1, a - 1);
    }
    if a < b && b > 0 {
        lemma_stream_bytes_monotone(streams, a, b - 1);
    } else if a == b && b > 0 {
        lemma_stream_bytes_monotone(streams, a - 1, b - 1);
    }
}

fn is_sync(a: u8, b: u8, c: u8) -> (r: bool)
    ensures
        r == ((a == 0x07 && b == 0x3a && c == 0xb6) || (a == 0xf8 && b == 0xc5 && c == 0x49)),
{
    (a == FSYNC_EVEN[0] && b == FSYNC_EVEN[1] && c == FSYNC_EVEN[2]) || (a == FSYNC_ODD[0] && b
        == FSYNC_ODD[1] && c == FSYNC_ODD[2])
}

/// Reads the stream descriptors; also returns the bytes that they announce.
fn parse_streams(buf: &[u8]) -> (r: (Vec<StreamChar>, usize))
    requires
        buf@.len() >= FRAME_SIZE,
    ensures
        r.0@ == streams_of(buf@),
        r.1 == msc_length(buf@),
{
    let nst: usize = (buf[5] % 128) as usize;
    let mut streams: Vec<StreamChar> = Vec::new();
    let mut total: usize = 0;
    let mut k: usize = 0;
    while k < nst
        invariant
            buf@.len() >= FRAME_SIZE,
            nst == stream_count(buf@),
            nst < 128,
            k <= nst,
            streams@.len() == k,
            forall|j: int| 0 <= j < k ==> #[trigger] streams@[j] == stream_at(buf@, j),
            total == stream_bytes(streams_of(buf@), k as int),
            total <= 8184 * k,
        decreases nst - k,
    {
        let at: usize = 8 + 4 * k;
        let s: StreamChar = StreamChar {
            scid: buf[at] / 4,
            sad: (buf[at] % 4) as u16 * 256 + buf[at + 1] as u16,
            tpl: buf[at + 2] / 4,
            stl: (buf[at + 2] % 4) as u16 * 256 + buf[at + 3] as u16,
        };
        total += s.length_bytes();
        streams.push(s);
        k += 1;
    }
    assert(streams@ =~= streams_of(buf@));
    (streams, total)
}

/// Whether [`parse_frame`] can be called on `buf`: it is no frame, or its data
/// lies within it.
pub fn frame_fits(buf: &[u8]) -> (fits: bool)
    ensures
        fits == (is_frame(buf@) ==> data_fits(buf@)),
{
    if buf.len() < FRAME_SIZE || !is_sync(buf[1], buf[2], buf[3]) {
        return true;
    }
    let (streams, msc_total) = parse_streams(buf);
    proof {
        lemma_stream_bytes_monotone(streams_of(buf@), 0, stream_count(buf@));
    }
    let fic_len: usize = if buf[5] >= 128 && (buf[6] / 8) % 4 != 3 {
        128
    } else {
        0
    };
    12 + 4 * streams.len() + fic_len + msc_total <= buf.len()
}

/// Parses one frame.
pub fn parse_frame(buf: &[u8]) -> (r: Result<Frame, EtiError>)
    requires
        is_frame(buf@) ==> data_fits(buf@),
    ensures
        match r {
            Ok(frame) => is_frame(buf@) && frame_matches(buf@, frame),
            Err(e) => !is_frame(buf@) && error_matches(buf@, e),
        },
{
    if buf.len() < FRAME_SIZE {
        return Err(EtiError::ShortFrame(buf.len()));
    }
    if !is_sync(buf[1], buf[2], buf[3]) {
        let word: u32 = 65536 * buf[1] as u32 + 256 * buf[2] as u32 + buf[3] as u32;
        return Err(EtiError::BadFsync(word));
    }
    let ficf: bool = buf[5] >= 128;
    let nst: u8 = buf[5] % 128;
    let mid: u8 = (buf[6] / 8) % 4;
    let fl: u16 = (buf[6] % 8) as u16 * 256 + buf[7] as u16;
    let (streams, msc_total) = parse_streams(buf);
    proof {
        lemma_stream_bytes_monotone(streams_of(buf@), 0, stream_count(buf@));
    }
    let fic_at: usize = 8 + 4 * nst as usize + 4;
    let fic_len: usize = if ficf && mid != 3 {
        FIB_SIZE * FIC_FIBS_MODE_I
    } else {
        0
    };
    let msc_at: usize = fic_at + fic_len;
    let fic: Vec<u8> = slice_to_vec(slice_subrange(buf, fic_at, msc_at));
    let msc: Vec<u8> = slice_to_vec(slice_subrange(buf, msc_at, msc_at + msc_total));
    Ok(
        Frame {
            err: buf[0],
            fct: buf[4],
            fic_present: ficf,
            nst,
            fp: buf[6] / 32,
            mid,
            fl,
            streams,
            fic,
            msc,
        },
    )
}

// ---------------------------------------------------------------------------
// A stream of frames
// ---------------------------------------------------------------------------

/// `p` is the first place behind the start where a sync word stands.
pub open spec fn next_sync(buf: Seq<u8>, p: int) -> bool {
    &&& 1 <= p
    &&& sync_at(buf, p)
    &&& forall|j: int| 1 <= j < p ==> !#[trigger] sync_at(buf, j)
}

/// Where reading goes on after a frame was refused: at the next sync word, or
/// three bytes before the end.
pub open spec fn resync_point(buf: Seq<u8>) -> int {
    if exists|p: int| next_sync(buf, p) {
        choose|p: int| next_sync(buf, p)
    } else {
        buf.len() - 3
    }
}

/// The first place at or after `start` where a sync word stands.
fn find_sync(buf: &[u8], start: usize) -> (r: Option<usize>)
    ensures
        match r {
            Some(p) => start <= p && sync_at(buf@, p as int) && forall|j: int|
                start <= j < p ==> !#[trigger] sync_at(buf@, j),
            None => forall|j: int| start <= j ==> !#[trigger] sync_at(buf@, j),
        },
{
    if buf.len() < 4 {
        return None;
    }
    let n: usize = buf.len() - 3;
    let mut i: usize = start;
    while i < n
        invariant
            n == buf.len() - 3,
            start <= i,
            forall|j: int| start <= j < i ==> !#[trigger] sync_at(buf@, j),
        decreases n - i,
    {
        if is_sync(buf[i + 1], buf[i + 2], buf[i + 3]) {
            return Some(i);
        }
        i += 1;
    }
    None
}

/// Reads frames one after the other and finds the next one after an error.
pub struct FrameReader<'a> {
    data: &'a [u8],
}

impl<'a> FrameReader<'a> {
    /// The bytes not read yet.
    pub closed spec fn remaining(&self) -> Seq<u8> {
        self.data@
    }

    /// The next frame, if there is one, lies within its 6144 bytes.
    pub open spec fn next_fits(&self) -> bool {
        self.remaining().len() >= FRAME_SIZE && is_frame(self.remaining().take(6144)) ==> data_fits(
            self.remaining().take(6144),
        )
    }

    pub fn new(data: &'a [u8]) -> (r: Self)
        ensures
            r.remaining() == data@,
    {
        FrameReader { data }
    }

    /// Number of bytes not read yet.
    pub fn left(&self) -> (n: usize)
        ensures
            n == self.remaining().len(),
    {
        self.data.len()
    }

    /// Whether [`FrameReader::next`] can be called.
    pub fn can_read(&self) -> (r: bool)
        ensures
            r == self.next_fits(),
    {
        if self.data.len() < FRAME_SIZE {
            return true;
        }
        frame_fits(slice_subrange(self.data, 0, FRAME_SIZE))
    }

    /// The next frame, or the error in its place; nothing once fewer bytes than a
    /// frame are left.
    pub fn next(&mut self) -> (r: Option<Result<Frame, EtiError>>)
        requires
            old(self).next_fits(),
        ensures
            r is None <==> old(self).remaining().len() < FRAME_SIZE,
            match r {
                None => final(self).remaining() == old(self).remaining(),
                Some(Ok(frame)) => {
                    &&& is_frame(old(self).remaining().take(6144))
                    &&& frame_matches(old(self).remaining().take(6144), frame)
                    &&& final(self).remaining() == old(self).remaining().skip(6144)
                },
                Some(Err(e)) => {
                    &&& !is_frame(old(self).remaining().take(6144))
                    &&& error_matches(old(self).remaining().take(6144), e)
                    &&& final(self).remaining() == old(self).remaining().skip(
                        resync_point(old(self).remaining()),
                    )
                },
            },
            r is Some ==> final(self).remaining().len() < old(self).remaining().len(),
    {
        let n: usize = self.data.len();
        if n < FRAME_SIZE {
            return None;
        }
        let ghost before = self.data@;
        let head: &[u8] = slice_subrange(self.data, 0, FRAME_SIZE);
        match parse_frame(head) {
            Ok(frame) => {
                self.data = slice_subrange(self.data, FRAME_SIZE, n);
                Some(Ok(frame))
            },
            Err(e) => {
                let at: usize = match find_sync(self.data, 1) {
                    Some(p) => {
                        proof {
                            assert(next_sync(before, p as int));
                            let q = choose|q: int| next_sync(before, q);
                            assert(!(q < p) && !(p < q));
                        }
                        p
                    },
                    None => n - 3,
                };
                assert(at == resync_point(before));
                self.data = slice_subrange(self.data, at, n);
                Some(Err(e))
            },
        }
    }
}

/// After an error reading goes on at a sync word, or with fewer bytes than a
/// frame left.
pub proof fn law_resync_finds_a_sync_word(buf: Seq<u8>)
    requires
        buf.len() >= FRAME_SIZE,
    ensures
        0 < resync_point(buf) < buf.len(),
        sync_at(buf.skip(resync_point(buf)), 0) || buf.skip(resync_point(buf)).len() == 3,
{
    if exists|p: int| next_sync(buf, p) {
        let p = choose|p: int| next_sync(buf, p);
        assert(sync_at(buf.skip(p), 0));
    }
}

/// The frames that a reader finds in `buf`, each as its 6144 bytes.
pub open spec fn frames_in(buf: Seq<u8>) -> Seq<Seq<u8>>
    decreases buf.len(),
{
    if buf.len() < FRAME_SIZE {
        Seq::empty()
    } else if is_frame(buf.take(6144)) {
        seq![buf.take(6144)] + frames_in(buf.skip(6144))
    } else {
        proof {
            law_resync_finds_a_sync_word(buf);
        }
        frames_in(buf.skip(resync_point(buf)))
    }
}

/// A stream of whole frames is read back frame by frame.
pub proof fn law_consecutive_frames_are_found(frames: Seq<Seq<u8>>)
    requires
        forall|k: int|
            0 <= k < frames.len() ==> (#[trigger] frames[k]).len() == FRAME_SIZE && is_frame(
                frames[k],
            ),
    ensures
        frames_in(frames.flatten()) == frames,
    decreases frames.len(),
{
    if frames.len() == 0 {
        assert(frames_in(frames.flatten()) =~= frames);
    } else {
        let rest = frames.drop_first();
        law_consecutive_frames_are_found(rest);
        let buf = frames.flatten();
        assert(buf =~= frames.first() + rest.flatten());
        assert(buf.take(6144) =~= frames[0]);
        assert(buf.skip(6144) =~= rest.flatten());
        assert(frames_in(buf) =~= frames);
    }
}

/// Reading goes on with the first sync word behind bytes in which none stands.
pub proof fn law_reading_resumes_after_garbage(garbage: Seq<u8>, rest: Seq<u8>)
    requires
        sync_at(rest, 0),
        forall|j: int| 0 <= j < garbage.len() ==> !#[trigger] sync_at(garbage + rest, j),
    ensures
        frames_in(garbage + rest) == frames_in(rest),
{
    let buf = garbage + rest;
    let at = garbage.len() as int;
    if at == 0 {
        assert(buf =~= rest);
    } else if buf.len() >= FRAME_SIZE {
        assert(!sync_at(buf, 0));
        assert(!is_frame(buf.take(6144)));
        assert(sync_at(buf, at));
        assert(next_sync(buf, at));
        let p = choose|p: int| next_sync(buf, p);
        assert(!(p < at) && !(at < p));
        assert(buf.skip(at) =~= rest);
    }
}

} // verus!
