//! Putting a frame together and reading it back.

use vstd::prelude::*;
use crate::eti::{data_fits, error_matches, frame_matches, is_frame, stream_bytes, streams_of};
use crate::eti::{lemma_stream_bytes_monotone, msc_start, stream_at, stream_count, EtiError, Frame};
use crate::eti::StreamChar;
use crate::ensemble::sound_fibs;
use crate::ensemble_laws::gathered_from;
use crate::eti_session::{blocks_after, ensemble_after, fec_after, frame_fic, frame_sub_channel};
use crate::eti_session::sound_after;
use crate::outer::after_feeds;
use crate::msc::{first_stream, has_stream, stream_data};

verus! {

/// What a frame is put together from.
pub struct FrameParts {
    pub err: u8,
    /// The sync word is that of an even frame.
    pub even: bool,
    pub fct: u8,
    pub fic_present: bool,
    pub fp: u8,
    pub mid: u8,
    pub fl: u16,
    pub streams: Seq<StreamChar>,
    /// End of header.
    pub eoh: Seq<u8>,
    pub fic: Seq<u8>,
    /// Data of the streams, stream by stream.
    pub data: Seq<Seq<u8>>,
    /// End of frame, time stamp and padding.
    pub rest: Seq<u8>,
}

/// The fields have their widths, and every part has its length.
pub open spec fn well_formed_parts(p: FrameParts) -> bool {
    &&& p.fp < 8
    &&& p.mid < 4
    &&& p.fl < 2048
    &&& p.streams.len() < 128
    &&& p.data.len() == p.streams.len()
    &&& forall|k: int|
        0 <= k < p.streams.len() ==> {
            &&& (#[trigger] p.streams[k]).scid < 64
            &&& p.streams[k].sad < 1024
            &&& p.streams[k].tpl < 64
            &&& p.streams[k].stl < 1024
            &&& p.data[k].len() == 8 * p.streams[k].stl
        }
    &&& p.eoh.len() == 4
    &&& p.fic.len() == if p.fic_present && p.mid != 3 {
        128int
    } else {
        0
    }
    &&& built_frame(p).len() >= 6144
}

/// The four bytes of a stream descriptor: six bits of id, ten of address, six of
/// protection and ten of length.
pub open spec fn descriptor(s: StreamChar) -> Seq<u8> {
    seq![
        (4 * s.scid + s.sad / 256) as u8,
        (s.sad % 256) as u8,
        (4 * s.tpl + s.stl / 256) as u8,
        (s.stl % 256) as u8,
    ]
}

/// The descriptors of the first `n` streams.
pub open spec fn descriptors(streams: Seq<StreamChar>, n: int) -> Seq<u8>
    decreases n,
{
    if n <= 0 {
        Seq::empty()
    } else {
        descriptors(streams, n - 1) + descriptor(streams[n - 1])
    }
}

/// The first `n` of `parts`, one after the other.
pub open spec fn joined_parts(parts: Seq<Seq<u8>>, n: int) -> Seq<u8>
    decreases n,
{
    if n <= 0 {
        Seq::empty()
    } else {
        joined_parts(parts, n - 1) + parts[n - 1]
    }
}

/// The eight bytes in front of the descriptors.
pub open spec fn frame_head(p: FrameParts) -> Seq<u8> {
    seq![
        p.err,
        if p.even { 0x07u8 } else { 0xf8 },
        if p.even { 0x3au8 } else { 0xc5 },
        if p.even { 0xb6u8 } else { 0x49 },
        p.fct,
        (p.streams.len() + if p.fic_present { 128int } else { 0 }) as u8,
        (32 * p.fp + 8 * p.mid + p.fl / 256) as u8,
        (p.fl % 256) as u8,
    ]
}

/// The frame: header, descriptors, end of header, fast information channel, the
/// streams' data, and what follows.
pub open spec fn built_frame(p: FrameParts) -> Seq<u8> {
    frame_head(p) + descriptors(p.streams, p.streams.len() as int) + p.eoh + p.fic + joined_parts(
        p.data,
        p.data.len() as int,
    ) + p.rest
}

proof fn lemma_descriptors(streams: Seq<StreamChar>, n: int, k: int)
    requires
        0 <= n,
    ensures
        descriptors(streams, n).len() == 4 * n,
        0 <= k < n ==> descriptors(streams, n).subrange(4 * k, 4 * k + 4) == descriptor(streams[k]),
    decreases n,
{
    if n > 0 {
        lemma_descriptors(streams, n - 1, k);
        let before = descriptors(streams, n - 1);
        let now = descriptors(streams, n);
        if 0 <= k < n - 1 {
            assert(now.subrange(4 * k, 4 * k + 4) =~= before.subrange(4 * k, 4 * k + 4));
        } else if k == n - 1 {
            assert(now.subrange(4 * k, 4 * k + 4) =~= descriptor(streams[k]));
        }
    }
}

proof fn lemma_parts(p: FrameParts, n: int, k: int)
    requires
        well_formed_parts(p),
        0 <= n <= p.streams.len(),
    ensures
        joined_parts(p.data, n).len() == stream_bytes(p.streams, n),
        0 <= k < n ==> 0 <= stream_bytes(p.streams, k) <= stream_bytes(p.streams, k + 1)
            <= stream_bytes(p.streams, n),
        0 <= k < n ==> joined_parts(p.data, n).subrange(
            stream_bytes(p.streams, k),
            stream_bytes(p.streams, k + 1),
        ) == p.data[k],
    decreases n,
{
    if n > 0 {
        lemma_parts(p, n - 1, k);
        assert(p.data[n - 1].len() == 8 * p.streams[n - 1].stl);
        let now = joined_parts(p.data, n);
        let before = joined_parts(p.data, n - 1);
        if 0 <= k < n {
            lemma_stream_bytes_monotone(p.streams, k, k + 1);
            lemma_stream_bytes_monotone(p.streams, k + 1, n);
            lemma_stream_bytes_monotone(p.streams, n - 1, n);
        }
        if 0 <= k < n - 1 {
            let (a, b) = (stream_bytes(p.streams, k), stream_bytes(p.streams, k + 1));
            lemma_stream_bytes_monotone(p.streams, k + 1, n - 1);
            assert(now.subrange(a, b) =~= before.subrange(a, b));
        } else if k == n - 1 {
            assert(now.subrange(
                stream_bytes(p.streams, k),
                stream_bytes(p.streams, k + 1),
            ) =~= p.data[k]);
        }
    }
}

proof fn lemma_built_layout(p: FrameParts)
    requires
        well_formed_parts(p),
    ensures
        ({
            let buf = built_frame(p);
            let n = p.streams.len() as int;
            let body = 12 + 4 * n + p.fic.len();
            let data = joined_parts(p.data, n);
            &&& is_frame(buf)
            &&& stream_count(buf) == n
            &&& streams_of(buf) == p.streams
            &&& msc_start(buf) == body
            &&& stream_bytes(p.streams, n) == data.len()
            &&& data_fits(buf)
            &&& buf.subrange(12 + 4 * n, body) == p.fic
            &&& buf.subrange(body, body + data.len()) == data
        }),
{
    let buf = built_frame(p);
    let head = frame_head(p);
    let n = p.streams.len() as int;
    let words = descriptors(p.streams, n);
    let data = joined_parts(p.data, n);
    let body = 12 + 4 * n + p.fic.len();
    lemma_descriptors(p.streams, n, 0);
    lemma_parts(p, n, 0);
    assert(head.len() == 8 && words.len() == 4 * n);
    assert forall|i: int| 0 <= i < 8 implies #[trigger] buf[i] == head[i] by {}
    assert(buf[5] as int % 128 == n);
    assert forall|k: int| 0 <= k < n implies #[trigger] streams_of(buf)[k] == p.streams[k] by {
        lemma_descriptors(p.streams, n, k);
        let s = p.streams[k];
        let w = descriptor(s);
        assert forall|j: int| 0 <= j < 4 implies #[trigger] buf[8 + 4 * k + j] == w[j] by {
            assert(words.subrange(4 * k, 4 * k + 4)[j] == words[4 * k + j]);
        }
        assert(buf[8 + 4 * k + 0] == w[0]);
        assert(stream_at(buf, k) == s);
    }
    assert(streams_of(buf) =~= p.streams);
    assert(buf.subrange(12 + 4 * n, body) =~= p.fic);
    assert(buf.subrange(body, body + data.len()) =~= data);
}

/// The bytes in front of the descriptors, as a reader takes them apart.
spec fn head_matches(p: FrameParts, buf: Seq<u8>) -> bool {
    &&& buf[0] == p.err
    &&& buf[4] == p.fct
    &&& (buf[5] >= 128) == p.fic_present
    &&& buf[5] as int % 128 == p.streams.len()
    &&& buf[6] / 32 == p.fp
    &&& (buf[6] as int / 8) % 4 == p.mid
    &&& (buf[6] as int % 8) * 256 + buf[7] == p.fl
}

proof fn lemma_built_head(p: FrameParts)
    requires
        well_formed_parts(p),
    ensures
        head_matches(p, built_frame(p)),
{
    let buf = built_frame(p);
    let head = frame_head(p);
    assert forall|i: int| 0 <= i < 8 implies #[trigger] buf[i] == head[i] by {}
    assert(buf[0] == head[0] && buf[4] == head[4] && buf[5] == head[5] && buf[6] == head[6]
        && buf[7] == head[7]);
}

proof fn lemma_read_back(
    buf: Seq<u8>,
    frame: Frame,
    streams: Seq<StreamChar>,
    fic: Seq<u8>,
    data: Seq<u8>,
)
    requires
        frame_matches(buf, frame),
        stream_count(buf) == streams.len(),
        streams_of(buf) == streams,
        msc_start(buf) == 12 + 4 * streams.len() + fic.len(),
        stream_bytes(streams, streams.len() as int) == data.len(),
        buf.subrange(12 + 4 * (streams.len() as int), msc_start(buf)) == fic,
        buf.subrange(msc_start(buf), msc_start(buf) + data.len()) == data,
    ensures
        frame.streams@ == streams,
        frame.nst == streams.len(),
        frame.fic@ == fic,
        frame.msc@ == data,
{
}

/// Reading undoes putting together, for every number of streams: what is parsed from a
/// built frame has its fields, its streams, its fast information channel, and for
/// every stream its data.
pub proof fn law_parsing_undoes_building(p: FrameParts, frame: Frame)
    requires
        well_formed_parts(p),
        frame_matches(built_frame(p), frame),
    ensures
        is_frame(built_frame(p)),
        data_fits(built_frame(p)),
        frame.err == p.err,
        frame.fct == p.fct,
        frame.fic_present == p.fic_present,
        frame.nst == p.streams.len(),
        frame.fp == p.fp,
        frame.mid == p.mid,
        frame.fl == p.fl,
        frame.streams@ == p.streams,
        frame.fic@ == p.fic,
        frame.msc@ == joined_parts(p.data, p.data.len() as int),
        forall|k: int| 0 <= k < p.data.len() ==> #[trigger] stream_data(frame, k) == p.data[k],
{
    let n = p.streams.len() as int;
    lemma_built_layout(p);
    lemma_built_head(p);
    lemma_parts(p, n, 0);
    lemma_read_back(built_frame(p), frame, p.streams, p.fic, joined_parts(p.data, n));
    assert forall|k: int| 0 <= k < p.data.len() implies #[trigger] stream_data(frame, k)
        == p.data[k] by {
        lemma_parts(p, n, k);
    }
}

/// What a recording's decoder takes out of a built frame: its fast information channel,
/// and the data of the first stream with the sub-channel's id unless the frame is
/// marked as erroneous.
pub proof fn law_sessions_read_built_frames(p: FrameParts, k: int)
    requires
        well_formed_parts(p),
        0 <= k < p.streams.len(),
        forall|j: int| 0 <= j < k ==> (#[trigger] p.streams[j]).scid != p.streams[k].scid,
    ensures
        frame_fic(built_frame(p)) == p.fic,
        p.err == 0xFF ==> frame_sub_channel(built_frame(p), p.streams[k].scid) == p.data[k],
        p.err != 0xFF ==> frame_sub_channel(built_frame(p), p.streams[k].scid).len() == 0,
{
    let n = p.streams.len() as int;
    lemma_built_layout(p);
    lemma_built_head(p);
    lemma_parts(p, n, k);
    lemma_cut_out(built_frame(p), p.streams, k, joined_parts(p.data, n));
}

proof fn lemma_cut_out(buf: Seq<u8>, streams: Seq<StreamChar>, k: int, data: Seq<u8>)
    requires
        streams_of(buf) == streams,
        0 <= k < streams.len(),
        forall|j: int| 0 <= j < k ==> (#[trigger] streams[j]).scid != streams[k].scid,
        0 <= stream_bytes(streams, k) <= stream_bytes(streams, k + 1) <= data.len(),
        0 <= msc_start(buf),
        msc_start(buf) + data.len() <= buf.len(),
        buf.subrange(msc_start(buf), msc_start(buf) + data.len()) == data,
    ensures
        buf[0] == 0xFF ==> frame_sub_channel(buf, streams[k].scid) == data.subrange(
            stream_bytes(streams, k),
            stream_bytes(streams, k + 1),
        ),
        buf[0] != 0xFF ==> frame_sub_channel(buf, streams[k].scid).len() == 0,
{
    let id = streams[k].scid;
    assert(first_stream(streams, id, k));
    let j = choose|j: int| first_stream(streams, id, j);
    assert(j == k);
    let body = msc_start(buf);
    let (a, b) = (stream_bytes(streams, k), stream_bytes(streams, k + 1));
    assert(buf.subrange(body + a, body + b) =~= data.subrange(a, b));
}

/// A sub-channel that no stream carries has no data.
pub proof fn law_absent_sub_channels_are_empty(p: FrameParts, id: u8)
    requires
        well_formed_parts(p),
        forall|j: int| 0 <= j < p.streams.len() ==> (#[trigger] p.streams[j]).scid != id,
    ensures
        frame_sub_channel(built_frame(p), id).len() == 0,
{
    lemma_built_layout(p);
    assert(!has_stream(streams_of(built_frame(p)), id));
}

/// A frame is told by its length and by the sync word 07-3A-B6 or F8-C5-49 behind its
/// first byte; what is refused says how many bytes there were, or which word.
pub proof fn law_frames_start_with_a_sync_word(buf: Seq<u8>, e: EtiError)
    requires
        error_matches(buf, e),
    ensures
        is_frame(buf) <==> buf.len() >= 6144 && (buf.subrange(1, 4) == seq![0x07u8, 0x3a, 0xb6]
            || buf.subrange(1, 4) == seq![0xf8u8, 0xc5, 0x49]),
        buf.len() < 6144 ==> e == EtiError::ShortFrame(buf.len() as usize),
        buf.len() >= 6144 ==> e is BadFsync && 0x1_00_00 * buf[1] + 0x1_00 * buf[2] + buf[3]
            == e->BadFsync_0,
{
    if buf.len() >= 6144 {
        let w = buf.subrange(1, 4);
        assert(w[0] == buf[1] && w[1] == buf[2] && w[2] == buf[3]);
        if is_frame(buf) {
            assert(w =~= seq![0x07u8, 0x3a, 0xb6] || w =~= seq![0xf8u8, 0xc5, 0x49]);
        }
    }
}

/// A recording is taken in frame by frame, in order and without leaving one out: the
/// ensemble is that of all their fast information, and the outer code gets the
/// sub-channel of each.
pub proof fn law_sessions_take_every_frame(frames: Seq<Seq<u8>>, id: u8, n: int)
    requires
        n <= frames.len(),
    ensures
        ensemble_after(frames, n) == gathered_from(
            Seq::new(frames.len(), |k: int| frame_fic(frames[k])),
            n,
        ),
        fec_after(frames, id, n) == after_feeds(
            Seq::new(frames.len(), |k: int| frame_sub_channel(frames[k], id)),
            n,
        ),
    decreases n,
{
    if n > 0 {
        law_sessions_take_every_frame(frames, id, n - 1);
    }
}

/// A frame with its fast information channel adds four blocks to the count, and as many
/// sound ones as there are among them; one without adds none.
pub proof fn law_sessions_count_blocks(frames: Seq<Seq<u8>>, p: FrameParts)
    requires
        well_formed_parts(p),
    ensures
        ({
            let more = frames.push(built_frame(p));
            let n = frames.len() as int;
            &&& blocks_after(more, n + 1) == blocks_after(frames, n) + if p.fic_present && p.mid
                != 3 {
                4int
            } else {
                0
            }
            &&& sound_after(more, n + 1) == sound_after(frames, n) + sound_fibs(
                p.fic,
                if p.fic_present && p.mid != 3 {
                    4
                } else {
                    0
                },
            )
        }),
{
    lemma_counts_stable(frames, built_frame(p), frames.len() as int);
    lemma_built_layout(p);
    lemma_built_fic(p);
}

proof fn lemma_built_fic(p: FrameParts)
    requires
        well_formed_parts(p),
    ensures
        frame_fic(built_frame(p)) == p.fic,
{
    lemma_built_layout(p);
}

proof fn lemma_counts_stable(frames: Seq<Seq<u8>>, next: Seq<u8>, n: int)
    requires
        n <= frames.len(),
    ensures
        blocks_after(frames.push(next), n) == blocks_after(frames, n),
        sound_after(frames.push(next), n) == sound_after(frames, n),
    decreases n,
{
    if n > 0 {
        lemma_counts_stable(frames, next, n - 1);
    }
}

} // verus!
