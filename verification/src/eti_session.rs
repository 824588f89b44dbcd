//! Whole recordings of ETI frames: the ensemble they announce, and the transport
//! packets of one of their sub-channels.

use vstd::prelude::*;
use crate::ensemble::{fib_count, sound_fibs, unknown_ensemble, with_fibs, EnsembleModel};
use crate::ensemble::FicAccumulator;
use crate::eti::{data_fits, fic_start, frames_in, is_frame, msc_start, resync_point};
use crate::eti::{stream_bytes, streams_of, FrameReader, FRAME_SIZE};
use crate::eti::{law_resync_finds_a_sync_word, lemma_stream_bytes_monotone};
use crate::msc::{extract_subchannel, first_stream, has_stream};
use crate::msc::law_parsed_frames_cover_their_streams;
use crate::outer::{after_feed, block_count, initial_state, tally, KoreanTDmbOuterFec, OuterState, Stats};
use crate::outer::{lemma_packets_join, lemma_tally_sum, packets_match, TsPacket};

verus! {

/// The sub-channel data of every frame in a recording lies within the frame.
pub open spec fn recording_fits(bytes: Seq<u8>) -> bool {
    forall|k: int| 0 <= k < frames_in(bytes).len() ==> data_fits(#[trigger] frames_in(bytes)[k])
}

/// The fast information channel of a frame.
pub open spec fn frame_fic(frame: Seq<u8>) -> Seq<u8> {
    frame.subrange(fic_start(frame), msc_start(frame))
}

/// The ensemble after the first `n` frames.
pub open spec fn ensemble_after(frames: Seq<Seq<u8>>, n: int) -> EnsembleModel
    decreases n,
{
    if n <= 0 {
        unknown_ensemble()
    } else {
        let fic = frame_fic(frames[n - 1]);
        with_fibs(ensemble_after(frames, n - 1), fic, fib_count(fic))
    }
}

/// Blocks in the first `n` frames.
pub open spec fn blocks_after(frames: Seq<Seq<u8>>, n: int) -> int
    decreases n,
{
    if n <= 0 {
        0
    } else {
        blocks_after(frames, n - 1) + fib_count(frame_fic(frames[n - 1]))
    }
}

/// Sound blocks in the first `n` frames.
pub open spec fn sound_after(frames: Seq<Seq<u8>>, n: int) -> int
    decreases n,
{
    if n <= 0 {
        0
    } else {
        let fic = frame_fic(frames[n - 1]);
        sound_after(frames, n - 1) + sound_fibs(fic, fib_count(fic))
    }
}

/// The data of sub-channel `id` in a frame; empty if the frame is marked as
/// erroneous or does not carry it.
pub open spec fn frame_sub_channel(frame: Seq<u8>, id: u8) -> Seq<u8> {
    let streams = streams_of(frame);
    if frame[0] == 0xFF && has_stream(streams, id) {
        let k = choose|k: int| first_stream(streams, id, k);
        frame.subrange(
            msc_start(frame) + stream_bytes(streams, k),
            msc_start(frame) + stream_bytes(streams, k + 1),
        )
    } else {
        Seq::empty()
    }
}

/// The outer code's state after sub-channel `id` of the first `n` frames.
pub open spec fn fec_after(frames: Seq<Seq<u8>>, id: u8, n: int) -> OuterState
    decreases n,
{
    if n <= 0 {
        initial_state()
    } else {
        after_feed(fec_after(frames, id, n - 1), frame_sub_channel(frames[n - 1], id))
    }
}

/// Whether every frame of a recording can be read.
pub fn can_read_all(bytes: &[u8]) -> (r: bool)
    ensures
        r == recording_fits(bytes@),
{
    let mut reader: FrameReader<'_> = FrameReader::new(bytes);
    let ghost all = frames_in(bytes@);
    let ghost mut n: int = 0;
    assert(all =~= all.take(0) + frames_in(bytes@));
    while reader.left() >= FRAME_SIZE
        invariant
            all == frames_in(bytes@),
            0 <= n <= all.len(),
            all == all.take(n) + frames_in(reader.remaining()),
            forall|k: int| 0 <= k < n ==> data_fits(#[trigger] all[k]),
        decreases reader.remaining().len(),
    {
        let ghost before = reader.remaining();
        if !reader.can_read() {
            proof {
                assert(frames_in(before)[0] == before.take(6144));
                assert(all[n] == before.take(6144));
            }
            return false;
        }
        let r = reader.next();
        proof {
            lemma_step(all, n, before);
            if is_frame(before.take(6144)) {
                assert(all[n] == before.take(6144));
                n = n + 1;
            }
        }
    }
    assert(frames_in(reader.remaining()).len() == 0);
    assert(n == all.len());
    true
}

proof fn lemma_step(all: Seq<Seq<u8>>, n: int, before: Seq<u8>)
    requires
        0 <= n <= all.len(),
        all == all.take(n) + frames_in(before),
        before.len() >= FRAME_SIZE,
    ensures
        is_frame(before.take(6144)) ==> n < all.len() && all[n] == before.take(6144) && all
            == all.take(n + 1) + frames_in(before.skip(6144)),
        !is_frame(before.take(6144)) ==> all == all.take(n) + frames_in(
            before.skip(resync_point(before)),
        ),
{
    law_resync_finds_a_sync_word(before);
    if is_frame(before.take(6144)) {
        let rest = frames_in(before.skip(6144));
        assert(frames_in(before) == seq![before.take(6144)] + rest);
        assert(all[n] == frames_in(before)[0]);
        assert(all.take(n + 1) =~= all.take(n).push(before.take(6144)));
        assert(all =~= all.take(n + 1) + rest);
    }
}

proof fn lemma_block_totals(frames: Seq<Seq<u8>>, n: int)
    requires
        n <= frames.len(),
        forall|k: int| 0 <= k < frames.len() ==> is_frame(#[trigger] frames[k]) && data_fits(
            frames[k],
        ),
    ensures
        0 <= blocks_after(frames, n) <= if n < 0 {
            0
        } else {
            4 * n
        },
    decreases n,
{
    if n > 0 {
        lemma_block_totals(frames, n - 1);
        let f = frames[n - 1];
        lemma_stream_bytes_monotone(streams_of(f), 0, crate::eti::stream_count(f));
        assert(frame_fic(f).len() <= 128);
    }
}

proof fn lemma_frame_count(buf: Seq<u8>)
    ensures
        6144 * frames_in(buf).len() <= buf.len(),
        forall|k: int| 0 <= k < frames_in(buf).len() ==> is_frame(#[trigger] frames_in(buf)[k]),
        forall|k: int|
            0 <= k < frames_in(buf).len() ==> (#[trigger] frames_in(buf)[k]).len() == 6144,
    decreases buf.len(),
{
    if buf.len() >= FRAME_SIZE {
        law_resync_finds_a_sync_word(buf);
        if is_frame(buf.take(6144)) {
            lemma_frame_count(buf.skip(6144));
        } else {
            lemma_frame_count(buf.skip(resync_point(buf)));
        }
    }
}

/// Gathers the ensemble that a recording announces.
pub fn gather_ensemble(bytes: &[u8]) -> (acc: FicAccumulator)
    requires
        recording_fits(bytes@),
    ensures
        acc.wf(),
        acc.ensemble@ == ensemble_after(frames_in(bytes@), frames_in(bytes@).len() as int),
        acc.fib_total == blocks_after(frames_in(bytes@), frames_in(bytes@).len() as int),
        acc.fib_ok == sound_after(frames_in(bytes@), frames_in(bytes@).len() as int),
{
    let mut reader: FrameReader<'_> = FrameReader::new(bytes);
    let mut acc: FicAccumulator = FicAccumulator::new();
    let ghost all = frames_in(bytes@);
    let ghost mut n: int = 0;
    assert(all =~= all.take(0) + frames_in(bytes@));
    proof {
        lemma_frame_count(bytes@);
        assert(bytes.len() <= usize::MAX);
    }
    while reader.left() >= FRAME_SIZE
        invariant
            all == frames_in(bytes@),
            recording_fits(bytes@),
            forall|k: int| 0 <= k < all.len() ==> is_frame(#[trigger] all[k]),
            6144 * all.len() <= usize::MAX,
            0 <= n <= all.len(),
            all == all.take(n) + frames_in(reader.remaining()),
            acc.wf(),
            acc.ensemble@ == ensemble_after(all, n),
            acc.fib_total == blocks_after(all, n),
            acc.fib_ok == sound_after(all, n),
        decreases reader.remaining().len(),
    {
        let ghost before = reader.remaining();
        proof {
            lemma_step(all, n, before);
        }
        match reader.next() {
            Some(Ok(frame)) => {
                proof {
                    assert(data_fits(all[n]));
                    assert(frame.fic@ == frame_fic(all[n]));
                    lemma_block_totals(all, n + 1);
                }
                if frame.fic.len() > 0 {
                    acc.feed_fic(frame.fic.as_slice());
                } else {
                    assert(fib_count(frame.fic@) == 0);
                }
                proof {
                    n = n + 1;
                }
            },
            Some(Err(_)) => {},
            None => {},
        }
    }
    assert(frames_in(reader.remaining()).len() == 0);
    assert(n == all.len());
    acc
}

/// What became of a sub-channel of a recording.
pub struct FecReport {
    /// Transport packets.
    pub packets: Vec<TsPacket>,
    /// Packets that were good or could be corrected.
    pub ok: usize,
    /// Counters of the outer code.
    pub stats: Stats,
}

proof fn lemma_fec_bytes(frames: Seq<Seq<u8>>, id: u8, n: int)
    requires
        n <= frames.len(),
        forall|k: int| 0 <= k < frames.len() ==> is_frame(#[trigger] frames[k]) && data_fits(
            frames[k],
        ) && frames[k].len() == 6144,
    ensures
        0 <= fec_after(frames, id, n).bytes_in <= if n < 0 {
            0
        } else {
            6144 * n
        },
        fec_after(frames, id, n).phase < 0 ==> fec_after(frames, id, n).fed.len() == 0,
    decreases n,
{
    if n > 0 {
        lemma_fec_bytes(frames, id, n - 1);
        let f = frames[n - 1];
        let streams = streams_of(f);
        if f[0] == 0xFF && has_stream(streams, id) {
            let k = choose|k: int| first_stream(streams, id, k);
            lemma_stream_bytes_monotone(streams, k, k + 1);
            lemma_stream_bytes_monotone(streams, k + 1, crate::eti::stream_count(f));
            lemma_stream_bytes_monotone(streams, 0, k);
        }
        assert(frame_sub_channel(f, id).len() <= 6144);
    }
}

/// Decodes sub-channel `id` of a recording.
pub fn decode_sub_channel(bytes: &[u8], id: u8) -> (r: FecReport)
    requires
        recording_fits(bytes@),
    ensures
        ({
            let s = fec_after(frames_in(bytes@), id, frames_in(bytes@).len() as int);
            let blocks = block_count(s.fed);
            &&& r.packets@.len() == blocks
            &&& packets_match(r.packets@, s.fed, 0)
            &&& r.ok == tally(s.fed, blocks, 0) + tally(s.fed, blocks, 1)
            &&& r.stats.bytes_in == s.bytes_in
            &&& r.stats.aligned == (s.phase >= 0)
            &&& r.stats.phase_offset == s.phase
            &&& r.stats.rs_total == blocks
            &&& r.stats.rs_ok == tally(s.fed, blocks, 0)
            &&& r.stats.rs_corrected == tally(s.fed, blocks, 1)
            &&& r.stats.rs_failed == tally(s.fed, blocks, -1)
            &&& r.stats.bytes_discarded_presync == s.discarded
        }),
{
    let mut reader: FrameReader<'_> = FrameReader::new(bytes);
    let mut fec: KoreanTDmbOuterFec = KoreanTDmbOuterFec::new();
    let mut packets: Vec<TsPacket> = Vec::new();
    let ghost all = frames_in(bytes@);
    let ghost mut n: int = 0;
    assert(all =~= all.take(0) + frames_in(bytes@));
    proof {
        lemma_frame_count(bytes@);
        assert(bytes.len() <= usize::MAX);
    }
    while reader.left() >= FRAME_SIZE
        invariant
            all == frames_in(bytes@),
            recording_fits(bytes@),
            forall|k: int| 0 <= k < all.len() ==> is_frame(#[trigger] all[k]),
            forall|k: int| 0 <= k < all.len() ==> (#[trigger] all[k]).len() == 6144,
            6144 * all.len() <= usize::MAX,
            0 <= n <= all.len(),
            all == all.take(n) + frames_in(reader.remaining()),
            fec.wf(),
            fec.state() == fec_after(all, id, n),
            packets@.len() == block_count(fec.state().fed),
            packets_match(packets@, fec.state().fed, 0),
        decreases reader.remaining().len(),
    {
        let ghost before = reader.remaining();
        proof {
            lemma_step(all, n, before);
        }
        match reader.next() {
            Some(Ok(frame)) => {
                let ghost raw = all[n];
                let ghost state = fec.state();
                proof {
                    assert(data_fits(raw));
                    law_parsed_frames_cover_their_streams(raw, frame);
                    lemma_stream_bytes_monotone(frame.streams@, 0, frame.streams@.len() as int);
                    lemma_fec_bytes(all, id, n);
                    lemma_fec_bytes(all, id, n + 1);
                }
                match extract_subchannel(&frame, id) {
                    Some(chunk) => {
                        proof {
                            let k = choose|k: int| first_stream(frame.streams@, id, k);
                            assert(chunk@ =~= frame_sub_channel(raw, id));
                        }
                        let mut more: Vec<TsPacket> = fec.feed(chunk);
                        proof {
                            assert((state.fed + chunk@).take(state.fed.len() as int)
                                =~= state.fed);
                            assert(state.fed.take(state.fed.len() as int) =~= state.fed);
                            lemma_packets_join(
                                packets@,
                                more@,
                                state.fed,
                                fec.state().fed,
                            );
                        }
                        packets.append(&mut more);
                    },
                    None => {
                        assert(frame_sub_channel(raw, id).len() == 0);
                    },
                }
                proof {
                    n = n + 1;
                }
            },
            Some(Err(_)) => {},
            None => {},
        }
    }
    assert(frames_in(reader.remaining()).len() == 0);
    assert(n == all.len());
    let stats: Stats = fec.stats();
    proof {
        lemma_tally_sum(fec.state().fed, block_count(fec.state().fed));
    }
    let ok: usize = stats.rs_ok + stats.rs_corrected;
    FecReport { packets, ok, stats }
}

} // verus!
