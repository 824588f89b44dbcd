//! Sub-channels of a frame's main service channel.

use vstd::prelude::*;
use vstd::slice::slice_subrange;
use crate::eti::{data_fits, frame_matches, is_frame, stream_bytes, Frame, StreamChar};
use crate::eti::lemma_stream_bytes_monotone;

verus! {

/// `k` is the first stream with sub-channel id `id`.
pub open spec fn first_stream(streams: Seq<StreamChar>, id: u8, k: int) -> bool {
    &&& 0 <= k < streams.len()
    &&& streams[k].scid == id
    &&& forall|j: int| 0 <= j < k ==> (#[trigger] streams[j]).scid != id
}

/// Some stream has sub-channel id `id`.
pub open spec fn has_stream(streams: Seq<StreamChar>, id: u8) -> bool {
    exists|k: int| first_stream(streams, id, k)
}

/// The bytes of stream `k`.
pub open spec fn stream_data(frame: Frame, k: int) -> Seq<u8> {
    frame.msc@.subrange(stream_bytes(frame.streams@, k), stream_bytes(frame.streams@, k + 1))
}

/// The sub-channel data covers every stream.
pub open spec fn covers_streams(frame: Frame) -> bool {
    stream_bytes(frame.streams@, frame.streams@.len() as int) <= frame.msc@.len()
}

/// The bytes of sub-channel `sub_ch_id`; none in a frame that is marked as
/// erroneous or does not carry it.
pub fn extract_subchannel<'a>(frame: &'a Frame, sub_ch_id: u8) -> (r: Option<&'a [u8]>)
    requires
        frame.err == 0xFF ==> forall|k: int| #[trigger]
            first_stream(frame.streams@, sub_ch_id, k) ==> stream_bytes(frame.streams@, k + 1)
                <= frame.msc@.len(),
        stream_bytes(frame.streams@, frame.streams@.len() as int) <= usize::MAX,
    ensures
        r is Some <==> frame.err == 0xFF && has_stream(frame.streams@, sub_ch_id),
        r matches Some(data) ==> forall|k: int| #[trigger]
            first_stream(frame.streams@, sub_ch_id, k) ==> data@ == stream_data(*frame, k),
{
    if frame.err != 0xFF {
        return None;
    }
    let mut offset: usize = 0;
    let mut k: usize = 0;
    while k < frame.streams.len()
        invariant
            frame.err == 0xFF,
            forall|k: int| #[trigger]
                first_stream(frame.streams@, sub_ch_id, k) ==> stream_bytes(frame.streams@, k + 1)
                    <= frame.msc@.len(),
            stream_bytes(frame.streams@, frame.streams@.len() as int) <= usize::MAX,
            k <= frame.streams@.len(),
            offset == stream_bytes(frame.streams@, k as int),
            forall|j: int| 0 <= j < k ==> (#[trigger] frame.streams@[j]).scid != sub_ch_id,
        decreases frame.streams@.len() - k,
    {
        let length: usize = frame.streams[k].length_bytes();
        proof {
            lemma_stream_bytes_monotone(frame.streams@, k + 1, frame.streams@.len() as int);
            lemma_stream_bytes_monotone(frame.streams@, k as int, k + 1);
        }
        if frame.streams[k].scid == sub_ch_id {
            assert(first_stream(frame.streams@, sub_ch_id, k as int));
            let data: &[u8] = slice_subrange(frame.msc.as_slice(), offset, offset + length);
            proof {
                assert forall|j: int| #[trigger]
                    first_stream(frame.streams@, sub_ch_id, j) implies data@ == stream_data(
                    *frame,
                    j,
                ) by {
                    assert(j == k);
                }
            }
            return Some(data);
        }
        offset += length;
        k += 1;
    }
    None
}

/// Bytes per frame of sub-channel `sub_ch_id`, if the frame carries it.
pub fn find_subchannel_size(frame: &Frame, sub_ch_id: u8) -> (r: Option<usize>)
    ensures
        r is Some <==> has_stream(frame.streams@, sub_ch_id),
        r matches Some(n) ==> forall|k: int| #[trigger]
            first_stream(frame.streams@, sub_ch_id, k) ==> n == 8 * frame.streams@[k].stl,
{
    let mut k: usize = 0;
    while k < frame.streams.len()
        invariant
            k <= frame.streams@.len(),
            forall|j: int| 0 <= j < k ==> (#[trigger] frame.streams@[j]).scid != sub_ch_id,
        decreases frame.streams@.len() - k,
    {
        if frame.streams[k].scid == sub_ch_id {
            let n: usize = frame.streams[k].length_bytes();
            assert(first_stream(frame.streams@, sub_ch_id, k as int));
            proof {
                assert forall|j: int| #[trigger]
                    first_stream(frame.streams@, sub_ch_id, j) implies n == 8
                    * frame.streams@[j].stl by {
                    assert(j == k);
                }
            }
            return Some(n);
        }
        k += 1;
    }
    None
}

/// The streams' data, one after the other, is the sub-channel data.
pub proof fn law_streams_partition_the_data(frame: Frame, n: int)
    requires
        0 <= n <= frame.streams@.len(),
        covers_streams(frame),
    ensures
        Seq::new(n as nat, |k: int| stream_data(frame, k)).flatten() == frame.msc@.take(
            stream_bytes(frame.streams@, n),
        ),
    decreases n,
{
    let parts = Seq::new(n as nat, |k: int| stream_data(frame, k));
    if n == 0 {
        assert(parts.flatten() =~= frame.msc@.take(0));
    } else {
        law_streams_partition_the_data(frame, n - 1);
        let init = Seq::new((n - 1) as nat, |k: int| stream_data(frame, k));
        assert(parts.drop_last() =~= init);
        parts.lemma_flatten_and_flatten_alt_are_equivalent();
        init.lemma_flatten_and_flatten_alt_are_equivalent();
        lemma_stream_bytes_monotone(frame.streams@, n, frame.streams@.len() as int);
        lemma_stream_bytes_monotone(frame.streams@, n - 1, n);
        assert(parts.flatten() =~= frame.msc@.take(stream_bytes(frame.streams@, n)));
    }
}

/// A parsed frame holds the data of all its streams, so every sub-channel of it
/// can be taken out.
pub proof fn law_parsed_frames_cover_their_streams(buf: Seq<u8>, frame: Frame)
    requires
        is_frame(buf),
        data_fits(buf),
        frame_matches(buf, frame),
    ensures
        covers_streams(frame),
        frame.msc@.len() == stream_bytes(frame.streams@, frame.streams@.len() as int),
        forall|id: u8, k: int| #[trigger]
            first_stream(frame.streams@, id, k) ==> 0 <= stream_bytes(frame.streams@, k)
                <= stream_bytes(frame.streams@, k + 1) <= frame.msc@.len(),
{
    let n = frame.streams@.len() as int;
    assert forall|id: u8, k: int| #[trigger] first_stream(frame.streams@, id, k) implies 0
        <= stream_bytes(frame.streams@, k) <= stream_bytes(frame.streams@, k + 1)
        <= frame.msc@.len() by {
        lemma_stream_bytes_monotone(frame.streams@, k, k + 1);
        lemma_stream_bytes_monotone(frame.streams@, k + 1, n);
    }
    lemma_stream_bytes_monotone(frame.streams@, 0, n);
}

} // verus!
