//! T-DMB outer code: alignment on the transport-stream sync byte, deinterleaving,
//! and Reed-Solomon decoding into transport packets.
//!
//! A sub-channel stream holds interleaved 204-byte blocks whose first byte is
//! 0x47.  A capture starts anywhere in a block, so the phase of the sync byte is
//! found first, and the deinterleaver is started on it.  Its first 2244 bytes are
//! the settling transient and are dropped.

use vstd::prelude::*;
use crate::interleaver::{deinterleaved, interleaved, ConvolutionalDeinterleaver};
use crate::rs::{block_errors, block_message, protects, wrong_bytes, RsDecoder, RsResult};

verus! {

/// Transport packet size.
pub const TS_PACKET_SIZE: usize = 188;

/// Reed-Solomon block size.
pub const RS_BLOCK_SIZE: usize = 204;

/// Delay of interleaver and deinterleaver together.
pub const DEINTERLEAVER_LATENCY: usize = 2244;

/// Bytes that are needed before the phase is looked for.
pub const PRESYNC_PROBE_BYTES: usize = 10200;

/// A decoded transport packet.
pub struct TsPacket {
    /// The 188 bytes.
    pub data: Vec<u8>,
    /// Number of bytes corrected, or -1 if the block is uncorrectable.
    pub rs_errors: i32,
}

/// Counters of the pipeline.
pub struct Stats {
    pub bytes_in: usize,
    pub aligned: bool,
    /// -1 until the phase is found.
    pub phase_offset: i32,
    pub rs_total: usize,
    pub rs_ok: usize,
    pub rs_corrected: usize,
    pub rs_failed: usize,
    pub uncorrectable: usize,
    pub bytes_discarded_presync: usize,
}

// ---------------------------------------------------------------------------
// The phase of the sync byte
// ---------------------------------------------------------------------------

/// Among the first `blocks` blocks, those with the sync byte at `phase`.
pub open spec fn sync_hits(buf: Seq<u8>, blocks: int, phase: int) -> int
    decreases blocks,
{
    if blocks <= 0 {
        0
    } else {
        sync_hits(buf, blocks - 1, phase) + if buf[204 * (blocks - 1) + phase] == 0x47 {
            1int
        } else {
            0
        }
    }
}

/// Hits at `phase` in all whole blocks.
pub open spec fn phase_score(buf: Seq<u8>, phase: int) -> int {
    sync_hits(buf, buf.len() as int / 204, phase)
}

/// `phase` dominates: it is hit in at least eight blocks and in at least two of
/// five, and five times as often as any other phase.
pub open spec fn dominates(buf: Seq<u8>, phase: int) -> bool {
    &&& 0 <= phase < 204
    &&& buf.len() as int / 204 >= 20
    &&& phase_score(buf, phase) >= 8
    &&& 5 * phase_score(buf, phase) >= 2 * (buf.len() as int / 204)
    &&& forall|other: int|
        0 <= other < 204 && other != phase ==> phase_score(buf, phase) >= 5 * #[trigger] phase_score(
            buf,
            other,
        )
}

proof fn lemma_hits_bound(buf: Seq<u8>, blocks: int, phase: int)
    ensures
        0 <= sync_hits(buf, blocks, phase) <= if blocks < 0 {
            0
        } else {
            blocks
        },
    decreases blocks,
{
    if blocks > 0 {
        lemma_hits_bound(buf, blocks - 1, phase);
    }
}

/// No two phases dominate.
pub proof fn law_phase_is_unique(buf: Seq<u8>, a: int, b: int)
    requires
        dominates(buf, a),
        dominates(buf, b),
    ensures
        a == b,
{
    if a != b {
        assert(phase_score(buf, a) >= 5 * phase_score(buf, b));
        assert(phase_score(buf, b) >= 5 * phase_score(buf, a));
    }
}

/// Counts the sync bytes of `buf` at every phase.
fn score_phases(buf: &[u8]) -> (scores: Vec<usize>)
    ensures
        scores@.len() == 204,
        forall|p: int| 0 <= p < 204 ==> #[trigger] scores@[p] == phase_score(buf@, p),
{
    let blocks: usize = buf.len() / RS_BLOCK_SIZE;
    let mut scores: Vec<usize> = Vec::new();
    let mut p: usize = 0;
    while p < RS_BLOCK_SIZE
        invariant
            p <= RS_BLOCK_SIZE,
            blocks == buf.len() / 204,
            scores@.len() == p,
            forall|q: int| 0 <= q < p ==> #[trigger] scores@[q] == phase_score(buf@, q),
        decreases RS_BLOCK_SIZE - p,
    {
        let mut hits: usize = 0;
        let mut k: usize = 0;
        while k < blocks
            invariant
                p < RS_BLOCK_SIZE,
                blocks == buf.len() / 204,
                k <= blocks,
                hits <= k,
                hits == sync_hits(buf@, k as int, p as int),
            decreases blocks - k,
        {
            assert(204 * k + p < buf.len());
            if buf[k * RS_BLOCK_SIZE + p] == 0x47 {
                hits += 1;
            }
            k += 1;
        }
        scores.push(hits);
        p += 1;
    }
    scores
}

/// Finds the dominating phase, if there is one.
fn find_phase(buf: &[u8]) -> (phase: Option<usize>)
    ensures
        match phase {
            Some(p) => dominates(buf@, p as int),
            None => forall|p: int| !dominates(buf@, p),
        },
{
    let blocks: usize = buf.len() / RS_BLOCK_SIZE;
    if blocks < 20 {
        return None;
    }
    let scores: Vec<usize> = score_phases(buf);
    let mut best: usize = 0;
    let mut p: usize = 1;
    while p < RS_BLOCK_SIZE
        invariant
            1 <= p <= RS_BLOCK_SIZE,
            scores@.len() == 204,
            best < p,
            forall|q: int| 0 <= q < p ==> #[trigger] scores@[q] <= scores@[best as int],
            forall|q: int| 0 <= q < best ==> #[trigger] scores@[q] < scores@[best as int],
        decreases RS_BLOCK_SIZE - p,
    {
        if scores[p] > scores[best] {
            best = p;
        }
        p += 1;
    }
    let first: usize = scores[best];
    let mut second: usize = 0;
    let mut q: usize = 0;
    while q < RS_BLOCK_SIZE
        invariant
            q <= RS_BLOCK_SIZE,
            scores@.len() == 204,
            best < 204,
            forall|r: int| 0 <= r < q && r != best ==> #[trigger] scores@[r] <= second,
            second == 0 || exists|r: int|
                0 <= r < q && r != best && #[trigger] scores@[r] == second,
        decreases RS_BLOCK_SIZE - q,
    {
        if q != best && scores[q] > second {
            second = scores[q];
        }
        q += 1;
    }
    proof {
        assert forall|p: int| 0 <= p < 204 implies 0 <= #[trigger] phase_score(buf@, p)
            <= blocks by {
            lemma_hits_bound(buf@, blocks as int, p);
        }
        assert(first == phase_score(buf@, best as int));
        assert(204 * blocks <= buf.len());
        if exists|p: int| dominates(buf@, p) {
            let p = choose|p: int| dominates(buf@, p);
            assert(scores@[p] == phase_score(buf@, p));
            if p != best {
                assert(phase_score(buf@, p) >= 5 * phase_score(buf@, best as int));
                assert(scores@[p] <= scores@[best as int]);
            }
            assert(p == best);
            if second != 0 {
                let r = choose|r: int|
                    0 <= r < 204 && r != best && #[trigger] scores@[r] == second;
                assert(phase_score(buf@, best as int) >= 5 * phase_score(buf@, r));
            }
        }
    }
    if first < 8 || 5 * (first as u128) < 2 * (blocks as u128) {
        return None;
    }
    if (first as u128) < 5 * (second as u128) {
        return None;
    }
    proof {
        assert forall|other: int| 0 <= other < 204 && other != best implies phase_score(
            buf@,
            best as int,
        ) >= 5 * #[trigger] phase_score(buf@, other) by {
            assert(scores@[other] == phase_score(buf@, other));
        }
    }
    Some(best)
}

// ---------------------------------------------------------------------------
// The pipeline
// ---------------------------------------------------------------------------

/// What the pipeline has seen, as far as it bears on what comes next.
#[verifier::ext_equal]
pub struct OuterState {
    /// Bytes kept while the phase is unknown.
    pub presync: Seq<u8>,
    /// The phase, or -1.
    pub phase: int,
    /// Bytes given to the deinterleaver.
    pub fed: Seq<u8>,
    /// Bytes received in all.
    pub bytes_in: int,
    /// Bytes given up before alignment.
    pub discarded: int,
}

/// The state before anything is received.
pub open spec fn initial_state() -> OuterState {
    OuterState {
        presync: Seq::empty(),
        phase: -1,
        fed: Seq::empty(),
        bytes_in: 0,
        discarded: 0,
    }
}

/// The state after `data` is received in state `s`.
pub open spec fn after_feed(s: OuterState, data: Seq<u8>) -> OuterState {
    let bytes_in = s.bytes_in + data.len();
    let buf = s.presync + data;
    if data.len() == 0 {
        s
    } else if s.phase >= 0 {
        OuterState { fed: s.fed + data, bytes_in, ..s }
    } else if buf.len() < PRESYNC_PROBE_BYTES {
        OuterState { presync: buf, bytes_in, ..s }
    } else if exists|p: int| dominates(buf, p) {
        let p = choose|p: int| dominates(buf, p);
        OuterState {
            presync: Seq::empty(),
            phase: p,
            fed: buf.skip(p),
            bytes_in,
            discarded: s.discarded + p,
        }
    } else if buf.len() > 4 * PRESYNC_PROBE_BYTES {
        let dropped = buf.len() - PRESYNC_PROBE_BYTES;
        OuterState {
            presync: buf.skip(dropped),
            bytes_in,
            discarded: s.discarded + dropped,
            ..s
        }
    } else {
        OuterState { presync: buf, bytes_in, ..s }
    }
}

/// Whole blocks in a stream given to the deinterleaver, behind the transient.
pub open spec fn block_count(fed: Seq<u8>) -> int {
    if fed.len() < 2244 {
        0
    } else {
        (fed.len() - 2244) / 204
    }
}

/// Block `k` of the deinterleaved stream, behind the transient.
pub open spec fn block(fed: Seq<u8>, k: int) -> Seq<u8> {
    deinterleaved(fed).subrange(2244 + 204 * k, 2244 + 204 * k + 204)
}

/// -1, 0 or 1 by the sign of `x`.
pub open spec fn sign(x: int) -> int {
    if x < 0 {
        -1
    } else if x == 0 {
        0
    } else {
        1
    }
}

/// How many of the first `n` blocks are uncorrectable (-1), good (0) or corrected (1).
pub open spec fn tally(fed: Seq<u8>, n: int, outcome: int) -> int
    decreases n,
{
    if n <= 0 {
        0
    } else {
        tally(fed, n - 1, outcome) + if sign(block_errors(block(fed, n - 1))) == outcome {
            1int
        } else {
            0
        }
    }
}

pub proof fn lemma_block_stable(fed: Seq<u8>, more: Seq<u8>, k: int)
    requires
        0 <= k < block_count(fed),
    ensures
        block(fed + more, k) == block(fed, k),
{
    assert(block(fed + more, k) =~= block(fed, k));
}

proof fn lemma_tally_stable(fed: Seq<u8>, more: Seq<u8>, n: int, outcome: int)
    requires
        n <= block_count(fed),
    ensures
        tally(fed + more, n, outcome) == tally(fed, n, outcome),
        0 <= tally(fed, n, outcome),
    decreases n,
{
    if n > 0 {
        lemma_tally_stable(fed, more, n - 1, outcome);
        lemma_block_stable(fed, more, n - 1);
    }
}

/// Behind the transient the deinterleaver gives back the transmitted blocks, also
/// where the reception starts `skipped` blocks into the interleaved stream.
pub proof fn law_blocks_come_back(sent: Seq<u8>, skipped: int, k: int)
    requires
        0 <= skipped,
        0 <= k,
        204 * skipped + 2244 + 204 * k + 204 <= sent.len(),
    ensures
        block(interleaved(sent).skip(204 * skipped), k) == sent.subrange(
            204 * (skipped + k),
            204 * (skipped + k) + 204,
        ),
{
    let fed = interleaved(sent).skip(204 * skipped);
    let got = block(fed, k);
    let want = sent.subrange(204 * (skipped + k), 204 * (skipped + k) + 204);
    assert forall|i: int| 0 <= i < 204 implies got[i] == want[i] by {
        let u = 2244 + 204 * k + i;
        let x = u - 204 * (11 - u % 12);
        let y = x + 204 * skipped;
        assert(y % 12 == u % 12);
        assert(got[i] == fed[x]);
        assert(fed[x] == interleaved(sent)[y]);
        assert(y - 204 * (y % 12) == 204 * (skipped + k) + i);
    }
    assert(got =~= want);
}

/// A packet survives up to eight wrong bytes: where the received stream differs from
/// the transmitted one at no more places than that within block `k`, its message is
/// the packet behind the transmitted block.
pub proof fn law_packets_survive_wrong_bytes(
    sent: Seq<u8>,
    received: Seq<u8>,
    skipped: int,
    k: int,
    packet: Seq<u8>,
)
    requires
        0 <= skipped,
        0 <= k,
        204 * skipped + 2244 + 204 * k + 204 <= sent.len(),
        2244 + 204 * k + 204 <= received.len(),
        protects(
            sent.subrange(204 * (skipped + k), 204 * (skipped + k) + 204),
            packet,
        ),
        wrong_bytes(
            block(received, k),
            block(interleaved(sent).skip(204 * skipped), k),
            204,
        ) <= 8,
    ensures
        block_message(block(received, k)) == packet,
        block_errors(block(received, k)) >= 0,
{
    law_blocks_come_back(sent, skipped, k);
    assert(block_message(block(received, k)) == packet);
}

/// Once aligned, receiving a stream in two pieces is receiving it at once.
pub proof fn law_aligned_feeds_join(s: OuterState, a: Seq<u8>, b: Seq<u8>)
    requires
        s.phase >= 0,
    ensures
        after_feed(after_feed(s, a), b) == after_feed(s, a + b),
{
    assert(s.fed + a + b =~= s.fed + (a + b));
    if a.len() == 0 {
        assert(a + b =~= b);
    }
    if b.len() == 0 {
        assert(a + b =~= a);
    }
}

/// Every received byte is discarded, waiting, or given to the deinterleaver.
pub open spec fn accounted(s: OuterState) -> bool {
    s.bytes_in == s.discarded + s.presync.len() + s.fed.len()
}

/// Receiving loses no byte, and alignment is never lost.
pub proof fn law_feed_accounts_for_bytes(s: OuterState, data: Seq<u8>)
    requires
        accounted(s),
        s.phase < 0 ==> s.fed.len() == 0,
    ensures
        accounted(after_feed(s, data)),
        s.phase >= 0 ==> after_feed(s, data).phase == s.phase,
        s.bytes_in <= after_feed(s, data).bytes_in,
        s.discarded <= after_feed(s, data).discarded,
{
}

/// `s` is a state in which `stream` was received: its tail behind the discarded bytes
/// waits for the phase, or was given to the deinterleaver.
pub open spec fn tracks(s: OuterState, stream: Seq<u8>) -> bool {
    &&& s.bytes_in == stream.len()
    &&& 0 <= s.discarded <= stream.len()
    &&& s.phase < 0 ==> s.fed.len() == 0 && s.presync == stream.skip(s.discarded)
    &&& s.phase >= 0 ==> s.presync.len() == 0 && s.fed == stream.skip(s.discarded)
}

/// However a stream is cut into pieces, the deinterleaver is given the stream
/// behind the discarded bytes.
pub proof fn law_feed_keeps_the_stream(s: OuterState, stream: Seq<u8>, data: Seq<u8>)
    requires
        tracks(s, stream),
    ensures
        tracks(after_feed(s, data), stream + data),
{
    let after = after_feed(s, data);
    let buf = s.presync + data;
    assert(data.len() == 0 ==> stream + data =~= stream);
    if s.phase >= 0 {
        assert(s.fed + data =~= (stream + data).skip(s.discarded));
    } else {
        assert(buf =~= (stream + data).skip(s.discarded));
        assert(after.phase >= 0 ==> after.fed =~= (stream + data).skip(after.discarded));
        assert(after.phase < 0 ==> after.presync =~= (stream + data).skip(after.discarded));
    }
}

pub proof fn lemma_tally_sum(fed: Seq<u8>, n: int)
    requires
        0 <= n,
    ensures
        tally(fed, n, -1) + tally(fed, n, 0) + tally(fed, n, 1) == n,
    decreases n,
{
    if n > 0 {
        lemma_tally_sum(fed, n - 1);
    }
}

/// The state after the first `n` of `feeds` were received, from the start.
pub open spec fn after_feeds(feeds: Seq<Seq<u8>>, n: int) -> OuterState
    decreases n,
{
    if n <= 0 {
        initial_state()
    } else {
        after_feed(after_feeds(feeds, n - 1), feeds[n - 1])
    }
}

/// Bytes in the first `n` of `feeds`.
pub open spec fn bytes_of(feeds: Seq<Seq<u8>>, n: int) -> int
    decreases n,
{
    if n <= 0 {
        0
    } else {
        bytes_of(feeds, n - 1) + feeds[n - 1].len()
    }
}

/// Packets that the first `n` of `feeds` complete, feed by feed.
pub open spec fn packets_of(feeds: Seq<Seq<u8>>, n: int) -> int
    decreases n,
{
    if n <= 0 {
        0
    } else {
        packets_of(feeds, n - 1) + (block_count(after_feeds(feeds, n).fed) - block_count(
            after_feeds(feeds, n - 1).fed,
        ))
    }
}

/// The counters after any feeds: every byte received is counted; without a phase
/// there is no block; with one there is a block for every 204 bytes behind the
/// discarded ones and the transient; and every block is a packet that is good,
/// corrected or given up.
pub proof fn law_counters_add_up(feeds: Seq<Seq<u8>>, n: int)
    requires
        0 <= n <= feeds.len(),
    ensures
        ({
            let s = after_feeds(feeds, n);
            let blocks = block_count(s.fed);
            let useful = s.bytes_in - s.discarded - 2244;
            &&& s.bytes_in == bytes_of(feeds, n)
            &&& 0 <= s.discarded <= s.bytes_in
            &&& -1 <= s.phase < 204
            &&& s.phase < 0 ==> s.fed.len() == 0 && blocks == 0
            &&& s.phase >= 0 ==> s.fed.len() == s.bytes_in - s.discarded
            &&& s.phase >= 0 ==> blocks == if useful < 0 {
                0
            } else {
                useful / 204
            }
            &&& blocks == packets_of(feeds, n)
            &&& blocks == tally(s.fed, blocks, 0) + tally(s.fed, blocks, 1) + tally(
                s.fed,
                blocks,
                -1,
            )
        }),
    decreases n,
{
    let s = after_feeds(feeds, n);
    lemma_tally_sum(s.fed, block_count(s.fed));
    if n > 0 {
        law_counters_add_up(feeds, n - 1);
        let before = after_feeds(feeds, n - 1);
        let data = feeds[n - 1];
        lemma_presync_accounted(feeds, n - 1);
        let buf = before.presync + data;
        if before.phase < 0 && exists|p: int| dominates(buf, p) {
            let p = choose|p: int| dominates(buf, p);
            assert(0 <= p < 204);
        }
    }
}

proof fn lemma_presync_accounted(feeds: Seq<Seq<u8>>, n: int)
    requires
        n <= feeds.len(),
    ensures
        accounted(after_feeds(feeds, n)),
        after_feeds(feeds, n).phase < 0 ==> after_feeds(feeds, n).fed.len() == 0,
        after_feeds(feeds, n).phase >= 0 ==> after_feeds(feeds, n).presync.len() == 0,
    decreases n,
{
    if n > 0 {
        lemma_presync_accounted(feeds, n - 1);
    }
}

/// Stream pipeline: align, deinterleave, decode.
pub struct KoreanTDmbOuterFec {
    presync_buf: Vec<u8>,
    aligned: bool,
    phase_offset: i32,
    di: ConvolutionalDeinterleaver,
    di_skip_remaining: usize,
    post_di_buf: Vec<u8>,
    rs: RsDecoder,
    bytes_in: usize,
    bytes_discarded_presync: usize,
    uncorrectable: usize,
}

impl KoreanTDmbOuterFec {
    pub closed spec fn state(&self) -> OuterState {
        OuterState {
            presync: self.presync_buf@,
            phase: self.phase_offset as int,
            fed: self.di.fed(),
            bytes_in: self.bytes_in as int,
            discarded: self.bytes_discarded_presync as int,
        }
    }

    /// The counters of blocks are those of the first `done` blocks.
    spec fn counted(&self, done: int) -> bool {
        let fed = self.di.fed();
        &&& self.rs.wf()
        &&& self.rs.frames_total == done
        &&& self.rs.frames_ok == tally(fed, done, 0)
        &&& self.rs.frames_corrected == tally(fed, done, 1)
        &&& self.rs.frames_failed == tally(fed, done, -1)
        &&& self.uncorrectable == self.rs.frames_failed
    }

    /// Everything fed to the deinterleaver is decoded, or kept as a partial block.
    spec fn settled(&self) -> bool {
        let fed = self.di.fed();
        let done = block_count(fed);
        &&& self.di.wf()
        &&& self.counted(done)
        &&& self.di_skip_remaining == if fed.len() < 2244 {
            2244 - fed.len()
        } else {
            0
        }
        &&& self.post_di_buf@ == if fed.len() < 2244 {
            Seq::empty()
        } else {
            deinterleaved(fed).skip(2244 + 204 * done)
        }
    }

    /// Invariant between calls.
    pub closed spec fn wf(&self) -> bool {
        let fed = self.di.fed();
        &&& self.settled()
        &&& self.aligned == (self.phase_offset >= 0)
        &&& -1 <= self.phase_offset < 204
        &&& self.bytes_in == self.bytes_discarded_presync + self.presync_buf@.len() + fed.len()
        &&& self.aligned ==> self.presync_buf@.len() == 0
        &&& !self.aligned ==> fed.len() == 0 && self.presync_buf@.len() <= 40800
    }

    pub fn new() -> (f: Self)
        ensures
            f.wf(),
            f.state() == initial_state(),
    {
        KoreanTDmbOuterFec {
            presync_buf: Vec::new(),
            aligned: false,
            phase_offset: -1,
            di: ConvolutionalDeinterleaver::new(),
            di_skip_remaining: DEINTERLEAVER_LATENCY,
            post_di_buf: Vec::new(),
            rs: RsDecoder::new(),
            bytes_in: 0,
            bytes_discarded_presync: 0,
            uncorrectable: 0,
        }
    }
}

/// Packet `j` of `packets` stands for block `first + j` of `fed`.
pub open spec fn packets_match(packets: Seq<TsPacket>, fed: Seq<u8>, first: int) -> bool {
    forall|j: int|
        0 <= j < packets.len() ==> {
            &&& (#[trigger] packets[j]).data@ == block_message(block(fed, first + j))
            &&& packets[j].data@.len() == 188
            &&& packets[j].rs_errors == block_errors(block(fed, first + j))
        }
}

/// Those of the first `n` blocks that are good or can be corrected, in order.
pub open spec fn sound_blocks(fed: Seq<u8>, n: int) -> Seq<int>
    decreases n,
{
    if n <= 0 {
        Seq::empty()
    } else if block_errors(block(fed, n - 1)) >= 0 {
        sound_blocks(fed, n - 1).push(n - 1)
    } else {
        sound_blocks(fed, n - 1)
    }
}

/// Packet `j` of `packets` stands for sound block `j` among the first `n` of `fed`.
pub open spec fn sound_packets_match(packets: Seq<TsPacket>, fed: Seq<u8>, n: int) -> bool {
    &&& packets.len() == sound_blocks(fed, n).len()
    &&& forall|j: int|
        0 <= j < packets.len() ==> {
            &&& (#[trigger] packets[j]).data@ == block_message(block(fed, sound_blocks(fed, n)[j]))
            &&& packets[j].data@.len() == 188
            &&& packets[j].rs_errors == block_errors(block(fed, sound_blocks(fed, n)[j]))
            &&& packets[j].rs_errors >= 0
        }
}

/// The sound blocks are listed once each, in order, and no others are.
pub proof fn law_sound_blocks_are_listed(fed: Seq<u8>, n: int)
    ensures
        forall|k: int| #[trigger]
            sound_blocks(fed, n).contains(k) <==> 0 <= k < n && block_errors(block(fed, k)) >= 0,
        forall|i: int, j: int|
            0 <= i < j < sound_blocks(fed, n).len() ==> #[trigger] sound_blocks(fed, n)[i]
                < #[trigger] sound_blocks(fed, n)[j],
    decreases n,
{
    if n > 0 {
        law_sound_blocks_are_listed(fed, n - 1);
        let before = sound_blocks(fed, n - 1);
        let now = sound_blocks(fed, n);
        assert forall|k: int| #[trigger] now.contains(k) <==> 0 <= k < n && block_errors(
            block(fed, k),
        ) >= 0 by {
            if before.contains(k) {
                let i = choose|i: int| 0 <= i < before.len() && before[i] == k;
                assert(now[i] == k);
            }
            if k == n - 1 && block_errors(block(fed, k)) >= 0 {
                assert(now[before.len() as int] == k);
            }
            if now.contains(k) {
                let i = choose|i: int| 0 <= i < now.len() && now[i] == k;
                if i < before.len() {
                    assert(before[i] == k);
                }
            }
        }
        assert forall|i: int, j: int| 0 <= i < j < now.len() implies #[trigger] now[i]
            < #[trigger] now[j] by {
            assert(before.contains(before[i]));
        }
    }
}

pub proof fn lemma_sound_blocks_stable(fed: Seq<u8>, more: Seq<u8>, n: int)
    requires
        n <= block_count(fed),
    ensures
        sound_blocks(fed + more, n) == sound_blocks(fed, n),
        forall|j: int|
            0 <= j < sound_blocks(fed, n).len() ==> 0 <= #[trigger] sound_blocks(fed, n)[j] < n
                && block(fed + more, sound_blocks(fed, n)[j]) == block(
                fed,
                sound_blocks(fed, n)[j],
            ),
    decreases n,
{
    if n > 0 {
        lemma_sound_blocks_stable(fed, more, n - 1);
        lemma_block_stable(fed, more, n - 1);
    }
}

/// Adds the packets of blocks that are good or could be corrected to `kept`.
pub(crate) fn keep_sound(
    kept: &mut Vec<TsPacket>,
    packets: &Vec<TsPacket>,
    Ghost(fed): Ghost<Seq<u8>>,
    Ghost(first): Ghost<int>,
)
    requires
        0 <= first,
        sound_packets_match(old(kept)@, fed, first),
        packets_match(packets@, fed, first),
    ensures
        sound_packets_match(final(kept)@, fed, first + packets@.len()),
{
    let mut k: usize = 0;
    while k < packets.len()
        invariant
            0 <= first,
            k <= packets@.len(),
            packets_match(packets@, fed, first),
            sound_packets_match(kept@, fed, first + k),
        decreases packets@.len() - k,
    {
        let p: &TsPacket = &packets[k];
        assert(p.rs_errors == block_errors(block(fed, first + k)));
        if p.rs_errors >= 0 {
            let data: Vec<u8> = vstd::slice::slice_to_vec(p.data.as_slice());
            kept.push(TsPacket { data, rs_errors: p.rs_errors });
        }
        k += 1;
    }
}

pub proof fn lemma_packets_join(
    packets: Seq<TsPacket>,
    more: Seq<TsPacket>,
    fed: Seq<u8>,
    after: Seq<u8>,
)
    requires
        packets.len() == block_count(fed),
        packets_match(packets, fed, 0),
        packets_match(more, after, block_count(fed)),
        fed.len() == 0 || (fed.len() <= after.len() && after.take(fed.len() as int) == fed),
    ensures
        packets_match(packets + more, after, 0),
{
    let all = packets + more;
    if fed.len() > 0 {
        let tail = after.skip(fed.len() as int);
        assert(after =~= fed + tail);
        assert forall|j: int| 0 <= j < packets.len() implies #[trigger] block(after, j) == block(
            fed,
            j,
        ) by {
            lemma_block_stable(fed, tail, j);
        }
    }
    assert forall|j: int| 0 <= j < all.len() implies {
        &&& (#[trigger] all[j]).data@ == block_message(block(after, 0 + j))
        &&& all[j].data@.len() == 188
        &&& all[j].rs_errors == block_errors(block(after, 0 + j))
    } by {
        if j < packets.len() {
            assert(all[j] == packets[j]);
            assert(packets[j].data@ == block_message(block(fed, 0 + j)));
        } else {
            assert(all[j] == more[j - packets.len()]);
            assert(block_count(fed) + (j - packets.len()) == j);
        }
    }
}

impl KoreanTDmbOuterFec {
    /// Decodes the whole blocks in the buffer behind the deinterleaver.
    fn drain_rs(&mut self) -> (packets: Vec<TsPacket>)
        requires
            old(self).di.wf(),
            2244 <= old(self).di.fed().len() <= usize::MAX,
            old(self).rs.frames_total <= block_count(old(self).di.fed()),
            old(self).counted(old(self).rs.frames_total as int),
            old(self).di_skip_remaining == 0,
            old(self).post_di_buf@ == deinterleaved(old(self).di.fed()).skip(
                2244 + 204 * old(self).rs.frames_total,
            ),
        ensures
            final(self).settled(),
            final(self).di.fed() == old(self).di.fed(),
            final(self).presync_buf == old(self).presync_buf,
            final(self).aligned == old(self).aligned,
            final(self).phase_offset == old(self).phase_offset,
            final(self).bytes_in == old(self).bytes_in,
            final(self).bytes_discarded_presync == old(self).bytes_discarded_presync,
            packets@.len() == block_count(old(self).di.fed()) - old(self).rs.frames_total,
            packets_match(packets@, old(self).di.fed(), old(self).rs.frames_total as int),
    {
        let ghost fed = self.di.fed();
        let ghost first = self.rs.frames_total as int;
        let ghost done = block_count(fed);
        let mut packets: Vec<TsPacket> = Vec::new();
        let total: usize = self.post_di_buf.len();
        let mut off: usize = 0;
        while total - off >= RS_BLOCK_SIZE
            invariant
                self.di == old(self).di,
                self.di.wf(),
                fed == self.di.fed(),
                first == old(self).rs.frames_total,
                done == block_count(fed),
                2244 <= fed.len() <= usize::MAX,
                0 <= first <= done,
                self.di_skip_remaining == 0,
                self.post_di_buf@ == deinterleaved(fed).skip(2244 + 204 * first),
                self.presync_buf == old(self).presync_buf,
                self.aligned == old(self).aligned,
                self.phase_offset == old(self).phase_offset,
                self.bytes_in == old(self).bytes_in,
                self.bytes_discarded_presync == old(self).bytes_discarded_presync,
                total == self.post_di_buf@.len(),
                off <= total,
                off == 204 * packets@.len(),
                first + packets@.len() <= done,
                self.counted(first + packets@.len()),
                packets_match(packets@, fed, first),
            decreases total - off,
        {
            let chunk: &[u8] = vstd::slice::slice_subrange(
                self.post_di_buf.as_slice(),
                off,
                off + RS_BLOCK_SIZE,
            );
            let ghost k = first + packets@.len();
            proof {
                assert(chunk@ =~= block(fed, k));
                assert(k < done);
            }
            let res: RsResult = self.rs.decode(chunk);
            if !res.ok {
                self.uncorrectable += 1;
            }
            packets.push(TsPacket { data: res.data, rs_errors: res.errors });
            off += RS_BLOCK_SIZE;
        }
        let rest: &[u8] = vstd::slice::slice_subrange(self.post_di_buf.as_slice(), off, total);
        let rest: Vec<u8> = vstd::slice::slice_to_vec(rest);
        self.post_di_buf = rest;
        assert(first + packets@.len() == done);
        assert(self.post_di_buf@ =~= deinterleaved(fed).skip(2244 + 204 * done));
        packets
    }

    /// Deinterleaves and decodes bytes of the aligned stream.
    fn feed_aligned(&mut self, data: &[u8]) -> (packets: Vec<TsPacket>)
        requires
            old(self).settled(),
            old(self).di.fed().len() + data@.len() <= usize::MAX,
        ensures
            final(self).settled(),
            final(self).di.fed() == old(self).di.fed() + data@,
            final(self).presync_buf == old(self).presync_buf,
            final(self).aligned == old(self).aligned,
            final(self).phase_offset == old(self).phase_offset,
            final(self).bytes_in == old(self).bytes_in,
            final(self).bytes_discarded_presync == old(self).bytes_discarded_presync,
            packets@.len() == block_count(final(self).di.fed()) - block_count(old(self).di.fed()),
            packets_match(packets@, final(self).di.fed(), block_count(old(self).di.fed())),
    {
        let ghost before = self.di.fed();
        let ghost done = block_count(before);
        let deint: Vec<u8> = self.di.feed(data);
        let ghost fed = self.di.fed();
        proof {
            lemma_tally_stable(before, data@, done, 0);
            lemma_tally_stable(before, data@, done, 1);
            lemma_tally_stable(before, data@, done, -1);
            assert(self.counted(done));
        }
        let skip: usize = self.di_skip_remaining;
        if skip > 0 && deint.len() <= skip {
            self.di_skip_remaining = skip - deint.len();
            proof {
                if fed.len() == 2244 {
                    assert(deinterleaved(fed).skip(2244) =~= Seq::empty());
                }
            }
            return Vec::new();
        }
        let useful: &[u8] = vstd::slice::slice_subrange(deint.as_slice(), skip, deint.len());
        self.di_skip_remaining = 0;
        let ghost post = self.post_di_buf@;
        self.post_di_buf.extend_from_slice(useful);
        proof {
            assert(self.post_di_buf@ =~= post + useful@);
            assert(self.post_di_buf@ =~= deinterleaved(fed).skip(2244 + 204 * done));
        }
        self.drain_rs()
    }

    /// Takes received bytes; returns the packets that they complete.
    pub fn feed(&mut self, data: &[u8]) -> (packets: Vec<TsPacket>)
        requires
            old(self).wf(),
            old(self).state().bytes_in + data@.len() <= usize::MAX,
        ensures
            final(self).wf(),
            final(self).state() == after_feed(old(self).state(), data@),
            packets@.len() == block_count(final(self).state().fed) - block_count(
                old(self).state().fed,
            ),
            packets_match(
                packets@,
                final(self).state().fed,
                block_count(old(self).state().fed),
            ),
    {
        if data.len() == 0 {
            return Vec::new();
        }
        self.bytes_in += data.len();
        if self.aligned {
            return self.feed_aligned(data);
        }
        let ghost buf = self.presync_buf@ + data@;
        self.presync_buf.extend_from_slice(data);
        assert(self.presync_buf@ =~= buf);
        if self.presync_buf.len() < PRESYNC_PROBE_BYTES {
            return Vec::new();
        }
        match find_phase(self.presync_buf.as_slice()) {
            None => {
                let n: usize = self.presync_buf.len();
                if n > 4 * PRESYNC_PROBE_BYTES {
                    let dropped: usize = n - PRESYNC_PROBE_BYTES;
                    let tail: &[u8] = vstd::slice::slice_subrange(
                        self.presync_buf.as_slice(),
                        dropped,
                        n,
                    );
                    let tail: Vec<u8> = vstd::slice::slice_to_vec(tail);
                    self.presync_buf = tail;
                    self.bytes_discarded_presync += dropped;
                    assert(self.presync_buf@ =~= buf.skip(dropped as int));
                }
                Vec::new()
            },
            Some(phase) => {
                proof {
                    let p = choose|p: int| dominates(buf, p);
                    law_phase_is_unique(buf, p, phase as int);
                }
                self.phase_offset = phase as i32;
                self.aligned = true;
                self.bytes_discarded_presync += phase;
                let survivor: &[u8] = vstd::slice::slice_subrange(
                    self.presync_buf.as_slice(),
                    phase,
                    self.presync_buf.len(),
                );
                let survivor: Vec<u8> = vstd::slice::slice_to_vec(survivor);
                self.presync_buf = Vec::new();
                let packets = self.feed_aligned(survivor.as_slice());
                assert(self.di.fed() =~= buf.skip(phase as int));
                packets
            },
        }
    }

    /// Snapshot of the counters.
    pub fn stats(&self) -> (s: Stats)
        requires
            self.wf(),
        ensures
            s.bytes_in == self.state().bytes_in,
            s.aligned == (self.state().phase >= 0),
            s.phase_offset == self.state().phase,
            s.rs_total == block_count(self.state().fed),
            s.rs_ok == tally(self.state().fed, block_count(self.state().fed), 0),
            s.rs_corrected == tally(self.state().fed, block_count(self.state().fed), 1),
            s.rs_failed == tally(self.state().fed, block_count(self.state().fed), -1),
            s.uncorrectable == s.rs_failed,
            s.rs_total == s.rs_ok + s.rs_corrected + s.rs_failed,
            s.bytes_discarded_presync == self.state().discarded,
    {
        Stats {
            bytes_in: self.bytes_in,
            aligned: self.aligned,
            phase_offset: self.phase_offset,
            rs_total: self.rs.frames_total,
            rs_ok: self.rs.frames_ok,
            rs_corrected: self.rs.frames_corrected,
            rs_failed: self.rs.frames_failed,
            uncorrectable: self.uncorrectable,
            bytes_discarded_presync: self.bytes_discarded_presync,
        }
    }
}

impl Default for KoreanTDmbOuterFec {
    fn default() -> (f: Self)
        ensures
            f.wf(),
            f.state() == initial_state(),
    {
        Self::new()
    }
}

proof fn lemma_hit_changes_one_count(
    buf: Seq<u8>,
    k: int,
    p: int,
    q: int,
    blocks: int,
)
    requires
        0 <= k,
        0 <= p < 204,
        0 <= q < 204,
        204 * k + p < buf.len(),
        204 * blocks <= buf.len(),
        buf[204 * k + p] != 0x47,
    ensures
        sync_hits(buf.update(204 * k + p, 0x47), blocks, q) == sync_hits(buf, blocks, q) + if q == p
            && k < blocks {
            1int
        } else {
            0
        },
    decreases blocks,
{
    if blocks > 0 {
        lemma_hit_changes_one_count(buf, k, p, q, blocks - 1);
    }
}

/// Every sync byte in a whole block counts once, for its own phase.
pub proof fn law_sync_bytes_count_once(buf: Seq<u8>, k: int, p: int, q: int)
    requires
        0 <= k < buf.len() as int / 204,
        0 <= p < 204,
        0 <= q < 204,
        buf[204 * k + p] != 0x47,
    ensures
        phase_score(buf.update(204 * k + p, 0x47), q) == phase_score(buf, q) + if q == p {
            1int
        } else {
            0
        },
{
    lemma_hit_changes_one_count(buf, k, p, q, buf.len() as int / 204);
}

proof fn lemma_no_hits(buf: Seq<u8>, blocks: int, p: int)
    requires
        0 <= p < 204,
        204 * blocks <= buf.len(),
        forall|i: int| 0 <= i < buf.len() ==> buf[i] != 0x47,
    ensures
        sync_hits(buf, blocks, p) == 0,
    decreases blocks,
{
    if blocks > 0 {
        lemma_no_hits(buf, blocks - 1, p);
    }
}

proof fn lemma_all_hits(buf: Seq<u8>, blocks: int, p: int)
    requires
        0 <= p < 204,
        0 <= blocks,
        204 * blocks <= buf.len(),
        forall|k: int| 0 <= k < blocks ==> #[trigger] buf[204 * k + p] == 0x47,
    ensures
        sync_hits(buf, blocks, p) == blocks,
    decreases blocks,
{
    if blocks > 0 {
        lemma_all_hits(buf, blocks - 1, p);
    }
}

/// Without sync bytes no phase is found; where every block has one at a phase and no
/// other phase has it in more than a fifth of the blocks, that phase is found.
pub proof fn law_clear_phase_is_found(buf: Seq<u8>, p: int)
    requires
        buf.len() >= PRESYNC_PROBE_BYTES,
        0 <= p < 204,
    ensures
        (forall|i: int| 0 <= i < buf.len() ==> buf[i] != 0x47) ==> forall|q: int|
            !#[trigger] dominates(buf, q),
        (forall|k: int| 0 <= k < buf.len() as int / 204 ==> #[trigger] buf[204 * k + p] == 0x47) && (
        forall|q: int|
            0 <= q < 204 && q != p ==> 5 * #[trigger] phase_score(buf, q) <= buf.len() as int / 204)
            ==> dominates(buf, p),
{
    let blocks = buf.len() as int / 204;
    if forall|i: int| 0 <= i < buf.len() ==> buf[i] != 0x47 {
        assert forall|q: int| !#[trigger] dominates(buf, q) by {
            if 0 <= q < 204 {
                lemma_no_hits(buf, blocks, q);
            }
        }
    }
    if forall|k: int| 0 <= k < blocks ==> #[trigger] buf[204 * k + p] == 0x47 {
        lemma_all_hits(buf, blocks, p);
    }
}

/// The counts by outcome are the numbers of blocks with no error, with corrected
/// errors, and with too many.
pub proof fn law_tallies_count_blocks(fed: Seq<u8>, n: int)
    requires
        0 <= n,
    ensures
        tally(fed, n + 1, 0) == tally(fed, n, 0) + if block_errors(block(fed, n)) == 0 {
            1int
        } else {
            0
        },
        tally(fed, n + 1, 1) == tally(fed, n, 1) + if block_errors(block(fed, n)) > 0 {
            1int
        } else {
            0
        },
        tally(fed, n + 1, -1) == tally(fed, n, -1) + if block_errors(block(fed, n)) < 0 {
            1int
        } else {
            0
        },
{
}

/// Nothing is decided before fifty blocks are there; without a phase the waiting bytes
/// are kept up to two hundred blocks, and beyond that the last fifty blocks of them.
pub proof fn law_waiting_is_bounded(s: OuterState, data: Seq<u8>)
    requires
        s.phase < 0,
        data.len() > 0,
    ensures
        ({
            let buf = s.presync + data;
            let after = after_feed(s, data);
            &&& buf.len() < 50 * 204 ==> after.phase == s.phase && after.presync == buf
                && after.discarded == s.discarded
            &&& buf.len() >= 50 * 204 && (forall|p: int| !#[trigger] dominates(buf, p)) ==> {
                &&& after.phase == s.phase
                &&& buf.len() <= 200 * 204 ==> after.presync == buf && after.discarded
                    == s.discarded
                &&& buf.len() > 200 * 204 ==> after.presync == buf.skip(buf.len() - 50 * 204)
                    && after.discarded == s.discarded + buf.len() - 50 * 204
            }
            &&& buf.len() >= 50 * 204 ==> forall|p: int| #[trigger]
                dominates(buf, p) ==> after.phase == p && after.fed == buf.skip(p)
                    && after.discarded == s.discarded + p
        }),
{
    let buf = s.presync + data;
    assert forall|p: int| buf.len() >= 50 * 204 && #[trigger] dominates(buf, p) implies after_feed(
        s,
        data,
    ).phase == p by {
        let q = choose|q: int| dominates(buf, q);
        law_phase_is_unique(buf, p, q);
    }
}

} // verus!
