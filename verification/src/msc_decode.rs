//! From the soft bits of whole frames to the transport packets of one sub-channel.
//!
//! A frame in mode I carries 75 symbols of 3072 soft bits: three for the fast
//! information channel, then four CIFs of eighteen symbols.  Every CIF is time
//! deinterleaved; the capacity units of the sub-channel are cut out, depunctured,
//! decoded, descrambled and packed; the bytes go through the outer code.

use vstd::prelude::*;
use vstd::slice::slice_subrange;
use vstd::string::*;
use vstd::utf8::encode_utf8;
use crate::bits::{all_bits, low_bits, packed};
use crate::descramble::{descramble_and_pack, descrambled, law_pack_undoes_scrambling};
use crate::descramble::{lemma_prbs_is_bit, prbs_bit};
use crate::eep::{eep_fits, eep_profile, law_eep_round_trip, profile_fits, EepProtection};
use crate::ensemble::{Ensemble, SubChannel};
use crate::fic_decode::FIC_SOFT_BITS_PER_FRAME;
use crate::fic_tables::eep_label;
use crate::outer::{after_feed, block_count, initial_state, keep_sound, lemma_sound_blocks_stable};
use crate::outer::{law_feed_keeps_the_stream, sound_packets_match, tally, tracks};
use crate::outer::{KoreanTDmbOuterFec, OuterState, Stats, TsPacket};
use crate::profile::received_clean;
use crate::puncture::{count_kept, depunctured, kept, transmitted};
use crate::time_deinterleaver::{deinterleaved_cif, interleaved_cif, TimeDeinterleaver};
use crate::time_deinterleaver::{law_time_deinterleaving_undoes_interleaving, BITS_PER_CIF};
use crate::time_deinterleaver::WARM_UP_CIFS;
use crate::viterbi::{codeword, decoded, lemma_weight_bound};

verus! {

/// Data symbols per frame.
pub const DATA_SYMBOLS: usize = 75;

/// Symbols per CIF.
pub const SYMS_PER_CIF: usize = 18;

/// CIFs per frame.
pub const CIFS_PER_FRAME: usize = 4;

/// Soft bits per capacity unit.
pub const CU_SIZE_BITS: usize = 64;

/// Soft bits per frame.
pub const FRAME_SOFT_BITS: usize = 230400;

// ---------------------------------------------------------------------------
// The protection level of a label
// ---------------------------------------------------------------------------

/// The protection level that a label such as "EEP-3A" stands for: bits 0 and 1 are
/// the level, bit 2 is the B series.  What is no such label counts as level 3, or
/// as the A series.
pub open spec fn prot_level_of(label: Seq<u8>) -> int {
    if label.len() < 6 {
        2
    } else {
        (if 49 <= label[4] <= 52 {
            label[4] - 49
        } else {
            2
        }) + (if label[5] == 66 {
            4int
        } else {
            0
        })
    }
}

/// Reads the protection level out of a label.
pub fn decode_prot_level(label: &str) -> (level: i16)
    ensures
        level == prot_level_of(encode_utf8(label@)),
        0 <= level < 8,
{
    let bytes: &[u8] = label.as_bytes();
    if bytes.len() < 6 {
        return 2;
    }
    let level: i16 = match bytes[4] {
        49 => 0,
        50 => 1,
        51 => 2,
        52 => 3,
        _ => 2,
    };
    if bytes[5] == 66 {
        level + 4
    } else {
        level
    }
}

/// The label of a long-form sub-channel names its protection level.
pub proof fn law_label_names_the_level(opt: int, level: int)
    requires
        0 <= level < 4,
    ensures
        prot_level_of(encode_utf8(eep_label(opt, level))) == level + if opt == 0 {
            0int
        } else {
            4
        },
{
    reveal_strlit("EEP-");
    reveal_strlit("A");
    reveal_strlit("B");
    let label = eep_label(opt, level);
    assert(crate::text::decimal((level + 1) as nat) =~= seq![crate::text::digit(level + 1)]);
    assert(label.len() == 6);
    assert(label[4] == crate::text::digit(level + 1));
    assert(label[5] == if opt == 0 {
        'A'
    } else {
        'B'
    });
    assert(vstd::utf8::is_ascii_chars(label));
    vstd::utf8::is_ascii_chars_encode_utf8(label);
    assert(label[4] as u8 == encode_utf8(label)[4]);
    assert(label[5] as u8 == encode_utf8(label)[5]);
}

// ---------------------------------------------------------------------------
// One CIF
// ---------------------------------------------------------------------------

/// Where a sub-channel lies and how it is protected.
pub struct SubChannelPlan {
    pub start_addr: u16,
    pub size_cu: u16,
    pub bit_rate: i16,
    pub prot_level: i16,
}

impl SubChannelPlan {
    /// The sub-channel lies within the CIF.
    pub open spec fn in_cif(&self) -> bool {
        64 * (self.start_addr + self.size_cu) <= BITS_PER_CIF
    }

    /// Where mother-code bits are transmitted.
    pub open spec fn table(&self) -> Seq<bool> {
        eep_profile(self.bit_rate, self.prot_level).table(96 * self.bit_rate + 24)
    }

    /// The protection profile exists and the sub-channel, if it lies within the
    /// CIF, holds the soft bits of a block.
    pub open spec fn decodable(&self) -> bool {
        &&& eep_fits(self.bit_rate, self.prot_level)
        &&& self.in_cif() ==> kept(self.table(), self.table().len() as int) <= 64 * self.size_cu
    }

    /// The soft bits of the sub-channel in a deinterleaved CIF.
    pub open spec fn cut(&self, cif: Seq<i16>) -> Seq<i16> {
        cif.subrange(64 * self.start_addr, 64 * (self.start_addr + self.size_cu))
    }

    /// The bytes of the sub-channel in a deinterleaved CIF.
    pub open spec fn cif_bytes(&self, cif: Seq<i16>) -> Seq<u8> {
        packed(
            low_bits(
                descrambled(decoded(depunctured(self.cut(cif), self.table()), 24 * self.bit_rate)),
            ),
        )
    }

    /// The plan for a signalled sub-channel.
    pub fn new(sub: &SubChannel) -> (plan: Option<Self>)
        ensures
            plan is Some <==> sub.bitrate_kbps <= i16::MAX,
            plan matches Some(p) ==> {
                &&& p.start_addr == sub.start_addr
                &&& p.size_cu == sub.size_cu
                &&& p.bit_rate == sub.bitrate_kbps
                &&& p.prot_level == prot_level_of(encode_utf8(sub.protection@))
            },
    {
        if sub.bitrate_kbps > 32767 {
            return None;
        }
        Some(
            SubChannelPlan {
                start_addr: sub.start_addr,
                size_cu: sub.size_cu,
                bit_rate: sub.bitrate_kbps as i16,
                prot_level: decode_prot_level(sub.protection.as_str()),
            },
        )
    }

    /// Whether [`MscDecoder::new`] accepts the plan.
    pub fn is_decodable(&self) -> (r: bool)
        ensures
            r == self.decodable(),
    {
        if !profile_fits(self.bit_rate, self.prot_level) {
            return false;
        }
        if 64 * (self.start_addr as usize + self.size_cu as usize) > BITS_PER_CIF {
            return true;
        }
        let eep: EepProtection = EepProtection::new(self.bit_rate, self.prot_level);
        count_kept(eep.index_table()) <= 64 * self.size_cu as usize
    }
}

/// What is scrambled, encoded, punctured with a profile that fills the code word,
/// and received without sign errors comes out of the CIF packed.
pub proof fn law_sub_channel_round_trip(plan: SubChannelPlan, clear: Seq<u8>, cif: Seq<i16>)
    requires
        0 < plan.bit_rate,
        eep_profile(plan.bit_rate, plan.prot_level).body() == 96 * plan.bit_rate,
        clear.len() == 24 * plan.bit_rate,
        all_bits(clear),
        received_clean(
            plan.cut(cif),
            transmitted(codeword(descrambled(clear)), plan.table(), 96 * plan.bit_rate + 24),
        ),
    ensures
        plan.cif_bytes(cif) == packed(clear),
{
    let sent = descrambled(clear);
    assert forall|i: int| 0 <= i < sent.len() implies #[trigger] sent[i] <= 1 by {
        lemma_prbs_is_bit(i);
        crate::bits::lemma_xor_bit(clear[i], prbs_bit(i));
    }
    law_eep_round_trip(plan.bit_rate, plan.prot_level, sent, plan.cut(cif), plan.table());
    law_pack_undoes_scrambling(clear);
}

// ---------------------------------------------------------------------------
// The stream of frames
// ---------------------------------------------------------------------------

/// How many of the first `n` CIFs are decoded.
pub open spec fn decoded_cifs(plan: SubChannelPlan, n: int) -> int {
    if plan.in_cif() && n > WARM_UP_CIFS {
        n - WARM_UP_CIFS
    } else {
        0
    }
}

/// The outer code's state after the first `n` of `cifs`.
pub open spec fn outer_after(plan: SubChannelPlan, cifs: Seq<Seq<i16>>, n: int) -> OuterState
    decreases n,
{
    if n <= 0 {
        initial_state()
    } else if n <= WARM_UP_CIFS || !plan.in_cif() {
        outer_after(plan, cifs, n - 1)
    } else {
        after_feed(
            outer_after(plan, cifs, n - 1),
            plan.cif_bytes(deinterleaved_cif(cifs, n - 1)),
        )
    }
}

/// The bytes that the first `n` of `cifs` give.
pub open spec fn sub_channel_stream(plan: SubChannelPlan, cifs: Seq<Seq<i16>>, n: int) -> Seq<u8>
    decreases n,
{
    if n <= 0 {
        Seq::empty()
    } else if n <= WARM_UP_CIFS || !plan.in_cif() {
        sub_channel_stream(plan, cifs, n - 1)
    } else {
        sub_channel_stream(plan, cifs, n - 1) + plan.cif_bytes(deinterleaved_cif(cifs, n - 1))
    }
}

/// The outer code receives the bytes of all CIFs, one after the other.
pub proof fn law_outer_code_gets_the_stream(plan: SubChannelPlan, cifs: Seq<Seq<i16>>, n: int)
    ensures
        tracks(outer_after(plan, cifs, n), sub_channel_stream(plan, cifs, n)),
    decreases n,
{
    if n <= 0 {
        assert(Seq::<u8>::empty() =~= sub_channel_stream(plan, cifs, n).skip(0));
    } else {
        law_outer_code_gets_the_stream(plan, cifs, n - 1);
        law_feed_keeps_the_stream(
            outer_after(plan, cifs, n - 1),
            sub_channel_stream(plan, cifs, n - 1),
            plan.cif_bytes(deinterleaved_cif(cifs, n - 1)),
        );
    }
}

/// What was put into CIF `t` at the transmitter comes out sixteen CIFs later: the
/// CIFs are time interleaved on the way, and the sub-channel in CIF `t` holds, without
/// sign errors, the punctured code word of the scrambled bits.
pub proof fn law_sub_channel_comes_back(
    plan: SubChannelPlan,
    sent: Seq<Seq<i16>>,
    received: Seq<Seq<i16>>,
    t: int,
    clear: Seq<u8>,
)
    requires
        0 < plan.bit_rate,
        eep_profile(plan.bit_rate, plan.prot_level).body() == 96 * plan.bit_rate,
        0 <= t < sent.len() - 16,
        forall|k: int| 0 <= k < sent.len() ==> (#[trigger] sent[k]).len() == BITS_PER_CIF,
        received == Seq::new(sent.len(), |k: int| interleaved_cif(sent, k)),
        clear.len() == 24 * plan.bit_rate,
        all_bits(clear),
        received_clean(
            plan.cut(sent[t]),
            transmitted(codeword(descrambled(clear)), plan.table(), 96 * plan.bit_rate + 24),
        ),
    ensures
        plan.cif_bytes(deinterleaved_cif(received, t + 16)) == packed(clear),
{
    law_time_deinterleaving_undoes_interleaving(sent, received, t + 16);
    law_sub_channel_round_trip(plan, clear, sent[t]);
}

/// The CIFs of one frame.
pub open spec fn frame_cifs(frame: Seq<i16>) -> Seq<Seq<i16>> {
    Seq::new(
        4,
        |k: int| frame.subrange(9216 + BITS_PER_CIF * k, 9216 + BITS_PER_CIF * k + BITS_PER_CIF),
    )
}

proof fn lemma_outer_after_stable(
    plan: SubChannelPlan,
    cifs: Seq<Seq<i16>>,
    next: Seq<i16>,
    n: int,
)
    requires
        n <= cifs.len(),
    ensures
        outer_after(plan, cifs.push(next), n) == outer_after(plan, cifs, n),
    decreases n,
{
    if n > 0 {
        lemma_outer_after_stable(plan, cifs, next, n - 1);
        assert(deinterleaved_cif(cifs.push(next), n - 1) =~= deinterleaved_cif(cifs, n - 1));
    }
}

proof fn lemma_unaligned_feeds_nothing(plan: SubChannelPlan, cifs: Seq<Seq<i16>>, n: int)
    ensures
        outer_after(plan, cifs, n).phase < 0 ==> outer_after(plan, cifs, n).fed.len() == 0,
    decreases n,
{
    if n > 0 {
        lemma_unaligned_feeds_nothing(plan, cifs, n - 1);
    }
}

proof fn lemma_product_step(a: int, k: int, m: int)
    by (nonlinear_arith)
    requires
        0 <= a,
        0 <= k < m,
    ensures
        a * (k + 1) == a * k + a,
        a * (k + 1) <= a * m,
        a * 0 == 0,
{
}

/// Whole frames and sub-channel blocks decoded, and the packets that came out.
pub struct MscDecoder {
    plan: SubChannelPlan,
    eep: EepProtection,
    deinterleaver: TimeDeinterleaver,
    warm: usize,
    outer: KoreanTDmbOuterFec,
    frames_decoded: usize,
    cifs_assembled: usize,
    subch_bits_total: usize,
    subch_bytes_total: usize,
    ts_packets: Vec<TsPacket>,
}

impl MscDecoder {
    /// The sub-channel.
    pub closed spec fn plan(&self) -> SubChannelPlan {
        self.plan
    }

    /// All CIFs so far.
    pub closed spec fn cifs(&self) -> Seq<Seq<i16>> {
        self.deinterleaver.seen()
    }

    /// The outer code's state.
    pub open spec fn outer_state(&self) -> OuterState {
        outer_after(self.plan(), self.cifs(), self.cifs().len() as int)
    }

    /// The counters and packets follow from the CIFs.
    spec fn tallied(&self) -> bool {
        let n = self.deinterleaver.seen().len() as int;
        let done = decoded_cifs(self.plan, n);
        &&& self.plan.decodable()
        &&& self.eep.wf()
        &&& self.eep.out_bits() == 24 * self.plan.bit_rate
        &&& self.eep.table() == self.plan.table()
        &&& self.deinterleaver.wf()
        &&& self.outer.wf()
        &&& self.outer.state() == self.outer_state()
        &&& self.warm == if n < 15 {
            n
        } else {
            15
        }
        &&& self.cifs_assembled == n
        &&& self.subch_bits_total == 64 * self.plan.size_cu * done
        &&& self.subch_bytes_total == 3 * self.plan.bit_rate * done
        &&& self.subch_bytes_total == self.outer.state().bytes_in
        &&& sound_packets_match(
            self.ts_packets@,
            self.outer.state().fed,
            block_count(self.outer.state().fed),
        )
    }

    /// The CIFs are those of whole frames.
    pub closed spec fn wf(&self) -> bool {
        &&& self.tallied()
        &&& self.deinterleaver.seen().len() == 4 * self.frames_decoded
    }

    /// Frames decoded.
    pub closed spec fn frames(&self) -> nat {
        self.frames_decoded as nat
    }

    /// The counters can take `cifs` CIFs more.
    pub open spec fn room_for(&self, cifs: int) -> bool {
        &&& self.cifs().len() + cifs <= usize::MAX
        &&& 64 * self.plan().size_cu * (self.cifs().len() + cifs) <= usize::MAX
        &&& 3 * self.plan().bit_rate * (self.cifs().len() + cifs) <= usize::MAX
    }

    /// Starts decoding a sub-channel.
    pub fn new(plan: SubChannelPlan) -> (d: Self)
        requires
            plan.decodable(),
        ensures
            d.wf(),
            d.plan() == plan,
            d.cifs() == Seq::<Seq<i16>>::empty(),
            d.frames() == 0,
    {
        let eep: EepProtection = EepProtection::new(plan.bit_rate, plan.prot_level);
        let d = MscDecoder {
            plan,
            eep,
            deinterleaver: TimeDeinterleaver::new(),
            warm: 0,
            outer: KoreanTDmbOuterFec::new(),
            frames_decoded: 0,
            cifs_assembled: 0,
            subch_bits_total: 0,
            subch_bytes_total: 0,
            ts_packets: Vec::new(),
        };
        proof {
            assert(64 * d.plan.size_cu * 0 == 0) by (nonlinear_arith);
            assert(3 * d.plan.bit_rate * 0 == 0) by (nonlinear_arith);
        }
        d
    }

    /// Takes in one CIF.
    fn process_cif(&mut self, cif: &[i16])
        requires
            old(self).tallied(),
            old(self).room_for(1),
            cif@.len() == BITS_PER_CIF,
        ensures
            final(self).tallied(),
            final(self).plan() == old(self).plan(),
            final(self).frames() == old(self).frames(),
            final(self).cifs() == old(self).cifs().push(cif@),
    {
        let ghost n = self.cifs().len() as int;
        let ghost before = self.cifs();
        let ghost size = self.plan.size_cu as int;
        let ghost rate = self.plan.bit_rate as int;
        let ghost done = decoded_cifs(self.plan, n);
        proof {
            lemma_outer_after_stable(self.plan, before, cif@, n);
        }
        let deint: Vec<i16> = self.deinterleaver.push(cif);
        self.cifs_assembled += 1;
        if self.warm < WARM_UP_CIFS {
            self.warm += 1;
            return;
        }
        let sub_off: usize = self.plan.start_addr as usize * CU_SIZE_BITS;
        let sub_len: usize = self.plan.size_cu as usize * CU_SIZE_BITS;
        if sub_off + sub_len > BITS_PER_CIF {
            return;
        }
        let soft: &[i16] = slice_subrange(deint.as_slice(), sub_off, sub_off + sub_len);
        proof {
            assert(soft@ == self.plan.cut(deint@));
            lemma_weight_bound(soft@, self.eep.in_bits());
            lemma_product_step(64 * size, done, n + 1);
            lemma_product_step(3 * rate, done, n + 1);
        }
        self.subch_bits_total += sub_len;
        let info: Vec<u8> = self.eep.deconvolve(soft);
        let bytes: Vec<u8> = descramble_and_pack(info.as_slice());
        self.subch_bytes_total += bytes.len();
        let ghost fed = self.outer.state().fed;
        let ghost packets = self.ts_packets@;
        let ts: Vec<TsPacket> = self.outer.feed(bytes.as_slice());
        let ghost after = self.outer.state().fed;
        proof {
            lemma_unaligned_feeds_nothing(self.plan, before, n);
            lemma_sound_blocks_stable(fed, bytes@, block_count(fed));
            if after != fed + bytes@ {
                assert(block_count(fed) == 0 || after == fed);
            }
            assert(sound_packets_match(packets, after, block_count(fed)));
        }
        keep_sound(&mut self.ts_packets, &ts, Ghost(after), Ghost(block_count(fed)));
    }
}

/// What became of a sub-channel.
pub struct MscIqResult {
    /// The ensemble.
    pub ensemble: Ensemble,
    /// The sub-channel, if the ensemble has it.
    pub sub_channel: Option<SubChannel>,
    /// Frames decoded.
    pub frames_decoded: usize,
    /// CIFs taken out of them.
    pub cifs_assembled: usize,
    /// Soft bits of the sub-channel.
    pub subch_bits_total: usize,
    /// Decoded bytes of the sub-channel.
    pub subch_bytes_total: usize,
    /// Transport packets of the blocks that were good or could be corrected.
    pub ts_packets: Vec<TsPacket>,
}

impl MscIqResult {
    /// The result where the ensemble does not have the sub-channel.
    pub fn without_sub_channel(ensemble: Ensemble) -> (r: Self)
        ensures
            r.ensemble == ensemble,
            r.sub_channel is None,
            r.frames_decoded == 0,
            r.cifs_assembled == 0,
            r.subch_bits_total == 0,
            r.subch_bytes_total == 0,
            r.ts_packets@.len() == 0,
    {
        MscIqResult {
            ensemble,
            sub_channel: None,
            frames_decoded: 0,
            cifs_assembled: 0,
            subch_bits_total: 0,
            subch_bytes_total: 0,
            ts_packets: Vec::new(),
        }
    }
}

/// Copies the sub-channel `id` out of an ensemble.
pub fn find_sub_channel(ensemble: &Ensemble, id: u8) -> (r: Option<SubChannel>)
    ensures
        r is Some <==> ensemble@.sub_channels.contains_key(id),
        r matches Some(s) ==> s@ == ensemble@.sub_channels[id],
{
    match ensemble.sub_channels.get(&id) {
        Some(s) => {
            let copy = SubChannel {
                sub_ch_id: s.sub_ch_id,
                start_addr: s.start_addr,
                size_cu: s.size_cu,
                protection: s.protection.clone(),
                bitrate_kbps: s.bitrate_kbps,
                is_long_form: s.is_long_form,
            };
            Some(copy)
        },
        None => None,
    }
}

impl MscDecoder {
    /// Whether [`MscDecoder::feed_frame`] can be called.
    pub fn has_room(&self) -> (r: bool)
        requires
            self.wf(),
        ensures
            r == (self.room_for(4) && self.frames() < usize::MAX),
    {
        let n: u128 = self.cifs_assembled as u128 + 4;
        let bits: u128 = 64 * self.plan.size_cu as u128;
        let bytes: u128 = 3 * self.plan.bit_rate as u128;
        proof {
            lemma_product_bound(bits as int, n as int);
            lemma_product_bound(bytes as int, n as int);
        }
        self.frames_decoded < usize::MAX && n <= usize::MAX as u128 && bits * n
            <= usize::MAX as u128 && bytes * n <= usize::MAX as u128
    }

    /// Takes in the soft bits of one frame.
    pub fn feed_frame(&mut self, frame_soft: &[i16])
        requires
            old(self).wf(),
            old(self).room_for(4),
            old(self).frames() < usize::MAX,
            frame_soft@.len() == FRAME_SOFT_BITS,
        ensures
            final(self).wf(),
            final(self).plan() == old(self).plan(),
            final(self).frames() == old(self).frames() + 1,
            final(self).cifs() == old(self).cifs() + frame_cifs(frame_soft@),
    {
        self.frames_decoded += 1;
        let ghost before = old(self).cifs();
        let ghost all = frame_cifs(frame_soft@);
        let ghost start = *self;
        assert(start.cifs() == before);
        let mut k: usize = 0;
        assert(before + all.take(0) =~= before);
        while k < CIFS_PER_FRAME
            invariant
                k <= 4,
                frame_soft@.len() == FRAME_SOFT_BITS,
                all == frame_cifs(frame_soft@),
                self.tallied(),
                self.plan() == old(self).plan(),
                self.frames() == old(self).frames() + 1,
                old(self).room_for(4),
                before == old(self).cifs(),
                self.cifs() == before + all.take(k as int),
            decreases 4 - k,
        {
            let at: usize = FIC_SOFT_BITS_PER_FRAME + k * BITS_PER_CIF;
            let cif: &[i16] = slice_subrange(frame_soft, at, at + BITS_PER_CIF);
            proof {
                let m = before.len() + 4;
                lemma_product_monotone(64 * self.plan().size_cu, k + 1 + before.len(), m as int);
                lemma_product_monotone(3 * self.plan().bit_rate, k + 1 + before.len(), m as int);
                assert(cif@ == all[k as int]);
                assert(before + all.take(k as int).push(cif@) =~= (before + all.take(
                    k as int,
                )).push(cif@));
                assert(all.take(k as int).push(cif@) =~= all.take(k + 1));
            }
            self.process_cif(cif);
            k += 1;
        }
        assert(all.take(4) =~= all);
        assert(self.cifs().len() == before.len() + 4);
    }

    /// Snapshot of the outer code's counters.
    pub fn outer_stats(&self) -> (s: Stats)
        requires
            self.wf(),
        ensures
            s.bytes_in == self.outer_state().bytes_in,
            s.phase_offset == self.outer_state().phase,
            s.aligned == (self.outer_state().phase >= 0),
            s.rs_total == block_count(self.outer_state().fed),
            s.rs_ok == tally(self.outer_state().fed, s.rs_total as int, 0),
            s.rs_corrected == tally(self.outer_state().fed, s.rs_total as int, 1),
            s.rs_failed == tally(self.outer_state().fed, s.rs_total as int, -1),
            s.uncorrectable == s.rs_failed,
            s.bytes_discarded_presync == self.outer_state().discarded,
    {
        self.outer.stats()
    }

    /// Ends decoding.
    pub fn finish(self, ensemble: Ensemble, sub_channel: SubChannel) -> (r: MscIqResult)
        requires
            self.wf(),
        ensures
            r.ensemble == ensemble,
            r.sub_channel == Some(sub_channel),
            r.frames_decoded == self.frames(),
            r.cifs_assembled == self.cifs().len(),
            r.cifs_assembled == 4 * r.frames_decoded,
            r.subch_bits_total == 64 * self.plan().size_cu * decoded_cifs(
                self.plan(),
                self.cifs().len() as int,
            ),
            r.subch_bytes_total == 3 * self.plan().bit_rate * decoded_cifs(
                self.plan(),
                self.cifs().len() as int,
            ),
            sound_packets_match(
                r.ts_packets@,
                self.outer_state().fed,
                block_count(self.outer_state().fed),
            ),
    {
        MscIqResult {
            ensemble,
            sub_channel: Some(sub_channel),
            frames_decoded: self.frames_decoded,
            cifs_assembled: self.cifs_assembled,
            subch_bits_total: self.subch_bits_total,
            subch_bytes_total: self.subch_bytes_total,
            ts_packets: self.ts_packets,
        }
    }
}

proof fn lemma_product_monotone(a: int, k: int, m: int)
    by (nonlinear_arith)
    requires
        0 <= a,
        k <= m,
    ensures
        a * k <= a * m,
{
}

proof fn lemma_product_bound(a: int, n: int)
    by (nonlinear_arith)
    requires
        0 <= a <= 0x1_0000_0000,
        0 <= n <= 0x2_0000_0000_0000_0000,
    ensures
        0 <= a * n <= 0x2_0000_0000_0000_0000_0000_0000,
{
}

/// A sub-channel lies in a CIF from capacity unit `start_addr` on, 64 soft bits to the
/// unit.
pub proof fn law_sub_channel_lies_in_its_units(plan: SubChannelPlan, cif: Seq<i16>, i: int)
    requires
        cif.len() == 55296,
        0 <= i < 64 * plan.size_cu,
    ensures
        plan.in_cif() <==> plan.start_addr + plan.size_cu <= 864,
        plan.in_cif() ==> plan.cut(cif).len() == 64 * plan.size_cu && plan.cut(cif)[i] == cif[64
            * plan.start_addr + i],
{
}

/// A frame carries three symbols of 3072 soft bits in front and then four CIFs of
/// eighteen symbols.
pub proof fn law_frame_holds_four_cifs(frame: Seq<i16>, k: int, i: int)
    requires
        frame.len() == 75 * 3072,
        0 <= k < 4,
        0 <= i < 18 * 3072,
    ensures
        frame_cifs(frame).len() == 4,
        frame_cifs(frame)[k].len() == 18 * 3072,
        frame_cifs(frame)[k][i] == frame[(3 + 18 * k) * 3072 + i],
{
}

/// After fifteen CIFs, every CIF gives three bytes for each kbit/s.
pub proof fn law_stream_grows_with_the_rate(plan: SubChannelPlan, cifs: Seq<Seq<i16>>, n: int)
    requires
        0 <= plan.bit_rate,
        0 <= n,
    ensures
        plan.in_cif() && n > 15 ==> sub_channel_stream(plan, cifs, n).len() == (n - 15) * (3
            * plan.bit_rate),
        !plan.in_cif() || n <= 15 ==> sub_channel_stream(plan, cifs, n).len() == 0,
    decreases n,
{
    if n > 0 {
        law_stream_grows_with_the_rate(plan, cifs, n - 1);
        let cif = deinterleaved_cif(cifs, n - 1);
        assert(plan.cif_bytes(cif).len() == 3 * plan.bit_rate);
        let r = 3 * plan.bit_rate;
        assert((n - 15) * r == (n - 16) * r + r) by (nonlinear_arith);
        assert(n == 16 ==> (n - 16) * r == 0) by (nonlinear_arith);
    }
}

/// Every CIF adds its bytes at the end of the stream.
pub proof fn law_stream_is_in_order(plan: SubChannelPlan, cifs: Seq<Seq<i16>>, n: int)
    requires
        15 <= n,
        plan.in_cif(),
    ensures
        sub_channel_stream(plan, cifs, n + 1) == sub_channel_stream(plan, cifs, n)
            + plan.cif_bytes(deinterleaved_cif(cifs, n)),
{
}

} // verus!
