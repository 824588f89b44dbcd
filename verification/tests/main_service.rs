//! The main service channel and the comparison of soft bits.

use dab_rs::capture::SymbolCapture;
use dab_rs::descramble::prbs_sequence;
use dab_rs::diag::{compare, examine_pair, have_same_values, update_hist};
use dab_rs::eep::EepProtection;
use dab_rs::ensemble::{Ensemble, SubChannel};
use dab_rs::interleaver::ConvolutionalInterleaver;
use dab_rs::msc_decode::{MscDecoder, MscIqResult, SubChannelPlan, FRAME_SOFT_BITS};
use dab_rs::outer::Stats;
use dab_rs::rs::RsEncoder;
use dab_rs::symbol_table::{make_key, parse_dump, SymbolTable};
use dab_rs::time_deinterleaver::{TimeDeinterleaver, BITS_PER_CIF, INTERLEAVE_MAP};
use dab_rs::viterbi::convolutional_encode;

/// What a transmitter sends for `cifs`.
fn interleave(cifs: &[Vec<i16>]) -> Vec<Vec<i16>> {
    (0..cifs.len())
        .map(|t| {
            (0..BITS_PER_CIF)
                .map(|i| {
                    let d = INTERLEAVE_MAP[i % 16];
                    if t >= d {
                        cifs[t - d][i]
                    } else {
                        0
                    }
                })
                .collect()
        })
        .collect()
}

#[test]
fn time_deinterleaving_gives_back_cifs() {
    let cifs: Vec<Vec<i16>> = (0..40i16)
        .map(|t| (0..BITS_PER_CIF).map(|i| (t * 100 + (i % 97) as i16) % 128).collect())
        .collect();
    let sent = interleave(&cifs);
    let mut d = TimeDeinterleaver::new();
    let out: Vec<Vec<i16>> = sent.iter().map(|c| d.push(c)).collect();
    for t in 0..24 {
        assert_eq!(out[t + 16], cifs[t]);
    }
}

#[test]
fn transmission_delays_are_reversed_digits() {
    for (i, &d) in INTERLEAVE_MAP.iter().enumerate() {
        let reversed = (0..4).fold(0, |acc, b| 2 * acc + ((i >> b) & 1));
        assert_eq!(d, reversed);
    }
}

fn sub_channel(start: u16, units: u16, kbps: u16, protection: &str) -> SubChannel {
    SubChannel {
        sub_ch_id: 1,
        start_addr: start,
        size_cu: units,
        bitrate_kbps: kbps,
        protection: protection.to_string(),
        is_long_form: true,
    }
}

#[test]
fn plans_of_sub_channels() {
    let plan = SubChannelPlan::new(&sub_channel(6, 264, 352, "EEP-3A")).expect("fits");
    assert_eq!((plan.start_addr, plan.size_cu, plan.bit_rate, plan.prot_level), (6, 264, 352, 2));
    assert!(plan.is_decodable());
    assert!(SubChannelPlan::new(&sub_channel(0, 1, 40_000, "EEP-1A")).is_none());
    let odd = SubChannelPlan::new(&sub_channel(0, 10, 0, "EEP-1A")).expect("fits");
    assert!(!odd.is_decodable());
}

#[test]
fn no_sub_channel_gives_an_empty_result() {
    let r = MscIqResult::without_sub_channel(Ensemble::default());
    assert!(r.sub_channel.is_none());
    assert_eq!((r.frames_decoded, r.cifs_assembled), (0, 0));
    assert!(r.ts_packets.is_empty());
}

/// Packets and their code words, one after the other.
fn coded_packets() -> (Vec<Vec<u8>>, Vec<u8>) {
    let mut coded = Vec::new();
    let mut packets = Vec::new();
    for k in 0..70u32 {
        let mut p: Vec<u8> =
            (0..188u32).map(|i| ((i * 31 + k * 57) % 251) as u8 | 0x80).collect();
        p[0] = 0x47;
        coded.extend(RsEncoder::new().encode(&p));
        packets.push(p);
    }
    (packets, coded)
}

/// Sends code words through a sub-channel of 64 kbit/s, with 192 bytes and 48 capacity
/// units per CIF from unit 20 on; returns what was received, and the CIFs that carried
/// data and those that were sent in all.
fn send(coded: &[u8]) -> (MscIqResult, Stats, usize, usize) {
    let (start, units, rate) = (20usize, 48usize, 64usize);
    let bytes_per_cif = 3 * rate;
    let stream = ConvolutionalInterleaver::new().feed(coded);
    let eep = EepProtection::new(rate as i16, 2);
    let prbs = prbs_sequence(8 * bytes_per_cif);
    let mut cifs = Vec::new();
    for chunk in stream.chunks_exact(bytes_per_cif) {
        let mut bits = Vec::new();
        for b in chunk {
            for k in 0..8 {
                bits.push((b >> (7 - k)) & 1);
            }
        }
        for (b, p) in bits.iter_mut().zip(prbs.iter()) {
            *b ^= p;
        }
        let mother = convolutional_encode(&bits);
        let soft: Vec<i16> = mother
            .iter()
            .zip(eep.index_table().iter())
            .filter_map(|(&b, &keep)| {
                if keep {
                    Some(if b == 0 { -100i16 } else { 100 })
                } else {
                    None
                }
            })
            .collect();
        assert_eq!(soft.len(), 64 * units);
        let mut cif = vec![0i16; BITS_PER_CIF];
        cif[64 * start..64 * (start + units)].copy_from_slice(&soft);
        cifs.push(cif);
    }
    let message_cifs = cifs.len() / 4 * 4;
    cifs.truncate(message_cifs);
    for _ in 0..16 {
        cifs.push(vec![0i16; BITS_PER_CIF]);
    }
    let sent = interleave(&cifs);
    let sub = sub_channel(start as u16, units as u16, rate as u16, "EEP-3A");
    let plan = SubChannelPlan::new(&sub).expect("fits");
    let mut decoder = MscDecoder::new(plan);
    for group in sent.chunks_exact(4) {
        let mut frame = vec![0i16; FRAME_SOFT_BITS - 4 * BITS_PER_CIF];
        for c in group {
            frame.extend_from_slice(c);
        }
        assert!(decoder.has_room());
        decoder.feed_frame(&frame);
    }
    let stats = decoder.outer_stats();
    let r = decoder.finish(Ensemble::default(), sub);
    (r, stats, message_cifs, sent.len())
}

#[test]
fn sub_channel_comes_back_as_packets() {
    let (packets, coded) = coded_packets();
    let (r, stats, message_cifs, sent) = send(&coded);
    assert_eq!(r.frames_decoded, sent / 4);
    assert_eq!(r.cifs_assembled, sent);
    // One decoded block of zeros comes before the first CIF that was sent.
    assert_eq!(r.subch_bytes_total, 192 * (sent - 15));
    assert_eq!(r.subch_bits_total, 64 * 48 * (sent - 15));
    assert!(stats.aligned);
    assert_eq!(stats.phase_offset, 192);
    assert_eq!(stats.rs_ok + stats.rs_corrected, r.ts_packets.len());
    let whole = (message_cifs * 192 - 11 * 204) / 204;
    assert!(r.ts_packets.len() >= whole);
    for (a, b) in r.ts_packets.iter().zip(packets.iter()).take(whole) {
        assert_eq!(&a.data, b);
    }
}

#[test]
fn uncorrectable_packets_are_left_out() {
    let (packets, mut coded) = coded_packets();
    for at in 0..20 {
        coded[204 * 5 + 3 + 9 * at] ^= 0x5A;
    }
    coded[204 * 7 + 100] ^= 1;
    let (r, stats, _, _) = send(&coded);
    assert!(stats.rs_failed >= 1);
    assert!(stats.rs_corrected >= 1);
    assert_eq!(stats.rs_total, stats.rs_failed + r.ts_packets.len());
    assert!(r.ts_packets.iter().all(|p| p.rs_errors >= 0));
    for k in 0..5 {
        assert_eq!(r.ts_packets[k].data, packets[k]);
    }
    assert_eq!(r.ts_packets[5].data, packets[6]);
    assert_eq!((r.ts_packets[6].rs_errors, &r.ts_packets[6].data), (1, &packets[7]));
}

fn record(frame: u32, symbol: u32, bits: &[i16]) -> Vec<u8> {
    let mut out = Vec::new();
    out.extend(frame.to_le_bytes());
    out.extend(symbol.to_le_bytes());
    for b in bits {
        out.extend(b.to_le_bytes());
    }
    out
}

#[test]
fn dumps_become_tables() {
    let a: Vec<i16> = (0..3072).map(|i| (i % 255) as i16 - 127).collect();
    let b = vec![5i16; 3072];
    let c = vec![6i16; 3072];
    let mut dump = record(2, 1, &a);
    dump.extend(record(1, 3, &b));
    dump.extend(record(2, 1, &c));
    dump.extend_from_slice(&[0; 100]);
    let t = parse_dump(&dump);
    assert_eq!(t.len(), 2);
    assert_eq!(t.key(0), make_key(1, 3));
    assert_eq!(t.soft_bits(0), &b[..]);
    assert_eq!(t.get(make_key(2, 1)), Some(&c[..]));
    assert_eq!(t.get(make_key(2, 2)), None);
    assert_eq!(make_key(1, 3), (1u64 << 32) + 3);
}

#[test]
fn difference_classes() {
    let mut hist = [1usize, 0, 0, 0, 0];
    update_hist(&mut hist, &[0, 0, 0, 0, 0, 0, 0, 32767], &[0, 2, -3, 8, 9, 32, 33, -32768]);
    assert_eq!(hist, [2, 1, 2, 2, 2]);
}

#[test]
fn comparing_finds_the_offset_and_the_first_difference() {
    let mut own = SymbolTable::new();
    let mut other = SymbolTable::new();
    for frame in 1..6u32 {
        for symbol in 2..5u32 {
            let bits: Vec<i16> =
                (0..3072).map(|i| ((i * 7 + frame as i32 * 31 + symbol as i32) % 200) as i16).collect();
            own.insert(make_key(frame, symbol), bits.clone());
            other.insert(make_key(frame + 3, symbol), bits);
        }
    }
    let mut changed = own.get(make_key(2, 4)).expect("symbol").to_vec();
    changed[1600] += 5;
    other.insert(make_key(5, 4), changed.clone());
    let r = compare(&own, &other);
    assert_eq!((r.dab_rs_records, r.oracle_records), (15, 15));
    assert_eq!((r.best_offset, r.aligned_pairs), (3, 15));
    assert_eq!((r.total_bits, r.matching_bits), (15 * 3072, 15 * 3072 - 1));
    assert_eq!(r.diff_hist, [15 * 3072 - 1, 0, 1, 0, 0]);
    let d = r.first_divergence.expect("one bit differs");
    assert_eq!((d.dab_rs_frame, d.oracle_frame, d.symbol_idx), (2, 5, 4));
    assert_eq!((d.bit_index, d.i_or_q, d.carrier_logical_index), (1600, 'Q', 64));
    assert_eq!(d.oracle_value - d.dab_rs_value, 5);
}

#[test]
fn comparing_tries_small_offsets_only() {
    for (frame, offset, pairs) in [(6u32, 5, 1usize), (7, 0, 0), (11, 0, 0)] {
        let mut own = SymbolTable::new();
        let mut other = SymbolTable::new();
        own.insert(make_key(1, 2), vec![5]);
        other.insert(make_key(frame, 2), vec![5]);
        let r = compare(&own, &other);
        assert_eq!((r.best_offset, r.aligned_pairs, r.matching_bits), (offset, pairs, pairs));
        assert_eq!((r.dab_rs_records, r.oracle_records), (1, 1));
        assert!(r.first_divergence.is_none());
        assert_eq!(r.diff_hist, [pairs, 0, 0, 0, 0]);
    }
}

#[test]
fn comparing_with_nothing() {
    let mut own = SymbolTable::new();
    own.insert(make_key(1, 2), vec![1, 2, 3]);
    let r = compare(&own, &SymbolTable::new());
    assert_eq!((r.dab_rs_records, r.oracle_records, r.aligned_pairs), (1, 0, 0));
    assert!(r.first_divergence.is_none());
}

#[test]
fn same_values_in_any_order() {
    assert!(have_same_values(&[1, 2, 2, -3], &[2, -3, 1, 2]));
    assert!(!have_same_values(&[1, 2, 2], &[1, 1, 2]));
    assert!(!have_same_values(&[1, 2], &[1, 2, 2]));
    assert!(have_same_values(&[], &[]));
}

#[test]
fn examining_a_pair() {
    let own: Vec<i16> = (0..3072).map(|i| (i * i % 251) as i16 + 1).collect();
    let r = examine_pair(&own, &own);
    assert!(r.same_values && r.same_i && r.same_q);
    assert_eq!(r.negated, 0);
    let mut swapped = own[1536..].to_vec();
    swapped.extend_from_slice(&own[..1536]);
    assert!(examine_pair(&own, &swapped).swapped);
    let negated: Vec<i16> = own.iter().map(|v| -v).collect();
    let r = examine_pair(&own, &negated);
    assert_eq!(r.negated, 3072);
    assert!(!r.same_values);
    let mut turned: Vec<i16> = (0..1536).map(|i| own[(i + 1) % 1536]).collect();
    turned.extend_from_slice(&own[1536..]);
    let r = examine_pair(&own, &turned);
    assert!(r.same_i);
    assert!(r.shifted[2] == 1536 || r.shifted[3] == 1536);
}

#[test]
fn captured_frames_are_numbered() {
    let mut capture = SymbolCapture::begin(2, 400_000);
    assert_eq!(capture.frame_start(1000), Some(3656));
    assert_eq!(capture.frame_start(300_000), None);
    assert!(capture.accepts_start(400_000 - 76 * 2552));
    assert!(!capture.accepts_start(400_001 - 76 * 2552));
    for f in 0..2i16 {
        assert!(capture.is_open());
        capture.take_frame((0..75i16).map(|s| vec![f, s]).collect());
    }
    assert!(!capture.is_open());
    let t = capture.finish();
    assert_eq!(t.len(), 150);
    assert_eq!(t.get(make_key(1, 2)), Some(&[0i16, 0][..]));
    assert_eq!(t.get(make_key(2, 76)), Some(&[1i16, 74][..]));
    assert_eq!(t.get(make_key(2, 1)), None);
    assert_eq!(t.get(make_key(3, 2)), None);
}
