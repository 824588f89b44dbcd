//! Fast information blocks, groups and the ensemble.

use dab_rs::crc::{crc16_ccitt, fib_ok};
use dab_rs::ensemble::{Ensemble, FicAccumulator};
use dab_rs::fic_tables::{eep_size, uep_table};
use dab_rs::fig::{iter_figs, Fig};
use dab_rs::label::{decode_label, trim_padding};
use dab_rs::msc_decode::{decode_prot_level, find_sub_channel};

#[test]
fn crc16_known_vector() {
    assert_eq!(crc16_ccitt(b"123456789"), 0xD64E);
    assert_eq!(crc16_ccitt(b"123456789") ^ 0xFFFF, 0x29B1);
}

#[test]
fn crc16_of_nothing() {
    assert_eq!(crc16_ccitt(&[]), 0);
}

#[test]
fn fib_ok_roundtrip() {
    let mut fib = vec![0u8; 32];
    for (i, b) in fib.iter_mut().take(30).enumerate() {
        *b = (i as u8).wrapping_mul(7).wrapping_add(3);
    }
    let crc = crc16_ccitt(&fib[..30]);
    fib[30] = (crc >> 8) as u8;
    fib[31] = (crc & 0xFF) as u8;
    assert!(fib_ok(&fib));
    fib[0] ^= 0x01;
    assert!(!fib_ok(&fib));
    assert!(!fib_ok(&fib[..31]));
}

#[test]
fn crc_sees_every_single_byte_change() {
    let data: Vec<u8> = (0..30u8).collect();
    let crc = crc16_ccitt(&data);
    for at in 0..30 {
        for x in 1..=255u8 {
            let mut changed = data.clone();
            changed[at] ^= x;
            assert_ne!(crc16_ccitt(&changed), crc);
        }
    }
}

#[test]
fn iter_figs_splits_and_stops() {
    let mut payload = vec![0x03, 0x00, 0x11, 0x22, 0x22, 0xAA, 0xBB, 0xFF];
    payload.extend_from_slice(&[0xDE, 0xAD, 0xBE, 0xEF]);
    let figs = iter_figs(&payload);
    assert_eq!(figs.len(), 2);
    assert_eq!(figs[0].ftype, 0);
    assert_eq!(figs[0].data, vec![0x00, 0x11, 0x22]);
    assert_eq!(figs[1].ftype, 1);
    assert_eq!(figs[1].data, vec![0xAA, 0xBB]);
}

#[test]
fn iter_figs_stops_at_a_length_beyond_the_payload() {
    assert_eq!(iter_figs(&[0x22, 0xAA]), Vec::<Fig>::new());
    let figs = iter_figs(&[0x41, 0x05, 0x1F]);
    assert_eq!(figs, vec![Fig { ftype: 2, data: vec![0x05] }]);
    assert!(iter_figs(&[]).is_empty());
    assert_eq!(iter_figs(&[0x00, 0x60]).len(), 2);
}

#[test]
fn decode_label_trims_padding() {
    let mut buf = b"YTN DMB".to_vec();
    buf.extend_from_slice(&[b' ', b' ', 0x00, 0x00]);
    assert_eq!(decode_label(&buf), "YTN DMB");
    assert_eq!(decode_label(b"abc\x00 \x00"), "abc");
}

#[test]
fn labels_fall_back_to_latin1() {
    assert_eq!(decode_label("Grüße".as_bytes()), "Grüße");
    assert_eq!(decode_label(b"Gr\xfc\xdfe  "), "Grüße");
    assert_eq!(decode_label(b"0123456789abcdefXYZ"), "0123456789abcdef");
    assert_eq!(decode_label(b"  \x00 "), "");
    assert_eq!(decode_label(b"\xA0"), "\u{A0}");
    assert_eq!(trim_padding(" a \0"), " a");
}

#[test]
fn uep_table_rows() {
    assert_eq!(uep_table(0), Some((32, 16, "UEP-5")));
    assert_eq!(uep_table(47), Some((256, 232, "UEP-2")));
    assert_eq!(uep_table(49), Some((320, 232, "UEP-2")));
    assert_eq!(uep_table(52), Some((384, 280, "UEP-1")));
    assert_eq!(uep_table(56), Some((192, 116, "UEP-1")));
    assert_eq!(uep_table(63), Some((32, 16, "UEP-5")));
    assert_eq!(uep_table(64), None);
}

#[test]
fn eep_sizes() {
    assert_eq!(eep_size(0, 2, 264), (352, 264, "EEP-3A".to_string()));
    assert_eq!(eep_size(1, 0, 27), (32, 27, "EEP-1B".to_string()));
    assert_eq!(eep_size(0, 3, 9), (16, 9, "EEP-4A".to_string()));
    assert_eq!(eep_size(0, 4, 9), (0, 9, "EEP-5A".to_string()));
    assert_eq!(eep_size(1, 9, 9), (0, 9, "EEP-10B".to_string()));
}

#[test]
fn protection_levels_of_labels() {
    assert_eq!(decode_prot_level("EEP-1A"), 0);
    assert_eq!(decode_prot_level("EEP-4A"), 3);
    assert_eq!(decode_prot_level("EEP-1B"), 4);
    assert_eq!(decode_prot_level("EEP-3B"), 6);
    assert_eq!(decode_prot_level("UEP-3"), 2);
    assert_eq!(decode_prot_level("EEP-9B"), 6);
    assert_eq!(decode_prot_level(""), 2);
}

/// A block with the groups, padded and sealed.
fn fib(figs: &[Vec<u8>]) -> Vec<u8> {
    let mut out = Vec::new();
    for f in figs {
        out.extend_from_slice(f);
    }
    out.resize(30, 0xFF);
    let crc = crc16_ccitt(&out);
    out.push((crc >> 8) as u8);
    out.push((crc & 0xFF) as u8);
    out
}

fn fig(ftype: u8, data: &[u8]) -> Vec<u8> {
    let mut out = vec![(ftype << 5) | data.len() as u8];
    out.extend_from_slice(data);
    out
}

fn label_fig(ext: u8, id: &[u8], label: &[u8; 16]) -> Vec<u8> {
    let mut data = vec![ext];
    data.extend_from_slice(id);
    data.extend_from_slice(label);
    data.extend_from_slice(&[0, 0]);
    fig(1, &data)
}

fn gathered(fibs: &[Vec<u8>]) -> FicAccumulator {
    let mut acc = FicAccumulator::new();
    for f in fibs {
        acc.feed_fic(f);
    }
    acc
}

#[test]
fn ensemble_id_and_label() {
    let acc = gathered(&[
        fib(&[fig(0, &[0x00, 0xE0, 0x40, 0x00, 0x00])]),
        fib(&[label_fig(0x00, &[0xE0, 0x40], b"YTN DMB         ")]),
    ]);
    assert_eq!(acc.ensemble.eid, Some(0xE040));
    assert_eq!(acc.ensemble.label, "YTN DMB");
    assert_eq!((acc.fib_total, acc.fib_ok), (2, 2));
}

#[test]
fn hearing_the_channel_again_changes_nothing() {
    let channel = [
        fib(&[fig(0, &[0x00, 0xE0, 0x40, 0x00, 0x00]), fig(0, &[0x01, 0x04, 0x00, 0x89, 0x08])]),
        fib(&[fig(0, &[0x01, 0x04, 0x10, 0x06]), fig(0, &[0x02, 0xE1, 0x23, 0x01, 0x05, 0x0E])]),
        fib(&[label_fig(0x01, &[0xE1, 0x23], b"first           ")]),
        fib(&[label_fig(0x01, &[0xE1, 0x23], b"second          ")]),
        fib(&[fig(0, &[0x02, 0xE1, 0x23, 0x02, 0x07, 0x0C, 0xC4, 0x8C])]),
        fib(&[fig(0, &[0x00, 0xE0, 0x41, 0x00, 0x00])]),
    ];
    let once = gathered(&channel);
    let mut twice = gathered(&channel);
    for f in &channel {
        twice.feed_fic(f);
    }
    assert_eq!(once.ensemble, twice.ensemble);
    let mut joined = FicAccumulator::new();
    joined.feed_fic(&channel.concat());
    assert_eq!(joined.ensemble, once.ensemble);
    assert_eq!((joined.fib_total, joined.fib_ok), (once.fib_total, once.fib_ok));
    assert_eq!(once.ensemble.eid, Some(0xE041));
    let s = &once.ensemble.services[&0xE123];
    assert_eq!(s.label, "second");
    // The second description of the audio component does not replace the first.
    assert_eq!(s.components.len(), 2);
    assert_eq!(s.components[0].ascty_or_dscty, 5);
    assert!(s.components[0].is_primary);
}

#[test]
fn short_ensemble_id_is_ignored() {
    let acc = gathered(&[fib(&[fig(0, &[0x00, 0xE0, 0x40])])]);
    assert_eq!(acc.ensemble.eid, None);
}

#[test]
fn sub_channels_in_both_forms() {
    // Sub-channel 1 at 0, long form, option 0, level 2, 264 units; sub-channel 5 at
    // 264 in short form, index 5; then an incomplete entry.
    let data = [0x01, 0x04, 0x00, 0x89, 0x08, 0x15, 0x08, 0x05, 0x18, 0x00];
    let acc = gathered(&[fib(&[fig(0, &data)])]);
    let subs = &acc.ensemble.sub_channels;
    assert_eq!(subs.len(), 2);
    let one = &subs[&1];
    assert_eq!((one.start_addr, one.size_cu, one.bitrate_kbps), (0, 264, 352));
    assert_eq!(one.protection, "EEP-3A");
    assert!(one.is_long_form);
    let five = &subs[&5];
    assert_eq!((five.start_addr, five.size_cu, five.bitrate_kbps), (264, 29, 48));
    assert_eq!(five.protection, "UEP-4");
    assert!(!five.is_long_form);
    let copy = find_sub_channel(&acc.ensemble, 1).expect("sub-channel 1");
    assert_eq!(&copy, one);
    assert!(find_sub_channel(&acc.ensemble, 2).is_none());
}

#[test]
fn later_sub_channel_entry_stands() {
    let acc = gathered(&[
        fib(&[fig(0, &[0x01, 0x04, 0x00, 0x05])]),
        fib(&[fig(0, &[0x01, 0x04, 0x10, 0x06])]),
    ]);
    let one = &acc.ensemble.sub_channels[&1];
    assert_eq!((one.start_addr, one.size_cu), (16, 35));
}

#[test]
fn programme_services_and_components() {
    // Service 0xE123 with an audio component on sub-channel 3 (primary) and packet
    // component 0x123; the same again changes nothing.
    let data = [0x02, 0xE1, 0x23, 0x02, 0x05, 0x0E, 0xC4, 0x8C];
    let f = fib(&[fig(0, &data)]);
    let acc = gathered(&[f.clone(), f]);
    assert_eq!(acc.ensemble.services.len(), 1);
    let s = &acc.ensemble.services[&0xE123];
    assert!(!s.is_data);
    assert_eq!(s.components.len(), 2);
    let a = &s.components[0];
    assert_eq!((a.sub_ch_id, a.sc_id_s, a.ascty_or_dscty, a.is_primary), (Some(3), 0, 5, true));
    assert_eq!(a.transport, "stream-audio");
    let p = &s.components[1];
    assert_eq!((p.sub_ch_id, p.sc_id_s, p.ascty_or_dscty, p.is_primary), (None, 0x123, 0, false));
    assert_eq!(p.transport, "packet");
}

#[test]
fn data_services_and_truncated_components() {
    // A data service that announces three components but holds one and a half.
    let data = [0x22, 0x11, 0x22, 0x33, 0x44, 0x03, 0x58, 0x1C, 0x98];
    let acc = gathered(&[fib(&[fig(0, &data)])]);
    let s = &acc.ensemble.services[&0x1122_3344];
    assert!(s.is_data);
    assert_eq!(s.components.len(), 1);
    assert_eq!(s.components[0].transport, "stream-data");
    assert_eq!(s.components[0].ascty_or_dscty, 0x18);
    assert_eq!(s.components[0].sub_ch_id, Some(7));
    let data = [0x02, 0x00, 0x07, 0x01, 0x98, 0x1C];
    let acc = gathered(&[fib(&[fig(0, &data)])]);
    assert_eq!(acc.ensemble.services[&7].components[0].transport, "fidc");
}

#[test]
fn service_labels() {
    let acc = gathered(&[
        fib(&[label_fig(0x01, &[0xE1, 0x23], b"mYTN            ")]),
        fib(&[label_fig(0x05, &[0xE0, 0x00, 0x00, 0x01], b"TPEG            ")]),
    ]);
    assert_eq!(acc.ensemble.services[&0xE123].label, "mYTN");
    assert!(!acc.ensemble.services[&0xE123].is_data);
    assert_eq!(acc.ensemble.services[&0xE000_0001].label, "TPEG");
    assert!(acc.ensemble.services[&0xE000_0001].is_data);
}

#[test]
fn unsound_and_short_blocks_only_count() {
    let mut bad = fib(&[fig(0, &[0x00, 0xE0, 0x40, 0x00, 0x00])]);
    bad[31] ^= 1;
    bad.extend_from_slice(&[1, 2, 3]);
    let acc = gathered(&[bad]);
    assert_eq!((acc.fib_total, acc.fib_ok), (2, 0));
    assert_eq!(acc.ensemble, Ensemble::default());
    assert_eq!(FicAccumulator::default().fib_total, 0);
}
