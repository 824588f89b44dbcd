//! Transport frames, their sub-channels and whole recordings.

use dab_rs::crc::crc16_ccitt;
use dab_rs::eti::{
    frame_fits, parse_frame, EtiError, Frame, FrameReader, StreamChar, FIB_SIZE, FIC_FIBS_MODE_I,
    FRAME_SIZE, FSYNC_EVEN, FSYNC_ODD,
};
use dab_rs::eti_session::{can_read_all, decode_sub_channel, gather_ensemble};
use dab_rs::interleaver::ConvolutionalInterleaver;
use dab_rs::msc::{extract_subchannel, find_subchannel_size};
use dab_rs::rs::RsEncoder;
use dab_rs::text::{push_decimal, push_hexadecimal};

/// A frame with one stream, whose data count up.
fn make_frame(err: u8, fct: u8, scid: u8, sad: u16, tpl: u8, stl: u16) -> Vec<u8> {
    let mut buf = vec![0u8; FRAME_SIZE];
    buf[0] = err;
    buf[1] = FSYNC_EVEN[0];
    buf[2] = FSYNC_EVEN[1];
    buf[3] = FSYNC_EVEN[2];
    buf[4] = fct;
    buf[5] = (1 << 7) | 1u8;
    buf[6] = (0u8 << 5) | (1u8 << 3) | 0u8;
    buf[7] = 0;
    let w: u32 = ((scid as u32 & 0x3f) << 26)
        | ((sad as u32 & 0x3ff) << 16)
        | ((tpl as u32 & 0x3f) << 10)
        | (stl as u32 & 0x3ff);
    buf[8] = (w >> 24) as u8;
    buf[9] = (w >> 16) as u8;
    buf[10] = (w >> 8) as u8;
    buf[11] = w as u8;
    let msc_off = 16 + FIB_SIZE * FIC_FIBS_MODE_I;
    let msc_len = stl as usize * 8;
    for i in 0..msc_len {
        buf[msc_off + i] = (i & 0xff) as u8;
    }
    buf
}

fn read_all(data: &[u8]) -> Vec<Result<Frame, EtiError>> {
    let mut reader = FrameReader::new(data);
    let mut out = Vec::new();
    loop {
        assert!(reader.can_read());
        match reader.next() {
            Some(r) => out.push(r),
            None => return out,
        }
    }
}

#[test]
fn test_parse_frame_basic() {
    let stl: u16 = 6;
    let buf = make_frame(0xFF, 42, 1, 100, 0x0c, stl);
    let frame = parse_frame(&buf).expect("parse should succeed");

    assert_eq!(frame.err, 0xFF);
    assert_eq!(frame.fct, 42);
    assert!(frame.fic_present);
    assert_eq!(frame.nst, 1);
    assert_eq!(frame.mid, 1);
    assert_eq!(frame.streams.len(), 1);

    let s = &frame.streams[0];
    assert_eq!(s.scid, 1);
    assert_eq!(s.sad, 100);
    assert_eq!(s.tpl, 0x0c);
    assert_eq!(s.stl, stl);
    assert_eq!(s.length_bytes(), 48);

    assert_eq!(frame.fic.len(), FIB_SIZE * FIC_FIBS_MODE_I);
    assert_eq!(frame.msc.len(), 48);
    for i in 0..48usize {
        assert_eq!(frame.msc[i], (i & 0xff) as u8);
    }
}

#[test]
fn test_parse_frame_bad_fsync() {
    let mut buf = make_frame(0xFF, 0, 1, 0, 0, 2);
    buf[1] = 0xDE;
    buf[2] = 0xAD;
    buf[3] = 0xBE;
    let result = parse_frame(&buf);
    assert!(matches!(result, Err(EtiError::BadFsync(_))));
}

#[test]
fn test_parse_frame_short() {
    let buf = vec![0u8; 100];
    let result = parse_frame(&buf);
    assert!(matches!(result, Err(EtiError::ShortFrame(100))));
}

#[test]
fn errors_say_what_was_found() {
    let mut buf = make_frame(0xFF, 0, 1, 0, 0, 2);
    buf[1] = 0x0E;
    buf[2] = 0xAD;
    buf[3] = 0xBE;
    let e = parse_frame(&buf).expect_err("sync word is wrong");
    assert!(matches!(e, EtiError::BadFsync(0x0EADBE)));
    assert_eq!(e.message(), "bad fsync: 0eadbe");
    let e = parse_frame(&buf[..6143]).expect_err("too short");
    assert_eq!(e.message(), "short frame: 6143 bytes");
}

#[test]
fn numbers_as_text() {
    let mut s = String::from("n=");
    push_decimal(&mut s, 0);
    push_decimal(&mut s, 18_446_744_073_709_551_615);
    assert_eq!(s, "n=018446744073709551615");
    let mut s = String::new();
    push_hexadecimal(&mut s, 0xABC, 6);
    push_hexadecimal(&mut s, 0x1234_5678, 4);
    push_hexadecimal(&mut s, 0, 1);
    assert_eq!(s, "000abc123456780");
}

#[test]
fn odd_sync_word_and_header_fields() {
    let mut buf = make_frame(0x80, 3, 5, 1023, 63, 1);
    buf[1..4].copy_from_slice(&FSYNC_ODD);
    buf[6] = (5 << 5) | (2 << 3) | 6;
    buf[7] = 0x21;
    let f = parse_frame(&buf).expect("odd sync word");
    assert_eq!((f.err, f.fp, f.mid, f.fl), (0x80, 5, 2, 0x621));
    assert_eq!(f.fic.len(), 128);
    assert_eq!((f.streams[0].sad, f.streams[0].tpl), (1023, 63));
}

#[test]
fn frame_without_fast_information() {
    let mut buf = make_frame(0xFF, 3, 5, 0, 0, 1);
    buf[5] = 1;
    buf[16] = 0x5A;
    let f = parse_frame(&buf).expect("frame");
    assert!(!f.fic_present);
    assert!(f.fic.is_empty());
    assert_eq!(f.msc[0], 0x5A);
}

#[test]
fn mode_three_has_no_fast_information_here() {
    let mut buf = make_frame(0xFF, 3, 5, 0, 0, 1);
    buf[6] = 3 << 3;
    let f = parse_frame(&buf).expect("frame");
    assert!(f.fic_present);
    assert!(f.fic.is_empty());
}

#[test]
fn frames_that_promise_too_much_are_told() {
    let buf = make_frame(0xFF, 0, 1, 0, 0, 700);
    assert!(frame_fits(&buf));
    let mut buf = make_frame(0xFF, 0, 1, 0, 0, 1);
    buf[10] |= 3;
    buf[11] = 0xFF;
    assert!(!frame_fits(&buf));
    assert!(!can_read_all(&buf));
    assert!(frame_fits(&[1, 2, 3]));
}

#[test]
fn test_frame_reader_resync() {
    let mut data = vec![0xAA_u8; 100];
    let valid = make_frame(0xFF, 7, 2, 50, 0, 4);
    data.extend_from_slice(&valid);
    data.extend_from_slice(&valid);

    let frames = read_all(&data);
    let ok_count = frames.iter().filter(|r| r.is_ok()).count();
    assert!(ok_count >= 1, "expected at least one valid frame after resync");

    let last_ok = frames.iter().filter(|r| r.is_ok()).last().unwrap().as_ref().unwrap();
    assert_eq!(last_ok.fct, 7);
}

#[test]
fn reader_reports_the_gap_and_goes_on() {
    let mut data = vec![0xAA_u8; 100];
    let valid = make_frame(0xFF, 7, 2, 50, 0, 4);
    data.extend_from_slice(&valid);
    data.extend_from_slice(&valid);
    let frames = read_all(&data);
    assert!(matches!(frames[0], Err(EtiError::BadFsync(0xAAAAAA))));
    assert_eq!(frames.len(), 3);
    assert!(frames[1].is_ok() && frames[2].is_ok());
    assert_eq!(FrameReader::new(&data).left(), 100 + 2 * FRAME_SIZE);
}

#[test]
fn reader_gives_up_without_a_sync_word() {
    let data = vec![0u8; 3 * FRAME_SIZE];
    let frames = read_all(&data);
    assert!(frames.iter().all(|r| r.is_err()));
    assert!(read_all(&data[..100]).is_empty());
}

#[test]
fn test_frame_reader_consecutive() {
    let f1 = make_frame(0xFF, 10, 1, 0, 0, 2);
    let f2 = make_frame(0xFE, 11, 3, 0, 0, 3);
    let mut data = Vec::new();
    data.extend_from_slice(&f1);
    data.extend_from_slice(&f2);

    let frames: Vec<Frame> = read_all(&data).into_iter().filter_map(|r| r.ok()).collect();
    assert_eq!(frames.len(), 2);
    assert_eq!(frames[0].fct, 10);
    assert_eq!(frames[1].fct, 11);
}

#[test]
fn test_stream_char_length_bytes() {
    let s = StreamChar { scid: 0, sad: 0, tpl: 0, stl: 10 };
    assert_eq!(s.length_bytes(), 80);
}

fn frame_with_streams(err: u8, streams: Vec<StreamChar>, msc: Vec<u8>) -> Frame {
    Frame {
        err,
        fct: 0,
        fic_present: true,
        nst: streams.len() as u8,
        fp: 0,
        mid: 1,
        fl: 0,
        streams,
        fic: vec![],
        msc,
    }
}

#[test]
fn test_extract_subchannel_correct_slice() {
    let s0 = StreamChar { scid: 1, sad: 0, tpl: 0, stl: 2 };
    let s1 = StreamChar { scid: 5, sad: 0, tpl: 0, stl: 3 };
    let msc: Vec<u8> = (0u8..40).collect();

    let frame = frame_with_streams(0xFF, vec![s0, s1], msc.clone());

    let slice0 = extract_subchannel(&frame, 1).expect("should find scid=1");
    assert_eq!(slice0, &msc[0..16]);

    let slice1 = extract_subchannel(&frame, 5).expect("should find scid=5");
    assert_eq!(slice1, &msc[16..40]);
}

#[test]
fn streams_lie_side_by_side() {
    let streams: Vec<StreamChar> =
        (0..5u8).map(|i| StreamChar { scid: i, sad: 0, tpl: 0, stl: i as u16 }).collect();
    let msc: Vec<u8> = (0u8..80).collect();
    let frame = frame_with_streams(0xFF, streams, msc.clone());
    let mut joined = Vec::new();
    for i in 0..5u8 {
        joined.extend_from_slice(extract_subchannel(&frame, i).expect("stream"));
    }
    assert_eq!(joined, msc);
}

#[test]
fn test_extract_subchannel_not_found() {
    let s = StreamChar { scid: 1, sad: 0, tpl: 0, stl: 1 };
    let msc = vec![0u8; 8];
    let frame = frame_with_streams(0xFF, vec![s], msc);

    assert!(extract_subchannel(&frame, 99).is_none());
}

#[test]
fn test_extract_subchannel_err_not_0xff() {
    let s = StreamChar { scid: 2, sad: 0, tpl: 0, stl: 2 };
    let msc = vec![0xABu8; 16];
    let frame = frame_with_streams(0x00, vec![s], msc);

    assert!(extract_subchannel(&frame, 2).is_none());
}

#[test]
fn test_find_subchannel_size() {
    let s0 = StreamChar { scid: 3, sad: 0, tpl: 0, stl: 5 };
    let s1 = StreamChar { scid: 7, sad: 0, tpl: 0, stl: 10 };
    let frame = frame_with_streams(0xFF, vec![s0, s1], vec![0u8; 5 * 8 + 10 * 8]);

    assert_eq!(find_subchannel_size(&frame, 3), Some(40));
    assert_eq!(find_subchannel_size(&frame, 7), Some(80));
    assert_eq!(find_subchannel_size(&frame, 99), None);
}

fn frame_with_payload(fct: u8, fib: &[u8], payload: &[u8]) -> Vec<u8> {
    let mut buf = make_frame(0xFF, fct, 9, 0, 0, (payload.len() / 8) as u16);
    buf[16..16 + fib.len()].copy_from_slice(fib);
    buf[144..144 + payload.len()].copy_from_slice(payload);
    buf
}

fn sealed(figs: &[u8]) -> Vec<u8> {
    let mut out = figs.to_vec();
    out.resize(30, 0xFF);
    let crc = crc16_ccitt(&out);
    out.push((crc >> 8) as u8);
    out.push(crc as u8);
    out
}

#[test]
fn ensemble_of_a_recording() {
    let fib = sealed(&[0x05, 0x00, 0xE0, 0x40, 0x00, 0x00]);
    let mut bytes = frame_with_payload(0, &fib, &[0; 8]);
    bytes.extend(frame_with_payload(1, &[0xFF; 32], &[0; 8]));
    bytes.extend_from_slice(&[0xFF; 500]);
    assert!(can_read_all(&bytes));
    let acc = gather_ensemble(&bytes);
    assert_eq!(acc.ensemble.eid, Some(0xE040));
    assert_eq!(acc.fib_total, 8);
    assert_eq!(acc.fib_ok, 1);
    assert_eq!(gather_ensemble(&[]).fib_total, 0);
}

#[test]
fn packets_of_a_recording() {
    let mut coded = Vec::new();
    let mut packets = Vec::new();
    for k in 0..80u8 {
        let mut p: Vec<u8> = (0..188u8).map(|i| i ^ k.wrapping_mul(73) & 0x3F).collect();
        for b in p.iter_mut() {
            if *b == 0x47 {
                *b = 0;
            }
        }
        p[0] = 0x47;
        coded.extend(RsEncoder::new().encode(&p));
        packets.push(p);
    }
    let air = ConvolutionalInterleaver::new().feed(&coded);
    let mut bytes = Vec::new();
    for (k, chunk) in air.chunks(816).enumerate() {
        bytes.extend(frame_with_payload(k as u8, &[], chunk));
    }
    let report = decode_sub_channel(&bytes, 9);
    assert_eq!(report.packets.len(), 69);
    assert_eq!(report.ok, 69);
    assert_eq!(report.stats.bytes_in, 80 * 204);
    for (a, b) in report.packets.iter().zip(packets.iter()) {
        assert_eq!(&a.data, b);
    }
    let none = decode_sub_channel(&bytes, 10);
    assert!(none.packets.is_empty());
    assert_eq!(none.stats.bytes_in, 0);
}
