//! Sample formats, metadata, records and the frame loop.

use dab_rs::diag::IqIngest;
use dab_rs::fic_decode::DecodeDumps;
use dab_rs::fic_pipeline::{FicPipeline, PipelineError};
use dab_rs::frame_sync::{
    bypasses_resampler, expected_start, frame_fits_at, make_byte_record, make_narrow_record,
    make_position_records, make_soft_record, symbol_start, INTERNAL_RATE, MIN_SAMPLES,
};
use dab_rs::iq_format::{
    accept_sidecar, format_of_option, format_of_sidecar_name, ingest_of_option, parse_format,
    parse_ingest, require_fields, IqError, IqFormat, IqMetadata, RfFields, RfSection,
};
use dab_rs::iq_samples::{convert_cf32le, convert_cs16le, convert_cs8, SampleFramer};
use dab_rs::le::{i16_at, push_i16, push_le, u32_at};

fn section(format: &str) -> RfSection {
    RfSection {
        sample_rate: 3_000_000,
        frequency_hz: 183_008_000,
        sample_format: format.to_string(),
        channel: Some("K8B".to_string()),
        operator: Some("TestOp".to_string()),
    }
}

#[test]
fn sidecar_names_a_format() {
    let (format, meta) = accept_sidecar(section("INT16_IQ")).expect("known format");
    assert_eq!(format, IqFormat::Cs16Le);
    assert_eq!(meta.sample_rate, 3_000_000);
    assert_eq!(meta.frequency_hz, 183_008_000);
    assert_eq!(meta.sample_format, "INT16_IQ");
    assert_eq!(meta.channel.as_deref(), Some("K8B"));
    assert_eq!(meta.operator.as_deref(), Some("TestOp"));
    let copy = IqMetadata::from(section("INT16_IQ"));
    assert_eq!(copy.sample_format, meta.sample_format);
}

#[test]
fn sidecar_case_does_not_matter() {
    assert_eq!(IqFormat::from_sidecar_str("int16_iq"), Some(IqFormat::Cs16Le));
    assert_eq!(IqFormat::from_sidecar_str("Float32_Iq"), Some(IqFormat::Cf32Le));
    assert_eq!(format_of_sidecar_name("int16_iq"), None);
    assert_eq!(IqFormat::from_sidecar_str("nonsense"), None);
}

#[test]
fn unknown_sidecar_format_is_refused() {
    match accept_sidecar(section("int12")) {
        Err(IqError::SidecarField(name)) => assert_eq!(name, "int12"),
        _ => panic!("must be refused"),
    }
}

fn found_fields() -> RfFields {
    RfFields {
        sample_rate: Some(2_048_000),
        frequency_hz: Some(208_736_000),
        sample_format: Some("CF32".to_string()),
        channel: None,
        operator: Some("x".to_string()),
    }
}

fn missing(found: Option<RfFields>) -> String {
    match require_fields(found) {
        Err(IqError::SidecarField(name)) => name,
        _ => panic!("must be refused"),
    }
}

#[test]
fn required_sidecar_fields() {
    let rf = require_fields(Some(found_fields())).ok().expect("complete");
    assert_eq!((rf.sample_rate, rf.frequency_hz), (2_048_000, 208_736_000));
    assert_eq!(rf.sample_format, "CF32");
    assert_eq!((rf.channel, rf.operator.as_deref()), (None, Some("x")));
    assert_eq!(missing(None), "rf");
    assert_eq!(missing(Some(RfFields { sample_rate: None, ..found_fields() })), "rf.sample_rate");
    assert_eq!(missing(Some(RfFields { frequency_hz: None, ..found_fields() })), "rf.frequency_hz");
    assert_eq!(
        missing(Some(RfFields { sample_format: None, ..found_fields() })),
        "rf.sample_format"
    );
}

#[test]
fn packed_samples_are_unsupported() {
    match SampleFramer::new(IqFormat::AirspyPacked12) {
        Err(IqError::UnsupportedFormat(f)) => assert_eq!(f, IqFormat::AirspyPacked12),
        _ => panic!("must be refused"),
    }
    assert_eq!(IqFormat::AirspyPacked12.bytes_per_sample(), None);
    assert_eq!(IqFormat::Cs8.bytes_per_sample(), Some(2));
    assert_eq!(IqFormat::Cs16Le.bytes_per_sample(), Some(4));
    assert_eq!(IqFormat::Cf32Le.bytes_per_sample(), Some(8));
}

#[test]
fn options_in_any_case() {
    assert_eq!(parse_format("CS16LE"), Some(IqFormat::Cs16Le));
    assert_eq!(parse_format("cf32le"), Some(IqFormat::Cf32Le));
    assert_eq!(parse_format("wav"), None);
    assert_eq!(format_of_option("CS16LE"), None);
    assert_eq!(parse_ingest("CU8"), Some(IqIngest::Cu82048k));
    assert_eq!(parse_ingest("cs16le"), Some(IqIngest::Cs16Le3MSPS));
    assert_eq!(parse_ingest("mp3"), None);
    assert_eq!(ingest_of_option("CU8"), None);
}

#[test]
fn framing_does_not_depend_on_the_reads() {
    let bytes: Vec<u8> = (0..=255u8).cycle().take(1003).collect();
    for step in [1usize, 3, 7, 64, 1024] {
        let mut framer = SampleFramer::new(IqFormat::Cs16Le).ok().expect("supported");
        assert_eq!(framer.format(), IqFormat::Cs16Le);
        let mut out = Vec::new();
        let mut at = 0;
        while at < bytes.len() {
            let want = framer.bytes_wanted(300).min(step).min(bytes.len() - at);
            let whole = framer.take(&bytes[at..at + want], 300);
            assert_eq!(whole.len() % 4, 0);
            out.extend(whole);
            at += want;
        }
        assert_eq!(out, bytes[..1000]);
        assert_eq!(framer.bytes_wanted(1), 1);
        assert_eq!(framer.bytes_wanted(0), 0);
    }
}

#[test]
fn samples_of_each_format() {
    assert_eq!(convert_cs8(&[0, 1, 254, 255, 9]), vec![(0, 1), (254, 255)]);
    assert_eq!(
        convert_cs16le(&[1, 0, 0xFF, 0xFF, 0, 0x80, 0xFF, 0x7F]),
        vec![(1, -1), (-32768, 32767)]
    );
    let mut bytes = 1.5f32.to_le_bytes().to_vec();
    bytes.extend((-0.25f32).to_le_bytes());
    let parts = convert_cf32le(&bytes);
    assert_eq!(parts.len(), 1);
    assert_eq!(f32::from_bits(parts[0].0), 1.5);
    assert_eq!(f32::from_bits(parts[0].1), -0.25);
}

#[test]
fn numbers_little_end_first() {
    let mut out = vec![9u8];
    push_le(&mut out, 0x0102_0304, 4);
    push_i16(&mut out, -2);
    assert_eq!(out, vec![9, 4, 3, 2, 1, 0xFE, 0xFF]);
    assert_eq!(u32_at(&out, 1), 0x0102_0304);
    assert_eq!(i16_at(&out, 5), -2);
    for v in [i16::MIN, -1, 0, 1, i16::MAX] {
        let mut b = Vec::new();
        push_i16(&mut b, v);
        assert_eq!(i16_at(&b, 0), v);
    }
}

#[test]
fn records() {
    assert_eq!(make_byte_record(258, &[7, 8]), vec![2, 1, 0, 0, 7, 8]);
    assert_eq!(make_soft_record(1, &[-1, 256]), vec![1, 0, 0, 0, 0xFF, 0xFF, 0, 1]);
    assert_eq!(make_narrow_record(1, &[-127, 255, 256]), vec![1, 0, 0, 0, 0x81, 0xFF, 0]);
    let r = make_position_records(3, 1000);
    assert_eq!(r.len(), 4 * 16);
    assert_eq!((u32_at(&r, 0), u32_at(&r, 4), u32_at(&r, 8)), (3, 1, 1504));
    assert_eq!((u32_at(&r, 48), u32_at(&r, 52), u32_at(&r, 56)), (3, 4, 1000 + 3 * 2552 + 504));
}

#[test]
fn places_in_a_frame() {
    assert!(frame_fits_at(0, 3, 4 * 2552));
    assert!(!frame_fits_at(1, 3, 4 * 2552));
    assert!(!frame_fits_at(usize::MAX, 3, 4 * 2552));
    assert_eq!(expected_start(100, 3, 20_000), Some(2756));
    assert_eq!(expected_start(10_000, 3, 20_000), None);
    assert_eq!(symbol_start(10, 2), 5114);
    assert!(bypasses_resampler(IqFormat::Cf32Le, INTERNAL_RATE));
    assert!(!bypasses_resampler(IqFormat::Cf32Le, 3_000_000));
    assert!(!bypasses_resampler(IqFormat::Cs16Le, INTERNAL_RATE));
}

#[test]
fn pipeline_refuses_short_and_unframed_streams() {
    let e = FicPipeline::begin(1_999_999, 5).err().expect("too short");
    assert!(matches!(e, PipelineError::TooShort(1_999_999)));
    assert_eq!(
        e.message(),
        "resampled stream too short (1999999 samples) — capture appears truncated"
    );
    let e = FicPipeline::begin(MIN_SAMPLES, 0).err().expect("no nulls");
    assert!(matches!(e, PipelineError::NoNulls));
    assert_eq!(e.message(), "no null symbols detected in the capture");
}

#[test]
fn pipeline_counts_frames() {
    let mut p = FicPipeline::begin(MIN_SAMPLES, 5).ok().expect("long enough");
    let mut dumps = DecodeDumps::default();
    assert!(p.has_room());
    assert!(p.is_first_frame());
    // Cut off by the end of the samples, before and after the start is refined.
    assert_eq!(p.frame_start(MIN_SAMPLES - 100), None);
    assert_eq!(p.frame_start(1000), Some(3656));
    assert!(!p.accept_start(MIN_SAMPLES - 2552));
    // Given up.
    assert_eq!(p.frame_start(1000), Some(3656));
    assert!(p.accept_start(3656));
    p.skip();
    // Too few soft bits.
    assert_eq!(p.frame_start(1000), Some(3656));
    assert!(p.accept_start(3650));
    assert!(p.finish_frame(&[0; 100], &mut dumps).is_none());
    assert!(p.is_first_frame());
    assert_eq!(p.frame_index(), Some(1));
    // Decoded.
    assert_eq!(p.frame_start(1000), Some(3656));
    assert!(p.accept_start(3656));
    let bytes = p.finish_frame(&[0; 9216], &mut dumps).expect("full frame");
    assert_eq!(bytes.len(), 384);
    assert!(!p.is_first_frame());
    assert_eq!(p.frame_index(), Some(2));
    let r = p.finish();
    assert_eq!((r.frames_decoded, r.frames_skipped), (1, 4));
    assert_eq!(r.frames_decoded + r.frames_skipped, r.null_dips);
    assert_eq!((r.fib_total, r.resampled_samples, r.null_dips), (12, MIN_SAMPLES, 5));
    assert!(r.fib_ok <= r.fib_total);
}
