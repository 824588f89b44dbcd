//! The outer code: interleaving, Reed-Solomon blocks and the pipeline.

use dab_rs::interleaver::{
    ConvolutionalDeinterleaver, ConvolutionalInterleaver, M_DEPTH, N_BRANCHES,
};
use dab_rs::outer::{
    KoreanTDmbOuterFec, DEINTERLEAVER_LATENCY, PRESYNC_PROBE_BYTES, RS_BLOCK_SIZE, TS_PACKET_SIZE,
};
use dab_rs::rs::{RsDecoder, RsEncoder};

struct Lcg(u64);

impl Lcg {
    fn new(seed: u64) -> Self {
        Lcg(seed)
    }
    fn next_byte(&mut self) -> u8 {
        self.0 = self
            .0
            .wrapping_mul(6364136223846793005)
            .wrapping_add(1442695040888963407);
        (self.0 >> 33) as u8
    }
    fn bytes(&mut self, n: usize) -> Vec<u8> {
        (0..n).map(|_| self.next_byte()).collect()
    }
}

#[test]
fn interleaver_deinterleaver_identity() {
    assert_eq!(DEINTERLEAVER_LATENCY, 2244);
    assert_eq!(DEINTERLEAVER_LATENCY, (N_BRANCHES - 1) * M_DEPTH * N_BRANCHES);
    let mut rng = Lcg::new(0xC0FFEE);
    let n = 20_000;
    let input = rng.bytes(n);
    let mut interleaver = ConvolutionalInterleaver::new();
    let mut deinterleaver = ConvolutionalDeinterleaver::new();
    let interleaved = interleaver.feed(&input);
    let output = deinterleaver.feed(&interleaved);
    let lat = DEINTERLEAVER_LATENCY;
    assert_eq!(deinterleaver.latency_bytes(), lat);
    for i in 0..(n - lat) {
        assert_eq!(output[i + lat], input[i]);
    }
}

#[test]
fn interleaver_delays_by_branch() {
    let mut input = vec![0u8; 204 * 12];
    for (i, b) in input.iter_mut().enumerate().take(12) {
        *b = i as u8 + 1;
    }
    let out = ConvolutionalInterleaver::default().feed(&input);
    for i in 0..12usize {
        assert_eq!(out[204 * i + i], i as u8 + 1);
    }
    assert_eq!(out.iter().filter(|&&b| b != 0).count(), 12);
    let out = ConvolutionalDeinterleaver::default().feed(&input);
    for i in 0..12usize {
        assert_eq!(out[204 * (11 - i) + i], i as u8 + 1);
    }
}

#[test]
fn interleaving_in_pieces_is_the_same() {
    let input = Lcg::new(5).bytes(5000);
    let whole = ConvolutionalInterleaver::new().feed(&input);
    let mut pieces = ConvolutionalInterleaver::new();
    let mut out = Vec::new();
    for chunk in input.chunks(37) {
        out.extend(pieces.feed(chunk));
    }
    assert_eq!(out, whole);
}

#[test]
fn rs_roundtrip_correctable() {
    let mut rng = Lcg::new(42);
    let payload = rng.bytes(188);
    let enc = RsEncoder::new();
    let mut codeword = enc.encode(&payload);
    assert_eq!(codeword.len(), 204);
    let positions = [0usize, 13, 27, 50, 100, 150, 180, 203];
    for &p in &positions {
        codeword[p] ^= 0xFF;
    }
    let mut dec = RsDecoder::new();
    let res = dec.decode(&codeword);
    assert!(res.ok, "8 errors must be correctable");
    assert_eq!(res.errors, 8, "must report 8 corrected errors");
    assert_eq!(res.data, payload, "recovered payload must match original");
    assert_eq!((dec.frames_total, dec.frames_corrected), (1, 1));
}

#[test]
fn rs_roundtrip_uncorrectable() {
    let mut rng = Lcg::new(7);
    let payload = rng.bytes(188);
    let enc = RsEncoder::new();
    let mut codeword = enc.encode(&payload);
    let positions = [0usize, 13, 27, 50, 100, 150, 175, 188, 203];
    for &p in &positions {
        codeword[p] ^= 0xAB;
    }
    let mut dec = RsDecoder::new();
    let res = dec.decode(&codeword);
    assert!(!res.ok, "9 errors must be uncorrectable");
    assert_eq!(res.errors, -1, "uncorrectable must report rs_errors == -1");
    assert_eq!(res.data, codeword[..188].to_vec());
    assert_eq!((dec.frames_total, dec.frames_failed), (1, 1));
}

#[test]
fn rs_clean_block_is_left_alone() {
    let payload = Lcg::new(3).bytes(188);
    let word = RsEncoder::default().encode(&payload);
    assert_eq!(&word[..188], &payload[..]);
    assert!(word[188..].iter().any(|&b| b != 0));
    let mut dec = RsDecoder::default();
    let res = dec.decode(&word);
    assert!(res.ok);
    assert_eq!(res.errors, 0);
    assert_eq!(res.data, payload);
    assert_eq!((dec.frames_total, dec.frames_ok, dec.frames_failed), (1, 1, 0));
}

#[test]
fn rs_corrects_any_few_errors() {
    let mut rng = Lcg::new(99);
    for count in 1..=8usize {
        let payload = rng.bytes(188);
        let mut word = RsEncoder::new().encode(&payload);
        for k in 0..count {
            let at = (k * 23 + count * 5) % 204;
            word[at] ^= rng.next_byte() | 1;
        }
        let res = RsDecoder::new().decode(&word);
        assert!(res.ok);
        assert_eq!(res.errors, count as i32);
        assert_eq!(res.data, payload);
    }
}

#[test]
fn rs_corrects_up_to_eight_errors_anywhere() {
    let mut rng = Lcg::new(0x5EED);
    let enc = RsEncoder::new();
    for trial in 0..900usize {
        let payload = rng.bytes(188);
        let sent = enc.encode(&payload);
        let mut word = sent.clone();
        let mut wrong = 0i32;
        while wrong < (trial % 9) as i32 {
            let at = (rng.next_byte() as usize * 256 + rng.next_byte() as usize) % 204;
            if word[at] == sent[at] {
                word[at] ^= rng.next_byte() | 0x10;
                wrong += 1;
            }
        }
        let res = RsDecoder::new().decode(&word);
        assert!(res.ok);
        assert_eq!(res.errors, wrong);
        assert_eq!(res.data, payload);
    }
}

#[test]
fn rs_result_is_near_the_block() {
    let mut rng = Lcg::new(77);
    for _ in 0..300 {
        let block = rng.bytes(204);
        let res = RsDecoder::new().decode(&block);
        if res.ok {
            let word = RsEncoder::new().encode(&res.data);
            let wrong = word.iter().zip(block.iter()).filter(|(a, b)| a != b).count();
            assert!(wrong as i32 <= res.errors);
        } else {
            assert_eq!(res.data, block[..188].to_vec());
        }
    }
}

#[test]
fn rs_record_counts_every_outcome() {
    let mut dec = RsDecoder::new();
    let block = vec![9u8; 204];
    let good = dec.record(&block, Some((vec![1u8; 188], 0)));
    assert_eq!((good.errors, good.ok), (0, true));
    assert_eq!(good.data, vec![1u8; 188]);
    let fixed = dec.record(&block, Some((vec![2u8; 188], 5)));
    assert_eq!((fixed.errors, fixed.ok), (5, true));
    let lost = dec.record(&block, None);
    assert_eq!((lost.errors, lost.ok), (-1, false));
    assert_eq!(lost.data, vec![9u8; 188]);
    assert_eq!(dec.frames_total, 3);
    assert_eq!((dec.frames_ok, dec.frames_corrected, dec.frames_failed), (1, 1, 1));
}

#[test]
fn phase_alignment_offset_160() {
    let offset = 160usize;
    let n_blocks = 60usize;
    let total = n_blocks * RS_BLOCK_SIZE;
    let mut rng = Lcg::new(0xABCDEF);
    let mut stream = rng.bytes(total);
    let mut pos = offset;
    while pos < total {
        stream[pos] = 0x47;
        pos += RS_BLOCK_SIZE;
    }
    let mut fec = KoreanTDmbOuterFec::new();
    let _ = fec.feed(&stream);
    let stats = fec.stats();
    assert!(stats.aligned, "must lock alignment");
    assert_eq!(stats.phase_offset, offset as i32, "must lock phase 160");
}

/// Interleaved code words of transport packets, behind `lead` bytes.
fn transport_stream(packets: &[Vec<u8>], lead: usize) -> Vec<u8> {
    let mut coded = Vec::new();
    for p in packets {
        coded.extend(RsEncoder::new().encode(p));
    }
    let mut out = vec![0u8; lead];
    out.extend(ConvolutionalInterleaver::new().feed(&coded));
    out
}

fn some_packets(n: usize) -> Vec<Vec<u8>> {
    let mut rng = Lcg::new(0x7157);
    (0..n)
        .map(|_| {
            let mut p = rng.bytes(188);
            for b in p.iter_mut() {
                if *b == 0x47 {
                    *b = 0x48;
                }
            }
            p[0] = 0x47;
            p
        })
        .collect()
}

#[test]
fn pipeline_gives_back_packets() {
    let packets = some_packets(80);
    let stream = transport_stream(&packets, 33);
    let mut fec = KoreanTDmbOuterFec::default();
    let mut got = Vec::new();
    for chunk in stream.chunks(1000) {
        got.extend(fec.feed(chunk));
    }
    let stats = fec.stats();
    assert!(stats.aligned);
    assert_eq!(stats.phase_offset, 33);
    assert_eq!(stats.bytes_discarded_presync, 33);
    assert_eq!(stats.bytes_in, stream.len());
    assert_eq!(got.len(), 80 - 11);
    for (a, b) in got.iter().zip(packets.iter()) {
        assert_eq!(a.rs_errors, 0);
        assert_eq!(&a.data, b);
        assert_eq!(a.data.len(), TS_PACKET_SIZE);
    }
    assert_eq!(stats.rs_total, 69);
    assert_eq!((stats.rs_ok, stats.rs_corrected, stats.rs_failed), (69, 0, 0));
    assert_eq!(stats.uncorrectable, 0);
}

#[test]
fn pipeline_corrects_errors() {
    let packets = some_packets(80);
    let mut stream = transport_stream(&packets, 0);
    // A burst of 96 bytes: in the air the bytes of a block are 205 apart.
    let at = 204 * 30 + 17;
    for b in stream[at..at + 96].iter_mut() {
        *b ^= 0x55;
    }
    let mut fec = KoreanTDmbOuterFec::new();
    let got = fec.feed(&stream);
    assert_eq!(got.len(), 69);
    for (a, b) in got.iter().zip(packets.iter()) {
        assert_eq!(&a.data, b);
    }
    let stats = fec.stats();
    assert_eq!(stats.rs_ok + stats.rs_corrected, 69);
    assert!(stats.rs_corrected > 1);
    assert_eq!(stats.rs_failed, 0);
}

#[test]
fn pipeline_in_pieces_is_the_same() {
    let packets = some_packets(80);
    let stream = transport_stream(&packets, 0);
    let mut whole = KoreanTDmbOuterFec::new();
    let all = whole.feed(&stream);
    let mut pieces = KoreanTDmbOuterFec::new();
    let mut got = pieces.feed(&stream[..11_000]);
    got.extend(pieces.feed(&[]));
    got.extend(pieces.feed(&stream[11_000..13_001]));
    got.extend(pieces.feed(&stream[13_001..]));
    assert_eq!(got.len(), all.len());
    for (a, b) in got.iter().zip(all.iter()) {
        assert_eq!(a.data, b.data);
    }
}

#[test]
fn pipeline_waits_for_a_dominant_phase() {
    let mut fec = KoreanTDmbOuterFec::new();
    assert!(fec.feed(&vec![0u8; PRESYNC_PROBE_BYTES - 1]).is_empty());
    assert_eq!(fec.stats().phase_offset, -1);
    assert!(fec.feed(&vec![0u8; 4 * PRESYNC_PROBE_BYTES]).is_empty());
    let stats = fec.stats();
    assert!(!stats.aligned);
    assert_eq!(stats.bytes_in, 5 * PRESYNC_PROBE_BYTES - 1);
    assert_eq!(stats.bytes_discarded_presync, 4 * PRESYNC_PROBE_BYTES - 1);
    assert_eq!(stats.rs_total, 0);
}

#[test]
fn pipeline_needs_two_hits_in_five() {
    // 50 blocks: 20 hits are two in five, 19 are not.
    for (hits, locks) in [(19usize, false), (20, true)] {
        let mut stream = vec![0u8; PRESYNC_PROBE_BYTES];
        for k in 0..hits {
            stream[204 * k + 7] = 0x47;
        }
        let mut fec = KoreanTDmbOuterFec::new();
        fec.feed(&stream);
        assert_eq!(fec.stats().aligned, locks);
    }
}

#[test]
fn pipeline_needs_five_times_the_second_best() {
    for (second, locks) in [(4usize, true), (5, false)] {
        let mut stream = vec![0u8; PRESYNC_PROBE_BYTES];
        for k in 0..20 {
            stream[204 * k + 7] = 0x47;
        }
        for k in 0..second {
            stream[204 * k + 100] = 0x47;
        }
        let mut fec = KoreanTDmbOuterFec::new();
        fec.feed(&stream);
        assert_eq!(fec.stats().aligned, locks);
    }
}
