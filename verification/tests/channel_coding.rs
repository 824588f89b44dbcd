//! Descrambling, the convolutional code and its protection profiles.

use dab_rs::bits::pack_msb;
use dab_rs::descramble::{descramble_and_pack, descramble_bits, prbs_sequence};
use dab_rs::eep::{profile_fits, select_profile, EepProtection};
use dab_rs::fic_decode::{
    decode_fic_soft_bits_to_bytes, decode_fic_soft_bits_with_dumps, DecodeDumps,
    FIC_BLOCKS_PER_FRAME, FIC_BYTES_PER_FRAME, FIC_SOFT_BITS_PER_FRAME,
};
use dab_rs::fic_protection::{FicProtection, FIC_IN_BITS, FIC_OUT_BITS, FIC_VITERBI_LEN};
use dab_rs::puncture::{count_kept, depuncture, p_codes};
use dab_rs::viterbi::{bit_for, convolutional_encode, Viterbi, K, POLYS};

fn xorshift32(state: &mut u32) -> u32 {
    let mut x = *state;
    x ^= x << 13;
    x ^= x >> 17;
    x ^= x << 5;
    *state = x;
    x
}

fn random_bits(n: usize, seed: u32) -> Vec<u8> {
    let mut state = seed;
    let mut out = Vec::with_capacity(n);
    let mut word = 0u32;
    let mut bits_left = 0u32;
    for _ in 0..n {
        if bits_left == 0 {
            word = xorshift32(&mut state);
            bits_left = 32;
        }
        out.push((word & 1) as u8);
        word >>= 1;
        bits_left -= 1;
    }
    out
}

/// The shift register as a nine-bit number, newest bit lowest.
fn reference_prbs(len: usize) -> Vec<u8> {
    let mut sr: u16 = 0x1FF;
    let mut out = Vec::with_capacity(len);
    for _ in 0..len {
        let b = ((sr >> 8) ^ (sr >> 4)) & 1;
        sr = ((sr << 1) | b) & 0x1FF;
        out.push(b as u8);
    }
    out
}

#[test]
fn test_prbs_determinism_and_known_prefix() {
    let seq = prbs_sequence(40);
    let ref_seq = reference_prbs(40);
    assert_eq!(seq, ref_seq);
    assert!(seq.iter().any(|&b| b != 0));
}

#[test]
fn test_prbs_not_eventually_constant() {
    let seq = prbs_sequence(600);
    let tail = &seq[500..];
    assert!(tail.iter().any(|&b| b == 0));
    assert!(tail.iter().any(|&b| b == 1));
}

#[test]
fn prbs_windows_are_mixed() {
    let seq = prbs_sequence(2000);
    for w in seq.windows(9) {
        assert!(w.iter().any(|&b| b == 1));
    }
    for w in seq.windows(10) {
        assert!(w.iter().any(|&b| b == 0));
    }
}

#[test]
fn prbs_of_length_zero_is_empty() {
    assert!(prbs_sequence(0).is_empty());
}

#[test]
fn test_descramble_bits_self_inverse() {
    let original = random_bits(128, 0xDEAD_BEEF);
    let mut bits = original.clone();
    descramble_bits(&mut bits);
    descramble_bits(&mut bits);
    assert_eq!(bits, original);
}

fn pack_bits(bits: &[u8]) -> Vec<u8> {
    assert!(bits.len() % 8 == 0);
    bits.chunks(8)
        .map(|chunk| {
            let mut byte = 0u8;
            for &b in chunk {
                byte = (byte << 1) | (b & 1);
            }
            byte
        })
        .collect()
}

#[test]
fn test_pack_correctness() {
    let bits: [u8; 16] = [1, 0, 1, 0, 0, 0, 1, 1, 0, 1, 1, 0, 1, 1, 0, 0];
    assert_eq!(pack_bits(&bits), vec![0xA3, 0x6C]);
    assert_eq!(pack_msb(&bits), vec![0xA3, 0x6C]);
}

#[test]
fn test_end_to_end_identity() {
    let original = random_bits(48, 0xCAFE_F00D);
    let prbs = prbs_sequence(original.len());
    let mut scrambled = original.clone();
    for (b, p) in scrambled.iter_mut().zip(prbs.iter()) {
        *b ^= p;
    }
    let result = descramble_and_pack(&scrambled);
    let expected = pack_bits(&original);
    assert_eq!(result, expected);
}

#[test]
fn descramble_and_pack_takes_low_bits() {
    let clear = [0u8; 8];
    let high = [0xFEu8; 8];
    assert_eq!(descramble_and_pack(&clear), descramble_and_pack(&high));
}

struct XorShift32(u32);

impl XorShift32 {
    fn new(seed: u32) -> Self {
        XorShift32(if seed == 0 { 0x1234_5678 } else { seed })
    }
    fn next_bit(&mut self) -> u8 {
        (xorshift32(&mut self.0) & 1) as u8
    }
}

fn bit_to_soft(b: u8) -> i16 {
    if b == 0 {
        -255
    } else {
        255
    }
}

#[test]
fn bit_for_hand_checked() {
    assert_eq!(bit_for(0, POLYS[0], 0), 0);
    assert_eq!(bit_for(0, POLYS[1], 0), 0);
    assert_eq!(bit_for(0, 0o133, 1), 1);
    assert_eq!(bit_for(0, 0o171, 1), 1);
    assert_eq!(bit_for(1, 0o133, 0), 1);
    assert_eq!(bit_for(3, 0o133, 0), 0);
    assert_eq!(K, 7);
}

#[test]
fn p_codes_known_rows() {
    assert_eq!(
        p_codes(0),
        [
            1, 1, 0, 0, 1, 0, 0, 0, 1, 0, 0, 0, 1, 0, 0, 0, 1, 0, 0, 0, 1, 0, 0, 0, 1, 0, 0, 0, 1,
            0, 0, 0
        ]
    );
    assert_eq!(p_codes(23), [1i8; 32]);
    assert_eq!(
        p_codes(7),
        [
            1, 1, 0, 0, 1, 1, 0, 0, 1, 1, 0, 0, 1, 1, 0, 0, 1, 1, 0, 0, 1, 1, 0, 0, 1, 1, 0, 0, 1,
            1, 0, 0
        ]
    );
}

#[test]
fn p_codes_keep_one_place_more_each() {
    for idx in 0..24 {
        let ones: usize = p_codes(idx).iter().filter(|&&v| v == 1).count();
        assert_eq!(ones, 9 + idx);
    }
    assert_eq!(
        p_codes(12),
        [
            1, 1, 1, 0, 1, 1, 1, 0, 1, 1, 1, 0, 1, 1, 0, 0, 1, 1, 1, 0, 1, 1, 0, 0, 1, 1, 1, 0, 1,
            1, 0, 0
        ]
    );
}

#[test]
fn encoder_known_word() {
    let coded = convolutional_encode(&[1]);
    let expected = [
        1, 1, 1, 1, 0, 1, 1, 0, 1, 1, 0, 1, 1, 1, 0, 1, 0, 0, 1, 0, 1, 0, 0, 1, 1, 1, 1, 1,
    ];
    assert_eq!(coded, expected);
}

#[test]
fn encoding_is_linear() {
    let a = random_bits(90, 0x1111);
    let b = random_bits(90, 0x2222);
    let sum: Vec<u8> = a.iter().zip(b.iter()).map(|(x, y)| x ^ y).collect();
    let (ca, cb) = (convolutional_encode(&a), convolutional_encode(&b));
    let expected: Vec<u8> = ca.iter().zip(cb.iter()).map(|(x, y)| x ^ y).collect();
    assert_eq!(convolutional_encode(&sum), expected);
}

#[test]
fn leading_zero_delays_the_code_word() {
    let message = random_bits(40, 0x3333);
    let mut longer = vec![0u8];
    longer.extend_from_slice(&message);
    let mut expected = vec![0u8; 4];
    expected.extend(convolutional_encode(&message));
    assert_eq!(convolutional_encode(&longer), expected);
}

#[test]
fn viterbi_roundtrip_clean() {
    let mut rng = XorShift32::new(0xACE1);
    let n = 200usize;
    let message: Vec<u8> = (0..n).map(|_| rng.next_bit()).collect();
    let coded = convolutional_encode(&message);
    assert_eq!(coded.len(), 4 * (n + 6));
    let soft: Vec<i16> = coded.iter().map(|&b| bit_to_soft(b)).collect();
    assert_eq!(soft.len(), 4 * n + 24);
    let mut v = Viterbi::new(n);
    let decoded = v.deconvolve(&soft);
    assert_eq!(decoded, message);
}

#[test]
fn viterbi_roundtrip_short_blocks() {
    for n in 1..12usize {
        for word in 0..(1u32 << n.min(6)) {
            let message: Vec<u8> = (0..n).map(|i| ((word >> (i % 6)) & 1) as u8).collect();
            let coded = convolutional_encode(&message);
            let soft: Vec<i16> = coded.iter().map(|&b| if b == 0 { -1 } else { 1 }).collect();
            assert_eq!(Viterbi::new(n).deconvolve(&soft), message);
        }
    }
}

#[test]
fn viterbi_decodes_every_erased_start_that_it_can() {
    // Every first output is known, and the second one at every eighth step.
    let mut rng = XorShift32::new(0x51DE);
    let n = 64usize;
    let message: Vec<u8> = (0..n).map(|_| rng.next_bit()).collect();
    let coded = convolutional_encode(&message);
    let soft: Vec<i16> = coded
        .iter()
        .enumerate()
        .map(|(j, &b)| {
            if j % 4 == 0 || j % 32 == 1 {
                bit_to_soft(b)
            } else {
                0
            }
        })
        .collect();
    assert_eq!(Viterbi::new(n).deconvolve(&soft), message);
}

#[test]
fn viterbi_without_information_takes_odd_predecessors() {
    // All paths cost nothing; a tie goes to the odd predecessor, so tracing back
    // from state 0 the states fill up with ones.
    let n = 10usize;
    let decoded = Viterbi::new(n).deconvolve(&vec![0i16; 4 * n + 24]);
    assert_eq!(decoded, vec![1, 1, 1, 1, 1, 1, 1, 1, 1, 0]);
}

#[test]
fn viterbi_error_tolerance() {
    let mut rng = XorShift32::new(0xBEEF);
    let n = 300usize;
    let message: Vec<u8> = (0..n).map(|_| rng.next_bit()).collect();
    let coded = convolutional_encode(&message);
    let mut soft: Vec<i16> = coded.iter().map(|&b| bit_to_soft(b)).collect();
    for &idx in &[5usize, 53, 211, 480, 900] {
        soft[idx] = -soft[idx];
    }
    let mut v = Viterbi::new(n);
    let decoded = v.deconvolve(&soft);
    assert_eq!(decoded, message);
}

#[test]
fn depuncturing_puts_soft_bits_in_place() {
    let table = [true, false, true, true, false];
    assert_eq!(count_kept(&table), 3);
    assert_eq!(depuncture(&[7, -8, 9, 10], &table), vec![7, 0, -8, 9, 0]);
}

fn eep_roundtrip_case(bit_rate: i16, prot_level: i16, seed: u32) {
    let mut eep = EepProtection::new(bit_rate, prot_level);
    let out_size = eep.out_size();
    let mut rng = XorShift32::new(seed);
    let message: Vec<u8> = (0..out_size).map(|_| rng.next_bit()).collect();
    let coded = convolutional_encode(&message);
    let table_len = out_size * 4 + 24;
    assert_eq!(coded.len(), table_len);
    assert_eq!(eep.index_table().len(), table_len);
    let punctured_soft: Vec<i16> = coded
        .iter()
        .zip(eep.index_table().iter())
        .filter_map(|(&b, &keep)| if keep { Some(bit_to_soft(b)) } else { None })
        .collect();
    let decoded = eep.deconvolve(&punctured_soft);
    assert_eq!(decoded.len(), out_size);
    assert_eq!(
        decoded, message,
        "EEP roundtrip failed for bit_rate={bit_rate} prot_level={prot_level}"
    );
}

#[test]
fn eep_roundtrip_profiles() {
    eep_roundtrip_case(8, 0, 0x0001);
    eep_roundtrip_case(8, 1, 0x0002);
    eep_roundtrip_case(12, 2, 0x0003);
    eep_roundtrip_case(12, 6, 0x0004);
    eep_roundtrip_case(16, 4, 0x0005);
}

#[test]
fn eep_roundtrip_all_levels() {
    for level in 0..8 {
        eep_roundtrip_case(32, level, 0x100 + level as u32);
    }
}

#[test]
fn eep_profiles_by_level() {
    let p = select_profile(352, 2);
    assert_eq!((p.rows_1, p.pi_1, p.rows_2, p.pi_2), (261, 8, 3, 7));
    let p = select_profile(8, 1);
    assert_eq!((p.rows_1, p.pi_1, p.rows_2, p.pi_2), (5, 13, 1, 12));
    let p = select_profile(16, 1);
    assert_eq!((p.rows_1, p.pi_1, p.rows_2, p.pi_2), (1, 14, 11, 13));
    let p = select_profile(8, 3);
    assert_eq!((p.rows_1, p.pi_1, p.rows_2, p.pi_2), (1, 3, 5, 2));
    let p = select_profile(0, 0);
    assert_eq!((p.rows_1, p.rows_2), (0, 3));
}

#[test]
fn eep_profiles_that_do_not_fit() {
    assert!(profile_fits(8, 0));
    assert!(profile_fits(9, 0));
    assert!(!profile_fits(9, 1));
    assert!(!profile_fits(0, 0));
    assert!(!profile_fits(-8, 0));
}

#[test]
fn eep_blocks_fill_their_capacity_units() {
    let units_a = [12usize, 8, 6, 4];
    let units_b = [27usize, 21, 18, 15];
    for level in 0..4usize {
        for steps in 1..4usize {
            let a = EepProtection::new(8 * steps as i16, level as i16);
            assert_eq!(count_kept(a.index_table()), 64 * steps * units_a[level]);
            let b = EepProtection::new(32 * steps as i16, level as i16 + 4);
            assert_eq!(count_kept(b.index_table()), 64 * steps * units_b[level]);
        }
    }
}

#[test]
fn puncture_table_geometry_matches_standard() {
    let f = FicProtection::new();
    let table = f.index_table();
    assert_eq!(table.len(), FIC_VITERBI_LEN);
    assert_eq!(table.len(), 3096);
    let kept = table.iter().filter(|&&b| b).count();
    assert_eq!(kept, FIC_IN_BITS);
    assert_eq!(f.in_size(), FIC_IN_BITS);
    assert_eq!(f.out_size(), FIC_OUT_BITS);
}

#[test]
fn fic_roundtrip_clean_channel() {
    let f = FicProtection::new();
    let mut rng = XorShift32::new(0xF1C0_0001);
    let message: Vec<u8> = (0..FIC_OUT_BITS).map(|_| rng.next_bit()).collect();
    let coded = convolutional_encode(&message);
    assert_eq!(coded.len(), FIC_VITERBI_LEN);
    let mut tx_soft: Vec<i16> = Vec::with_capacity(FIC_IN_BITS);
    for (&bit, &keep) in coded.iter().zip(f.index_table().iter()) {
        if keep {
            tx_soft.push(bit_to_soft(bit));
        }
    }
    assert_eq!(tx_soft.len(), FIC_IN_BITS);
    let mut f2 = FicProtection::new();
    let decoded = f2.deconvolve(&tx_soft);
    assert_eq!(decoded.len(), FIC_OUT_BITS);
    assert_eq!(decoded, message, "FIC clean round-trip failed");
}

#[test]
fn fic_roundtrip_tolerates_isolated_errors() {
    let mut f = FicProtection::new();
    let mut rng = XorShift32::new(0xF1C0_BEEF);
    let message: Vec<u8> = (0..FIC_OUT_BITS).map(|_| rng.next_bit()).collect();
    let coded = convolutional_encode(&message);
    let mut tx_soft: Vec<i16> = coded
        .iter()
        .zip(f.index_table().iter())
        .filter_map(|(&b, &keep)| if keep { Some(bit_to_soft(b)) } else { None })
        .collect();
    assert_eq!(tx_soft.len(), FIC_IN_BITS);
    for &idx in &[17usize, 233, 559, 1024, 1611, 2103] {
        tx_soft[idx] = -tx_soft[idx];
    }
    let decoded = f.deconvolve(&tx_soft);
    assert_eq!(decoded, message);
}

#[test]
fn frame_byte_geometry_checks_out() {
    assert_eq!(FIC_SOFT_BITS_PER_FRAME, 9216);
    assert_eq!(FIC_BLOCKS_PER_FRAME, 4);
    assert_eq!(FIC_BYTES_PER_FRAME, 384);
    assert_eq!(FIC_OUT_BITS, 768);
    assert_eq!(FIC_IN_BITS, 2304);
}

#[test]
fn fic_frame_comes_back_with_its_stages() {
    let f = FicProtection::new();
    let clear = random_bits(4 * 768, 0x0BAD_CAFE);
    let prbs = prbs_sequence(768);
    let mut soft: Vec<i16> = Vec::new();
    let mut scrambled_all: Vec<u8> = Vec::new();
    for block in clear.chunks(768) {
        let scrambled: Vec<u8> = block.iter().zip(prbs.iter()).map(|(b, p)| b ^ p).collect();
        let coded = convolutional_encode(&scrambled);
        for (&bit, &keep) in coded.iter().zip(f.index_table().iter()) {
            if keep {
                soft.push(if bit == 0 { -90 } else { 90 });
            }
        }
        scrambled_all.extend_from_slice(&scrambled);
    }
    let mut dumps = DecodeDumps::default();
    let bytes = decode_fic_soft_bits_with_dumps(&soft, &mut dumps);
    assert_eq!(bytes, pack_bits(&clear));
    assert_eq!(decode_fic_soft_bits_to_bytes(&soft), bytes);
    assert_eq!(dumps.viterbi_out, scrambled_all);
    assert_eq!(dumps.descrambled, clear);
    assert_eq!(dumps.viterbi_in.len(), 4 * FIC_VITERBI_LEN);
    assert_eq!(&dumps.viterbi_in[..4], &[soft[0], soft[1], soft[2], 0]);
}
