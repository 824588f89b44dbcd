//! Carriers, symbols, synchronisation and resampling.

use dab_rs::carriers::{
    active_carriers, carrier_bin, list_correlation_pairs, rotate_spectrum, useful_part,
};
use dab_rs::channel_eq::DifferentialReference;
use dab_rs::cp_sync::{search_span, CpSync, PeakSearch};
use dab_rs::dqpsk_demap::DqpskDemap;
use dab_rs::freq_interleaver::FreqInterleaver;
use dab_rs::null_detect::{find_dips, median_sorted, window_bounds, NullDetector};
use dab_rs::params::DabParams;
use dab_rs::phase_table::{get_phi_turns, phase_reference_turns};
use dab_rs::resampler::Commutator;
use num_complex::Complex;
use std::f32::consts::{FRAC_PI_2, FRAC_PI_4, PI};

const T_U: usize = 2048;

#[test]
fn mode_i_constants() {
    let p = DabParams::mode_i();
    assert_eq!(p.mode, 1);
    assert_eq!(p.l, 76);
    assert_eq!(p.carriers, 1536);
    assert_eq!(p.t_f, 196_608);
    assert_eq!(p.t_null, 2656);
    assert_eq!(p.t_s, 2552);
    assert_eq!(p.t_u, 2048);
    assert_eq!(p.t_g, 504);
    assert_eq!(p.carrier_diff, 1000);
    assert_eq!(p.t_s, p.t_u + p.t_g);
}

#[test]
fn frame_adds_up() {
    let p = DabParams::mode_i();
    assert_eq!(p.t_null + p.l as u32 * p.t_s, p.t_f);
}

#[test]
fn permutation_is_bijection_onto_carrier_set() {
    let il = FreqInterleaver::mode_i();
    let table = il.table();
    assert_eq!(table.len(), 1536);
    for &c in table {
        assert_ne!(c, 0, "carrier 0 must be excluded");
        assert!((-768..=768).contains(&c), "carrier {c} out of range");
    }
    let mut sorted: Vec<i16> = table.to_vec();
    sorted.sort_unstable();
    let mut expected: Vec<i16> = Vec::with_capacity(1536);
    expected.extend(-768..=-1);
    expected.extend(1..=768);
    assert_eq!(sorted, expected);
    assert_eq!(il.map_in(0), table[0]);
    assert_eq!(il.map_in(1535), table[1535]);
}

#[test]
fn permutation_starts_as_computed_by_hand() {
    // 0, 511, 7154 mod 2048 = 1010, 13641 mod 2048 = 1353.
    let il = FreqInterleaver::mode_i();
    assert_eq!(il.map_in(0), 511 - 1024);
    assert_eq!(il.map_in(1), 1010 - 1024);
    assert_eq!(il.map_in(2), 1353 - 1024);
}

#[test]
fn rotate_spectrum_zero_delta_is_identity() {
    let spec: Vec<Complex<f32>> =
        (0..T_U).map(|i| Complex::new(i as f32, -(i as f32))).collect();
    let r = rotate_spectrum(&spec, 0);
    assert_eq!(r, spec);
}

#[test]
fn rotate_spectrum_positive_delta_shifts_window_up() {
    let mut spec = vec![Complex::new(0.0_f32, 0.0); T_U];
    spec[5] = Complex::new(1.0, 0.0);
    spec[6] = Complex::new(2.0, 0.0);
    let r = rotate_spectrum(&spec, 1);
    assert_eq!(r[4], Complex::new(1.0, 0.0));
    assert_eq!(r[5], Complex::new(2.0, 0.0));
    assert_eq!(r[6], Complex::new(0.0, 0.0));
}

#[test]
fn rotate_spectrum_negative_delta_shifts_window_down() {
    let mut spec = vec![Complex::new(0.0_f32, 0.0); T_U];
    spec[0] = Complex::new(7.0, 0.0);
    spec[T_U - 1] = Complex::new(9.0, 0.0);
    let r = rotate_spectrum(&spec, -1);
    assert_eq!(r[0], Complex::new(9.0, 0.0));
    assert_eq!(r[1], Complex::new(7.0, 0.0));
}

#[test]
fn rotation_can_be_undone() {
    let spec: Vec<u32> = (0..7).collect();
    for delta in [-20, -7, -3, 1, 6, 7, 100] {
        assert_eq!(rotate_spectrum(&rotate_spectrum(&spec, delta), -delta), spec);
    }
    assert_eq!(rotate_spectrum(&spec, -9), vec![5, 6, 0, 1, 2, 3, 4]);
    assert_eq!(rotate_spectrum::<u32>(&[], 0), Vec::<u32>::new());
}

#[test]
fn active_carrier_mapping() {
    let mut spectrum = vec![Complex::new(0.0_f32, 0.0); T_U];
    spectrum[1] = Complex::new(1.0, 0.0);
    spectrum[768] = Complex::new(2.0, 0.0);
    spectrum[1280] = Complex::new(3.0, 0.0);
    spectrum[2047] = Complex::new(4.0, 0.0);
    let ac = active_carriers(&spectrum);
    assert_eq!(ac.len(), 1536);
    assert_eq!(ac[768], Complex::new(1.0, 0.0));
    assert_eq!(ac[1535], Complex::new(2.0, 0.0));
    assert_eq!(ac[0], Complex::new(3.0, 0.0));
    assert_eq!(ac[767], Complex::new(4.0, 0.0));
}

#[test]
fn guard_interval_is_cut_off() {
    let symbol: Vec<usize> = (0..2600).collect();
    let useful = useful_part(&symbol);
    assert_eq!(useful, (504..2552).collect::<Vec<usize>>());
}

#[test]
fn carriers_have_their_bins() {
    assert_eq!(carrier_bin(1), 1);
    assert_eq!(carrier_bin(768), 768);
    assert_eq!(carrier_bin(-1), 2047);
    assert_eq!(carrier_bin(-768), 1280);
}

#[test]
fn correlation_pairs_by_offset() {
    let same = list_correlation_pairs(0);
    assert_eq!(same.len(), 1536);
    assert!(same.iter().all(|&(a, b)| a == b));
    let up = list_correlation_pairs(1);
    // One carrier would fall on the centre and one outside the band.
    assert_eq!(up.len(), 1534);
    assert_eq!(up[0], (carrier_bin(-767), carrier_bin(-768)));
    assert!(list_correlation_pairs(2000).is_empty());
}

#[test]
fn get_phi_hand_checked() {
    const TOL: f32 = 1e-5;
    let get_phi = |k: i32| get_phi_turns(k) as f32 * FRAC_PI_2;
    assert!((get_phi(1) - 3.0 * PI / 2.0).abs() < TOL);
    assert!((get_phi(-1) - 2.0 * PI).abs() < TOL);
    assert!((get_phi(33) - PI / 2.0).abs() < TOL);
    assert!((get_phi(98) - 2.0 * PI).abs() < TOL);
    assert!((get_phi(-768) - PI / 2.0).abs() < TOL);
    assert!((get_phi(768) - PI / 2.0).abs() < TOL);
}

#[test]
fn prs_shape_and_unit_magnitude() {
    let prs: Vec<Complex<f32>> = phase_reference_turns()
        .into_iter()
        .map(|t| match t {
            Some(turns) => {
                let phi = turns as f32 * FRAC_PI_2;
                Complex::new(phi.cos(), phi.sin())
            }
            None => Complex::new(0.0, 0.0),
        })
        .collect();
    assert_eq!(prs.len(), 2048);
    assert_eq!(prs[0], Complex::new(0.0, 0.0));
    let nonzero: Vec<&Complex<f32>> = prs.iter().filter(|z| z.norm_sqr() != 0.0).collect();
    assert_eq!(nonzero.len(), 1536);
    for z in nonzero {
        assert!((z.norm() - 1.0).abs() < 1e-5, "non-unit magnitude: {z:?}");
    }
}

#[test]
fn reference_turns_stand_in_their_bins() {
    let bins = phase_reference_turns();
    assert_eq!(bins[1], Some(3));
    assert_eq!(bins[2047], Some(4));
    assert_eq!(bins[1280], Some(1));
    assert_eq!(bins[769], None);
    assert_eq!(bins[1279], None);
}

/// Soft bits of one bin: the parts over the sum of their sizes.
fn soft_pair(r: Complex<f32>) -> (i16, i16) {
    let a = r.re.abs() + r.im.abs();
    if a == 0.0 {
        (0, 0)
    } else {
        ((-r.re / a * 127.0) as i16, (-r.im / a * 127.0) as i16)
    }
}

fn demap_spectrum(demap: &DqpskDemap, spec: &[Complex<f32>]) -> Vec<i16> {
    let pairs: Vec<(i16, i16)> = spec.iter().map(|&r| soft_pair(r)).collect();
    demap.demap(&pairs)
}

fn bin_of(il: &FreqInterleaver, i: usize) -> usize {
    let c = il.map_in(i) as i32;
    if c > 0 {
        c as usize
    } else {
        (c + T_U as i32) as usize
    }
}

#[test]
fn out_size_matches_mode_i() {
    assert_eq!(DqpskDemap::mode_i().out_size(), 3072);
}

#[test]
fn pure_real_positive_yields_minus_127_i_zero_q() {
    let demap = DqpskDemap::mode_i();
    let mut spec = vec![Complex::new(0.0_f32, 0.0); T_U];
    let il = FreqInterleaver::mode_i();
    for i in 0..1536 {
        spec[bin_of(&il, i)] = Complex::new(1.0, 0.0);
    }
    let bits = demap_spectrum(&demap, &spec);
    assert_eq!(bits.len(), 3072);
    for &b in &bits[..1536] {
        assert_eq!(b, -127, "I bit must be -127 for real-positive input");
    }
    for &b in &bits[1536..] {
        assert_eq!(b, 0, "Q bit must be 0 for real-positive input");
    }
}

#[test]
fn pure_imag_positive_yields_zero_i_minus_127_q() {
    let demap = DqpskDemap::mode_i();
    let mut spec = vec![Complex::new(0.0_f32, 0.0); T_U];
    let il = FreqInterleaver::mode_i();
    for i in 0..1536 {
        spec[bin_of(&il, i)] = Complex::new(0.0, 1.0);
    }
    let bits = demap_spectrum(&demap, &spec);
    for &b in &bits[..1536] {
        assert_eq!(b, 0, "I bit must be 0 for pure imag input");
    }
    for &b in &bits[1536..] {
        assert_eq!(b, -127, "Q bit must be -127 for imag-positive input");
    }
}

#[test]
fn negative_real_input_gives_positive_bit_per_polarity_convention() {
    let demap = DqpskDemap::mode_i();
    let mut spec = vec![Complex::new(0.0_f32, 0.0); T_U];
    let il = FreqInterleaver::mode_i();
    spec[bin_of(&il, 0)] = Complex::new(-1.0, 0.0);
    let bits = demap_spectrum(&demap, &spec);
    assert_eq!(bits[0], 127, "I bit for real-negative must be +127");
}

#[test]
fn deinterleaving_routes_bins_to_logical_indices() {
    let demap = DqpskDemap::mode_i();
    let il = FreqInterleaver::mode_i();
    let mut spec = vec![Complex::new(0.0_f32, 0.0); T_U];
    let probe_i = 42_usize;
    spec[bin_of(&il, probe_i)] = Complex::new(1.0, 0.0);
    let bits = demap_spectrum(&demap, &spec);
    assert_eq!(bits[probe_i], -127, "energy must land at logical index {probe_i}");
    for (j, &b) in bits[..1536].iter().enumerate() {
        if j != probe_i {
            assert_eq!(b, 0, "spurious I energy at index {j}");
        }
    }
    for &b in &bits[1536..] {
        assert_eq!(b, 0, "spurious Q energy");
    }
}

#[test]
fn zero_input_emits_zero_safely() {
    let demap = DqpskDemap::mode_i();
    let spec = vec![Complex::new(0.0_f32, 0.0); T_U];
    let bits = demap_spectrum(&demap, &spec);
    assert_eq!(bits.len(), 3072);
    for &b in &bits {
        assert_eq!(b, 0);
    }
}

fn unit_vec(n: usize, fill: Complex<f32>) -> Vec<Complex<f32>> {
    vec![fill; n]
}

fn differential(
    r: &mut DifferentialReference<Complex<f32>>,
    current: &[Complex<f32>],
) -> Vec<Complex<f32>> {
    r.step(current).into_iter().map(|(c, p)| c * p.conj()).collect()
}

fn unseeded() -> DifferentialReference<Complex<f32>> {
    DifferentialReference::new(Complex::new(0.0, 0.0))
}

#[test]
fn seeded_with_identical_symbol_yields_squared_magnitude_real() {
    let mut r = unseeded();
    let prs = unit_vec(T_U, Complex::new(0.6, 0.8));
    let data = prs.clone();
    r.seed_prs(&prs);
    let out = differential(&mut r, &data);
    assert_eq!(out.len(), T_U);
    for z in &out {
        assert!((z.re - 1.0).abs() < 1e-6, "re {} is not 1", z.re);
        assert!(z.im.abs() < 1e-6, "im {} is not 0", z.im);
    }
}

#[test]
fn differential_carries_only_phase_increment() {
    let m: f32 = 1.7;
    let theta0: f32 = 0.3;
    let delta: f32 = FRAC_PI_4;
    let prev = unit_vec(T_U, Complex::new(m * theta0.cos(), m * theta0.sin()));
    let curr = unit_vec(
        T_U,
        Complex::new(m * (theta0 + delta).cos(), m * (theta0 + delta).sin()),
    );
    let mut r = unseeded();
    r.seed_prs(&prev);
    let out = differential(&mut r, &curr);
    let expect_mag = m * m;
    for z in &out {
        assert!((z.norm() - expect_mag).abs() < 1e-4);
        assert!((z.arg() - delta).abs() < 1e-4);
    }
}

#[test]
fn reference_advances_to_current() {
    let s1 = unit_vec(T_U, Complex::new(1.0, 0.0));
    let s2 = unit_vec(T_U, Complex::new(0.0, 1.0));
    let s3 = unit_vec(T_U, Complex::new(-1.0, 0.0));
    let mut r = unseeded();
    r.seed_prs(&s1);
    let out = differential(&mut r, &s2);
    for z in &out {
        assert!((z.re - 0.0).abs() < 1e-6 && (z.im - 1.0).abs() < 1e-6);
    }
    let out = differential(&mut r, &s3);
    for z in &out {
        assert!((z.re - 0.0).abs() < 1e-6 && (z.im - 1.0).abs() < 1e-6);
    }
}

#[test]
fn reset_clears_state() {
    let mut r = unseeded();
    let prs = unit_vec(T_U, Complex::new(1.0, 0.0));
    r.seed_prs(&prs);
    assert!(r.is_seeded());
    r.reset();
    assert!(!r.is_seeded());
}

#[test]
fn empty_input_is_safe() {
    let det = NullDetector::new(2_048_000);
    let res = det.detect(&[], 1328, 190_000, 200_000);
    assert!(res.positions.is_empty());
    assert!(res.frame_period.is_none());
    assert_eq!(det.sample_rate(), 2_048_000);
}

#[test]
fn dips_need_their_length() {
    let mut mask = vec![false; 40];
    for i in [3, 4, 5, 10, 11, 20, 21, 22, 23, 38, 39] {
        mask[i] = true;
    }
    assert_eq!(find_dips(&mask, 3), vec![20]);
    assert_eq!(find_dips(&mask, 2), vec![3, 20]);
    // The last one never ends.
    assert_eq!(find_dips(&mask, 1), vec![3, 10, 20]);
}

#[test]
fn frame_period_is_the_median_distance() {
    let mut mask = vec![false; 1000];
    for start in [100usize, 200, 301, 400, 700, 805] {
        mask[start] = true;
        mask[start + 1] = true;
    }
    let det = NullDetector::new(1000);
    let res = det.detect(&mask, 1, 90, 110);
    assert_eq!(res.positions, vec![100, 200, 301, 400, 700, 805]);
    // 99, 100, 101, 105
    assert_eq!(res.frame_period, Some(100));
    assert_eq!(det.detect(&mask, 1, 99, 105).frame_period, None);
}

#[test]
fn medians() {
    assert_eq!(median_sorted(&[4]), 4);
    assert_eq!(median_sorted(&[1, 4]), 2);
    assert_eq!(median_sorted(&[1, 2, 9]), 2);
}

#[test]
fn smoothing_windows_stay_inside() {
    assert_eq!(window_bounds(0, 5, 10), (0, 3));
    assert_eq!(window_bounds(5, 5, 10), (3, 8));
    assert_eq!(window_bounds(9, 5, 10), (7, 10));
    assert_eq!(window_bounds(5, 4, 10), (3, 7));
    assert_eq!(window_bounds(5, 1, 10), (5, 6));
}

#[test]
fn guard_windows_fit() {
    let s = CpSync::mode_i();
    assert_eq!((s.tu(), s.tg(), s.ts()), (2048, 504, 2552));
    assert!(s.window_fits(0, 2552));
    assert!(!s.window_fits(1, 2552));
    assert!(!s.window_fits(usize::MAX, 2552));
    assert_eq!(s.usable_symbols(0, 10, 3 * 2552 + 5), 3);
    assert_eq!(s.usable_symbols(0, 2, 3 * 2552 + 5), 2);
    assert_eq!(CpSync::new(8, 2, 10).usable_symbols(4, 5, 24), 2);
}

#[test]
fn search_spans_saturate() {
    assert_eq!(search_span(100, 20), (80, 120));
    assert_eq!(search_span(10, 20), (0, 30));
    assert_eq!(search_span(usize::MAX - 1, 20), (usize::MAX - 21, usize::MAX));
}

#[test]
fn earliest_peak_wins() {
    let mut p = PeakSearch::new();
    assert_eq!(p.place(), None);
    assert_eq!(p.ranks(), (None, None));
    for (place, rank) in [(-2i64, 5u32), (-1, 9), (0, 7), (1, 9), (2, 1)] {
        p.offer(place, rank);
    }
    assert_eq!(p.place(), Some(-1));
    assert_eq!(p.ranks(), (Some(9), Some(9)));
}

#[test]
fn runner_up_is_the_best_of_the_rest() {
    let mut p = PeakSearch::new();
    for (place, rank) in [(0i64, 3u32), (1, 8), (2, 5)] {
        p.offer(place, rank);
    }
    assert_eq!(p.place(), Some(1));
    assert_eq!(p.ranks(), (Some(8), Some(5)));
}

/// Numbers of branches for `n` inputs.
fn branches(up: usize, down: usize, n: usize) -> Vec<usize> {
    let mut c = Commutator::new(up, down);
    let mut out = Vec::new();
    for _ in 0..n {
        c.push();
        while let Some(b) = c.next_branch() {
            out.push(b);
        }
    }
    out
}

#[test]
fn output_length_ratio() {
    let n = 375_000usize;
    let out = branches(256, 375, n);
    let expected = n * 256 / 375;
    let tol = 4usize;
    assert!(
        (out.len() as i64 - expected as i64).abs() <= tol as i64,
        "len {} not within {} of {}",
        out.len(),
        tol,
        expected
    );
}

#[test]
fn output_counts_are_exact() {
    for n in 0..2000usize {
        assert_eq!(branches(256, 375, n).len(), (n * 256 + 255) / 375);
    }
    assert_eq!(branches(3, 2, 4), vec![0, 1, 2, 0, 1, 2, 0]);
}
