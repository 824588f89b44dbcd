//! Sub-channel sizes: the short-form table of unequal error protection and the long
//! form of equal error protection.

use vstd::prelude::*;
use vstd::string::*;
use crate::eep::{eep_fits, eep_profile};
use crate::puncture::{kept, vector_keeps};
use crate::profile::{law_profile_capacity, Profile};
use crate::text::{decimal, digit, push_decimal};

verus! {

/// Bit rate in kbit/s of short-form index `idx`.
pub open spec fn uep_rate(idx: int) -> int {
    let group = idx / 4;
    if group == 0 {
        32
    } else if group == 1 {
        48
    } else if group == 2 {
        56
    } else if group == 3 {
        64
    } else if group == 4 {
        80
    } else if group == 5 {
        96
    } else if group == 6 {
        112
    } else if group == 7 {
        128
    } else if group == 8 {
        160
    } else if group == 9 {
        192
    } else if group == 10 {
        224
    } else if group == 11 {
        256
    } else if idx <= 49 {
        320
    } else if idx <= 52 {
        384
    } else if idx == 53 {
        32
    } else if idx == 54 {
        96
    } else if idx == 55 {
        128
    } else if idx == 56 {
        192
    } else if idx == 57 {
        256
    } else if idx == 58 {
        384
    } else {
        32
    }
}

/// Size in capacity units of short-form index `idx`.
pub open spec fn uep_units(idx: int) -> int {
    if idx == 0 {
        16
    } else if idx == 1 {
        21
    } else if idx == 2 {
        24
    } else if idx == 3 {
        29
    } else if idx == 4 {
        24
    } else if idx == 5 {
        29
    } else if idx == 6 {
        35
    } else if idx == 7 {
        42
    } else if idx == 8 {
        29
    } else if idx == 9 {
        35
    } else if idx == 10 {
        42
    } else if idx == 11 {
        52
    } else if idx == 12 {
        32
    } else if idx == 13 {
        42
    } else if idx == 14 {
        48
    } else if idx == 15 {
        58
    } else if idx == 16 {
        40
    } else if idx == 17 {
        52
    } else if idx == 18 {
        58
    } else if idx == 19 {
        70
    } else if idx == 20 {
        48
    } else if idx == 21 {
        58
    } else if idx == 22 {
        70
    } else if idx == 23 {
        84
    } else if idx == 24 {
        58
    } else if idx == 25 {
        70
    } else if idx == 26 {
        84
    } else if idx == 27 {
        104
    } else if idx == 28 {
        64
    } else if idx == 29 {
        84
    } else if idx == 30 {
        96
    } else if idx == 31 {
        116
    } else if idx == 32 {
        80
    } else if idx == 33 {
        104
    } else if idx == 34 {
        116
    } else if idx == 35 {
        140
    } else if idx == 36 {
        96
    } else if idx == 37 {
        116
    } else if idx == 38 {
        140
    } else if idx == 39 {
        168
    } else if idx == 40 {
        116
    } else if idx == 41 {
        140
    } else if idx == 42 {
        168
    } else if idx == 43 {
        208
    } else if idx == 44 {
        128
    } else if idx == 45 {
        168
    } else if idx == 46 {
        192
    } else if idx == 47 {
        232
    } else if idx == 48 {
        168
    } else if idx == 49 {
        232
    } else if idx == 50 {
        208
    } else if idx == 51 {
        280
    } else if idx == 52 {
        280
    } else if idx == 53 {
        24
    } else if idx == 54 {
        48
    } else if idx == 55 {
        96
    } else if idx == 56 {
        116
    } else if idx == 57 {
        192
    } else if idx == 58 {
        280
    } else {
        16
    }
}

/// Protection level of short-form index `idx`.
pub open spec fn uep_level(idx: int) -> int {
    if idx < 48 {
        5 - idx % 4
    } else if idx == 49 || idx == 51 {
        2
    } else if 52 <= idx <= 58 {
        1
    } else {
        5
    }
}

/// Looks up a short-form index: bit rate, size and protection label.
pub fn uep_table(idx: u8) -> (r: Option<(u16, u16, &'static str)>)
    ensures
        r is Some <==> idx < 64,
        r matches Some((rate, units, label)) ==> {
            &&& rate == uep_rate(idx as int)
            &&& units == uep_units(idx as int)
            &&& label@ == "UEP-"@.push(digit(uep_level(idx as int)))
        },
{
    proof {
        reveal_strlit("UEP-");
        reveal_strlit("UEP-1");
        reveal_strlit("UEP-2");
        reveal_strlit("UEP-3");
        reveal_strlit("UEP-4");
        reveal_strlit("UEP-5");
        assert("UEP-1"@ =~= "UEP-"@.push('1'));
        assert("UEP-2"@ =~= "UEP-"@.push('2'));
        assert("UEP-3"@ =~= "UEP-"@.push('3'));
        assert("UEP-4"@ =~= "UEP-"@.push('4'));
        assert("UEP-5"@ =~= "UEP-"@.push('5'));
    }
    let row: (u16, u16, &'static str) = match idx {
        0 => (32, 16, "UEP-5"),
        1 => (32, 21, "UEP-4"),
        2 => (32, 24, "UEP-3"),
        3 => (32, 29, "UEP-2"),
        4 => (48, 24, "UEP-5"),
        5 => (48, 29, "UEP-4"),
        6 => (48, 35, "UEP-3"),
        7 => (48, 42, "UEP-2"),
        8 => (56, 29, "UEP-5"),
        9 => (56, 35, "UEP-4"),
        10 => (56, 42, "UEP-3"),
        11 => (56, 52, "UEP-2"),
        12 => (64, 32, "UEP-5"),
        13 => (64, 42, "UEP-4"),
        14 => (64, 48, "UEP-3"),
        15 => (64, 58, "UEP-2"),
        16 => (80, 40, "UEP-5"),
        17 => (80, 52, "UEP-4"),
        18 => (80, 58, "UEP-3"),
        19 => (80, 70, "UEP-2"),
        20 => (96, 48, "UEP-5"),
        21 => (96, 58, "UEP-4"),
        22 => (96, 70, "UEP-3"),
        23 => (96, 84, "UEP-2"),
        24 => (112, 58, "UEP-5"),
        25 => (112, 70, "UEP-4"),
        26 => (112, 84, "UEP-3"),
        27 => (112, 104, "UEP-2"),
        28 => (128, 64, "UEP-5"),
        29 => (128, 84, "UEP-4"),
        30 => (128, 96, "UEP-3"),
        31 => (128, 116, "UEP-2"),
        32 => (160, 80, "UEP-5"),
        33 => (160, 104, "UEP-4"),
        34 => (160, 116, "UEP-3"),
        35 => (160, 140, "UEP-2"),
        36 => (192, 96, "UEP-5"),
        37 => (192, 116, "UEP-4"),
        38 => (192, 140, "UEP-3"),
        39 => (192, 168, "UEP-2"),
        40 => (224, 116, "UEP-5"),
        41 => (224, 140, "UEP-4"),
        42 => (224, 168, "UEP-3"),
        43 => (224, 208, "UEP-2"),
        44 => (256, 128, "UEP-5"),
        45 => (256, 168, "UEP-4"),
        46 => (256, 192, "UEP-3"),
        47 => (256, 232, "UEP-2"),
        48 => (320, 168, "UEP-5"),
        49 => (320, 232, "UEP-2"),
        50 => (384, 208, "UEP-5"),
        51 => (384, 280, "UEP-2"),
        52 => (384, 280, "UEP-1"),
        53 => (32, 24, "UEP-1"),
        54 => (96, 48, "UEP-1"),
        55 => (128, 96, "UEP-1"),
        56 => (192, 116, "UEP-1"),
        57 => (256, 192, "UEP-1"),
        58 => (384, 280, "UEP-1"),
        59 => (32, 16, "UEP-5"),
        60 => (32, 16, "UEP-5"),
        61 => (32, 16, "UEP-5"),
        62 => (32, 16, "UEP-5"),
        63 => (32, 16, "UEP-5"),
        _ => {
            return None;
        },
    };
    Some(row)
}

/// Capacity units per rate step at `level` (counted from 0) of the A series
/// (`opt` 0) or the B series; 0 for a level that does not exist.
pub open spec fn eep_units(opt: int, level: int) -> int {
    if opt == 0 {
        if level == 0 {
            12
        } else if level == 1 {
            8
        } else if level == 2 {
            6
        } else if level == 3 {
            4
        } else {
            0
        }
    } else {
        if level == 0 {
            27
        } else if level == 1 {
            21
        } else if level == 2 {
            18
        } else if level == 3 {
            15
        } else {
            0
        }
    }
}

/// Bit rate in kbit/s of `size` capacity units.
pub open spec fn eep_rate(opt: int, level: int, size: int) -> int {
    if eep_units(opt, level) == 0 {
        0
    } else {
        (if opt == 0 { 8int } else { 32 }) * (size / eep_units(opt, level))
    }
}

/// Label of a long-form protection level.
pub open spec fn eep_label(opt: int, level: int) -> Seq<char> {
    "EEP-"@ + decimal((level + 1) as nat) + if opt == 0 {
        "A"@
    } else {
        "B"@
    }
}

/// Capacity units per 8 kbit/s of the A series; levels counted from 1.
fn eep_a(level_plus_1: u8) -> (m: u16)
    requires
        level_plus_1 >= 1,
    ensures
        m == eep_units(0, level_plus_1 - 1),
{
    match level_plus_1 {
        1 => 12,
        2 => 8,
        3 => 6,
        4 => 4,
        _ => 0,
    }
}

/// Capacity units per 32 kbit/s of the B series; levels counted from 1.
fn eep_b(level_plus_1: u8) -> (m: u16)
    requires
        level_plus_1 >= 1,
    ensures
        m == eep_units(1, level_plus_1 - 1),
{
    match level_plus_1 {
        1 => 27,
        2 => 21,
        3 => 18,
        4 => 15,
        _ => 0,
    }
}

/// Bit rate, size and label of a long-form sub-channel of `sub_size_cu` units.
pub fn eep_size(opt: u8, level: u8, sub_size_cu: u16) -> (r: (u16, u16, String))
    requires
        level < 255,
        eep_rate(opt as int, level as int, sub_size_cu as int) <= u16::MAX,
    ensures
        r.0 == eep_rate(opt as int, level as int, sub_size_cu as int),
        r.1 == sub_size_cu,
        r.2@ == eep_label(opt as int, level as int),
{
    let mut label: String = String::from_str("EEP-");
    push_decimal(&mut label, (level + 1) as u64);
    let m: u16 = if opt == 0 {
        label.append("A");
        eep_a(level + 1)
    } else {
        label.append("B");
        eep_b(level + 1)
    };
    let rate: u16 = if m == 0 {
        0
    } else if opt == 0 {
        8 * (sub_size_cu / m)
    } else {
        32 * (sub_size_cu / m)
    };
    (rate, sub_size_cu, label)
}

proof fn lemma_level_bits(prot_level: i16)
    by (bit_vector)
    requires
        0 <= prot_level < 8,
    ensures
        prot_level < 4 ==> prot_level & 4 == 0 && prot_level & 3 == prot_level,
        prot_level >= 4 ==> prot_level & 4 != 0 && (prot_level & 3) + 4 == prot_level,
{
}

proof fn lemma_a_series_capacity(prot_level: i16, bit_rate: i16, steps: int)
    requires
        0 <= prot_level < 4,
        1 <= steps,
        bit_rate == 8 * steps,
    ensures
        eep_profile(bit_rate, prot_level).wf(),
        eep_profile(bit_rate, prot_level).body() == 96 * bit_rate,
        eep_profile(bit_rate, prot_level).capacity() == 64 * (steps * eep_units(0, prot_level as int)),
{
    lemma_level_bits(prot_level);
    let p: Profile = eep_profile(bit_rate, prot_level);
    let units = eep_units(0, prot_level as int);
    if prot_level == 0 {
        assert(p.rows_1 == 6 * steps - 3 && p.rows_2 == 3);
        assert(p.capacity() == 128 * p.rows_1 + 124 * p.rows_2 + 12) by (nonlinear_arith)
            requires
                p.pi_1 == 24,
                p.pi_2 == 23,
        ;
        assert(steps * units == 12 * steps) by (nonlinear_arith)
            requires
                units == 12,
        ;
    } else if prot_level == 1 && bit_rate == 8 {
        assert(p.rows_1 == 5 && p.rows_2 == 1);
        assert(p.capacity() == 84 * p.rows_1 + 80 * p.rows_2 + 12) by (nonlinear_arith)
            requires
                p.pi_1 == 13,
                p.pi_2 == 12,
        ;
        assert(steps * units == 8 * steps) by (nonlinear_arith)
            requires
                units == 8,
        ;
    } else if prot_level == 1 {
        assert(p.rows_1 == 2 * steps - 3 && p.rows_2 == 4 * steps + 3);
        assert(p.capacity() == 88 * p.rows_1 + 84 * p.rows_2 + 12) by (nonlinear_arith)
            requires
                p.pi_1 == 14,
                p.pi_2 == 13,
        ;
        assert(steps * units == 8 * steps) by (nonlinear_arith)
            requires
                units == 8,
        ;
    } else if prot_level == 2 {
        assert(p.rows_1 == 6 * steps - 3 && p.rows_2 == 3);
        assert(p.capacity() == 64 * p.rows_1 + 60 * p.rows_2 + 12) by (nonlinear_arith)
            requires
                p.pi_1 == 8,
                p.pi_2 == 7,
        ;
        assert(steps * units == 6 * steps) by (nonlinear_arith)
            requires
                units == 6,
        ;
    } else if prot_level == 3 {
        assert(p.rows_1 == 4 * steps - 3 && p.rows_2 == 2 * steps + 3);
        assert(p.capacity() == 44 * p.rows_1 + 40 * p.rows_2 + 12) by (nonlinear_arith)
            requires
                p.pi_1 == 3,
                p.pi_2 == 2,
        ;
        assert(steps * units == 4 * steps) by (nonlinear_arith)
            requires
                units == 4,
        ;
    }
}

proof fn lemma_b_series_capacity(prot_level: i16, bit_rate: i16, steps: int)
    requires
        4 <= prot_level < 8,
        1 <= steps,
        bit_rate == 32 * steps,
    ensures
        eep_profile(bit_rate, prot_level).wf(),
        eep_profile(bit_rate, prot_level).body() == 96 * bit_rate,
        eep_profile(bit_rate, prot_level).capacity() == 64 * (steps * eep_units(1, prot_level - 4)),
{
    lemma_level_bits(prot_level);
    let p: Profile = eep_profile(bit_rate, prot_level);
    let units = eep_units(1, prot_level - 4);
    if prot_level == 4 {
        assert(p.rows_1 == 24 * steps - 3 && p.rows_2 == 3);
        assert(p.capacity() == 72 * p.rows_1 + 68 * p.rows_2 + 12) by (nonlinear_arith)
            requires
                p.pi_1 == 10,
                p.pi_2 == 9,
        ;
        assert(steps * units == 27 * steps) by (nonlinear_arith)
            requires
                units == 27,
        ;
    } else if prot_level == 5 {
        assert(p.rows_1 == 24 * steps - 3 && p.rows_2 == 3);
        assert(p.capacity() == 56 * p.rows_1 + 52 * p.rows_2 + 12) by (nonlinear_arith)
            requires
                p.pi_1 == 6,
                p.pi_2 == 5,
        ;
        assert(steps * units == 21 * steps) by (nonlinear_arith)
            requires
                units == 21,
        ;
    } else if prot_level == 6 {
        assert(p.rows_1 == 24 * steps - 3 && p.rows_2 == 3);
        assert(p.capacity() == 48 * p.rows_1 + 44 * p.rows_2 + 12) by (nonlinear_arith)
            requires
                p.pi_1 == 4,
                p.pi_2 == 3,
        ;
        assert(steps * units == 18 * steps) by (nonlinear_arith)
            requires
                units == 18,
        ;
    } else if prot_level == 7 {
        assert(p.rows_1 == 24 * steps - 3 && p.rows_2 == 3);
        assert(p.capacity() == 40 * p.rows_1 + 36 * p.rows_2 + 12) by (nonlinear_arith)
            requires
                p.pi_1 == 2,
                p.pi_2 == 1,
        ;
        assert(steps * units == 15 * steps) by (nonlinear_arith)
            requires
                units == 15,
        ;
    }
}

/// A long-form sub-channel of `steps` rate steps holds exactly the soft bits that
/// its decoder takes, 64 per capacity unit, and its profile fills the code word.
pub proof fn law_sub_channel_holds_one_block(prot_level: i16, bit_rate: i16, steps: int)
    requires
        0 <= prot_level < 8,
        1 <= steps,
        bit_rate == if prot_level < 4 {
            8 * steps
        } else {
            32 * steps
        },
    ensures
        eep_profile(bit_rate, prot_level).body() == 96 * bit_rate,
        eep_fits(bit_rate, prot_level),
        kept(
            eep_profile(bit_rate, prot_level).table(96 * bit_rate + 24),
            96 * bit_rate + 24,
        ) == 64 * (steps * if prot_level < 4 {
            eep_units(0, prot_level as int)
        } else {
            eep_units(1, prot_level - 4)
        }),
{
    if prot_level < 4 {
        lemma_a_series_capacity(prot_level, bit_rate, steps);
    } else {
        lemma_b_series_capacity(prot_level, bit_rate, steps);
    }
    law_profile_capacity(eep_profile(bit_rate, prot_level));
}

/// Which bits of a code word of `steps` rate steps are sent, by protection level: a run
/// of one vector, then a run of the next weaker one, then the tail.
pub proof fn law_long_form_places(prot_level: i16, bit_rate: i16, steps: int, i: int)
    requires
        0 <= prot_level < 8,
        1 <= steps,
        bit_rate == if prot_level < 4 {
            8 * steps
        } else {
            32 * steps
        },
        0 <= i < 96 * bit_rate + 24,
    ensures
        ({
            let table = eep_profile(bit_rate, prot_level).table(96 * bit_rate + 24);
            let (first, pi): (int, int) = if prot_level == 0 {
                (768 * steps - 384, 24)
            } else if prot_level == 1 && steps == 1 {
                (640, 13)
            } else if prot_level == 1 {
                (256 * steps - 384, 14)
            } else if prot_level == 2 {
                (768 * steps - 384, 8)
            } else if prot_level == 3 {
                (512 * steps - 384, 3)
            } else if prot_level == 4 {
                (3072 * steps - 384, 10)
            } else if prot_level == 5 {
                (3072 * steps - 384, 6)
            } else if prot_level == 6 {
                (3072 * steps - 384, 4)
            } else {
                (3072 * steps - 384, 2)
            };
            &&& table.len() == 96 * bit_rate + 24
            &&& i < first ==> table[i] == vector_keeps(pi, i % 32)
            &&& first <= i < 96 * bit_rate ==> table[i] == vector_keeps(pi - 1, i % 32)
            &&& 96 * bit_rate <= i ==> table[i] == vector_keeps(8, i - 96 * bit_rate)
        }),
{
    lemma_level_bits(prot_level);
    if prot_level < 4 {
        lemma_a_series_capacity(prot_level, bit_rate, steps);
    } else {
        lemma_b_series_capacity(prot_level, bit_rate, steps);
    }
}

/// The short-form table, row by row.
pub proof fn law_short_form_rows(idx: int)
    requires
        0 <= idx < 64,
    ensures
        uep_rate(idx) == seq![
            32int, 32, 32, 32, 48, 48, 48, 48, 56, 56, 56, 56, 64, 64, 64, 64, 80, 80, 80, 80, 96, 96,
            96, 96, 112, 112, 112, 112, 128, 128, 128, 128, 160, 160, 160, 160, 192, 192, 192, 192,
            224, 224, 224, 224, 256, 256, 256, 256, 320, 320, 384, 384, 384, 32, 96, 128, 192, 256,
            384, 32, 32, 32, 32, 32,
        ][idx],
        uep_units(idx) == seq![
            16int, 21, 24, 29, 24, 29, 35, 42, 29, 35, 42, 52, 32, 42, 48, 58, 40, 52, 58, 70, 48, 58,
            70, 84, 58, 70, 84, 104, 64, 84, 96, 116, 80, 104, 116, 140, 96, 116, 140, 168, 116, 140,
            168, 208, 128, 168, 192, 232, 168, 232, 208, 280, 280, 24, 48, 96, 116, 192, 280, 16, 16,
            16, 16, 16,
        ][idx],
        uep_level(idx) == seq![
            5int, 4, 3, 2, 5, 4, 3, 2, 5, 4, 3, 2, 5, 4, 3, 2, 5, 4, 3, 2, 5, 4, 3, 2, 5, 4, 3, 2, 5, 4,
            3, 2, 5, 4, 3, 2, 5, 4, 3, 2, 5, 4, 3, 2, 5, 4, 3, 2, 5, 2, 5, 2, 1, 1, 1, 1, 1, 1, 1, 5, 5,
            5, 5, 5,
        ][idx],
{
}

/// In the first twelve groups of the short-form table a service of twice the bit rate
/// takes twice the size at every protection level.
pub proof fn law_twice_the_rate_takes_twice_the_size(a: int, b: int)
    requires
        0 <= a < 48,
        0 <= b < 48,
        uep_rate(b) == 2 * uep_rate(a),
        uep_level(b) == uep_level(a),
    ensures
        uep_units(b) == 2 * uep_units(a),
{
}

/// A long-form sub-channel of whole rate steps has the bit rate of its steps: 8 kbit/s for
/// 12, 8, 6 or 4 capacity units in the A series, 32 kbit/s for 27, 21, 18 or 15 in the B
/// series; a part of a step adds nothing.
pub proof fn law_rate_of_steps(opt: int, level: int, steps: int, part: int)
    requires
        0 <= level < 4,
        0 <= steps,
        0 <= part,
        part < if opt == 0 {
            seq![12int, 8, 6, 4][level]
        } else {
            seq![27int, 21, 18, 15][level]
        },
    ensures
        opt == 0 ==> eep_rate(opt, level, steps * seq![12int, 8, 6, 4][level] + part) == 8 * steps,
        opt != 0 ==> eep_rate(opt, level, steps * seq![27int, 21, 18, 15][level] + part) == 32
            * steps,
{
    let units = eep_units(opt, level);
    assert(units == if opt == 0 {
        seq![12int, 8, 6, 4][level]
    } else {
        seq![27int, 21, 18, 15][level]
    });
    vstd::arithmetic::div_mod::lemma_fundamental_div_mod_converse(
        steps * units + part,
        units,
        steps,
        part,
    );
}

/// The label of a long-form level is "EEP-", the level counted from one, and the series.
pub proof fn law_long_form_labels(opt: int, level: int)
    requires
        0 <= level < 4,
    ensures
        eep_label(opt, level) == seq![
            'E',
            'E',
            'P',
            '-',
            seq!['1', '2', '3', '4'][level],
            if opt == 0 {
                'A'
            } else {
                'B'
            },
        ],
{
    reveal_strlit("EEP-");
    reveal_strlit("A");
    reveal_strlit("B");
    assert(decimal((level + 1) as nat) =~= seq![digit(level + 1)]);
    assert(eep_label(opt, level) =~= seq![
        'E',
        'E',
        'P',
        '-',
        seq!['1', '2', '3', '4'][level],
        if opt == 0 {
            'A'
        } else {
            'B'
        },
    ]);
}

proof fn lemma_only_three_bits(prot_level: i16)
    by (bit_vector)
    ensures
        ((prot_level & 7) & 3) == prot_level & 3,
        ((prot_level & 7) & 4) == prot_level & 4,
        0 <= (prot_level & 7) && (prot_level & 7) < 8,
{
}

/// Which bits of a code word are sent at any bit rate that is not negative: a run of whole
/// 128-bit rows of one vector, a run of the next weaker one, and 24 tail bits; only the
/// three low bits of the protection level matter.
pub proof fn law_long_form_places_at_any_rate(prot_level: i16, bit_rate: i16, len: int, i: int)
    requires
        0 <= bit_rate,
        0 <= i < len,
    ensures
        eep_profile(bit_rate, prot_level) == eep_profile(bit_rate, prot_level & 7),
        0 <= prot_level < 8 ==> {
            let table = eep_profile(bit_rate, prot_level).table(len);
            let br = bit_rate as int;
            let (l1, l2, pi): (int, int, int) = if prot_level == 0 {
                ((6 * br) / 8 - 3, 3, 24)
            } else if prot_level == 1 && br == 8 {
                (5, 1, 13)
            } else if prot_level == 1 {
                ((2 * br) / 8 - 3, (4 * br) / 8 + 3, 14)
            } else if prot_level == 2 {
                ((6 * br) / 8 - 3, 3, 8)
            } else if prot_level == 3 {
                ((4 * br) / 8 - 3, (2 * br) / 8 + 3, 3)
            } else {
                ((24 * br) / 32 - 3, 3, seq![10int, 6, 4, 2][prot_level - 4])
            };
            let first = if l1 < 0 {
                0
            } else {
                128 * l1
            };
            let body = first + 128 * l2;
            &&& i < first ==> table[i] == vector_keeps(pi, i % 32)
            &&& first <= i < body ==> table[i] == vector_keeps(pi - 1, i % 32)
            &&& body <= i < body + 24 ==> table[i] == vector_keeps(8, i - body)
            &&& body + 24 <= i ==> !table[i]
        },
{
    lemma_only_three_bits(prot_level);
    if 0 <= prot_level < 8 {
        lemma_level_bits(prot_level);
    }
}

} // verus!
