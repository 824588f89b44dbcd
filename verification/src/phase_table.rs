//! Phases of the phase reference symbol, in quarter turns.

use vstd::prelude::*;
use crate::carriers::bin_of;
use crate::freq_interleaver::is_carrier;

verus! {

/// Quarter turns added to the carriers below the centre, 32 carriers at a time.
pub const LOWER_TURNS: [i32; 24] = [
    1, 2, 0, 1, 3, 2, 2, 3, 2, 1, 2, 3, 1, 2, 3, 3, 2, 2, 2, 1, 1, 3, 1, 2,
];

/// Quarter turns added to the carriers above the centre, 32 carriers at a time.
pub const UPPER_TURNS: [i32; 24] = [
    3, 1, 1, 1, 2, 2, 1, 0, 2, 2, 3, 3, 0, 2, 1, 3, 3, 3, 3, 0, 3, 0, 1, 1,
];

/// The four patterns of sixteen quarter turns.
pub const H0: [i32; 16] = [0, 2, 0, 0, 0, 0, 1, 1, 2, 0, 0, 0, 2, 2, 1, 1];

pub const H1: [i32; 16] = [0, 3, 2, 3, 0, 1, 3, 0, 2, 1, 2, 3, 2, 3, 3, 0];

pub const H2: [i32; 16] = [0, 0, 0, 2, 0, 2, 1, 3, 2, 2, 0, 2, 2, 0, 1, 3];

pub const H3: [i32; 16] = [0, 1, 2, 1, 0, 3, 3, 2, 2, 3, 2, 1, 2, 1, 3, 2];

/// Place `j` of pattern `i`.
pub open spec fn pattern_turns(i: int, j: int) -> int {
    (if i == 0 {
        H0@[j % 16]
    } else if i == 1 {
        H1@[j % 16]
    } else if i == 2 {
        H2@[j % 16]
    } else {
        H3@[j % 16]
    }) as int
}

/// Phase of carrier `k` in quarter turns.  In steps of 32 carriers the patterns
/// follow each other upwards below the centre and downwards above it.
pub open spec fn phase_turns(k: int) -> int {
    if k < 0 {
        pattern_turns(((k + 768) / 32) % 4, (k + 768) % 32) + LOWER_TURNS@[(k + 768) / 32]
    } else {
        pattern_turns((4 - ((k - 1) / 32) % 4) % 4, (k - 1) % 32) + UPPER_TURNS@[(k - 1) / 32]
    }
}

/// Looks up place `j` of pattern `i`.
fn h_table(i: i32, j: i32) -> (t: i32)
    requires
        0 <= i < 4,
        0 <= j < 32,
    ensures
        t == pattern_turns(i as int, j as int),
        0 <= t <= 3,
{
    let at: usize = (j % 16) as usize;
    if i == 0 {
        H0[at]
    } else if i == 1 {
        H1[at]
    } else if i == 2 {
        H2[at]
    } else {
        H3[at]
    }
}

/// Phase of carrier `k` in quarter turns.
pub fn get_phi_turns(k: i32) -> (turns: i32)
    requires
        is_carrier(k as int),
    ensures
        turns == phase_turns(k as int),
        0 <= turns <= 6,
{
    if k < 0 {
        let at: i32 = k + 768;
        let row: i32 = at / 32;
        let extra: i32 = LOWER_TURNS[row as usize];
        assert(0 <= extra <= 3);
        h_table(row % 4, at % 32) + extra
    } else {
        let at: i32 = k - 1;
        let row: i32 = at / 32;
        let extra: i32 = UPPER_TURNS[row as usize];
        assert(0 <= extra <= 3);
        h_table((4 - row % 4) % 4, at % 32) + extra
    }
}

/// What the phase reference symbol holds in bin `b`: a phase in quarter turns on
/// an active carrier, nothing elsewhere.
pub open spec fn reference_bin(b: int) -> Option<i32> {
    if 1 <= b <= 768 {
        Some(phase_turns(b) as i32)
    } else if 1280 <= b < 2048 {
        Some(phase_turns(b - 2048) as i32)
    } else {
        None
    }
}

/// The phase reference symbol, bin by bin.
pub fn phase_reference_turns() -> (bins: Vec<Option<i32>>)
    ensures
        bins@ == Seq::new(2048, |b: int| reference_bin(b)),
{
    let mut bins: Vec<Option<i32>> = Vec::new();
    let mut b: i32 = 0;
    while b < 2048
        invariant
            0 <= b <= 2048,
            bins@.len() == b,
            forall|q: int| 0 <= q < b ==> #[trigger] bins@[q] == reference_bin(q),
        decreases 2048 - b,
    {
        if 1 <= b && b <= 768 {
            bins.push(Some(get_phi_turns(b)));
        } else if b >= 1280 {
            bins.push(Some(get_phi_turns(b - 2048)));
        } else {
            bins.push(None);
        }
        b += 1;
    }
    assert(bins@ =~= Seq::new(2048, |b: int| reference_bin(b)));
    bins
}

/// The reference symbol carries the phase of every active carrier in its bin, and
/// nothing in the centre bin.
pub proof fn law_reference_covers_carriers(k: int)
    requires
        is_carrier(k),
    ensures
        reference_bin(bin_of(k)) == Some(phase_turns(k) as i32),
        reference_bin(0) is None,
{
}

proof fn lemma_patterns(i: int, j: int)
    requires
        0 <= i < 4,
        0 <= j,
    ensures
        pattern_turns(i, j) == seq![
            0int, 2, 0, 0, 0, 0, 1, 1, 2, 0, 0, 0, 2, 2, 1, 1, 0, 3, 2, 3, 0, 1, 3, 0, 2, 1, 2, 3, 2,
            3, 3, 0, 0, 0, 0, 2, 0, 2, 1, 3, 2, 2, 0, 2, 2, 0, 1, 3, 0, 1, 2, 1, 0, 3, 3, 2, 2, 3, 2, 1,
            2, 1, 3, 2,
        ][16 * i + j % 16],
{
    let m = j % 16;
    if i == 0 {
        assert(H0@[m] == seq![0int, 2, 0, 0, 0, 0, 1, 1, 2, 0, 0, 0, 2, 2, 1, 1][m]);
    } else if i == 1 {
        assert(H1@[m] == seq![0int, 3, 2, 3, 0, 1, 3, 0, 2, 1, 2, 3, 2, 3, 3, 0][m]);
    } else if i == 2 {
        assert(H2@[m] == seq![0int, 0, 0, 2, 0, 2, 1, 3, 2, 2, 0, 2, 2, 0, 1, 3][m]);
    } else {
        assert(H3@[m] == seq![0int, 1, 2, 1, 0, 3, 3, 2, 2, 3, 2, 1, 2, 1, 3, 2][m]);
    }
}

/// The phases by rows of 32 carriers: 24 rows from carrier -768 upwards and 24 from
/// carrier 1 upwards.  A row has a pattern of sixteen quarter turns, twice, and a number
/// of quarter turns that is added to it.
pub proof fn law_phases_by_rows(row: int, j: int)
    requires
        0 <= row < 48,
        0 <= j < 32,
    ensures
        ({
            let k = j + if row < 24 {
                32 * row - 768
            } else {
                32 * (row - 24) + 1
            };
            let pattern = seq![
                0int, 1, 2, 3, 0, 1, 2, 3, 0, 1, 2, 3, 0, 1, 2, 3, 0, 1, 2, 3, 0, 1, 2, 3, 0, 3, 2, 1,
                0, 3, 2, 1, 0, 3, 2, 1, 0, 3, 2, 1, 0, 3, 2, 1, 0, 3, 2, 1,
            ][row];
            let added = seq![
                1int, 2, 0, 1, 3, 2, 2, 3, 2, 1, 2, 3, 1, 2, 3, 3, 2, 2, 2, 1, 1, 3, 1, 2, 3, 1, 1, 1,
                2, 2, 1, 0, 2, 2, 3, 3, 0, 2, 1, 3, 3, 3, 3, 0, 3, 0, 1, 1,
            ][row];
            let h = seq![
                0int, 2, 0, 0, 0, 0, 1, 1, 2, 0, 0, 0, 2, 2, 1, 1, 0, 3, 2, 3, 0, 1, 3, 0, 2, 1, 2, 3,
                2, 3, 3, 0, 0, 0, 0, 2, 0, 2, 1, 3, 2, 2, 0, 2, 2, 0, 1, 3, 0, 1, 2, 1, 0, 3, 3, 2, 2, 3,
                2, 1, 2, 1, 3, 2,
            ];
            phase_turns(k) == h[16 * pattern + j % 16] + added
        }),
{
    let pattern = if row < 24 {
        row % 4
    } else {
        (4 - (row - 24) % 4) % 4
    };
    assert(pattern == seq![
        0int, 1, 2, 3, 0, 1, 2, 3, 0, 1, 2, 3, 0, 1, 2, 3, 0, 1, 2, 3, 0, 1, 2, 3, 0, 3, 2, 1, 0, 3, 2,
        1, 0, 3, 2, 1, 0, 3, 2, 1, 0, 3, 2, 1, 0, 3, 2, 1,
    ][row]);
    lemma_patterns(pattern, j);
    if row < 24 {
        assert(LOWER_TURNS@[row] == seq![
            1int, 2, 0, 1, 3, 2, 2, 3, 2, 1, 2, 3, 1, 2, 3, 3, 2, 2, 2, 1, 1, 3, 1, 2,
        ][row]);
    } else {
        assert(UPPER_TURNS@[row - 24] == seq![
            3int, 1, 1, 1, 2, 2, 1, 0, 2, 2, 3, 3, 0, 2, 1, 3, 3, 3, 3, 0, 3, 0, 1, 1,
        ][row - 24]);
    }
}

} // verus!
