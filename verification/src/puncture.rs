//! Puncturing of the mother code.
//!
//! A puncturing vector keeps some of every 32 mother-code bits.  The 32 places
//! are eight groups of four, one group per encoder step.  Vector PI_1 keeps the
//! first output of every step and the second output of group 0; each further
//! vector keeps one output more, second outputs first, then third, then fourth.

use vstd::prelude::*;
use crate::viterbi::soft_weight;

verus! {

/// When a group gets a further output: its three index bits, reversed.
pub open spec fn group_turn(group: int) -> int {
    4 * (group % 2) + 2 * ((group / 2) % 2) + (group / 4) % 2
}

/// Vector PI_`pi` keeps place `j` of every 32.
pub open spec fn vector_keeps(pi: int, j: int) -> bool {
    j % 4 == 0 || 8 * (j % 4 - 1) + group_turn(j / 4) < pi
}

/// Puncturing vector PI_`idx + 1`: 1 where the mother-code bit is kept.
pub fn p_codes(idx: usize) -> (row: [i8; 32])
    requires
        idx < 24,
    ensures
        forall|j: int|
            0 <= j < 32 ==> #[trigger] row@[j] == if vector_keeps(idx + 1, j) {
                1i8
            } else {
                0i8
            },
{
    let mut row: [i8; 32] = [0i8; 32];
    let mut j: usize = 0;
    while j < 32
        invariant
            j <= 32,
            idx < 24,
            forall|q: int|
                0 <= q < j ==> #[trigger] row@[q] == if vector_keeps(idx + 1, q) {
                    1i8
                } else {
                    0i8
                },
            forall|q: int| j <= q < 32 ==> #[trigger] row@[q] == 0,
        decreases 32 - j,
    {
        let group: usize = j / 4;
        let turn: usize = 4 * (group % 2) + 2 * ((group / 2) % 2) + (group / 4) % 2;
        if j % 4 == 0 || 8 * (j % 4 - 1) + turn < idx + 1 {
            row[j] = 1;
        }
        j += 1;
    }
    row
}

/// How many of the first `i` places of `table` are kept.
pub open spec fn kept(table: Seq<bool>, i: int) -> int
    decreases i,
{
    if i <= 0 {
        0
    } else {
        kept(table, i - 1) + if table[i - 1] {
            1int
        } else {
            0
        }
    }
}

/// The kept elements among the first `i` of `word`, in order.
pub open spec fn transmitted(word: Seq<u8>, table: Seq<bool>, i: int) -> Seq<u8>
    decreases i,
{
    if i <= 0 {
        Seq::empty()
    } else if table[i - 1] {
        transmitted(word, table, i - 1).push(word[i - 1])
    } else {
        transmitted(word, table, i - 1)
    }
}

/// The received soft bits at their mother-code places, with erasures elsewhere.
pub open spec fn depunctured(soft: Seq<i16>, table: Seq<bool>) -> Seq<i16> {
    Seq::new(
        table.len(),
        |i: int|
            if table[i] {
                soft[kept(table, i)]
            } else {
                0i16
            },
    )
}

pub proof fn lemma_kept_bounds(table: Seq<bool>, i: int, j: int)
    requires
        0 <= i <= j,
    ensures
        0 <= kept(table, i) <= kept(table, j),
        kept(table, i) <= i,
        i < j && table[i] ==> kept(table, i) < kept(table, j),
    decreases j,
{
    if i < j {
        lemma_kept_bounds(table, i, j - 1);
    } else if i > 0 {
        lemma_kept_bounds(table, i - 1, i - 1);
    }
}

/// Counts the kept places of `table`.
pub fn count_kept(table: &[bool]) -> (n: usize)
    ensures
        n == kept(table@, table@.len() as int),
{
    let mut n: usize = 0;
    let mut i: usize = 0;
    while i < table.len()
        invariant
            i <= table.len(),
            n == kept(table@, i as int),
            n <= i,
        decreases table.len() - i,
    {
        if table[i] {
            n += 1;
        }
        i += 1;
    }
    n
}

/// Scatters the received soft bits to their mother-code places.
pub fn depuncture(soft: &[i16], table: &[bool]) -> (block: Vec<i16>)
    requires
        kept(table@, table@.len() as int) <= soft@.len(),
    ensures
        block@ == depunctured(soft@, table@),
{
    let mut block: Vec<i16> = Vec::new();
    let mut taken: usize = 0;
    let mut i: usize = 0;
    while i < table.len()
        invariant
            i <= table.len(),
            taken == kept(table@, i as int),
            kept(table@, table@.len() as int) <= soft@.len(),
            block@.len() == i,
            forall|j: int| 0 <= j < i ==> #[trigger] block@[j] == depunctured(soft@, table@)[j],
        decreases table.len() - i,
    {
        proof {
            lemma_kept_bounds(table@, i as int, table@.len() as int);
            lemma_kept_bounds(table@, i + 1, table@.len() as int);
            assert(soft.len() <= usize::MAX);
        }
        if table[i] {
            block.push(soft[taken]);
            taken += 1;
        } else {
            block.push(0);
        }
        i += 1;
    }
    block
}

pub proof fn lemma_depunctured_weight(soft: Seq<i16>, table: Seq<bool>, i: int)
    requires
        0 <= i <= table.len(),
    ensures
        soft_weight(depunctured(soft, table), i) == soft_weight(soft, kept(table, i)),
    decreases i,
{
    if i > 0 {
        lemma_depunctured_weight(soft, table, i - 1);
        lemma_kept_bounds(table, i - 1, i);
    }
}

pub proof fn lemma_transmitted(word: Seq<u8>, table: Seq<bool>, i: int, j: int)
    requires
        0 <= i <= j <= table.len(),
        j <= word.len(),
    ensures
        transmitted(word, table, j).len() == kept(table, j),
        i < j && table[i] ==> transmitted(word, table, j)[kept(table, i)] == word[i],
    decreases j,
{
    if j > 0 {
        lemma_transmitted(word, table, j - 1, j - 1);
        if i < j - 1 {
            lemma_transmitted(word, table, i, j - 1);
            lemma_kept_bounds(table, i, j - 1);
        }
    }
}

/// Every vector keeps the first outputs; further outputs are kept one by one, second
/// outputs first and fourth outputs last, each time in the order of groups 0, 4, 2, 6,
/// 1, 5, 3 and 7.
pub proof fn law_vectors_grow_in_order(pi: int, t: int, c: int)
    requires
        0 <= t < 8,
        0 <= c < 3,
    ensures
        ({
            let group = seq![0int, 4, 2, 6, 1, 5, 3, 7][t];
            &&& vector_keeps(pi, 4 * group)
            &&& vector_keeps(pi, 4 * group + 1 + c) <==> 8 * c + t < pi
        }),
{
    let group = seq![0int, 4, 2, 6, 1, 5, 3, 7][t];
    assert((4 * group + 1 + c) / 4 == group && (4 * group + 1 + c) % 4 == 1 + c);
    if t == 0 {
    } else if t == 1 {
    } else if t == 2 {
    } else if t == 3 {
    } else if t == 4 {
    } else if t == 5 {
    } else if t == 6 {
    } else {
    }
}

} // verus!
