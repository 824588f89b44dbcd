//! Protection profiles: two runs of 128-bit blocks, each with its own puncturing
//! vector, followed by the 24-bit tail punctured with PI_8.

use vstd::prelude::*;
use crate::bits::all_bits;
use crate::puncture::{depunctured, group_turn, kept, p_codes, transmitted, vector_keeps};
use crate::puncture::{lemma_kept_bounds, lemma_transmitted};
use crate::viterbi::{codeword, decoded};
use crate::viterbi_laws::{agrees_with, known, law_decoding_recovers_message};

verus! {

/// `rows_1` blocks punctured with PI_`pi_1`, then `rows_2` with PI_`pi_2`.
pub struct Profile {
    pub rows_1: usize,
    pub pi_1: usize,
    pub rows_2: usize,
    pub pi_2: usize,
}

impl Profile {
    /// The puncturing vectors exist.
    pub open spec fn wf(&self) -> bool {
        &&& 1 <= self.pi_1 <= 24
        &&& 1 <= self.pi_2 <= 24
    }

    /// Mother-code bits in the two runs, without the tail.
    pub open spec fn body(&self) -> int {
        128 * (self.rows_1 + self.rows_2)
    }

    /// Mother-code bit `pos` is transmitted.
    pub open spec fn keeps(&self, pos: int) -> bool {
        if pos < 128 * self.rows_1 {
            vector_keeps(self.pi_1 as int, pos % 32)
        } else if pos < self.body() {
            vector_keeps(self.pi_2 as int, pos % 32)
        } else {
            pos < self.body() + 24 && vector_keeps(8, pos - self.body())
        }
    }

    /// The first `len` entries of the index table.
    pub open spec fn table(&self, len: int) -> Seq<bool> {
        Seq::new(len as nat, |pos: int| self.keeps(pos))
    }

    /// Number of transmitted bits.
    pub open spec fn capacity(&self) -> int {
        4 * (8 + self.pi_1) * self.rows_1 + 4 * (8 + self.pi_2) * self.rows_2 + 12
    }

    /// Builds an index table of `len` entries: `true` where the bit is transmitted.
    pub fn index_table(&self, len: usize) -> (table: Vec<bool>)
        requires
            self.wf(),
            self.body() + 24 <= len,
        ensures
            table@ == self.table(len as int),
    {
        let first: [i8; 32] = p_codes(self.pi_1 - 1);
        let second: [i8; 32] = p_codes(self.pi_2 - 1);
        let tail: [i8; 32] = p_codes(7);
        let split: usize = 128 * self.rows_1;
        let body: usize = 128 * (self.rows_1 + self.rows_2);
        let mut table: Vec<bool> = Vec::new();
        let mut pos: usize = 0;
        while pos < len
            invariant
                self.wf(),
                split == 128 * self.rows_1,
                body == self.body(),
                body + 24 <= len,
                pos <= len,
                table@.len() == pos,
                forall|j: int|
                    0 <= j < 32 ==> #[trigger] first@[j] == if vector_keeps(self.pi_1 as int, j) {
                        1i8
                    } else {
                        0i8
                    },
                forall|j: int|
                    0 <= j < 32 ==> #[trigger] second@[j] == if vector_keeps(self.pi_2 as int, j) {
                        1i8
                    } else {
                        0i8
                    },
                forall|j: int|
                    0 <= j < 32 ==> #[trigger] tail@[j] == if vector_keeps(8, j) {
                        1i8
                    } else {
                        0i8
                    },
                forall|q: int| 0 <= q < pos ==> #[trigger] table@[q] == self.keeps(q),
            decreases len - pos,
        {
            let keep: bool = if pos < split {
                first[pos % 32] != 0
            } else if pos < body {
                second[pos % 32] != 0
            } else if pos < body + 24 {
                tail[pos - body] != 0
            } else {
                false
            };
            table.push(keep);
            pos += 1;
        }
        table
    }
}

/// 1 if a place whose turn is `turn` is kept by PI_`pi`.
spec fn kept_in_turn(turn: int, pi: int) -> int {
    if turn < pi {
        1
    } else {
        0
    }
}

proof fn lemma_kept_group(table: Seq<bool>, at: int, pi: int, g: int, turn: int)
    requires
        0 <= at,
        at % 32 == 0,
        0 <= g < 8,
        turn == group_turn(g),
        forall|j: int| at <= j < at + 32 ==> #[trigger] table[j] == vector_keeps(pi, j % 32),
    ensures
        kept(table, at + 4 * g + 4) == kept(table, at + 4 * g) + 1 + kept_in_turn(turn, pi)
            + kept_in_turn(8 + turn, pi) + kept_in_turn(16 + turn, pi),
{
    reveal_with_fuel(kept, 5);
    let p = at + 4 * g;
    assert(p % 32 == 4 * g && (p + 1) % 32 == 4 * g + 1 && (p + 2) % 32 == 4 * g + 2 && (p + 3) % 32
        == 4 * g + 3);
    assert((4 * g) / 4 == g && (4 * g + 1) / 4 == g && (4 * g + 2) / 4 == g && (4 * g + 3) / 4 == g);
    assert(table[p] && table[p + 1] == (turn < pi) && table[p + 2] == (8 + turn < pi) && table[p + 3]
        == (16 + turn < pi));
}

proof fn lemma_kept_32(table: Seq<bool>, at: int, pi: int)
    requires
        0 <= at,
        at % 32 == 0,
        1 <= pi <= 24,
        forall|j: int| at <= j < at + 32 ==> #[trigger] table[j] == vector_keeps(pi, j % 32),
    ensures
        kept(table, at + 32) == kept(table, at) + 8 + pi,
{
    lemma_kept_group(table, at, pi, 0, 0);
    lemma_kept_group(table, at, pi, 1, 4);
    lemma_kept_group(table, at, pi, 2, 2);
    lemma_kept_group(table, at, pi, 3, 6);
    lemma_kept_group(table, at, pi, 4, 1);
    lemma_kept_group(table, at, pi, 5, 5);
    lemma_kept_group(table, at, pi, 6, 3);
    lemma_kept_group(table, at, pi, 7, 7);
}

proof fn lemma_kept_rows(table: Seq<bool>, at: int, pi: int, quarters: int)
    requires
        0 <= at,
        at % 32 == 0,
        1 <= pi <= 24,
        0 <= quarters,
        forall|j: int|
            at <= j < at + 32 * quarters ==> #[trigger] table[j] == vector_keeps(pi, j % 32),
    ensures
        kept(table, at + 32 * quarters) == kept(table, at) + (8 + pi) * quarters,
    decreases quarters,
{
    if quarters > 0 {
        lemma_kept_rows(table, at, pi, quarters - 1);
        lemma_kept_32(table, at + 32 * (quarters - 1), pi);
        assert((8 + pi) * quarters == (8 + pi) * (quarters - 1) + (8 + pi)) by (nonlinear_arith);
    } else {
        assert((8 + pi) * quarters == 0) by (nonlinear_arith)
            requires
                quarters == 0,
        ;
    }
}

proof fn lemma_kept_tail(table: Seq<bool>, at: int)
    requires
        0 <= at,
        forall|j: int| at <= j < at + 24 ==> #[trigger] table[j] == vector_keeps(8, j - at),
    ensures
        kept(table, at + 24) == kept(table, at) + 12,
{
    reveal_with_fuel(kept, 25);
}

/// A profile transmits `8 + PI` of every 32 bits of a run and 12 of the tail.
pub proof fn law_profile_capacity(p: Profile)
    requires
        p.wf(),
    ensures
        kept(p.table(p.body() + 24), p.body() + 24) == p.capacity(),
{
    let table = p.table(p.body() + 24);
    lemma_kept_rows(table, 0, p.pi_1 as int, 4 * p.rows_1);
    assert(kept(table, 0) == 0);
    lemma_kept_rows(table, 128 * p.rows_1, p.pi_2 as int, 4 * p.rows_2);
    lemma_kept_tail(table, p.body());
    assert((8 + p.pi_1) * (4 * p.rows_1) == 4 * (8 + p.pi_1) * p.rows_1) by (nonlinear_arith);
    assert((8 + p.pi_2) * (4 * p.rows_2) == 4 * (8 + p.pi_2) * p.rows_2) by (nonlinear_arith);
}

/// The soft bits `soft` were received without a sign error for the bits `sent`.
pub open spec fn received_clean(soft: Seq<i16>, sent: Seq<u8>) -> bool {
    &&& soft.len() == sent.len()
    &&& forall|j: int| 0 <= j < soft.len() ==> #[trigger] soft[j] != 0
    &&& forall|j: int| 0 <= j < soft.len() ==> (#[trigger] soft[j] > 0 <==> sent[j] == 1)
}

/// Puncturing a code word, receiving it without sign errors, depuncturing and
/// decoding gives the message back, for every profile that covers the block.
pub proof fn law_punctured_round_trip(p: Profile, message: Seq<u8>, soft: Seq<i16>, n: int)
    requires
        p.wf(),
        n == message.len(),
        all_bits(message),
        p.body() == 4 * n,
        n >= 36,
        received_clean(soft, transmitted(codeword(message), p.table(4 * n + 24), 4 * n + 24)),
    ensures
        decoded(depunctured(soft, p.table(4 * n + 24)), n) == message,
{
    let table = p.table(4 * n + 24);
    let word = codeword(message);
    let block = depunctured(soft, table);
    lemma_transmitted(word, table, 0, 4 * n + 24);
    assert forall|i: int| 0 <= i < 4 * n + 24 && table[i] implies block[i] != 0 && (block[i] > 0
        <==> word[i] == 1) by {
        lemma_transmitted(word, table, i, 4 * n + 24);
        lemma_kept_bounds(table, i, 4 * n + 24);
        assert(block[i] == soft[kept(table, i)]);
    }
    assert(agrees_with(block, word)) by {
        assert forall|i: int| 0 <= i < block.len() && #[trigger] block[i] < 0 implies word[i]
            == 0 by {
            crate::viterbi::lemma_coded_bit_is_bit(
                crate::viterbi::encoder_state(message, i / 4),
                crate::viterbi::message_bit(message, i / 4),
                i % 4,
            );
        }
    }
    assert forall|i: int| 0 <= i < n + 5 implies #[trigger] known(block, i, 0) by {
        assert(table[4 * i]);
    }
    assert forall|i: int| 0 <= i < 41 && i % 8 == 0 implies #[trigger] known(block, i, 1) by {
        assert((4 * i + 1) % 32 == 1);
        assert(table[4 * i + 1]);
    }
    law_decoding_recovers_message(block, message, n);
}

} // verus!
