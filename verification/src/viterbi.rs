//! Viterbi decoder for the DAB rate-1/4, constraint-length-7 mother code.
//!
//! The generator polynomials are (octal) 133, 171, 145 and 133, hence 64 trellis
//! states.  A soft bit is an `i16`: positive values favour a coded 1, negative values
//! a coded 0, and 0 is an erasure.

use vstd::prelude::*;
use crate::bits::all_bits;

verus! {

/// Constraint length of the mother code.
pub const K: usize = 7;

/// Generator polynomials of the mother code, in the order their outputs are sent.
pub const POLYS: [u32; 4] = [0o133, 0o171, 0o145, 0o133];

/// Number of trellis states.
pub const NUM_STATES: usize = 64;

/// Path metrics at or above this value never select an end state.
pub const METRIC_CEILING: i32 = 1_000_000;

// ---------------------------------------------------------------------------
// The encoder
// ---------------------------------------------------------------------------

/// Parity of the low eight bits of `x`.
pub open spec fn parity8(x: u32) -> u8 {
    ((x ^ (x >> 1) ^ (x >> 2) ^ (x >> 3) ^ (x >> 4) ^ (x >> 5) ^ (x >> 6) ^ (x >> 7)) & 1) as u8
}

/// The register contents while `bit` is shifted into `state`.
pub open spec fn register(state: u32, bit: u32) -> u32 {
    if bit == 0 {
        state
    } else {
        (state + 64) as u32
    }
}

/// Generator polynomial `k`.
pub open spec fn poly(k: int) -> u32 {
    if k == 0 {
        0o133
    } else if k == 1 {
        0o171
    } else if k == 2 {
        0o145
    } else {
        0o133
    }
}

/// Output `k` of the encoder in `state` on input `bit`.
pub open spec fn coded_bit(state: int, bit: int, k: int) -> u8 {
    parity8(register(state as u32, bit as u32) & poly(k))
}

/// The state that follows `state` on input `bit`.
pub open spec fn next_state(state: int, bit: int) -> int {
    state / 2 + 32 * bit
}

/// Input bit `i` of the encoder: the message, then zeros.
pub open spec fn message_bit(message: Seq<u8>, i: int) -> int {
    if 0 <= i < message.len() {
        (message[i] & 1) as int
    } else {
        0
    }
}

/// The encoder's state before input bit `i`.
pub open spec fn encoder_state(message: Seq<u8>, i: int) -> int
    decreases i,
{
    if i <= 0 {
        0
    } else {
        next_state(encoder_state(message, i - 1), message_bit(message, i - 1))
    }
}

/// The mother-code word of `message`, with six zero tail bits.
pub open spec fn codeword(message: Seq<u8>) -> Seq<u8> {
    Seq::new(
        4 * (message.len() + 6),
        |j: int| coded_bit(encoder_state(message, j / 4), message_bit(message, j / 4), j % 4),
    )
}

/// The parity bit that the encoder in `state` gives for `poly` on input `bit`.
pub fn bit_for(state: u32, poly: u32, bit: u32) -> (r: u8)
    requires
        bit != 0 ==> state + 64 <= u32::MAX,
    ensures
        r == parity8(register(state, bit) & poly),
        r <= 1,
{
    let reg: u32 = if bit == 0 {
        state
    } else {
        state + 64
    };
    let x: u32 = reg & poly;
    let folded: u32 = x ^ (x >> 1) ^ (x >> 2) ^ (x >> 3) ^ (x >> 4) ^ (x >> 5) ^ (x >> 6) ^ (x
        >> 7);
    assert(folded & 1 <= 1) by (bit_vector);
    (folded & 1) as u8
}

pub proof fn lemma_coded_bit_is_bit(state: int, bit: int, k: int)
    ensures
        coded_bit(state, bit, k) <= 1,
{
    let x = register(state as u32, bit as u32) & poly(k);
    assert(((x ^ (x >> 1) ^ (x >> 2) ^ (x >> 3) ^ (x >> 4) ^ (x >> 5) ^ (x >> 6) ^ (x >> 7)) & 1)
        <= 1) by (bit_vector);
}

pub proof fn lemma_encoder_state_range(message: Seq<u8>, i: int)
    ensures
        0 <= encoder_state(message, i) < 64,
        0 <= message_bit(message, i) <= 1,
    decreases i,
{
    if 0 <= i < message.len() {
        crate::bits::lemma_xor_undo(message[i], 0);
    }
    if i > 0 {
        lemma_encoder_state_range(message, i - 1);
    }
}

/// Encodes `message_bits` (low bit of each byte) and appends the six-bit tail.
pub fn convolutional_encode(message_bits: &[u8]) -> (out: Vec<u8>)
    requires
        4 * (message_bits@.len() + 6) <= usize::MAX,
    ensures
        out@ == codeword(message_bits@),
        all_bits(out@),
{
    let n: usize = message_bits.len();
    let total: usize = n + 6;
    let mut out: Vec<u8> = Vec::new();
    let mut state: u32 = 0;
    let mut step: usize = 0;
    while step < total
        invariant
            n == message_bits@.len(),
            total == n + 6,
            step <= total,
            state == encoder_state(message_bits@, step as int),
            state < 64,
            out@.len() == 4 * step,
            forall|j: int| 0 <= j < out@.len() ==> #[trigger] out@[j] == codeword(message_bits@)[j],
            all_bits(out@),
        decreases total - step,
    {
        proof {
            lemma_encoder_state_range(message_bits@, step as int);
            lemma_encoder_state_range(message_bits@, step + 1);
        }
        let bit: u32 = if step < n {
            (message_bits[step] & 1) as u32
        } else {
            0
        };
        assert(bit == message_bit(message_bits@, step as int));
        out.push(bit_for(state, POLYS[0], bit));
        out.push(bit_for(state, POLYS[1], bit));
        out.push(bit_for(state, POLYS[2], bit));
        out.push(bit_for(state, POLYS[3], bit));
        state = state / 2 + 32 * bit;
        step += 1;
    }
    out
}

// ---------------------------------------------------------------------------
// The decoder
// ---------------------------------------------------------------------------

/// What a soft value costs when the coded bit at its place is `out`.
pub open spec fn bit_cost(out: u8, soft: int) -> int {
    if out == 1 {
        -soft
    } else {
        soft
    }
}

/// Cost of the trellis branch that leaves `state` on `bit` at step `i`.
pub open spec fn branch_cost(soft: Seq<i16>, i: int, state: int, bit: int) -> int {
    bit_cost(coded_bit(state, bit, 0), soft[4 * i] as int) + bit_cost(
        coded_bit(state, bit, 1),
        soft[4 * i + 1] as int,
    ) + bit_cost(coded_bit(state, bit, 2), soft[4 * i + 2] as int) + bit_cost(
        coded_bit(state, bit, 3),
        soft[4 * i + 3] as int,
    )
}

/// The predecessor of `state` whose discarded bit is `low`.
pub open spec fn predecessor(state: int, low: int) -> int {
    (2 * state + low) % 64
}

/// Cost of reaching `state` after `i` steps through the predecessor with bit `low`.
pub open spec fn arrival_cost(soft: Seq<i16>, i: int, state: int, low: int) -> int
    decreases i, 0int,
{
    if i <= 0 {
        0
    } else {
        path_metric(soft, i - 1, predecessor(state, low)) + branch_cost(
            soft,
            i - 1,
            predecessor(state, low),
            state / 32,
        )
    }
}

/// Least cost of a path that reaches `state` after `i` steps, from any start state.
pub open spec fn path_metric(soft: Seq<i16>, i: int, state: int) -> int
    decreases i, 1int,
{
    if i <= 0 {
        0
    } else if arrival_cost(soft, i, state, 0) < arrival_cost(soft, i, state, 1) {
        arrival_cost(soft, i, state, 0)
    } else {
        arrival_cost(soft, i, state, 1)
    }
}

/// The state before `state` on the surviving path at step `i`; a tie goes to the
/// odd predecessor.
pub open spec fn survivor(soft: Seq<i16>, i: int, state: int) -> int {
    if arrival_cost(soft, i, state, 0) < arrival_cost(soft, i, state, 1) {
        predecessor(state, 0)
    } else {
        predecessor(state, 1)
    }
}

/// The state at step `j` of the surviving path that is in `state` at step `i`.
pub open spec fn traceback(soft: Seq<i16>, i: int, state: int, j: int) -> int
    decreases i,
{
    if i <= j || i <= 0 {
        state
    } else {
        traceback(soft, i - 1, survivor(soft, i, state), j)
    }
}

/// Among the first `count` states, the first with the least metric below the
/// ceiling; state 0 if none is below it.
pub open spec fn end_state(soft: Seq<i16>, i: int, count: int) -> int
    decreases count,
{
    if count <= 0 {
        0
    } else if path_metric(soft, i, count - 1) < end_metric(soft, i, count - 1) {
        count - 1
    } else {
        end_state(soft, i, count - 1)
    }
}

/// The least of the ceiling and the metrics of the first `count` states.
pub open spec fn end_metric(soft: Seq<i16>, i: int, count: int) -> int
    decreases count,
{
    if count <= 0 {
        METRIC_CEILING as int
    } else if path_metric(soft, i, count - 1) < end_metric(soft, i, count - 1) {
        path_metric(soft, i, count - 1)
    } else {
        end_metric(soft, i, count - 1)
    }
}

/// The `n` bits on the surviving path.  The last tail step carries no decision.
pub open spec fn decoded(soft: Seq<i16>, n: int) -> Seq<u8> {
    Seq::new(
        n as nat,
        |i: int|
            (traceback(soft, n + 5, end_state(soft, n + 5, 64), i + 1) / 32) as u8,
    )
}

pub open spec fn magnitude(x: i16) -> int {
    if x < 0 {
        -x
    } else {
        x as int
    }
}

/// Sum of the magnitudes of the first `count` soft bits.
pub open spec fn soft_weight(soft: Seq<i16>, count: int) -> int
    decreases count,
{
    if count <= 0 {
        0
    } else {
        soft_weight(soft, count - 1) + magnitude(soft[count - 1])
    }
}

pub proof fn lemma_weight_monotone(soft: Seq<i16>, a: int, b: int)
    requires
        a <= b,
    ensures
        soft_weight(soft, a) <= soft_weight(soft, b),
        0 <= soft_weight(soft, a),
    decreases b, a,
{
    if 0 < a {
        lemma_weight_monotone(soft, a - 1, a - 1);
    }
    if a < b && b > 0 {
        lemma_weight_monotone(soft, a, b - 1);
    }
}

pub proof fn lemma_weight_bound(soft: Seq<i16>, n: int)
    ensures
        soft_weight(soft, n) <= if n < 0 { 0 } else { 32768 * n },
    decreases n,
{
    if n > 0 {
        lemma_weight_bound(soft, n - 1);
    }
}

pub proof fn lemma_branch_bound(soft: Seq<i16>, i: int, state: int, bit: int)
    requires
        0 <= i,
    ensures
        -(soft_weight(soft, 4 * i + 4) - soft_weight(soft, 4 * i)) <= branch_cost(
            soft,
            i,
            state,
            bit,
        ) <= soft_weight(soft, 4 * i + 4) - soft_weight(soft, 4 * i),
{
    reveal_with_fuel(soft_weight, 5);
}

pub proof fn lemma_metric_bound(soft: Seq<i16>, i: int, state: int)
    requires
        0 <= i,
    ensures
        -soft_weight(soft, 4 * i) <= path_metric(soft, i, state) <= soft_weight(soft, 4 * i),
    decreases i,
{
    if i > 0 {
        lemma_metric_bound(soft, i - 1, predecessor(state, 0));
        lemma_metric_bound(soft, i - 1, predecessor(state, 1));
        lemma_branch_bound(soft, i - 1, predecessor(state, 0), state / 32);
        lemma_branch_bound(soft, i - 1, predecessor(state, 1), state / 32);
        assert(4 * (i - 1) + 4 == 4 * i);
    }
}

/// The four outputs of a branch as one number, first output most significant.
pub open spec fn branch_pattern(state: int, bit: int) -> int {
    8 * coded_bit(state, bit, 0) + 4 * coded_bit(state, bit, 1) + 2 * coded_bit(state, bit, 2)
        + coded_bit(state, bit, 3)
}

/// `value` or its negation, by bit `weight` of `pattern`.
pub open spec fn pattern_term(pattern: int, weight: int, value: int) -> int {
    if (pattern / weight) % 2 == 1 {
        value
    } else {
        -value
    }
}

/// Cost of the branch with outputs `pattern` for four (negated) soft symbols.
#[verifier::opaque]
pub open spec fn pattern_cost(pattern: int, s0: int, s1: int, s2: int, s3: int) -> int {
    pattern_term(pattern, 8, s0) + pattern_term(pattern, 4, s1) + pattern_term(pattern, 2, s2)
        + pattern_term(pattern, 1, s3)
}

/// Maximum-likelihood decoder for blocks of `block_length` message bits.
pub struct Viterbi {
    block_length: usize,
    branch_patterns: Vec<u8>,
}

impl Viterbi {
    /// Number of message bits per block.
    pub closed spec fn block_length(&self) -> nat {
        self.block_length as nat
    }

    /// The branch table is the code's.
    pub closed spec fn wf(&self) -> bool {
        &&& self.branch_patterns@.len() == 128
        &&& forall|j: int|
            0 <= j < 128 ==> #[trigger] self.branch_patterns@[j] == branch_pattern(j % 64, j / 64)
    }

    /// Builds a decoder for `block_length` message bits.
    pub fn new(block_length: usize) -> (v: Self)
        requires
            block_length + 7 <= usize::MAX,
        ensures
            v.wf(),
            v.block_length() == block_length,
    {
        let mut branch_patterns: Vec<u8> = Vec::new();
        let mut j: u32 = 0;
        while j < 128
            invariant
                j <= 128,
                branch_patterns@.len() == j,
                forall|q: int|
                    0 <= q < j ==> #[trigger] branch_patterns@[q] == branch_pattern(
                        q % 64,
                        q / 64,
                    ),
            decreases 128 - j,
        {
            let state: u32 = j % 64;
            let bit: u32 = j / 64;
            let b0: u8 = bit_for(state, POLYS[0], bit);
            let b1: u8 = bit_for(state, POLYS[1], bit);
            let b2: u8 = bit_for(state, POLYS[2], bit);
            let b3: u8 = bit_for(state, POLYS[3], bit);
            branch_patterns.push(8 * b0 + 4 * b1 + 2 * b2 + b3);
            j += 1;
        }
        Viterbi { block_length, branch_patterns }
    }

    /// The sixteen branch costs for one group of four (negated) soft symbols.
    fn compute_cost_table(sym_0: i32, sym_1: i32, sym_2: i32, sym_3: i32) -> (t: Vec<i32>)
        requires
            -32767 <= sym_0 <= 32768,
            -32767 <= sym_1 <= 32768,
            -32767 <= sym_2 <= 32768,
            -32767 <= sym_3 <= 32768,
        ensures
            t@.len() == 16,
            forall|p: int|
                0 <= p < 16 ==> #[trigger] t@[p] == pattern_cost(
                    p,
                    sym_0 as int,
                    sym_1 as int,
                    sym_2 as int,
                    sym_3 as int,
                ),
    {
        let mut t: Vec<i32> = Vec::new();
        let mut p: u32 = 0;
        while p < 16
            invariant
                p <= 16,
                -32767 <= sym_0 <= 32768,
                -32767 <= sym_1 <= 32768,
                -32767 <= sym_2 <= 32768,
                -32767 <= sym_3 <= 32768,
                t@.len() == p,
                forall|q: int|
                    0 <= q < p ==> #[trigger] t@[q] == pattern_cost(
                        q,
                        sym_0 as int,
                        sym_1 as int,
                        sym_2 as int,
                        sym_3 as int,
                    ),
            decreases 16 - p,
        {
            reveal(pattern_cost);
            let c0: i32 = if (p / 8) % 2 == 1 { sym_0 } else { -sym_0 };
            let c1: i32 = if (p / 4) % 2 == 1 { sym_1 } else { -sym_1 };
            let c2: i32 = if (p / 2) % 2 == 1 { sym_2 } else { -sym_2 };
            let c3: i32 = if p % 2 == 1 { sym_3 } else { -sym_3 };
            t.push(c0 + c1 + c2 + c3);
            p += 1;
        }
        t
    }

    /// One add-compare-select step: the metrics and surviving predecessors after
    /// step `i`, from the metrics `previous` after step `i - 1`.
    fn advance(&self, soft: &[i16], i: usize, previous: &Vec<i32>) -> (r: (Vec<i32>, Vec<u8>))
        requires
            self.wf(),
            1 <= i,
            4 * i <= soft.len(),
            soft_weight(soft@, 4 * i) <= i32::MAX,
            previous@.len() == 64,
            forall|c: int|
                0 <= c < 64 ==> #[trigger] previous@[c] == path_metric(soft@, i - 1, c),
        ensures
            r.0@.len() == 64,
            r.1@.len() == 64,
            forall|c: int| 0 <= c < 64 ==> #[trigger] r.0@[c] == path_metric(soft@, i as int, c),
            forall|c: int| 0 <= c < 64 ==> #[trigger] r.1@[c] == survivor(soft@, i as int, c),
    {
        let at: usize = 4 * (i - 1);
        let costs: Vec<i32> = Self::compute_cost_table(
            -(soft[at] as i32),
            -(soft[at + 1] as i32),
            -(soft[at + 2] as i32),
            -(soft[at + 3] as i32),
        );
        let mut metrics: Vec<i32> = Vec::new();
        let mut survivors: Vec<u8> = Vec::new();
        let mut c: usize = 0;
        while c < 64
            invariant
                self.wf(),
                1 <= i,
                4 * i <= soft.len(),
                at == 4 * (i - 1),
                soft_weight(soft@, 4 * i) <= i32::MAX,
                previous@.len() == 64,
                forall|q: int|
                    0 <= q < 64 ==> #[trigger] previous@[q] == path_metric(soft@, i - 1, q),
                costs@.len() == 16,
                forall|p: int|
                    0 <= p < 16 ==> #[trigger] costs@[p] == pattern_cost(
                        p,
                        -soft@[at as int],
                        -soft@[at + 1],
                        -soft@[at + 2],
                        -soft@[at + 3],
                    ),
                c <= 64,
                metrics@.len() == c,
                survivors@.len() == c,
                forall|q: int|
                    0 <= q < c ==> #[trigger] metrics@[q] == path_metric(soft@, i as int, q),
                forall|q: int|
                    0 <= q < c ==> #[trigger] survivors@[q] == survivor(soft@, i as int, q),
            decreases 64 - c,
        {
            let bit: usize = c / 32;
            let prev_0: usize = (2 * c) % 64;
            let prev_1: usize = (2 * c + 1) % 64;
            let pattern_0: usize = self.branch_patterns[prev_0 + 64 * bit] as usize;
            let pattern_1: usize = self.branch_patterns[prev_1 + 64 * bit] as usize;
            proof {
                lemma_pattern_cost(soft@, i - 1, prev_0 as int, bit as int);
                lemma_pattern_cost(soft@, i - 1, prev_1 as int, bit as int);
                lemma_metric_bound(soft@, i - 1, prev_0 as int);
                lemma_metric_bound(soft@, i - 1, prev_1 as int);
                lemma_branch_bound(soft@, i - 1, prev_0 as int, bit as int);
                lemma_branch_bound(soft@, i - 1, prev_1 as int, bit as int);
                assert(4 * (i - 1) + 4 == 4 * i);
            }
            let costs_0: i32 = previous[prev_0] + costs[pattern_0];
            let costs_1: i32 = previous[prev_1] + costs[pattern_1];
            assert(costs_0 == arrival_cost(soft@, i as int, c as int, 0));
            assert(costs_1 == arrival_cost(soft@, i as int, c as int, 1));
            if costs_0 < costs_1 {
                metrics.push(costs_0);
                survivors.push(prev_0 as u8);
            } else {
                metrics.push(costs_1);
                survivors.push(prev_1 as u8);
            }
            c += 1;
        }
        (metrics, survivors)
    }

    /// Decodes one block of soft bits into `block_length` bits.
    pub fn deconvolve(&mut self, soft: &[i16]) -> (bits: Vec<u8>)
        requires
            old(self).wf(),
            soft.len() == 4 * old(self).block_length() + 24,
            soft_weight(soft@, soft@.len() as int) <= i32::MAX,
        ensures
            *final(self) == *old(self),
            bits@ == decoded(soft@, old(self).block_length() as int),
            all_bits(bits@),
    {
        let n: usize = self.block_length;
        let last: usize = n + 5;
        let mut metrics: Vec<i32> = Vec::new();
        let mut c: usize = 0;
        while c < 64
            invariant
                c <= 64,
                metrics@.len() == c,
                forall|q: int| 0 <= q < c ==> #[trigger] metrics@[q] == 0,
            decreases 64 - c,
        {
            metrics.push(0);
            c += 1;
        }
        let mut history: Vec<Vec<u8>> = Vec::new();
        let mut i: usize = 1;
        while i <= last
            invariant
                self.wf(),
                *self == *old(self),
                n == self.block_length,
                last == n + 5,
                soft.len() == 4 * n + 24,
                soft_weight(soft@, soft@.len() as int) <= i32::MAX,
                1 <= i <= last + 1,
                metrics@.len() == 64,
                forall|q: int|
                    0 <= q < 64 ==> #[trigger] metrics@[q] == path_metric(soft@, i - 1, q),
                history@.len() == i - 1,
                forall|j: int| 0 <= j < i - 1 ==> #[trigger] history@[j]@.len() == 64,
                forall|j: int, q: int|
                    0 <= j < i - 1 && 0 <= q < 64 ==> #[trigger] history@[j]@[q] == survivor(
                        soft@,
                        j + 1,
                        q,
                    ),
            decreases last + 1 - i,
        {
            proof {
                lemma_weight_monotone(soft@, 4 * i, soft@.len() as int);
            }
            let (m, h) = self.advance(soft, i, &metrics);
            metrics = m;
            history.push(h);
            i += 1;
        }
        let mut least: i32 = METRIC_CEILING;
        let mut state: usize = 0;
        let mut s: usize = 0;
        while s < 64
            invariant
                s <= 64,
                metrics@.len() == 64,
                forall|q: int|
                    0 <= q < 64 ==> #[trigger] metrics@[q] == path_metric(soft@, last as int, q),
                least == end_metric(soft@, last as int, s as int),
                state == end_state(soft@, last as int, s as int),
                state < 64,
            decreases 64 - s,
        {
            if metrics[s] < least {
                least = metrics[s];
                state = s;
            }
            s += 1;
        }
        let ghost end = state as int;
        let mut bits: Vec<u8> = vec![0u8; n];
        let mut j: usize = last;
        while j > 0
            invariant
                n + 5 == last,
                j <= last,
                state < 64,
                end == end_state(soft@, last as int, 64),
                history@.len() == last,
                forall|k: int| 0 <= k < last ==> #[trigger] history@[k]@.len() == 64,
                forall|k: int, q: int|
                    0 <= k < last && 0 <= q < 64 ==> #[trigger] history@[k]@[q] == survivor(
                        soft@,
                        k + 1,
                        q,
                    ),
                bits@.len() == n,
                forall|k: int|
                    k <= j ==> #[trigger] traceback(soft@, last as int, end, k) == traceback(
                        soft@,
                        j as int,
                        state as int,
                        k,
                    ),
                forall|k: int|
                    j <= k < n ==> #[trigger] bits@[k] == decoded(soft@, n as int)[k],
                all_bits(bits@),
            decreases j,
        {
            assert(traceback(soft@, last as int, end, j as int) == state);
            if j <= n {
                bits[j - 1] = (state / 32) as u8;
            }
            let before: usize = history[j - 1][state] as usize;
            assert(before == survivor(soft@, j as int, state as int));
            assert forall|k: int| k <= j - 1 implies #[trigger] traceback(
                soft@,
                last as int,
                end,
                k,
            ) == traceback(soft@, j - 1, before as int, k) by {}
            state = before;
            j -= 1;
        }
        bits
    }
}

pub proof fn lemma_pattern_cost(soft: Seq<i16>, i: int, state: int, bit: int)
    ensures
        0 <= branch_pattern(state, bit) < 16,
        pattern_cost(
            branch_pattern(state, bit),
            -soft[4 * i],
            -soft[4 * i + 1],
            -soft[4 * i + 2],
            -soft[4 * i + 3],
        ) == branch_cost(soft, i, state, bit),
{
    reveal(pattern_cost);
    lemma_coded_bit_is_bit(state, bit, 0);
    lemma_coded_bit_is_bit(state, bit, 1);
    lemma_coded_bit_is_bit(state, bit, 2);
    lemma_coded_bit_is_bit(state, bit, 3);
}

} // verus!
