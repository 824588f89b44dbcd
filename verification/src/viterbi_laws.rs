//! What the Viterbi decoder achieves: the surviving path is a cheapest path, and
//! soft bits that agree with a code word decode to the message behind it.

use vstd::prelude::*;
use crate::bits::all_bits;
use crate::viterbi::{arrival_cost, branch_cost, coded_bit, codeword, decoded, encoder_state};
use crate::viterbi::{end_metric, end_state, message_bit, next_state, parity8, path_metric};
use crate::viterbi::{predecessor, register, soft_weight, survivor, traceback, METRIC_CEILING};
use crate::viterbi::{lemma_branch_bound, lemma_coded_bit_is_bit, lemma_encoder_state_range};

verus! {

/// `st` is a walk of `steps` steps through the trellis.
pub open spec fn is_path(st: Seq<int>, steps: int) -> bool {
    &&& st.len() == steps + 1
    &&& forall|i: int| 0 <= i <= steps ==> 0 <= #[trigger] st[i] < 64
    &&& forall|i: int| 0 <= i < steps ==> st[i + 1] == #[trigger] next_state(st[i], st[i + 1] / 32)
}

/// Cost of the first `i` branches of `st`.
pub open spec fn path_cost(soft: Seq<i16>, st: Seq<int>, i: int) -> int
    decreases i,
{
    if i <= 0 {
        0
    } else {
        path_cost(soft, st, i - 1) + branch_cost(soft, i - 1, st[i - 1], st[i] / 32)
    }
}

/// The states on the surviving path for a block of `n` bits.
pub open spec fn surviving_path(soft: Seq<i16>, n: int) -> Seq<int> {
    Seq::new(
        (n + 6) as nat,
        |j: int| traceback(soft, n + 5, end_state(soft, n + 5, 64), j),
    )
}

proof fn lemma_predecessors(a: int, b: int)
    requires
        0 <= a < 64,
        0 <= b < 64,
        b == next_state(a, b / 32),
    ensures
        a == predecessor(b, a % 2),
{
}

proof fn lemma_metric_is_lower_bound(soft: Seq<i16>, st: Seq<int>, steps: int, i: int)
    requires
        is_path(st, steps),
        0 <= i <= steps,
    ensures
        path_metric(soft, i, st[i]) <= path_cost(soft, st, i),
    decreases i,
{
    if i > 0 {
        lemma_metric_is_lower_bound(soft, st, steps, i - 1);
        assert(st[i - 1 + 1] == next_state(st[i - 1], st[i - 1 + 1] / 32));
        lemma_predecessors(st[i - 1], st[i]);
        if st[i - 1] % 2 == 0 {
            assert(arrival_cost(soft, i, st[i], 0) <= path_cost(soft, st, i));
        } else {
            assert(arrival_cost(soft, i, st[i], 1) <= path_cost(soft, st, i));
        }
    }
}

proof fn lemma_traceback(soft: Seq<i16>, i: int, state: int, j: int)
    requires
        0 <= j <= i,
        0 <= state < 64,
    ensures
        0 <= traceback(soft, i, state, j) < 64,
        j < i ==> traceback(soft, i, state, j) == survivor(
            soft,
            j + 1,
            traceback(soft, i, state, j + 1),
        ),
        j < i ==> traceback(soft, i, state, j + 1) == next_state(
            traceback(soft, i, state, j),
            traceback(soft, i, state, j + 1) / 32,
        ),
    decreases i,
{
    if j < i {
        lemma_traceback(soft, i - 1, survivor(soft, i, state), j);
        if j + 1 < i {
        } else {
            assert(traceback(soft, i, state, j + 1) == state);
            assert(traceback(soft, i - 1, survivor(soft, i, state), j) == survivor(soft, i, state));
        }
    }
}

/// The surviving path into `state`, as a sequence.
spec fn survivor_into(soft: Seq<i16>, i: int, state: int) -> Seq<int> {
    Seq::new((i + 1) as nat, |j: int| traceback(soft, i, state, j))
}

proof fn lemma_path_cost_prefix(soft: Seq<i16>, a: Seq<int>, b: Seq<int>, i: int)
    requires
        0 <= i < a.len(),
        i < b.len(),
        forall|j: int| 0 <= j <= i ==> a[j] == b[j],
    ensures
        path_cost(soft, a, i) == path_cost(soft, b, i),
    decreases i,
{
    if i > 0 {
        lemma_path_cost_prefix(soft, a, b, i - 1);
    }
}

proof fn lemma_survivor_attains_metric(soft: Seq<i16>, i: int, state: int)
    requires
        0 <= i,
        0 <= state < 64,
    ensures
        is_path(survivor_into(soft, i, state), i),
        path_cost(soft, survivor_into(soft, i, state), i) == path_metric(soft, i, state),
    decreases i,
{
    let st = survivor_into(soft, i, state);
    assert forall|j: int| 0 <= j <= i implies 0 <= #[trigger] st[j] < 64 by {
        lemma_traceback(soft, i, state, j);
    }
    assert forall|j: int| 0 <= j < i implies st[j + 1] == #[trigger] next_state(
        st[j],
        st[j + 1] / 32,
    ) by {
        lemma_traceback(soft, i, state, j);
    }
    if i > 0 {
        let p = survivor(soft, i, state);
        lemma_survivor_attains_metric(soft, i - 1, p);
        lemma_path_cost_prefix(soft, st, survivor_into(soft, i - 1, p), i - 1);
        assert(st[i] == state);
        assert(st[i - 1] == p);
    }
}

proof fn lemma_end_state(soft: Seq<i16>, i: int, count: int)
    requires
        0 <= count <= 64,
    ensures
        0 <= end_state(soft, i, count) < 64,
        forall|s: int|
            0 <= s < count ==> end_metric(soft, i, count) <= #[trigger] path_metric(soft, i, s),
        end_metric(soft, i, count) <= METRIC_CEILING,
        end_metric(soft, i, count) < METRIC_CEILING ==> end_metric(soft, i, count) == path_metric(
            soft,
            i,
            end_state(soft, i, count),
        ),
    decreases count,
{
    if count > 0 {
        lemma_end_state(soft, i, count - 1);
    }
}

proof fn lemma_outputs_flip(s: u32)
    by (bit_vector)
    requires
        s < 64,
    ensures
        parity8(register(s, 0) & 0o133) != parity8(register(s, 1) & 0o133),
        parity8(register(s, 0) & 0o171) != parity8(register(s, 1) & 0o171),
        parity8(register(s, 0) & 0o145) != parity8(register(s, 1) & 0o145),
{
}

/// The two branches out of a state have opposite outputs, so opposite costs.
proof fn lemma_branches_are_opposite(soft: Seq<i16>, i: int, state: int)
    requires
        0 <= state < 64,
    ensures
        branch_cost(soft, i, state, 0) == -branch_cost(soft, i, state, 1),
{
    lemma_outputs_flip(state as u32);
    lemma_coded_bit_is_bit(state, 0, 0);
    lemma_coded_bit_is_bit(state, 0, 1);
    lemma_coded_bit_is_bit(state, 0, 2);
    lemma_coded_bit_is_bit(state, 0, 3);
    lemma_coded_bit_is_bit(state, 1, 0);
    lemma_coded_bit_is_bit(state, 1, 1);
    lemma_coded_bit_is_bit(state, 1, 2);
    lemma_coded_bit_is_bit(state, 1, 3);
}

/// Some state is reached at no cost, whatever was received.
proof fn lemma_free_path(soft: Seq<i16>, i: int)
    requires
        0 <= i,
    ensures
        exists|s: int| 0 <= s < 64 && #[trigger] path_metric(soft, i, s) <= 0,
    decreases i,
{
    if i == 0 {
        assert(path_metric(soft, 0, 0) <= 0);
    } else {
        lemma_free_path(soft, i - 1);
        let s = choose|s: int| 0 <= s < 64 && #[trigger] path_metric(soft, i - 1, s) <= 0;
        lemma_branches_are_opposite(soft, i - 1, s);
        let bit: int = if branch_cost(soft, i - 1, s, 0) <= 0 {
            0
        } else {
            1
        };
        let next = next_state(s, bit);
        assert(next / 32 == bit);
        lemma_predecessors(s, next);
        assert(arrival_cost(soft, i, next, s % 2) <= 0);
        assert(path_metric(soft, i, next) <= 0);
    }
}

/// The decoded bits are those of a trellis path that is no dearer than any other
/// path, whatever state that path starts in.
pub proof fn law_surviving_path_is_cheapest(soft: Seq<i16>, n: int, other: Seq<int>)
    requires
        0 <= n,
        is_path(other, n + 5),
    ensures
        is_path(surviving_path(soft, n), n + 5),
        path_cost(soft, surviving_path(soft, n), n + 5) <= path_cost(soft, other, n + 5),
        decoded(soft, n) == Seq::new(
            n as nat,
            |i: int| (surviving_path(soft, n)[i + 1] / 32) as u8,
        ),
{
    let steps = n + 5;
    let end = end_state(soft, steps, 64);
    lemma_end_state(soft, steps, 64);
    lemma_free_path(soft, steps);
    lemma_metric_is_lower_bound(soft, other, steps, steps);
    lemma_survivor_attains_metric(soft, steps, end);
    assert(survivor_into(soft, steps, end) =~= surviving_path(soft, n));
    assert(path_metric(soft, steps, other[steps]) <= path_cost(soft, other, steps));
    assert(end_metric(soft, steps, 64) <= path_metric(soft, steps, other[steps]));
}

// ---------------------------------------------------------------------------
// Soft bits that agree with a code word
// ---------------------------------------------------------------------------

/// Every soft bit that is not an erasure has the sign of the coded bit.
pub open spec fn agrees_with(soft: Seq<i16>, word: Seq<u8>) -> bool {
    &&& soft.len() == word.len()
    &&& forall|j: int| 0 <= j < soft.len() && #[trigger] soft[j] > 0 ==> word[j] == 1
    &&& forall|j: int| 0 <= j < soft.len() && #[trigger] soft[j] < 0 ==> word[j] == 0
}

/// Output `k` of step `i` is not an erasure.
pub open spec fn known(soft: Seq<i16>, i: int, k: int) -> bool {
    soft[4 * i + k] != 0
}

/// The first output of every decoded step is known.
pub open spec fn first_outputs_known(soft: Seq<i16>, n: int) -> bool {
    forall|i: int| 0 <= i < n + 5 ==> #[trigger] known(soft, i, 0)
}

/// The first three outputs of the first four steps are known.
pub open spec fn start_known_densely(soft: Seq<i16>, n: int) -> bool {
    &&& n + 5 >= 4
    &&& forall|i: int| 0 <= i < 4 ==> #[trigger] known(soft, i, 1)
    &&& forall|i: int| 0 <= i < 4 ==> #[trigger] known(soft, i, 2)
}

/// The second output of every eighth step is known, six times over.
pub open spec fn start_known_sparsely(soft: Seq<i16>, n: int) -> bool {
    &&& n + 5 >= 41
    &&& forall|i: int| 0 <= i < 41 && i % 8 == 0 ==> #[trigger] known(soft, i, 1)
}

/// The erasures leave enough of a code word to tell it from every other path.
pub open spec fn resolvable(soft: Seq<i16>, n: int) -> bool {
    &&& first_outputs_known(soft, n)
    &&& start_known_densely(soft, n) || start_known_sparsely(soft, n)
}

/// The branch from `a` into `b` at step `i` matches every known soft bit.
spec fn branch_agrees(soft: Seq<i16>, i: int, a: int, b: int) -> bool {
    forall|k: int|
        0 <= k < 4 ==> (soft[4 * i + k] > 0 ==> #[trigger] coded_bit(a, b / 32, k) == 1) && (soft[4
            * i + k] < 0 ==> coded_bit(a, b / 32, k) == 0)
}

proof fn lemma_branch_attains_bound(soft: Seq<i16>, i: int, a: int, b: int)
    requires
        0 <= i,
    ensures
        branch_agrees(soft, i, a, b) <==> branch_cost(soft, i, a, b / 32) == -(soft_weight(
            soft,
            4 * i + 4,
        ) - soft_weight(soft, 4 * i)),
{
    reveal_with_fuel(soft_weight, 5);
    lemma_coded_bit_is_bit(a, b / 32, 0);
    lemma_coded_bit_is_bit(a, b / 32, 1);
    lemma_coded_bit_is_bit(a, b / 32, 2);
    lemma_coded_bit_is_bit(a, b / 32, 3);
    if branch_cost(soft, i, a, b / 32) == -(soft_weight(soft, 4 * i + 4) - soft_weight(
        soft,
        4 * i,
    )) {
        assert forall|k: int| 0 <= k < 4 implies (soft[4 * i + k] > 0 ==> #[trigger] coded_bit(
            a,
            b / 32,
            k,
        ) == 1) && (soft[4 * i + k] < 0 ==> coded_bit(a, b / 32, k) == 0) by {
            if k == 0 {
            } else if k == 1 {
            } else if k == 2 {
            } else {
            }
        }
    }
}

proof fn lemma_path_cost_bound(soft: Seq<i16>, st: Seq<int>, i: int)
    requires
        0 <= i,
    ensures
        -soft_weight(soft, 4 * i) <= path_cost(soft, st, i),
        (forall|j: int| 0 <= j < i ==> #[trigger] branch_agrees(soft, j, st[j], st[j + 1])) <==>
            path_cost(soft, st, i) == -soft_weight(soft, 4 * i),
    decreases i,
{
    if i > 0 {
        lemma_path_cost_bound(soft, st, i - 1);
        lemma_branch_bound(soft, i - 1, st[i - 1], st[i] / 32);
        lemma_branch_attains_bound(soft, i - 1, st[i - 1], st[i]);
        assert(4 * (i - 1) + 4 == 4 * i);
        assert(i - 1 + 1 == i);
        if path_cost(soft, st, i) == -soft_weight(soft, 4 * i) {
            assert(branch_agrees(soft, i - 1, st[i - 1], st[i - 1 + 1]));
            assert forall|j: int| 0 <= j < i implies #[trigger] branch_agrees(
                soft,
                j,
                st[j],
                st[j + 1],
            ) by {
                if j == i - 1 {
                }
            }
        }
        if forall|j: int| 0 <= j < i ==> #[trigger] branch_agrees(soft, j, st[j], st[j + 1]) {
            assert(branch_agrees(soft, i - 1, st[i - 1], st[i - 1 + 1]));
        }
    }
}

/// The path that the encoder takes.
spec fn encoder_path(message: Seq<u8>) -> Seq<int> {
    Seq::new((message.len() + 6) as nat, |i: int| encoder_state(message, i))
}

proof fn lemma_encoder_path(soft: Seq<i16>, message: Seq<u8>, n: int)
    requires
        n == message.len(),
        agrees_with(soft, codeword(message)),
    ensures
        is_path(encoder_path(message), n + 5),
        path_cost(soft, encoder_path(message), n + 5) == -soft_weight(soft, 4 * (n + 5)),
        forall|i: int|
            0 <= i < n + 5 ==> #[trigger] encoder_path(message)[i + 1] / 32
                == message_bit(message, i),
{
    let st = encoder_path(message);
    let steps = n + 5;
    assert forall|i: int| 0 <= i <= steps implies 0 <= #[trigger] st[i] < 64 by {
        lemma_encoder_state_range(message, i);
    }
    assert forall|i: int| 0 <= i < steps implies #[trigger] st[i + 1] / 32 == message_bit(
        message,
        i,
    ) by {
        lemma_encoder_state_range(message, i);
    }
    assert forall|i: int| 0 <= i < steps implies st[i + 1] == #[trigger] next_state(
        st[i],
        st[i + 1] / 32,
    ) by {
        assert(st[i + 1] / 32 == message_bit(message, i));
    }
    assert forall|i: int| 0 <= i < steps implies #[trigger] branch_agrees(
        soft,
        i,
        st[i],
        st[i + 1],
    ) by {
        assert(st[i + 1] / 32 == message_bit(message, i));
        assert forall|k: int| 0 <= k < 4 implies (soft[4 * i + k] > 0 ==> #[trigger] coded_bit(
            st[i],
            st[i + 1] / 32,
            k,
        ) == 1) && (soft[4 * i + k] < 0 ==> coded_bit(st[i], st[i + 1] / 32, k) == 0) by {
            let j = 4 * i + k;
            assert(j / 4 == i && j % 4 == k);
            assert(codeword(message)[j] == coded_bit(st[i], st[i + 1] / 32, k));
            assert(soft[j] == soft[4 * i + k]);
        }
    }
    lemma_path_cost_bound(soft, st, steps);
}

// ---------------------------------------------------------------------------
// Two paths that give the same known outputs are the same path
// ---------------------------------------------------------------------------

/// How the difference of two states moves on while the first outputs are equal.
spec fn drift(d: u32) -> u32 {
    (d >> 1) | ((parity8(d & 0b011011) as u32) << 5)
}

/// Eight steps of `drift` at once.
spec fn drift_8(d: u32) -> u32 {
    (parity8(d & 0b110111) as u32) | ((parity8(d & 0b110101) as u32) << 1) | ((parity8(
        d & 0b110001,
    ) as u32) << 2) | ((parity8(d & 0b111001) as u32) << 3) | ((parity8(d & 0b101001) as u32) << 4)
        | ((parity8(d & 0b001001) as u32) << 5)
}

/// Parity of the difference that the second output shows beside the first.
spec fn second_output_shift(d: u32) -> u8 {
    parity8(d & 0b100010)
}

/// Parity of the difference that the third output shows beside the first.
spec fn third_output_shift(d: u32) -> u8 {
    parity8(d & 0b111110)
}

proof fn lemma_difference(s: u32, t: u32, b: u32, c: u32)
    by (bit_vector)
    requires
        s < 64,
        t < 64,
        b <= 1,
        c <= 1,
        parity8(register(s, b) & 0o133) == parity8(register(t, c) & 0o133),
    ensures
        ((s / 2 + 32 * b) as u32) ^ ((t / 2 + 32 * c) as u32) == drift(s ^ t),
        parity8(register(s, b) & 0o171) == parity8(register(t, c) & 0o171) ==> second_output_shift(
            s ^ t,
        ) == 0,
        parity8(register(s, b) & 0o145) == parity8(register(t, c) & 0o145) ==> third_output_shift(
            s ^ t,
        ) == 0,
        s ^ t < 64,
        s ^ t == 0 ==> s == t,
        s == t ==> s ^ t == 0,
{
}

proof fn lemma_drift_4(d0: u32, d1: u32, d2: u32, d3: u32)
    by (bit_vector)
    requires
        d0 < 64,
        d1 == drift(d0),
        d2 == drift(d1),
        d3 == drift(d2),
        second_output_shift(d0) == 0,
        second_output_shift(d1) == 0,
        second_output_shift(d2) == 0,
        second_output_shift(d3) == 0,
        third_output_shift(d0) == 0,
        third_output_shift(d1) == 0,
        third_output_shift(d2) == 0,
        third_output_shift(d3) == 0,
    ensures
        d0 == 0,
{
}

proof fn lemma_drift_8(
    d0: u32,
    d1: u32,
    d2: u32,
    d3: u32,
    d4: u32,
    d5: u32,
    d6: u32,
    d7: u32,
    d8: u32,
)
    by (bit_vector)
    requires
        d0 < 64,
        d1 == drift(d0),
        d2 == drift(d1),
        d3 == drift(d2),
        d4 == drift(d3),
        d5 == drift(d4),
        d6 == drift(d5),
        d7 == drift(d6),
        d8 == drift(d7),
    ensures
        d8 == drift_8(d0),
        d8 < 64,
{
}

proof fn lemma_drift_40(d0: u32, d8: u32, d16: u32, d24: u32, d32: u32, d40: u32)
    by (bit_vector)
    requires
        d0 < 64,
        d8 == drift_8(d0),
        d16 == drift_8(d8),
        d24 == drift_8(d16),
        d32 == drift_8(d24),
        d40 == drift_8(d32),
        second_output_shift(d0) == 0,
        second_output_shift(d8) == 0,
        second_output_shift(d16) == 0,
        second_output_shift(d24) == 0,
        second_output_shift(d32) == 0,
        second_output_shift(d40) == 0,
    ensures
        d0 == 0,
{
}

proof fn lemma_drift_zero()
    by (bit_vector)
    ensures
        drift(0) == 0,
{
}

/// Difference of two paths at step `i`.
spec fn difference(a: Seq<int>, b: Seq<int>, i: int) -> u32 {
    (a[i] as u32) ^ (b[i] as u32)
}

/// Both paths match the known soft bits, so their outputs agree there.
spec fn both_agree(soft: Seq<i16>, a: Seq<int>, b: Seq<int>, steps: int) -> bool {
    &&& is_path(a, steps)
    &&& is_path(b, steps)
    &&& forall|i: int| 0 <= i < steps ==> #[trigger] branch_agrees(soft, i, a[i], a[i + 1])
    &&& forall|i: int| 0 <= i < steps ==> #[trigger] branch_agrees(soft, i, b[i], b[i + 1])
}

proof fn lemma_difference_step(soft: Seq<i16>, a: Seq<int>, b: Seq<int>, n: int, i: int)
    requires
        both_agree(soft, a, b, n + 5),
        first_outputs_known(soft, n),
        0 <= i < n + 5,
    ensures
        difference(a, b, i) < 64,
        difference(a, b, i + 1) == drift(difference(a, b, i)),
        known(soft, i, 1) ==> second_output_shift(difference(a, b, i)) == 0,
        known(soft, i, 2) ==> third_output_shift(difference(a, b, i)) == 0,
        difference(a, b, i) == 0 <==> a[i] == b[i],
{
    assert(branch_agrees(soft, i, a[i], a[i + 1]));
    assert(branch_agrees(soft, i, b[i], b[i + 1]));
    assert(a[i + 1] == next_state(a[i], a[i + 1] / 32));
    assert(b[i + 1] == next_state(b[i], b[i + 1] / 32));
    assert(known(soft, i, 0));
    let (p, q) = (a[i + 1] / 32, b[i + 1] / 32);
    lemma_coded_bit_is_bit(a[i], p, 0);
    lemma_coded_bit_is_bit(a[i], p, 1);
    lemma_coded_bit_is_bit(a[i], p, 2);
    assert(coded_bit(a[i], p, 0) == coded_bit(b[i], q, 0));
    assert(soft[4 * i + 1] != 0 ==> coded_bit(a[i], p, 1) == coded_bit(b[i], q, 1));
    assert(soft[4 * i + 2] != 0 ==> coded_bit(a[i], p, 2) == coded_bit(b[i], q, 2));
    lemma_difference(a[i] as u32, b[i] as u32, p as u32, q as u32);
}

proof fn lemma_difference_8(soft: Seq<i16>, a: Seq<int>, b: Seq<int>, n: int, i: int)
    requires
        both_agree(soft, a, b, n + 5),
        first_outputs_known(soft, n),
        0 <= i,
        i + 8 < n + 5,
    ensures
        difference(a, b, i + 8) == drift_8(difference(a, b, i)),
{
    lemma_difference_step(soft, a, b, n, i);
    lemma_difference_step(soft, a, b, n, i + 1);
    lemma_difference_step(soft, a, b, n, i + 2);
    lemma_difference_step(soft, a, b, n, i + 3);
    lemma_difference_step(soft, a, b, n, i + 4);
    lemma_difference_step(soft, a, b, n, i + 5);
    lemma_difference_step(soft, a, b, n, i + 6);
    lemma_difference_step(soft, a, b, n, i + 7);
    lemma_drift_8(
        difference(a, b, i),
        difference(a, b, i + 1),
        difference(a, b, i + 2),
        difference(a, b, i + 3),
        difference(a, b, i + 4),
        difference(a, b, i + 5),
        difference(a, b, i + 6),
        difference(a, b, i + 7),
        difference(a, b, i + 8),
    );
}

proof fn lemma_same_start(soft: Seq<i16>, a: Seq<int>, b: Seq<int>, n: int)
    requires
        both_agree(soft, a, b, n + 5),
        resolvable(soft, n),
        0 <= n,
    ensures
        difference(a, b, 0) == 0,
{
    if start_known_densely(soft, n) {
        lemma_difference_step(soft, a, b, n, 0);
        lemma_difference_step(soft, a, b, n, 1);
        lemma_difference_step(soft, a, b, n, 2);
        lemma_difference_step(soft, a, b, n, 3);
        assert(known(soft, 0, 1) && known(soft, 0, 2));
        assert(known(soft, 1, 1) && known(soft, 1, 2));
        assert(known(soft, 2, 1) && known(soft, 2, 2));
        assert(known(soft, 3, 1) && known(soft, 3, 2));
        lemma_drift_4(
            difference(a, b, 0),
            difference(a, b, 1),
            difference(a, b, 2),
            difference(a, b, 3),
        );
    } else {
        assert(known(soft, 0, 1));
        assert(known(soft, 8, 1));
        assert(known(soft, 16, 1));
        assert(known(soft, 24, 1));
        assert(known(soft, 32, 1));
        assert(known(soft, 40, 1));
        lemma_difference_step(soft, a, b, n, 0);
        lemma_difference_step(soft, a, b, n, 8);
        lemma_difference_step(soft, a, b, n, 16);
        lemma_difference_step(soft, a, b, n, 24);
        lemma_difference_step(soft, a, b, n, 32);
        lemma_difference_step(soft, a, b, n, 40);
        lemma_difference_8(soft, a, b, n, 0);
        lemma_difference_8(soft, a, b, n, 8);
        lemma_difference_8(soft, a, b, n, 16);
        lemma_difference_8(soft, a, b, n, 24);
        lemma_difference_8(soft, a, b, n, 32);
        lemma_drift_40(
            difference(a, b, 0),
            difference(a, b, 8),
            difference(a, b, 16),
            difference(a, b, 24),
            difference(a, b, 32),
            difference(a, b, 40),
        );
    }
}

proof fn lemma_same_path(soft: Seq<i16>, a: Seq<int>, b: Seq<int>, n: int, i: int)
    requires
        both_agree(soft, a, b, n + 5),
        resolvable(soft, n),
        0 <= n,
        0 <= i <= n + 5,
    ensures
        difference(a, b, i) == 0,
        i < n + 5 ==> a[i] == b[i],
    decreases i,
{
    if i == 0 {
        lemma_same_start(soft, a, b, n);
    } else {
        lemma_same_path(soft, a, b, n, i - 1);
        lemma_difference_step(soft, a, b, n, i - 1);
        lemma_drift_zero();
    }
    if i < n + 5 {
        lemma_difference_step(soft, a, b, n, i);
    }
}

/// Decoding undoes encoding: soft bits that agree with the code word of
/// `message`, with erasures that leave it resolvable, decode to `message`.
pub proof fn law_decoding_recovers_message(soft: Seq<i16>, message: Seq<u8>, n: int)
    requires
        n == message.len(),
        all_bits(message),
        agrees_with(soft, codeword(message)),
        resolvable(soft, n),
    ensures
        decoded(soft, n) == message,
{
    let sent = encoder_path(message);
    let found = surviving_path(soft, n);
    lemma_encoder_path(soft, message, n);
    law_surviving_path_is_cheapest(soft, n, sent);
    lemma_path_cost_bound(soft, found, n + 5);
    lemma_path_cost_bound(soft, sent, n + 5);
    assert forall|i: int| 0 <= i < n implies decoded(soft, n)[i] == message[i] by {
        lemma_same_path(soft, found, sent, n, i + 1);
        assert(sent[i + 1] / 32 == message_bit(message, i));
        crate::bits::lemma_xor_undo(message[i], 0);
    }
    assert(decoded(soft, n) =~= message);
}

/// On a clean channel, where every soft bit has the sign of the coded bit, every
/// message comes back.
pub proof fn law_clean_channel_round_trip(soft: Seq<i16>, message: Seq<u8>, n: int)
    requires
        n == message.len(),
        all_bits(message),
        agrees_with(soft, codeword(message)),
        forall|j: int| 0 <= j < soft.len() ==> #[trigger] soft[j] != 0,
    ensures
        decoded(soft, n) == message,
{
    law_decoding_recovers_message(soft, message, n);
}

// ---------------------------------------------------------------------------
// The code is linear and does not depend on when a message starts
// ---------------------------------------------------------------------------

/// Two messages of one length, added bit by bit modulo two.
pub open spec fn xor_message(a: Seq<u8>, b: Seq<u8>) -> Seq<u8> {
    Seq::new(a.len(), |i: int| a[i] ^ b[i])
}

proof fn lemma_step_is_linear(s: u32, t: u32, p: u32, q: u32)
    by (bit_vector)
    requires
        s < 64,
        t < 64,
        p <= 1,
        q <= 1,
    ensures
        parity8(register(s ^ t, p ^ q) & 0o133) == parity8(register(s, p) & 0o133) ^ parity8(
            register(t, q) & 0o133,
        ),
        parity8(register(s ^ t, p ^ q) & 0o171) == parity8(register(s, p) & 0o171) ^ parity8(
            register(t, q) & 0o171,
        ),
        parity8(register(s ^ t, p ^ q) & 0o145) == parity8(register(s, p) & 0o145) ^ parity8(
            register(t, q) & 0o145,
        ),
        ((s ^ t) / 2 + 32 * (p ^ q)) as u32 == ((s / 2 + 32 * p) as u32) ^ ((t / 2 + 32
            * q) as u32),
        (s / 2 + 32 * p) < 64,
        (t / 2 + 32 * q) < 64,
        (s ^ t) < 64,
        (p ^ q) <= 1,
        0u32 ^ 0u32 == 0,
{
}

proof fn lemma_low_bit_of_xor(a: u8, b: u8)
    by (bit_vector)
    ensures
        (((a ^ b) & 1) as u32) == ((a & 1) as u32) ^ ((b & 1) as u32),
        (a & 1) <= 1,
        (b & 1) <= 1,
{
}

proof fn lemma_state_is_linear(a: Seq<u8>, b: Seq<u8>, i: int)
    requires
        a.len() == b.len(),
    ensures
        encoder_state(xor_message(a, b), i) == (encoder_state(a, i) as u32) ^ (encoder_state(
            b,
            i,
        ) as u32),
        message_bit(xor_message(a, b), i) == (message_bit(a, i) as u32) ^ (message_bit(
            b,
            i,
        ) as u32),
    decreases i,
{
    lemma_step_is_linear(0, 0, 0, 0);
    if 0 <= i < a.len() {
        lemma_low_bit_of_xor(a[i], b[i]);
    }
    if i > 0 {
        lemma_state_is_linear(a, b, i - 1);
        lemma_encoder_state_range(a, i - 1);
        lemma_encoder_state_range(b, i - 1);
        lemma_step_is_linear(
            encoder_state(a, i - 1) as u32,
            encoder_state(b, i - 1) as u32,
            message_bit(a, i - 1) as u32,
            message_bit(b, i - 1) as u32,
        );
    }
}

/// The code is linear: the code word of a sum is the sum of the code words.
pub proof fn law_encoding_is_linear(a: Seq<u8>, b: Seq<u8>)
    requires
        a.len() == b.len(),
    ensures
        codeword(xor_message(a, b)) == xor_message(codeword(a), codeword(b)),
{
    let x = xor_message(a, b);
    assert forall|j: int| 0 <= j < codeword(x).len() implies codeword(x)[j] == codeword(a)[j]
        ^ codeword(b)[j] by {
        let i = j / 4;
        lemma_state_is_linear(a, b, i);
        lemma_encoder_state_range(a, i);
        lemma_encoder_state_range(b, i);
        lemma_step_is_linear(
            encoder_state(a, i) as u32,
            encoder_state(b, i) as u32,
            message_bit(a, i) as u32,
            message_bit(b, i) as u32,
        );
    }
    assert(codeword(x) =~= xor_message(codeword(a), codeword(b)));
}

proof fn lemma_silent_step()
    by (bit_vector)
    ensures
        parity8(0u32 & 0o133) == 0,
        parity8(0u32 & 0o171) == 0,
        parity8(0u32 & 0o145) == 0,
{
}

proof fn lemma_delayed_state(zero: u8, message: Seq<u8>, i: int)
    requires
        zero & 1 == 0,
        0 <= i,
    ensures
        encoder_state(seq![zero] + message, i + 1) == encoder_state(message, i),
        message_bit(seq![zero] + message, i + 1) == message_bit(message, i),
    decreases i,
{
    reveal_with_fuel(encoder_state, 2);
    if i > 0 {
        lemma_delayed_state(zero, message, i - 1);
    }
}

/// A leading zero bit puts four zeros in front of the code word and changes nothing
/// else.
pub proof fn law_leading_zero_delays_the_code_word(zero: u8, message: Seq<u8>)
    requires
        zero & 1 == 0,
    ensures
        codeword(seq![zero] + message) == seq![0u8, 0u8, 0u8, 0u8] + codeword(message),
{
    let longer = seq![zero] + message;
    let expected = seq![0u8, 0u8, 0u8, 0u8] + codeword(message);
    assert forall|j: int| 0 <= j < codeword(longer).len() implies codeword(longer)[j]
        == expected[j] by {
        if j < 4 {
            lemma_silent_step();
        } else {
            lemma_delayed_state(zero, message, (j - 4) / 4);
            assert(j / 4 == (j - 4) / 4 + 1 && j % 4 == (j - 4) % 4);
        }
    }
    assert(codeword(longer) =~= expected);
}

/// A code word has four bits for every message bit and for each of six tail bits.
pub proof fn law_code_words_are_bits(message: Seq<u8>)
    ensures
        codeword(message).len() == 4 * (message.len() + 6),
        all_bits(codeword(message)),
{
    assert forall|j: int| 0 <= j < codeword(message).len() implies #[trigger] codeword(message)[j]
        <= 1 by {
        lemma_coded_bit_is_bit(
            encoder_state(message, j / 4),
            message_bit(message, j / 4),
            j % 4,
        );
    }
}

// ---------------------------------------------------------------------------
// What is decoded, and what the encoder sends, stated without costs and registers
// ---------------------------------------------------------------------------

/// The coded bits along a path.
pub open spec fn path_word(st: Seq<int>) -> Seq<u8> {
    Seq::new(
        (4 * (st.len() - 1)) as nat,
        |j: int| coded_bit(st[j / 4], st[j / 4 + 1] / 32, j % 4),
    )
}

/// How well the first `count` soft bits go with the bits `word`: a soft bit counts
/// for a coded 1 and against a coded 0.
pub open spec fn correlation(soft: Seq<i16>, word: Seq<u8>, count: int) -> int
    decreases count,
{
    if count <= 0 {
        0
    } else {
        correlation(soft, word, count - 1) + (2 * word[count - 1] - 1) * soft[count - 1]
    }
}

proof fn lemma_cost_is_correlation(soft: Seq<i16>, st: Seq<int>, i: int)
    requires
        0 <= i < st.len(),
    ensures
        path_cost(soft, st, i) == -correlation(soft, path_word(st), 4 * i),
    decreases i,
{
    if i > 0 {
        lemma_cost_is_correlation(soft, st, i - 1);
        let w = path_word(st);
        let at = 4 * (i - 1);
        reveal_with_fuel(correlation, 5);
        assert forall|k: int| 0 <= k < 4 implies #[trigger] w[at + k] == coded_bit(
            st[i - 1],
            st[i] / 32,
            k,
        ) by {
            assert((at + k) / 4 == i - 1 && (at + k) % 4 == k);
        }
        assert(w[at + 0] == coded_bit(st[i - 1], st[i] / 32, 0));
        lemma_signed_soft(w[at], soft[at] as int);
        lemma_signed_soft(w[at + 1], soft[at + 1] as int);
        lemma_signed_soft(w[at + 2], soft[at + 2] as int);
        lemma_signed_soft(w[at + 3], soft[at + 3] as int);
        lemma_coded_bit_is_bit(st[i - 1], st[i] / 32, 0);
        lemma_coded_bit_is_bit(st[i - 1], st[i] / 32, 1);
        lemma_coded_bit_is_bit(st[i - 1], st[i] / 32, 2);
        lemma_coded_bit_is_bit(st[i - 1], st[i] / 32, 3);
    }
}

proof fn lemma_signed_soft(bit: u8, soft: int)
    by (nonlinear_arith)
    ensures
        bit == 1 ==> (2 * bit - 1) * soft == soft,
        bit == 0 ==> (2 * bit - 1) * soft == -soft,
{
}

/// No path through the trellis goes better with the soft bits than the one whose bits
/// are decoded.
pub proof fn law_decoded_path_correlates_best(soft: Seq<i16>, n: int, other: Seq<int>)
    requires
        0 <= n,
        is_path(other, n + 5),
    ensures
        is_path(surviving_path(soft, n), n + 5),
        correlation(soft, path_word(other), 4 * (n + 5)) <= correlation(
            soft,
            path_word(surviving_path(soft, n)),
            4 * (n + 5),
        ),
        decoded(soft, n) == Seq::new(
            n as nat,
            |i: int| (surviving_path(soft, n)[i + 1] / 32) as u8,
        ),
{
    law_surviving_path_is_cheapest(soft, n, other);
    lemma_cost_is_correlation(soft, other, n + 5);
    lemma_cost_is_correlation(soft, surviving_path(soft, n), n + 5);
}

proof fn lemma_correlation_prefix(soft: Seq<i16>, a: Seq<u8>, b: Seq<u8>, count: int)
    requires
        forall|j: int| 0 <= j < count ==> a[j] == b[j],
    ensures
        correlation(soft, a, count) == correlation(soft, b, count),
    decreases count,
{
    if count > 0 {
        lemma_correlation_prefix(soft, a, b, count - 1);
    }
}

proof fn lemma_encoder_takes_a_path(message: Seq<u8>)
    ensures
        is_path(encoder_path(message), message.len() as int + 5),
        forall|i: int|
            0 <= i < message.len() + 5 ==> #[trigger] encoder_path(message)[i + 1] / 32
                == message_bit(message, i),
        forall|j: int|
            0 <= j < 4 * (message.len() + 5) ==> #[trigger] path_word(encoder_path(message))[j]
                == codeword(message)[j],
{
    let st = encoder_path(message);
    let steps = message.len() as int + 5;
    assert forall|i: int| 0 <= i <= steps implies 0 <= #[trigger] st[i] < 64 by {
        lemma_encoder_state_range(message, i);
    }
    assert forall|i: int| 0 <= i < steps implies #[trigger] st[i + 1] / 32 == message_bit(
        message,
        i,
    ) by {
        lemma_encoder_state_range(message, i);
    }
    assert forall|i: int| 0 <= i < steps implies st[i + 1] == #[trigger] next_state(
        st[i],
        st[i + 1] / 32,
    ) by {
        assert(st[i + 1] / 32 == message_bit(message, i));
    }
    assert forall|j: int| 0 <= j < 4 * steps implies #[trigger] path_word(st)[j] == codeword(
        message,
    )[j] by {
        assert(st[j / 4 + 1] / 32 == message_bit(message, j / 4));
    }
}

/// No message has a code word that goes better with the soft bits than the path whose
/// bits are decoded.
pub proof fn law_no_message_correlates_better(soft: Seq<i16>, n: int, message: Seq<u8>)
    requires
        n == message.len(),
    ensures
        correlation(soft, codeword(message), 4 * (n + 5)) <= correlation(
            soft,
            path_word(surviving_path(soft, n)),
            4 * (n + 5),
        ),
{
    lemma_encoder_takes_a_path(message);
    law_decoded_path_correlates_best(soft, n, encoder_path(message));
    lemma_correlation_prefix(
        soft,
        codeword(message),
        path_word(encoder_path(message)),
        4 * (n + 5),
    );
}

/// Noise is outweighed: a message is decoded whatever single soft bits say, as long as
/// its code word as a whole goes better with them than every path that carries other
/// bits.
pub proof fn law_strongest_message_is_decoded(soft: Seq<i16>, n: int, message: Seq<u8>)
    requires
        n == message.len(),
        all_bits(message),
        forall|other: Seq<int>|
            #[trigger] is_path(other, n + 5) && (exists|i: int|
                0 <= i < n && #[trigger] other[i + 1] / 32 != message[i]) ==> correlation(
                soft,
                path_word(other),
                4 * (n + 5),
            ) < correlation(soft, codeword(message), 4 * (n + 5)),
    ensures
        decoded(soft, n) == message,
{
    let found = surviving_path(soft, n);
    law_no_message_correlates_better(soft, n, message);
    lemma_encoder_takes_a_path(message);
    law_decoded_path_correlates_best(soft, n, encoder_path(message));
    assert(is_path(found, n + 5));
    assert forall|i: int| 0 <= i < n implies decoded(soft, n)[i] == message[i] by {
        assert(found[i + 1] / 32 == message[i]);
    }
    assert(decoded(soft, n) =~= message);
}

proof fn lemma_outputs_as_parities(s: u32, b: u32)
    by (bit_vector)
    requires
        s < 64,
        b <= 1,
    ensures
        (parity8(register(s, b) & 0o133) as u32) == ((b + (s / 16) % 2 + (s / 8) % 2 + (s / 2) % 2
            + s % 2) % 2) as u32,
        (parity8(register(s, b) & 0o171) as u32) == ((b + (s / 32) % 2 + (s / 16) % 2 + (s / 8) % 2
            + s % 2) % 2) as u32,
        (parity8(register(s, b) & 0o145) as u32) == ((b + (s / 32) % 2 + (s / 4) % 2 + s % 2)
            % 2) as u32,
{
}

/// The state holds the last six message bits, the latest in its highest place.
proof fn lemma_state_holds_bits(message: Seq<u8>, i: int)
    requires
        0 <= i,
    ensures
        ({
            let s = encoder_state(message, i);
            &&& (s / 32) % 2 == message_bit(message, i - 1)
            &&& (s / 16) % 2 == message_bit(message, i - 2)
            &&& (s / 8) % 2 == message_bit(message, i - 3)
            &&& (s / 4) % 2 == message_bit(message, i - 4)
            &&& (s / 2) % 2 == message_bit(message, i - 5)
            &&& s % 2 == message_bit(message, i - 6)
        }),
    decreases i,
{
    lemma_encoder_state_range(message, i);
    if i > 0 {
        lemma_state_holds_bits(message, i - 1);
        lemma_encoder_state_range(message, i - 1);
    }
}

/// What the encoder sends at step `i`: four sums modulo two of the message bit and
/// some of the six bits before it.
pub proof fn law_code_word_is_a_convolution(message: Seq<u8>, i: int)
    requires
        0 <= i < message.len() + 6,
    ensures
        ({
            let m = |back: int| message_bit(message, i - back);
            let w = codeword(message);
            &&& w[4 * i] == (m(0) + m(2) + m(3) + m(5) + m(6)) % 2
            &&& w[4 * i + 1] == (m(0) + m(1) + m(2) + m(3) + m(6)) % 2
            &&& w[4 * i + 2] == (m(0) + m(1) + m(4) + m(6)) % 2
            &&& w[4 * i + 3] == (m(0) + m(2) + m(3) + m(5) + m(6)) % 2
        }),
{
    let s = encoder_state(message, i);
    let b = message_bit(message, i);
    lemma_encoder_state_range(message, i);
    lemma_state_holds_bits(message, i);
    lemma_outputs_as_parities(s as u32, b as u32);
    assert forall|k: int| 0 <= k < 4 implies #[trigger] codeword(message)[4 * i + k] == coded_bit(
        s,
        b,
        k,
    ) by {
        assert((4 * i + k) / 4 == i && (4 * i + k) % 4 == k);
    }
    assert(codeword(message)[4 * i + 0] == coded_bit(s, b, 0));
}

} // verus!
