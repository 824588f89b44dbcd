//! Carriers and the bins of the transform.
//!
//! The transform has 2048 bins in natural order, bin 0 at the centre frequency.
//! Carrier `k` above the centre is bin `k`, carrier `-k` below it bin `2048 - k`.

use vstd::prelude::*;
use vstd::slice::{slice_subrange, slice_to_vec};
use crate::freq_interleaver::is_carrier;

verus! {

/// The bin of carrier `k`.
pub open spec fn bin_of(k: int) -> int {
    if k > 0 {
        k
    } else {
        2048 + k
    }
}

/// The carrier at place `i` of the list of active carriers: those below the centre
/// come first.
pub open spec fn listed_carrier(i: int) -> int {
    if i < 768 {
        i - 768
    } else {
        i - 767
    }
}

/// Different carriers have different bins, none of them bin 0.
pub proof fn law_bins_are_distinct(a: int, b: int)
    requires
        is_carrier(a),
        is_carrier(b),
    ensures
        0 < bin_of(a) < 2048,
        bin_of(a) == bin_of(b) ==> a == b,
{
}

/// The bin of carrier `k`.
pub fn carrier_bin(k: i32) -> (bin: usize)
    requires
        is_carrier(k as int),
    ensures
        bin == bin_of(k as int),
        bin < 2048,
{
    if k > 0 {
        k as usize
    } else {
        (2048 + k) as usize
    }
}

/// The useful part of a symbol: the samples behind the guard interval.
pub fn useful_part<T: Copy>(symbol: &[T]) -> (useful: Vec<T>)
    requires
        symbol@.len() >= 2552,
    ensures
        useful@ == symbol@.subrange(504, 2552),
{
    slice_to_vec(slice_subrange(symbol, 504, 2552))
}

/// The active carriers of a spectrum, lowest frequency first.
pub fn active_carriers<T: Copy>(spectrum: &[T]) -> (out: Vec<T>)
    requires
        spectrum@.len() == 2048,
    ensures
        out@ == Seq::new(1536, |i: int| spectrum@[bin_of(listed_carrier(i))]),
{
    let mut out: Vec<T> = Vec::new();
    let mut i: usize = 0;
    while i < 1536
        invariant
            spectrum@.len() == 2048,
            i <= 1536,
            out@.len() == i,
            forall|j: int|
                0 <= j < i ==> #[trigger] out@[j] == spectrum@[bin_of(listed_carrier(j))],
        decreases 1536 - i,
    {
        let k: i32 = if i < 768 {
            i as i32 - 768
        } else {
            i as i32 - 767
        };
        out.push(spectrum[carrier_bin(k)]);
        i += 1;
    }
    assert(out@ =~= Seq::new(1536, |i: int| spectrum@[bin_of(listed_carrier(i))]));
    out
}

/// `s` turned by `delta` places: element `i` comes from place `i + delta`.
pub open spec fn rotated<T>(s: Seq<T>, delta: int) -> Seq<T> {
    Seq::new(s.len(), |i: int| s[(i + delta) % s.len() as int])
}

/// Turns a spectrum to undo an offset of `delta` carriers.
pub fn rotate_spectrum<T: Copy>(spec: &[T], delta: i32) -> (out: Vec<T>)
    requires
        delta != 0 ==> 0 < spec@.len() <= i32::MAX,
    ensures
        out@ == rotated(spec@, delta as int),
{
    let n: usize = spec.len();
    if delta == 0 {
        let out: Vec<T> = slice_to_vec(spec);
        proof {
            assert forall|i: int| 0 <= i < n implies #[trigger] out@[i] == rotated(
                spec@,
                0,
            )[i] by {
                vstd::arithmetic::div_mod::lemma_small_mod(i as nat, n as nat);
            }
            assert(out@ =~= rotated(spec@, 0));
        }
        return out;
    }
    let size: usize = if delta < 0 {
        (-(delta as i64)) as usize
    } else {
        delta as usize
    };
    let rest: usize = size % n;
    let shift: usize = if delta >= 0 || rest == 0 {
        rest
    } else {
        n - rest
    };
    proof {
        lemma_shift(delta as int, n as int, shift as int);
    }
    let mut out: Vec<T> = slice_to_vec(slice_subrange(spec, shift, n));
    let mut i: usize = 0;
    while i < shift
        invariant
            i <= shift < n,
            n == spec@.len(),
            out@ == spec@.subrange(shift as int, n as int) + spec@.subrange(0, i as int),
        decreases shift - i,
    {
        out.push(spec[i]);
        i += 1;
        assert(out@ =~= spec@.subrange(shift as int, n as int) + spec@.subrange(0, i as int));
    }
    proof {
        assert forall|q: int| 0 <= q < n implies #[trigger] out@[q] == rotated(
            spec@,
            delta as int,
        )[q] by {
            lemma_turn(q, delta as int, n as int, shift as int);
        }
        assert(out@ =~= rotated(spec@, delta as int));
    }
    out
}

proof fn lemma_shift(delta: int, n: int, shift: int)
    requires
        n > 0,
        delta >= 0 ==> shift == delta % n,
        delta < 0 ==> shift == if (-delta) % n == 0 {
            0
        } else {
            n - (-delta) % n
        },
    ensures
        shift == delta % n,
        0 <= shift < n,
{
    if delta < 0 {
        let m = (-delta) % n;
        let w = (-delta) / n;
        vstd::arithmetic::div_mod::lemma_fundamental_div_mod(-delta, n);
        vstd::arithmetic::div_mod::lemma_mod_bound(-delta, n);
        let q = if m == 0 {
            -w
        } else {
            -w - 1
        };
        assert(delta == q * n + shift) by (nonlinear_arith)
            requires
                -delta == n * w + m,
                (m == 0 && q == -w && shift == 0) || (q == -w - 1 && shift == n - m),
        ;
        vstd::arithmetic::div_mod::lemma_fundamental_div_mod_converse(delta, n, q, shift);
    } else {
        vstd::arithmetic::div_mod::lemma_mod_bound(delta, n);
    }
}

proof fn lemma_turn(i: int, delta: int, n: int, shift: int)
    requires
        0 <= i < n,
        shift == delta % n,
    ensures
        (i + delta) % n == if i + shift < n {
            i + shift
        } else {
            i + shift - n
        },
{
    let w = delta / n;
    vstd::arithmetic::div_mod::lemma_fundamental_div_mod(delta, n);
    let (q, r) = if i + shift < n {
        (w, i + shift)
    } else {
        (w + 1, i + shift - n)
    };
    assert(i + delta == q * n + r) by (nonlinear_arith)
        requires
            delta == n * w + shift,
            (q == w && r == i + shift) || (q == w + 1 && r == i + shift - n),
    ;
    vstd::arithmetic::div_mod::lemma_fundamental_div_mod_converse(i + delta, n, q, r);
}

/// Turning back undoes a turn.
pub proof fn law_rotation_is_undone<T>(s: Seq<T>, delta: int)
    ensures
        rotated(rotated(s, delta), -delta) == s,
        rotated(s, 0) == s,
{
    let n = s.len() as int;
    assert forall|i: int| 0 <= i < n implies rotated(rotated(s, delta), -delta)[i] == s[i]
        && rotated(s, 0)[i] == s[i] by {
        let j = (i - delta) % n;
        vstd::arithmetic::div_mod::lemma_mod_bound(i - delta, n);
        vstd::arithmetic::div_mod::lemma_add_mod_noop(i - delta, delta, n);
        vstd::arithmetic::div_mod::lemma_add_mod_noop(j, delta, n);
        vstd::arithmetic::div_mod::lemma_mod_twice(i - delta, n);
        vstd::arithmetic::div_mod::lemma_small_mod(i as nat, n as nat);
        assert((j + delta) % n == i);
    }
    assert(rotated(rotated(s, delta), -delta) =~= s);
    assert(rotated(s, 0) =~= s);
}

/// The bins that are correlated for an offset of `delta` carriers: a received bin
/// and the reference bin that it would come from.
pub open spec fn correlated(delta: int, k: int) -> bool {
    is_carrier(k) && is_carrier(k - delta)
}

/// The pairs for the carriers from -768 up to `k`.
pub open spec fn correlation_pairs(delta: int, k: int) -> Seq<(usize, usize)>
    decreases k + 769,
{
    if k < -768 {
        Seq::empty()
    } else if correlated(delta, k) {
        correlation_pairs(delta, k - 1).push((bin_of(k) as usize, bin_of(k - delta) as usize))
    } else {
        correlation_pairs(delta, k - 1)
    }
}

/// Lists the bins that are correlated for an offset of `delta` carriers.
pub fn list_correlation_pairs(delta: i32) -> (pairs: Vec<(usize, usize)>)
    requires
        i32::MIN <= -768 - delta,
        768 - delta <= i32::MAX,
    ensures
        pairs@ == correlation_pairs(delta as int, 768),
        forall|i: int|
            0 <= i < pairs@.len() ==> (#[trigger] pairs@[i]).0 < 2048 && pairs@[i].1 < 2048,
{
    let mut pairs: Vec<(usize, usize)> = Vec::new();
    let mut k: i32 = -768;
    while k <= 768
        invariant
            -768 <= k <= 769,
            i32::MIN <= -768 - delta,
            768 - delta <= i32::MAX,
            pairs@ == correlation_pairs(delta as int, k - 1),
            forall|i: int|
                0 <= i < pairs@.len() ==> (#[trigger] pairs@[i]).0 < 2048 && pairs@[i].1 < 2048,
        decreases 769 - k,
    {
        let source: i32 = k - delta;
        if k != 0 && source != 0 && source >= -768 && source <= 768 {
            pairs.push((carrier_bin(k), carrier_bin(source)));
        }
        k += 1;
    }
    pairs
}

/// Turning by `delta` brings element `i + delta` to place `i`, and wraps round at both
/// ends.
pub proof fn law_rotation_moves_elements<T>(s: Seq<T>, delta: int, i: int)
    requires
        0 <= i < s.len(),
        -(s.len() as int) <= delta <= s.len(),
    ensures
        rotated(s, delta).len() == s.len(),
        0 <= i + delta < s.len() ==> rotated(s, delta)[i] == s[i + delta],
        i + delta >= s.len() ==> rotated(s, delta)[i] == s[i + delta - s.len()],
        i + delta < 0 ==> rotated(s, delta)[i] == s[i + delta + s.len()],
{
    let n = s.len() as int;
    if 0 <= i + delta < n {
        vstd::arithmetic::div_mod::lemma_fundamental_div_mod_converse(i + delta, n, 0, i + delta);
    } else if i + delta >= n {
        vstd::arithmetic::div_mod::lemma_fundamental_div_mod_converse(
            i + delta,
            n,
            1,
            i + delta - n,
        );
    } else {
        vstd::arithmetic::div_mod::lemma_fundamental_div_mod_converse(
            i + delta,
            n,
            -1,
            i + delta + n,
        );
    }
}

/// Carrier `k` above the centre is bin `k` and stands at place `767 + k` of the list of
/// active carriers; carrier `-k` is bin `2048 - k` and stands at place `768 - k`.
pub proof fn law_active_carriers_are_listed_upwards<T>(spectrum: Seq<T>, k: int)
    requires
        spectrum.len() == 2048,
        1 <= k <= 768,
    ensures
        bin_of(k) == k,
        bin_of(-k) == 2048 - k,
        spectrum[bin_of(listed_carrier(767 + k))] == spectrum[k],
        spectrum[bin_of(listed_carrier(768 - k))] == spectrum[2048 - k],
{
}

/// The bin of carrier `k` and the reference bin of carrier `k - delta`.
pub open spec fn pairs_carrier(pair: (usize, usize), delta: int, k: int) -> bool {
    &&& is_carrier(k)
    &&& is_carrier(k - delta)
    &&& pair.0 == bin_of(k)
    &&& pair.1 == bin_of(k - delta)
}

/// Some carrier is paired.
pub open spec fn pairs_some_carrier(pair: (usize, usize), delta: int) -> bool {
    exists|k: int| pairs_carrier(pair, delta, k)
}

/// Some pair of the list is that of carrier `k`.
pub open spec fn lists_carrier(pairs: Seq<(usize, usize)>, delta: int, k: int) -> bool {
    exists|j: int| 0 <= j < pairs.len() && pairs_carrier(#[trigger] pairs[j], delta, k)
}

proof fn lemma_pairs(delta: int, top: int)
    requires
        top <= 768,
    ensures
        forall|k: int|
            is_carrier(k) && is_carrier(k - delta) && k <= top ==> #[trigger] lists_carrier(
                correlation_pairs(delta, top),
                delta,
                k,
            ),
        forall|j: int|
            0 <= j < correlation_pairs(delta, top).len() ==> pairs_some_carrier(
                #[trigger] correlation_pairs(delta, top)[j],
                delta,
            ),
    decreases top + 769,
{
    if top >= -768 {
        lemma_pairs(delta, top - 1);
        let before = correlation_pairs(delta, top - 1);
        let now = correlation_pairs(delta, top);
        if correlated(delta, top) {
            assert(pairs_carrier(now[before.len() as int], delta, top));
        }
        assert forall|k: int|
            is_carrier(k) && is_carrier(k - delta) && k <= top implies #[trigger] lists_carrier(
            now,
            delta,
            k,
        ) by {
            if k < top {
                assert(lists_carrier(before, delta, k));
                let j = choose|j: int|
                    0 <= j < before.len() && pairs_carrier(#[trigger] before[j], delta, k);
                assert(pairs_carrier(now[j], delta, k));
            }
        }
        assert forall|j: int| 0 <= j < now.len() implies pairs_some_carrier(
            #[trigger] now[j],
            delta,
        ) by {
            if j < before.len() {
                assert(now[j] == before[j]);
            } else {
                assert(pairs_carrier(now[j], delta, top));
            }
        }
    }
}

/// For an offset of `delta` carriers, the bin of every carrier `k` is correlated with the
/// reference bin of carrier `k - delta`, where both are active, and no others are.
pub proof fn law_offset_carriers_are_paired(delta: int)
    ensures
        forall|k: int|
            is_carrier(k) && is_carrier(k - delta) ==> #[trigger] lists_carrier(
                correlation_pairs(delta, 768),
                delta,
                k,
            ),
        forall|j: int|
            0 <= j < correlation_pairs(delta, 768).len() ==> pairs_some_carrier(
                #[trigger] correlation_pairs(delta, 768)[j],
                delta,
            ),
{
    lemma_pairs(delta, 768);
}

} // verus!
