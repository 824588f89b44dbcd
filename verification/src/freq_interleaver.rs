//! Frequency interleaving in mode I.
//!
//! A linear congruential sequence modulo 2048 runs through all bins.  Those that
//! fall on active carriers, in the order of the sequence, are the permutation.

use vstd::prelude::*;

verus! {

/// Active carriers.
pub const CARRIERS: usize = 1536;

/// Bins of the transform.
pub const BINS: usize = 2048;

/// Element `i` of the sequence.
pub open spec fn sequence(i: int) -> int
    decreases i,
{
    if i <= 0 {
        0
    } else {
        (13 * sequence(i - 1) + 511) % 2048
    }
}

/// Bin `v` of the sequence is an active carrier.
pub open spec fn active(v: int) -> bool {
    256 <= v <= 1792 && v != 1024
}

/// The carriers among the first `n` elements of the sequence, counted from the
/// centre.
pub open spec fn permutation(n: int) -> Seq<i16>
    decreases n,
{
    if n <= 0 {
        Seq::empty()
    } else if active(sequence(n - 1)) {
        permutation(n - 1).push((sequence(n - 1) - 1024) as i16)
    } else {
        permutation(n - 1)
    }
}

/// `c` is the number of an active carrier.
pub open spec fn is_carrier(c: int) -> bool {
    -768 <= c <= 768 && c != 0
}

// ---------------------------------------------------------------------------
// The sequence runs through all bins
// ---------------------------------------------------------------------------

/// The sequence before reduction.
spec fn unreduced(n: int) -> int
    decreases n,
{
    if n <= 0 {
        0
    } else {
        13 * unreduced(n - 1) + 511
    }
}

/// 13 to the power of `n`.
spec fn thirteen(n: int) -> int
    decreases n,
{
    if n <= 0 {
        1
    } else {
        13 * thirteen(n - 1)
    }
}

/// 2 to the power of `k`.
spec fn two(k: int) -> int
    decreases k,
{
    if k <= 0 {
        1
    } else {
        2 * two(k - 1)
    }
}

proof fn lemma_reduce_step(u: int)
    ensures
        (13 * (u % 2048) + 511) % 2048 == (13 * u + 511) % 2048,
{
    let w = u / 2048;
    let r = u % 2048;
    vstd::arithmetic::div_mod::lemma_fundamental_div_mod(u, 2048);
    vstd::arithmetic::div_mod::lemma_mod_multiples_vanish(13 * w, 13 * r + 511, 2048);
    assert(13 * u + 511 == 2048 * (13 * w) + (13 * r + 511)) by (nonlinear_arith)
        requires
            u == 2048 * w + r,
    ;
}

proof fn lemma_parity_step(u: int)
    ensures
        (13 * u + 511) % 2 == (u + 1) % 2,
{
}

proof fn lemma_reduced(n: int)
    ensures
        sequence(n) == unreduced(n) % 2048,
        0 <= sequence(n) < 2048,
    decreases n,
{
    if n > 0 {
        lemma_reduced(n - 1);
        let u = unreduced(n - 1);
        lemma_reduce_step(u);
        assert(sequence(n) == (13 * (u % 2048) + 511) % 2048);
        assert(unreduced(n) == 13 * u + 511);
    }
}

proof fn lemma_parity(n: int)
    requires
        0 <= n,
    ensures
        unreduced(n) % 2 == n % 2,
    decreases n,
{
    if n > 0 {
        lemma_parity(n - 1);
        lemma_parity_step(unreduced(n - 1));
    }
}

proof fn lemma_thirteen_mod_4(n: int)
    ensures
        thirteen(n) % 4 == 1,
    decreases n,
{
    if n > 0 {
        lemma_thirteen_mod_4(n - 1);
    }
}

proof fn lemma_split(i: int, m: int)
    requires
        0 <= i,
        0 <= m,
    ensures
        unreduced(i + m) == unreduced(i) + thirteen(i) * unreduced(m),
    decreases i,
{
    if i == 0 {
        assert(thirteen(0) * unreduced(m) == unreduced(m)) by (nonlinear_arith)
            requires
                thirteen(0) == 1,
        ;
    } else {
        lemma_split(i - 1, m);
        let (t, u) = (thirteen(i - 1), unreduced(m));
        assert(13 * (t * u) == (13 * t) * u) by (nonlinear_arith);
    }
}

proof fn lemma_odd_factor(x: int, q: int, k: int)
    requires
        0 <= k,
        q % 2 == 1,
        (x * q) % two(k) == 0,
    ensures
        x % two(k) == 0,
    decreases k,
{
    lemma_two_positive(k);
    if k == 0 {
    } else {
        lemma_two_positive(k - 1);
        let m = two(k - 1);
        assert(two(k) == 2 * m);
        let w = (x * q) / (2 * m);
        assert(x * q == 2 * (m * w)) by (nonlinear_arith)
            requires
                (x * q) % (2 * m) == 0,
                w == (x * q) / (2 * m),
                m > 0,
        ;
        assert(x % 2 == 0) by (nonlinear_arith)
            requires
                x * q == 2 * (m * w),
                q % 2 == 1,
        {
            let h = q / 2;
            assert(q == 2 * h + 1);
            assert(x * q == 2 * (x * h) + x);
        }
        let y = x / 2;
        assert(x == 2 * y);
        assert(y * q == m * w) by (nonlinear_arith)
            requires
                x == 2 * y,
                x * q == 2 * (m * w),
        ;
        assert((y * q) % m == 0) by (nonlinear_arith)
            requires
                y * q == m * w,
                m > 0,
        ;
        lemma_odd_factor(y, q, k - 1);
        assert(x % (2 * m) == 0) by (nonlinear_arith)
            requires
                x == 2 * y,
                y % m == 0,
                m > 0,
        {
            let z = y / m;
            assert(y == m * z);
            assert(x == (2 * m) * z);
        }
    }
}

proof fn lemma_two_positive(k: int)
    ensures
        two(k) > 0,
    decreases k,
{
    if k > 0 {
        lemma_two_positive(k - 1);
    }
}

proof fn lemma_no_early_return(m: int, k: int)
    requires
        1 <= m < two(k),
        0 <= k,
    ensures
        unreduced(m) % two(k) != 0,
    decreases k,
{
    lemma_two_positive(k);
    lemma_parity(m);
    if k > 0 {
        lemma_two_positive(k - 1);
        let h = two(k - 1);
        if m % 2 == 1 {
            if unreduced(m) % (2 * h) == 0 {
                let z = unreduced(m) / (2 * h);
                assert(unreduced(m) == 2 * (h * z)) by (nonlinear_arith)
                    requires
                        unreduced(m) % (2 * h) == 0,
                        z == unreduced(m) / (2 * h),
                        h > 0,
                ;
            }
        } else {
            let half = m / 2;
            lemma_no_early_return(half, k - 1);
            lemma_split(half, half);
            lemma_thirteen_mod_4(half);
            let (u, t) = (unreduced(half), thirteen(half));
            let q = (1 + t) / 2;
            assert(1 + t == 2 * q && q % 2 == 1);
            assert(unreduced(m) == 2 * (u * q)) by (nonlinear_arith)
                requires
                    unreduced(m) == u + t * u,
                    1 + t == 2 * q,
            ;
            if unreduced(m) % (2 * h) == 0 {
                let z = unreduced(m) / (2 * h);
                assert(u * q == h * z) by (nonlinear_arith)
                    requires
                        unreduced(m) % (2 * h) == 0,
                        z == unreduced(m) / (2 * h),
                        unreduced(m) == 2 * (u * q),
                        h > 0,
                ;
                assert((u * q) % h == 0) by (nonlinear_arith)
                    requires
                        u * q == h * z,
                        h > 0,
                ;
                lemma_odd_factor(u, q, k - 1);
            }
        }
    }
}

/// The first 2048 elements of the sequence are all different.
pub proof fn law_sequence_does_not_repeat(i: int, j: int)
    requires
        0 <= i < j < 2048,
    ensures
        sequence(i) != sequence(j),
{
    reveal_with_fuel(two, 12);
    assert(two(11) == 2048);
    lemma_reduced(i);
    lemma_reduced(j);
    lemma_split(i, j - i);
    lemma_no_early_return(j - i, 11);
    lemma_thirteen_mod_4(i);
    let (t, u) = (thirteen(i), unreduced(j - i));
    if sequence(i) == sequence(j) {
        assert((t * u) % 2048 == 0);
        assert(u * t == t * u) by (nonlinear_arith);
        lemma_odd_factor(u, t, 11);
    }
}

/// Every bin occurs among the first 2048 elements.
pub proof fn law_sequence_reaches_every_bin(v: int)
    requires
        0 <= v < 2048,
    ensures
        exists|t: int| 0 <= t < 2048 && #[trigger] sequence(t) == v,
{
    let s = Seq::new(2048, |i: int| sequence(i));
    assert forall|i: int, j: int| 0 <= i < s.len() && 0 <= j < s.len() && i != j implies s[i]
        != s[j] by {
        if i < j {
            law_sequence_does_not_repeat(i, j);
        } else {
            law_sequence_does_not_repeat(j, i);
        }
    }
    s.unique_seq_to_set();
    vstd::set_lib::lemma_int_range(0, 2048);
    let all = vstd::set_lib::set_int_range(0, 2048);
    assert forall|x: int| s.to_set().contains(x) implies all.contains(x) by {
        let i = choose|i: int| 0 <= i < s.len() && s[i] == x;
        lemma_reduced(i);
    }
    vstd::seq_lib::seq_to_set_is_finite(s);
    vstd::set_lib::lemma_subset_equality(s.to_set(), all);
    assert(all.contains(v));
    assert(s.to_set().contains(v));
    let t = choose|t: int| 0 <= t < s.len() && s[t] == v;
    assert(sequence(t) == v);
}

proof fn lemma_permutation(n: int)
    requires
        0 <= n <= 2048,
    ensures
        permutation(n).len() <= n,
        forall|q: int|
            0 <= q < permutation(n).len() ==> is_carrier(#[trigger] permutation(n)[q] as int)
                && exists|t: int| 0 <= t < n && #[trigger] sequence(t) == permutation(n)[q] + 1024,
        forall|q: int, r: int|
            0 <= q < r < permutation(n).len() ==> #[trigger] permutation(n)[q]
                != #[trigger] permutation(n)[r],
        forall|t: int|
            0 <= t < n && active(#[trigger] sequence(t)) ==> permutation(n).contains(
                (sequence(t) - 1024) as i16,
            ),
    decreases n,
{
    if n > 0 {
        lemma_permutation(n - 1);
        let before = permutation(n - 1);
        let now = permutation(n);
        let v = sequence(n - 1);
        if active(v) {
            let c = (v - 1024) as i16;
            assert(now == before.push(c));
            assert forall|q: int| 0 <= q < now.len() implies is_carrier(#[trigger] now[q] as int)
                && exists|t: int| 0 <= t < n && #[trigger] sequence(t) == now[q] + 1024 by {
                if q < before.len() {
                    assert(now[q] == before[q]);
                    let t = choose|t: int|
                        0 <= t < n - 1 && #[trigger] sequence(t) == before[q] + 1024;
                    assert(sequence(t) == now[q] + 1024);
                } else {
                    assert(sequence(n - 1) == now[q] + 1024);
                }
            }
            assert forall|q: int, r: int| 0 <= q < r < now.len() implies #[trigger] now[q]
                != #[trigger] now[r] by {
                if r == before.len() {
                    assert(now[q] == before[q]);
                    let t = choose|t: int|
                        0 <= t < n - 1 && #[trigger] sequence(t) == before[q] + 1024;
                    law_sequence_does_not_repeat(t, n - 1);
                } else {
                    assert(now[q] == before[q] && now[r] == before[r]);
                }
            }
            assert forall|t: int| 0 <= t < n && active(#[trigger] sequence(t)) implies now.contains(
                (sequence(t) - 1024) as i16,
            ) by {
                if t < n - 1 {
                    let x = (sequence(t) - 1024) as i16;
                    let q = choose|q: int| 0 <= q < before.len() && before[q] == x;
                    assert(now[q] == x);
                } else {
                    assert(now[before.len() as int] == c);
                }
            }
        }
    }
}

/// The permutation takes every active carrier exactly once.
pub proof fn law_permutation_is_a_bijection()
    ensures
        permutation(2048).len() == 1536,
        forall|q: int|
            0 <= q < 1536 ==> is_carrier(#[trigger] permutation(2048)[q] as int),
        forall|q: int, r: int|
            0 <= q < r < 1536 ==> #[trigger] permutation(2048)[q] != #[trigger] permutation(
                2048,
            )[r],
        forall|c: i16| is_carrier(c as int) ==> #[trigger] permutation(2048).contains(c),
{
    lemma_permutation(2048);
    let p = permutation(2048);
    assert forall|c: i16| is_carrier(c as int) implies #[trigger] p.contains(c) by {
        law_sequence_reaches_every_bin(c + 1024);
        let t = choose|t: int| 0 <= t < 2048 && #[trigger] sequence(t) == c + 1024;
        assert(active(sequence(t)));
        assert((sequence(t) - 1024) as i16 == c);
    }
    let wide = Seq::new(p.len(), |i: int| p[i] as int);
    assert forall|i: int, j: int| 0 <= i < wide.len() && 0 <= j < wide.len() && i
        != j implies wide[i] != wide[j] by {
        if i < j {
            assert(p[i] != p[j]);
        } else {
            assert(p[j] != p[i]);
        }
    }
    wide.unique_seq_to_set();
    let carriers = vstd::set_lib::set_int_range(-768, 769).remove(0);
    vstd::set_lib::lemma_int_range(-768, 769);
    assert forall|x: int| wide.to_set().contains(x) == carriers.contains(x) by {
        if wide.to_set().contains(x) {
            let i = choose|i: int| 0 <= i < wide.len() && wide[i] == x;
            assert(is_carrier(p[i] as int));
        }
        if carriers.contains(x) {
            let c = x as i16;
            assert(p.contains(c));
            let i = choose|i: int| 0 <= i < p.len() && p[i] == c;
            assert(wide[i] == x);
        }
    }
    assert(wide.to_set() =~= carriers);
}

/// The permutation of mode I.
pub struct FreqInterleaver {
    perm: Vec<i16>,
}

impl FreqInterleaver {
    /// The table is the permutation.
    pub closed spec fn wf(&self) -> bool {
        self.perm@ == permutation(2048)
    }

    /// Builds the table.
    pub fn mode_i() -> (f: Self)
        ensures
            f.wf(),
    {
        let mut perm: Vec<i16> = Vec::new();
        let mut v: i32 = 0;
        let mut i: usize = 0;
        while i < BINS
            invariant
                i <= 2048,
                v == sequence(i as int),
                0 <= v < 2048,
                perm@ == permutation(i as int),
            decreases 2048 - i,
        {
            if 256 <= v && v <= 1792 && v != 1024 {
                perm.push((v - 1024) as i16);
            }
            v = (13 * v + 511) % 2048;
            i += 1;
        }
        FreqInterleaver { perm }
    }

    /// The carrier of logical index `n`.
    pub fn map_in(&self, n: usize) -> (c: i16)
        requires
            self.wf(),
            n < 1536,
        ensures
            c == permutation(2048)[n as int],
            is_carrier(c as int),
    {
        proof {
            law_permutation_is_a_bijection();
        }
        self.perm[n]
    }

    /// The whole table.
    pub fn table(&self) -> (t: &[i16])
        requires
            self.wf(),
        ensures
            t@ == permutation(2048),
            t@.len() == 1536,
    {
        proof {
            law_permutation_is_a_bijection();
        }
        self.perm.as_slice()
    }
}

/// How many of the first `n` elements of the sequence are active carriers.
pub open spec fn active_before(n: int) -> int
    decreases n,
{
    if n <= 0 {
        0
    } else {
        active_before(n - 1) + if 256 <= sequence(n - 1) <= 1792 && sequence(n - 1) != 1024 {
            1int
        } else {
            0
        }
    }
}

proof fn lemma_active_before(n: int, t: int)
    requires
        0 <= t < n,
        256 <= sequence(t) <= 1792,
        sequence(t) != 1024,
    ensures
        permutation(n).len() == active_before(n),
        0 <= active_before(t) < permutation(n).len(),
        permutation(n)[active_before(t)] == sequence(t) - 1024,
    decreases n,
{
    lemma_permutation_length(t);
    lemma_permutation_length(n);
    if t < n - 1 {
        lemma_active_before(n - 1, t);
    }
}

proof fn lemma_permutation_length(n: int)
    ensures
        permutation(n).len() == active_before(n),
    decreases n,
{
    if n > 0 {
        lemma_permutation_length(n - 1);
    }
}

/// The sequence starts at 0, and each element is 13 times the one before it and 511 more,
/// modulo 2048; an active carrier stands in the permutation behind those that come before
/// it in the sequence.
pub proof fn law_permutation_follows_the_sequence(t: int)
    requires
        0 <= t < 2048,
    ensures
        sequence(0) == 0,
        sequence(t + 1) == (13 * sequence(t) + 511) % 2048,
        256 <= sequence(t) <= 1792 && sequence(t) != 1024 ==> 0 <= active_before(t)
            < permutation(2048).len() && permutation(2048)[active_before(t)] == sequence(t) - 1024,
{
    if 256 <= sequence(t) <= 1792 && sequence(t) != 1024 {
        lemma_active_before(2048, t);
    }
}

} // verus!
