//! Null symbols in a smoothed envelope.
//!
//! The envelope itself is measured outside; here it is a mask that tells where it
//! lies below the threshold.

use vstd::prelude::*;

verus! {

/// Null symbols found in a stream.
pub struct NullDetectResult {
    /// Where each starts.
    pub positions: Vec<usize>,
    /// Median distance of neighbouring ones, if at least three distances are
    /// plausible.
    pub frame_period: Option<usize>,
}

/// Detector for a stream at a given rate.
pub struct NullDetector {
    sample_rate: u32,
}

// ---------------------------------------------------------------------------
// Dips
// ---------------------------------------------------------------------------

/// `mask` is set on all of `a..b` and not at `b`.
pub open spec fn closed_run(mask: Seq<bool>, a: int, b: int) -> bool {
    &&& 0 <= a < b < mask.len()
    &&& forall|i: int| a <= i < b ==> #[trigger] mask[i]
    &&& !mask[b]
}

/// A dip of more than `min_run` samples starts at `a`; one that is still open at
/// the end of the mask does not count.
pub open spec fn dip_at(mask: Seq<bool>, min_run: int, a: int) -> bool {
    &&& a == 0 || !mask[a - 1]
    &&& exists|b: int| #[trigger] closed_run(mask, a, b) && b - a > min_run
}

/// `positions` lists the dips in order.
pub open spec fn lists_dips(positions: Seq<usize>, mask: Seq<bool>, min_run: int) -> bool {
    &&& forall|i: int, j: int|
        0 <= i < j < positions.len() ==> #[trigger] positions[i] < #[trigger] positions[j]
    &&& forall|i: int|
        0 <= i < positions.len() ==> dip_at(mask, min_run, #[trigger] positions[i] as int)
    &&& forall|a: int| 0 <= a < mask.len() && #[trigger] dip_at(mask, min_run, a) ==> exists|i: int|
        0 <= i < positions.len() && positions[i] == a
}

/// Lists the dips of a mask.
pub fn find_dips(mask: &[bool], min_run: usize) -> (positions: Vec<usize>)
    ensures
        lists_dips(positions@, mask@, min_run as int),
{
    let mut positions: Vec<usize> = Vec::new();
    let mut in_dip: bool = false;
    let mut start: usize = 0;
    let mut i: usize = 0;
    while i < mask.len()
        invariant
            i <= mask.len(),
            start <= i,
            in_dip ==> start < i,
            in_dip == (i > 0 && mask@[i - 1]),
            in_dip ==> (start == 0 || !mask@[start - 1]) && forall|q: int|
                start <= q < i ==> #[trigger] mask@[q],
            forall|p: int, q: int|
                0 <= p < q < positions@.len() ==> #[trigger] positions@[p]
                    < #[trigger] positions@[q],
            forall|p: int|
                0 <= p < positions@.len() ==> dip_at(
                    mask@,
                    min_run as int,
                    #[trigger] positions@[p] as int,
                ) && positions@[p] < i && (in_dip ==> positions@[p] < start),
            forall|a: int, b: int|
                b < i && #[trigger] closed_run(mask@, a, b) && (a == 0 || !mask@[a - 1]) && b - a
                    > min_run ==> exists|p: int| 0 <= p < positions@.len() && positions@[p] == a,
        decreases mask.len() - i,
    {
        let below: bool = mask[i];
        let ghost before = positions@;
        if below && !in_dip {
            start = i;
            in_dip = true;
        } else if !below && in_dip {
            assert(closed_run(mask@, start as int, i as int));
            if i - start > min_run {
                positions.push(start);
            }
            in_dip = false;
        }
        proof {
            assert forall|a: int, b: int|
                b < i + 1 && #[trigger] closed_run(mask@, a, b) && (a == 0 || !mask@[a - 1]) && b
                    - a > min_run implies exists|p: int|
                0 <= p < positions@.len() && positions@[p] == a by {
                if b < i {
                    let p = choose|p: int| 0 <= p < before.len() && before[p] == a;
                    assert(positions@[p] == a);
                } else {
                    assert(mask@[i - 1]);
                    if a < start {
                        assert(mask@[start - 1]);
                    } else if start < a {
                        assert(mask@[a - 1]);
                    }
                    assert(positions@[before.len() as int] == a);
                }
            }
        }
        i += 1;
    }
    proof {
        assert forall|a: int|
            0 <= a < mask@.len() && #[trigger] dip_at(mask@, min_run as int, a) implies exists|
            p: int,
        | 0 <= p < positions@.len() && positions@[p] == a by {
            let b = choose|b: int| #[trigger] closed_run(mask@, a, b) && b - a > min_run;
            assert(closed_run(mask@, a, b));
        }
    }
    positions
}

// ---------------------------------------------------------------------------
// The frame period
// ---------------------------------------------------------------------------

/// The distances between the first `n` positions that lie between `lo` and `hi`.
pub open spec fn near_gaps(positions: Seq<usize>, lo: int, hi: int, n: int) -> Seq<usize>
    decreases n,
{
    if n <= 1 {
        Seq::empty()
    } else {
        let gap = positions[n - 1] - positions[n - 2];
        if lo < gap < hi {
            near_gaps(positions, lo, hi, n - 1).push(gap as usize)
        } else {
            near_gaps(positions, lo, hi, n - 1)
        }
    }
}

/// `s` is in rising order.
pub open spec fn in_order(s: Seq<usize>) -> bool {
    forall|i: int, j: int| 0 <= i <= j < s.len() ==> #[trigger] s[i] <= #[trigger] s[j]
}

/// The middle element of a list in order, or the mean of the two middle ones,
/// rounded down.
pub open spec fn median_of(s: Seq<usize>) -> int {
    let n = s.len() as int;
    if n % 2 == 1 {
        s[n / 2] as int
    } else {
        (s[n / 2 - 1] + s[n / 2]) / 2
    }
}

/// `m` is the median of the values of `s`.
pub open spec fn is_median(s: Seq<usize>, m: int) -> bool {
    exists|t: Seq<usize>| #[trigger]
        in_order(t) && t.to_multiset() == s.to_multiset() && m == median_of(t)
}

/// The median of a list in order.
pub fn median_sorted(v: &[usize]) -> (m: usize)
    requires
        v@.len() > 0,
        v@.len() % 2 == 0 ==> v@[v@.len() / 2 - 1] + v@[v@.len() as int / 2] <= usize::MAX,
    ensures
        m == median_of(v@),
{
    let n: usize = v.len();
    if n % 2 == 1 {
        v[n / 2]
    } else {
        (v[n / 2 - 1] + v[n / 2]) / 2
    }
}

/// Brings the elements of a list in order.
fn sort(v: &mut Vec<usize>)
    ensures
        in_order(final(v)@),
        final(v)@.to_multiset() == old(v)@.to_multiset(),
        final(v)@.len() == old(v)@.len(),
{
    let mut done: usize = 0;
    while done < v.len()
        invariant
            done <= v@.len(),
            v@.len() == old(v)@.len(),
            v@.to_multiset() == old(v)@.to_multiset(),
            forall|i: int, j: int|
                0 <= i <= j < done ==> #[trigger] v@[i] <= #[trigger] v@[j],
        decreases v@.len() - done,
    {
        let mut k: usize = done;
        while k > 0 && v[k - 1] > v[k]
            invariant
                k <= done < v@.len(),
                v@.len() == old(v)@.len(),
                v@.to_multiset() == old(v)@.to_multiset(),
                forall|i: int, j: int|
                    0 <= i <= j <= done && i != k && j != k ==> #[trigger] v@[i]
                        <= #[trigger] v@[j],
                forall|j: int| k < j <= done ==> v@[k as int] < #[trigger] v@[j],
            decreases k,
        {
            let a: usize = v[k - 1];
            let b: usize = v[k];
            let ghost before = v@;
            v[k - 1] = b;
            v[k] = a;
            proof {
                lemma_swap(before, k - 1, k as int);
                assert(v@ =~= before.update(k - 1, b).update(k as int, a));
            }
            k -= 1;
        }
        done += 1;
    }
}

proof fn lemma_swap(s: Seq<usize>, i: int, j: int)
    requires
        0 <= i < s.len(),
        0 <= j < s.len(),
        i != j,
    ensures
        s.update(i, s[j]).update(j, s[i]).to_multiset() == s.to_multiset(),
{
    broadcast use vstd::seq_lib::group_to_multiset_ensures;

    let one = s.update(i, s[j]);
    assert(one.update(j, s[i]).to_multiset() =~= s.to_multiset());
}

impl NullDetector {
    /// The rate of the stream.
    pub closed spec fn rate(&self) -> u32 {
        self.sample_rate
    }

    pub fn new(sample_rate: u32) -> (d: Self)
        ensures
            d.rate() == sample_rate,
    {
        NullDetector { sample_rate }
    }

    /// The rate of the stream.
    pub fn sample_rate(&self) -> (r: u32)
        ensures
            r == self.rate(),
    {
        self.sample_rate
    }

    /// Finds the dips of more than `min_run` samples in a mask, and the median of
    /// their distances between `lo` and `hi`.
    pub fn detect(&self, mask: &[bool], min_run: usize, lo: usize, hi: usize) -> (r:
        NullDetectResult)
        requires
            hi <= usize::MAX / 2,
        ensures
            lists_dips(r.positions@, mask@, min_run as int),
            ({
                let gaps = near_gaps(
                    r.positions@,
                    lo as int,
                    hi as int,
                    r.positions@.len() as int,
                );
                match r.frame_period {
                    Some(m) => gaps.len() >= 3 && is_median(gaps, m as int),
                    None => gaps.len() < 3,
                }
            }),
    {
        let positions: Vec<usize> = find_dips(mask, min_run);
        let mut gaps: Vec<usize> = Vec::new();
        let mut n: usize = 1;
        while n < positions.len()
            invariant
                1 <= n,
                n <= positions@.len() || n == 1,
                forall|p: int, q: int|
                    0 <= p < q < positions@.len() ==> #[trigger] positions@[p]
                        < #[trigger] positions@[q],
                gaps@ == near_gaps(positions@, lo as int, hi as int, n as int),
                forall|i: int| 0 <= i < gaps@.len() ==> #[trigger] gaps@[i] < hi,
            decreases positions@.len() - n,
        {
            assert(positions@[n - 1] < positions@[n as int]);
            let gap: usize = positions[n] - positions[n - 1];
            if gap > lo && gap < hi {
                gaps.push(gap);
            }
            n += 1;
        }
        let ghost all = gaps@;
        if gaps.len() < 3 {
            return NullDetectResult { positions, frame_period: None };
        }
        sort(&mut gaps);
        proof {
            lemma_bound_survives(all, gaps@, hi as int);
        }
        let m: usize = median_sorted(gaps.as_slice());
        assert(in_order(gaps@) && m == median_of(gaps@));
        assert(is_median(all, m as int));
        assert(all == near_gaps(positions@, lo as int, hi as int, positions@.len() as int));
        NullDetectResult { positions, frame_period: Some(m) }
    }
}

proof fn lemma_bound_survives(s: Seq<usize>, t: Seq<usize>, hi: int)
    requires
        s.to_multiset() == t.to_multiset(),
        forall|i: int| 0 <= i < s.len() ==> #[trigger] s[i] < hi,
    ensures
        forall|i: int| 0 <= i < t.len() ==> #[trigger] t[i] < hi,
{
    broadcast use vstd::seq_lib::group_to_multiset_ensures;

    assert forall|i: int| 0 <= i < t.len() implies #[trigger] t[i] < hi by {
        assert(t.contains(t[i]));
        assert(t.to_multiset().count(t[i]) > 0);
        assert(s.contains(t[i]));
    }
}

/// The part of a list of `n` elements that a moving average of `w` elements,
/// centred on `i`, takes in.
pub fn window_bounds(i: usize, w: usize, n: usize) -> (r: (usize, usize))
    requires
        1 <= w,
        i < n,
        n + w <= usize::MAX,
    ensures
        ({
            let last = i + (w - 1) / 2;
            &&& r.0 == if last - (w - 1) < 0 {
                0
            } else {
                last - (w - 1)
            }
            &&& r.1 == if last + 1 < n {
                last + 1
            } else {
                n as int
            }
            &&& r.0 <= i < r.1 <= n
        }),
{
    let last: usize = i + (w - 1) / 2;
    let lo: usize = if last < w - 1 {
        0
    } else {
        last - (w - 1)
    };
    let hi: usize = if last + 1 < n {
        last + 1
    } else {
        n
    };
    (lo, hi)
}

proof fn lemma_even_gaps(positions: Seq<usize>, first: int, d: int, lo: int, hi: int, n: int)
    requires
        1 <= n <= positions.len(),
        lo < d < hi,
        0 <= d <= usize::MAX,
        forall|i: int| 0 <= i < positions.len() ==> #[trigger] positions[i] == first + i * d,
    ensures
        near_gaps(positions, lo, hi, n) == Seq::new((n - 1) as nat, |i: int| d as usize),
    decreases n,
{
    if n == 1 {
        assert(near_gaps(positions, lo, hi, n) =~= Seq::new((n - 1) as nat, |i: int| d as usize));
    } else {
        lemma_even_gaps(positions, first, d, lo, hi, n - 1);
        assert(positions[n - 1] == first + (n - 1) * d);
        assert(positions[n - 2] == first + (n - 2) * d);
        assert((n - 1) * d - (n - 2) * d == d) by (nonlinear_arith);
        assert(near_gaps(positions, lo, hi, n) =~= Seq::new((n - 1) as nat, |i: int| d as usize));
    }
}

/// Null symbols at even distances within the limits give their distance as the period.
pub proof fn law_even_distances_give_the_period(
    positions: Seq<usize>,
    first: int,
    d: int,
    lo: int,
    hi: int,
    m: int,
)
    requires
        positions.len() >= 2,
        lo < d < hi,
        0 <= d <= usize::MAX,
        forall|i: int| 0 <= i < positions.len() ==> #[trigger] positions[i] == first + i * d,
        is_median(near_gaps(positions, lo, hi, positions.len() as int), m),
    ensures
        m == d,
        near_gaps(positions, lo, hi, positions.len() as int).len() == positions.len() - 1,
{
    broadcast use vstd::seq_lib::group_to_multiset_ensures;

    let n = positions.len() as int;
    lemma_even_gaps(positions, first, d, lo, hi, n);
    let gaps = near_gaps(positions, lo, hi, n);
    let t = choose|t: Seq<usize>| #[trigger]
        in_order(t) && t.to_multiset() == gaps.to_multiset() && m == median_of(t);
    assert(t.len() == t.to_multiset().len());
    assert(gaps.len() == gaps.to_multiset().len());
    assert forall|i: int| 0 <= i < t.len() implies t[i] == d by {
        assert(t.contains(t[i]));
        assert(t.to_multiset().count(t[i]) > 0);
        assert(gaps.contains(t[i]));
    }
}

/// A distance counts if it lies between the limits, and not otherwise.
pub proof fn law_distances_outside_the_limits_do_not_count(
    positions: Seq<usize>,
    next: usize,
    lo: int,
    hi: int,
)
    requires
        positions.len() >= 1,
        positions.last() <= next,
    ensures
        ({
            let all = positions.push(next);
            let before = near_gaps(positions, lo, hi, positions.len() as int);
            let after = near_gaps(all, lo, hi, all.len() as int);
            &&& lo < next - positions.last() < hi ==> after == before.push(
                (next - positions.last()) as usize,
            )
            &&& !(lo < next - positions.last() < hi) ==> after == before
        }),
{
    lemma_gaps_of_prefix(positions, next, lo, hi, positions.len() as int);
}

proof fn lemma_gaps_of_prefix(positions: Seq<usize>, next: usize, lo: int, hi: int, n: int)
    requires
        n <= positions.len(),
    ensures
        near_gaps(positions.push(next), lo, hi, n) == near_gaps(positions, lo, hi, n),
    decreases n,
{
    if n > 1 {
        lemma_gaps_of_prefix(positions, next, lo, hi, n - 1);
    }
}

} // verus!
