//! The commutator of a rational resampler: which branch of the filter bank gives
//! each output sample.

use vstd::prelude::*;

verus! {

/// Output samples of a resampler by `up / down` after `fed` input samples.
pub open spec fn output_count(up: int, down: int, fed: int) -> int {
    (fed * up + (up - 1)) / down
}

/// Steps through the filter bank: `up` places per input sample, one output sample
/// per `down` places.
pub struct Commutator {
    up: usize,
    down: usize,
    phase: usize,
    fed: Ghost<int>,
    emitted: Ghost<int>,
}

impl Commutator {
    /// Upsampling factor.
    pub closed spec fn up_factor(&self) -> int {
        self.up as int
    }

    /// Downsampling factor.
    pub closed spec fn down_factor(&self) -> int {
        self.down as int
    }

    /// Input samples so far.
    pub closed spec fn fed(&self) -> int {
        self.fed@
    }

    /// Output samples so far.
    pub closed spec fn emitted(&self) -> int {
        self.emitted@
    }

    /// The next input sample can be taken.
    pub closed spec fn ready(&self) -> bool {
        self.phase < self.up + self.down
    }

    /// The place follows from the counts.
    pub closed spec fn wf(&self) -> bool {
        &&& 0 < self.up
        &&& 0 < self.down
        &&& 2 * self.up + self.down <= usize::MAX
        &&& 0 <= self.fed@
        &&& 0 <= self.emitted@
        &&& self.phase < 2 * self.up + self.down
        &&& self.phase + self.emitted@ * self.down == self.fed@ * self.up + (self.up - 1)
    }

    /// Starts resampling by `up / down`.
    pub fn new(up: usize, down: usize) -> (c: Self)
        requires
            0 < up,
            0 < down,
            2 * up + down <= usize::MAX,
        ensures
            c.wf(),
            c.ready(),
            c.up_factor() == up,
            c.down_factor() == down,
            c.fed() == 0,
            c.emitted() == 0,
    {
        let c = Commutator { up, down, phase: up - 1, fed: Ghost(0), emitted: Ghost(0) };
        proof {
            assert(0 * (down as int) == 0 && 0 * (up as int) == 0) by (nonlinear_arith);
        }
        c
    }

    /// Takes one input sample.
    pub fn push(&mut self)
        requires
            old(self).wf(),
            old(self).ready(),
        ensures
            final(self).wf(),
            final(self).up_factor() == old(self).up_factor(),
            final(self).down_factor() == old(self).down_factor(),
            final(self).fed() == old(self).fed() + 1,
            final(self).emitted() == old(self).emitted(),
    {
        self.phase += self.up;
        proof {
            let (f, u) = (self.fed@, self.up as int);
            assert((f + 1) * u == f * u + u) by (nonlinear_arith);
            self.fed@ = f + 1;
        }
    }

    /// The branch that gives the next output sample, if one is due.
    pub fn next_branch(&mut self) -> (r: Option<usize>)
        requires
            old(self).wf(),
        ensures
            final(self).wf(),
            final(self).up_factor() == old(self).up_factor(),
            final(self).down_factor() == old(self).down_factor(),
            final(self).fed() == old(self).fed(),
            r is Some <==> old(self).emitted() < output_count(
                old(self).up_factor(),
                old(self).down_factor(),
                old(self).fed(),
            ),
            match r {
                None => {
                    &&& final(self).ready()
                    &&& final(self).emitted() == old(self).emitted()
                    &&& final(self).emitted() == output_count(
                        old(self).up_factor(),
                        old(self).down_factor(),
                        old(self).fed(),
                    )
                },
                Some(branch) => {
                    &&& final(self).emitted() == old(self).emitted() + 1
                    &&& branch == (old(self).fed() * old(self).up_factor() + (
                    old(self).up_factor() - 1) - (old(self).emitted() + 1)
                        * old(self).down_factor()) % old(self).up_factor()
                    &&& branch < old(self).up_factor()
                },
            },
    {
        let ghost (f, e) = (self.fed@, self.emitted@);
        let ghost (u, d, p) = (self.up as int, self.down as int, self.phase as int);
        if self.phase >= self.down {
            self.phase -= self.down;
            proof {
                assert((e + 1) * d == e * d + d) by (nonlinear_arith);
                lemma_one_more(f * u + (u - 1), d, e);
                self.emitted@ = e + 1;
            }
            let branch: usize = self.phase % self.up;
            Some(branch)
        } else {
            proof {
                assert(f * u + (u - 1) == e * d + p);
                vstd::arithmetic::div_mod::lemma_fundamental_div_mod_converse(
                    f * u + (u - 1),
                    d,
                    e,
                    p,
                );
            }
            None
        }
    }
}

proof fn lemma_one_more(total: int, d: int, e: int)
    requires
        0 < d,
        (e + 1) * d <= total,
    ensures
        e < total / d,
{
    let q = total / d;
    vstd::arithmetic::div_mod::lemma_fundamental_div_mod(total, d);
    vstd::arithmetic::div_mod::lemma_mod_bound(total, d);
    if q <= e {
        assert((q + 1) * d <= (e + 1) * d) by (nonlinear_arith)
            requires
                q <= e,
                0 < d,
        ;
        assert((q + 1) * d == d * q + d) by (nonlinear_arith);
    }
}

/// By the factors 256 and 375, from three million samples per second to the internal
/// rate, whole multiples are exact.
pub proof fn law_whole_multiples_are_exact(k: int)
    requires
        0 <= k,
    ensures
        output_count(256, 375, 375 * k) == 256 * k,
{
}

/// After `fed` samples, as many samples are out as whole times `down` go into the
/// `fed * up` places passed and the `up - 1` places of the start.
pub proof fn law_output_keeps_the_rate(up: int, down: int, fed: int)
    requires
        0 < up,
        0 < down,
        0 <= fed,
    ensures
        output_count(up, down, fed) * down <= fed * up + up - 1,
        fed * up + up - 1 < (output_count(up, down, fed) + 1) * down,
{
    let total = fed * up + (up - 1);
    let k = output_count(up, down, fed);
    vstd::arithmetic::div_mod::lemma_fundamental_div_mod(total, down);
    vstd::arithmetic::div_mod::lemma_mod_bound(total, down);
    assert(k * down == down * k) by (nonlinear_arith);
    assert((k + 1) * down == down * k + down) by (nonlinear_arith);
}

} // verus!
