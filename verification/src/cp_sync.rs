//! Symbol timing from the cyclic prefix: which windows of the stream are
//! correlated, and which of them wins.
//!
//! The correlation itself is measured outside.  A measured magnitude takes part as
//! a rank, a number that is ordered as the magnitudes are.

use vstd::prelude::*;

verus! {

/// Geometry of the symbols.
pub struct CpSync {
    tu: usize,
    tg: usize,
    ts: usize,
}

impl CpSync {
    /// Samples in the useful part.
    pub closed spec fn useful(&self) -> int {
        self.tu as int
    }

    /// Samples in the guard interval.
    pub closed spec fn guard(&self) -> int {
        self.tg as int
    }

    /// Samples per symbol.
    pub closed spec fn symbol(&self) -> int {
        self.ts as int
    }

    /// The window of a symbol at `d` lies within `len` samples.
    pub open spec fn window_within(&self, d: int, len: int) -> bool {
        d + self.useful() + self.guard() <= len
    }

    /// Mode I.
    pub fn mode_i() -> (c: Self)
        ensures
            c.useful() == 2048,
            c.guard() == 504,
            c.symbol() == 2552,
    {
        Self::new(2048, 504, 2552)
    }

    /// Any geometry.
    pub fn new(tu: usize, tg: usize, ts: usize) -> (c: Self)
        ensures
            c.useful() == tu,
            c.guard() == tg,
            c.symbol() == ts,
    {
        CpSync { tu, tg, ts }
    }

    /// Samples in the useful part.
    pub fn tu(&self) -> (n: usize)
        ensures
            n == self.useful(),
    {
        self.tu
    }

    /// Samples in the guard interval.
    pub fn tg(&self) -> (n: usize)
        ensures
            n == self.guard(),
    {
        self.tg
    }

    /// Samples per symbol.
    pub fn ts(&self) -> (n: usize)
        ensures
            n == self.symbol(),
    {
        self.ts
    }

    /// Whether the window of a symbol at `d` lies within `len` samples.
    pub fn window_fits(&self, d: usize, len: usize) -> (r: bool)
        ensures
            r == self.window_within(d as int, len as int),
    {
        d <= len && self.tu <= len - d && self.tg <= len - d - self.tu
    }

    /// How many of `n` symbols from `s0` on can be correlated one after the other
    /// before a window goes beyond `len` samples.
    pub fn usable_symbols(&self, s0: usize, n: usize, len: usize) -> (m: usize)
        requires
            s0 + n * self.symbol() <= usize::MAX,
        ensures
            m <= n,
            forall|j: int|
                0 <= j < m ==> #[trigger] self.window_within(s0 + j * self.symbol(), len as int),
            m < n ==> !self.window_within(s0 + m * self.symbol(), len as int),
    {
        let mut m: usize = 0;
        let mut at: usize = s0;
        while m < n
            invariant
                m <= n,
                s0 + n * self.symbol() <= usize::MAX,
                at == s0 + m * self.symbol(),
                forall|j: int|
                    0 <= j < m ==> #[trigger] self.window_within(
                        s0 + j * self.symbol(),
                        len as int,
                    ),
            decreases n - m,
        {
            if !self.window_fits(at, len) {
                return m;
            }
            proof {
                lemma_step(s0 as int, m as int, n as int, self.symbol());
            }
            at += self.ts;
            m += 1;
        }
        m
    }
}

proof fn lemma_step(s0: int, m: int, n: int, ts: int)
    by (nonlinear_arith)
    requires
        0 <= m < n,
        0 <= ts,
    ensures
        s0 + m * ts + ts == s0 + (m + 1) * ts,
        s0 + (m + 1) * ts <= s0 + n * ts,
{
}

/// The offsets from `center - half` to `center + half`, as far as they are numbers.
pub fn search_span(center: usize, half: usize) -> (r: (usize, usize))
    ensures
        r.0 == if center < half {
            0
        } else {
            center - half
        },
        r.1 == if center + half > usize::MAX {
            usize::MAX as int
        } else {
            center + half
        },
{
    let lo: usize = if center < half {
        0
    } else {
        center - half
    };
    let hi: usize = if half > usize::MAX - center {
        usize::MAX
    } else {
        center + half
    };
    (lo, hi)
}

// ---------------------------------------------------------------------------
// The best of several
// ---------------------------------------------------------------------------

/// `i` is the first of `offers` with the greatest rank.
pub open spec fn wins(offers: Seq<(i64, u32)>, i: int) -> bool {
    &&& 0 <= i < offers.len()
    &&& forall|j: int| 0 <= j < offers.len() ==> (#[trigger] offers[j]).1 <= offers[i].1
    &&& forall|j: int| 0 <= j < i ==> (#[trigger] offers[j]).1 < offers[i].1
}

/// `rank` is the greatest rank of `offers` without offer `i`.
pub open spec fn runs_up(offers: Seq<(i64, u32)>, i: int, rank: Option<u32>) -> bool {
    match rank {
        None => offers.len() <= 1,
        Some(r) => {
            &&& forall|j: int| 0 <= j < offers.len() && j != i ==> (#[trigger] offers[j]).1 <= r
            &&& exists|j: int| 0 <= j < offers.len() && j != i && (#[trigger] offers[j]).1 == r
        },
    }
}

/// Keeps the best of the offers made to it, and the rank of the second best.
pub struct PeakSearch {
    best: Option<(i64, u32)>,
    second: Option<u32>,
    offers: Ghost<Seq<(i64, u32)>>,
}

impl PeakSearch {
    /// The offers so far, each a place and a rank.
    pub closed spec fn offers(&self) -> Seq<(i64, u32)> {
        self.offers@
    }

    /// What is kept is the best and the second best of the offers.
    pub closed spec fn wf(&self) -> bool {
        &&& self.best is None ==> self.offers@.len() == 0 && self.second is None
        &&& self.best is Some ==> exists|i: int| #[trigger]
            wins(self.offers@, i) && self.offers@[i] == self.best->0 && runs_up(
                self.offers@,
                i,
                self.second,
            )
    }

    pub fn new() -> (p: Self)
        ensures
            p.wf(),
            p.offers().len() == 0,
    {
        PeakSearch { best: None, second: None, offers: Ghost(Seq::empty()) }
    }

    /// Takes an offer.
    pub fn offer(&mut self, place: i64, rank: u32)
        requires
            old(self).wf(),
        ensures
            final(self).wf(),
            final(self).offers() == old(self).offers().push((place, rank)),
    {
        let ghost before = self.offers@;
        let ghost now = before.push((place, rank));
        let ghost n = before.len() as int;
        match self.best {
            None => {
                self.best = Some((place, rank));
                proof {
                    self.offers@ = now;
                    assert(wins(self.offers@, 0) && self.offers@[0] == self.best->0 && runs_up(
                        self.offers@,
                        0,
                        self.second,
                    ));
                }
            },
            Some(b) => {
                let ghost i = choose|i: int| #[trigger]
                    wins(before, i) && before[i] == b && runs_up(before, i, self.second);
                let ghost old_second = self.second;
                if rank > b.1 {
                    self.second = Some(b.1);
                    self.best = Some((place, rank));
                    proof {
                        self.offers@ = now;
                        assert(now[i] == before[i]);
                        assert(now[n] == (place, rank));
                        assert(wins(self.offers@, n) && self.offers@[n] == self.best->0 && runs_up(
                            self.offers@,
                            n,
                            self.second,
                        ));
                    }
                } else {
                    let replace: bool = match self.second {
                        None => true,
                        Some(s) => rank > s,
                    };
                    if replace {
                        self.second = Some(rank);
                    }
                    proof {
                        self.offers@ = now;
                        assert(now[i] == before[i]);
                        assert(now[n] == (place, rank));
                        assert(wins(now, i));
                        if !replace {
                            let s = old_second->0;
                            let j = choose|j: int|
                                0 <= j < before.len() && j != i && (#[trigger] before[j]).1 == s;
                            assert(now[j].1 == s);
                        }
                        assert(wins(self.offers@, i) && self.offers@[i] == self.best->0 && runs_up(
                            self.offers@,
                            i,
                            self.second,
                        ));
                    }
                }
            },
        }
    }

    /// The place of the best offer.
    pub fn place(&self) -> (p: Option<i64>)
        requires
            self.wf(),
        ensures
            match p {
                None => self.offers().len() == 0,
                Some(place) => exists|i: int| #[trigger]
                    wins(self.offers(), i) && self.offers()[i].0 == place,
            },
    {
        match self.best {
            None => None,
            Some(b) => {
                proof {
                    let i = choose|i: int| #[trigger]
                        wins(self.offers@, i) && self.offers@[i] == b && runs_up(
                            self.offers@,
                            i,
                            self.second,
                        );
                    assert(wins(self.offers(), i) && self.offers()[i].0 == b.0);
                }
                Some(b.0)
            },
        }
    }

    /// The ranks of the best and the second best offer.
    pub fn ranks(&self) -> (r: (Option<u32>, Option<u32>))
        requires
            self.wf(),
        ensures
            match r.0 {
                None => self.offers().len() == 0 && r.1 is None,
                Some(rank) => exists|i: int| #[trigger]
                    wins(self.offers(), i) && self.offers()[i].1 == rank && runs_up(
                        self.offers(),
                        i,
                        r.1,
                    ),
            },
    {
        match self.best {
            None => (None, self.second),
            Some(b) => {
                proof {
                    let i = choose|i: int| #[trigger]
                        wins(self.offers@, i) && self.offers@[i] == b && runs_up(
                            self.offers@,
                            i,
                            self.second,
                        );
                    assert(wins(self.offers(), i) && self.offers()[i].1 == b.1 && runs_up(
                        self.offers(),
                        i,
                        self.second,
                    ));
                }
                (Some(b.1), self.second)
            },
        }
    }
}

impl Default for PeakSearch {
    fn default() -> (p: Self)
        ensures
            p.wf(),
            p.offers().len() == 0,
    {
        Self::new()
    }
}

/// Only one offer wins.
pub proof fn law_winner_is_unique(offers: Seq<(i64, u32)>, i: int, j: int)
    requires
        wins(offers, i),
        wins(offers, j),
    ensures
        i == j,
{
    assert(offers[i].1 <= offers[j].1);
    assert(offers[j].1 <= offers[i].1);
}

} // verus!
