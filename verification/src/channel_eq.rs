//! The reference of differential demodulation: every symbol is read against the
//! one before it, bin by bin, and the phase reference symbol is the first.

use vstd::prelude::*;
use vstd::slice::slice_to_vec;

verus! {

/// Bins per symbol.
pub const T_U: usize = 2048;

/// Remembers the previous symbol.
pub struct DifferentialReference<T> {
    zero: T,
    prev: Vec<T>,
    seeded: bool,
}

impl<T: Copy> DifferentialReference<T> {
    /// The symbol that the next one is read against.
    pub closed spec fn previous(&self) -> Seq<T> {
        self.prev@
    }

    /// Whether there is such a symbol.
    pub closed spec fn seeded_spec(&self) -> bool {
        self.seeded
    }

    /// The value of an empty bin.
    pub closed spec fn empty_bin(&self) -> T {
        self.zero
    }

    /// The previous symbol has all bins.
    pub closed spec fn wf(&self) -> bool {
        self.prev@.len() == T_U
    }

    fn empty_symbol(zero: T) -> (s: Vec<T>)
        ensures
            s@ == Seq::new(2048, |i: int| zero),
    {
        let mut s: Vec<T> = Vec::new();
        let mut i: usize = 0;
        while i < T_U
            invariant
                i <= 2048,
                s@.len() == i,
                forall|j: int| 0 <= j < i ==> #[trigger] s@[j] == zero,
            decreases 2048 - i,
        {
            s.push(zero);
            i += 1;
        }
        assert(s@ =~= Seq::new(2048, |i: int| zero));
        s
    }

    /// Starts without a reference; `zero` is the value of an empty bin.
    pub fn new(zero: T) -> (d: Self)
        ensures
            d.wf(),
            !d.seeded_spec(),
            d.empty_bin() == zero,
            d.previous() == Seq::new(2048, |i: int| zero),
    {
        DifferentialReference { zero, prev: Self::empty_symbol(zero), seeded: false }
    }

    /// Takes the phase reference symbol as the reference.
    pub fn seed_prs(&mut self, prs_spectrum: &[T])
        requires
            old(self).wf(),
            prs_spectrum@.len() == T_U,
        ensures
            final(self).wf(),
            final(self).seeded_spec(),
            final(self).empty_bin() == old(self).empty_bin(),
            final(self).previous() == prs_spectrum@,
    {
        self.prev = slice_to_vec(prs_spectrum);
        self.seeded = true;
    }

    /// Pairs every bin of `current` with the same bin of the symbol before it;
    /// `current` is the reference from then on.
    pub fn step(&mut self, current: &[T]) -> (pairs: Vec<(T, T)>)
        requires
            old(self).wf(),
            old(self).seeded_spec(),
            current@.len() == T_U,
        ensures
            final(self).wf(),
            final(self).seeded_spec(),
            final(self).empty_bin() == old(self).empty_bin(),
            final(self).previous() == current@,
            pairs@ == Seq::new(2048, |i: int| (current@[i], old(self).previous()[i])),
    {
        let mut pairs: Vec<(T, T)> = Vec::new();
        let mut i: usize = 0;
        while i < T_U
            invariant
                i <= 2048,
                self.wf(),
                *self == *old(self),
                current@.len() == T_U,
                pairs@.len() == i,
                forall|j: int|
                    0 <= j < i ==> #[trigger] pairs@[j] == (current@[j], old(self).previous()[j]),
            decreases 2048 - i,
        {
            pairs.push((current[i], self.prev[i]));
            i += 1;
        }
        self.prev = slice_to_vec(current);
        assert(pairs@ =~= Seq::new(2048, |i: int| (current@[i], old(self).previous()[i])));
        pairs
    }

    /// Forgets the reference.
    pub fn reset(&mut self)
        ensures
            final(self).wf(),
            !final(self).seeded_spec(),
            final(self).empty_bin() == old(self).empty_bin(),
            final(self).previous() == Seq::new(2048, |i: int| old(self).empty_bin()),
    {
        let zero: T = self.zero;
        self.prev = Self::empty_symbol(zero);
        self.seeded = false;
    }

    /// Whether there is a reference.
    pub fn is_seeded(&self) -> (r: bool)
        ensures
            r == self.seeded_spec(),
    {
        self.seeded
    }
}

} // verus!
