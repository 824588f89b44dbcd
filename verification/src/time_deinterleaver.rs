//! Time deinterleaving of the main service channel.
//!
//! A common interleaved frame (CIF) holds 55296 soft bits.  The transmitter delays
//! the bits of a frame by zero to fifteen CIFs, by their place modulo sixteen; the
//! deinterleaver delays them further, so that every bit comes out sixteen CIFs
//! after it was put in at the transmitter.

use vstd::prelude::*;

verus! {

/// Soft bits per CIF.
pub const BITS_PER_CIF: usize = 55296;

/// Slots of the ring of CIFs.
pub const RING_SLOTS: usize = 16;

/// CIFs that pass before a deinterleaved one is used.
pub const WARM_UP_CIFS: usize = 15;

/// Delay in CIFs at the transmitter, by place modulo sixteen.
pub const INTERLEAVE_MAP: [usize; 16] = [0, 8, 4, 12, 2, 10, 6, 14, 1, 9, 5, 13, 3, 11, 7, 15];

/// Delay at the transmitter of the bits at place `i`: the four low bits of the
/// place, reversed.
pub open spec fn send_delay(i: int) -> int {
    8 * (i % 2) + 4 * ((i / 2) % 2) + 2 * ((i / 4) % 2) + (i / 8) % 2
}

/// Bit `i` of CIF `t`; zero before the first CIF.
pub open spec fn cif_bit(cifs: Seq<Seq<i16>>, t: int, i: int) -> i16 {
    if 0 <= t < cifs.len() {
        cifs[t][i]
    } else {
        0
    }
}

/// What the deinterleaver gives when CIF `t` comes in.
pub open spec fn deinterleaved_cif(cifs: Seq<Seq<i16>>, t: int) -> Seq<i16> {
    Seq::new(BITS_PER_CIF as nat, |i: int| cif_bit(cifs, t - 16 + send_delay(i), i))
}

/// What the transmitter makes of `cifs` at time `t`.
pub open spec fn interleaved_cif(cifs: Seq<Seq<i16>>, t: int) -> Seq<i16> {
    Seq::new(BITS_PER_CIF as nat, |i: int| cif_bit(cifs, t - send_delay(i), i))
}

/// Interleaving and then deinterleaving delays every CIF by sixteen.
pub proof fn law_time_deinterleaving_undoes_interleaving(
    cifs: Seq<Seq<i16>>,
    received: Seq<Seq<i16>>,
    t: int,
)
    requires
        16 <= t < cifs.len(),
        received == Seq::new(cifs.len(), |k: int| interleaved_cif(cifs, k)),
        forall|k: int| 0 <= k < cifs.len() ==> (#[trigger] cifs[k]).len() == BITS_PER_CIF,
    ensures
        deinterleaved_cif(received, t) == cifs[t - 16],
{
    assert forall|i: int| 0 <= i < BITS_PER_CIF implies deinterleaved_cif(received, t)[i] == cifs[t
        - 16][i] by {
        assert(0 <= send_delay(i) <= 15);
        assert(received[t - 16 + send_delay(i)] == interleaved_cif(cifs, t - 16 + send_delay(i)));
    }
    assert(cifs[t - 16].len() == BITS_PER_CIF);
    assert(deinterleaved_cif(received, t) =~= cifs[t - 16]);
}

/// Ring of the last sixteen CIFs.
pub struct TimeDeinterleaver {
    ring: Vec<Vec<i16>>,
    index: usize,
    seen: Ghost<Seq<Seq<i16>>>,
}

impl TimeDeinterleaver {
    /// All CIFs that came in.
    pub closed spec fn seen(&self) -> Seq<Seq<i16>> {
        self.seen@
    }

    /// Slot `s` holds the latest CIF whose number is `s` modulo sixteen.
    pub closed spec fn wf(&self) -> bool {
        let n = self.seen@.len() as int;
        &&& self.ring@.len() == 16
        &&& self.index == n % 16
        &&& forall|t: int| 0 <= t < n ==> (#[trigger] self.seen@[t]).len() == BITS_PER_CIF
        &&& forall|s: int|
            0 <= s < 16 ==> (#[trigger] self.ring@[s])@ == Seq::new(
                BITS_PER_CIF as nat,
                |i: int| cif_bit(self.seen@, latest(n, s), i),
            )
    }

    pub fn new() -> (d: Self)
        ensures
            d.wf(),
            d.seen() == Seq::<Seq<i16>>::empty(),
    {
        let mut ring: Vec<Vec<i16>> = Vec::new();
        let mut s: usize = 0;
        while s < RING_SLOTS
            invariant
                s <= 16,
                ring@.len() == s,
                forall|q: int|
                    0 <= q < s ==> (#[trigger] ring@[q])@ == Seq::new(
                        BITS_PER_CIF as nat,
                        |i: int| 0i16,
                    ),
            decreases 16 - s,
        {
            let slot: Vec<i16> = vec![0i16; BITS_PER_CIF];
            assert(slot@ =~= Seq::new(BITS_PER_CIF as nat, |i: int| 0i16));
            ring.push(slot);
            s += 1;
        }
        let d = TimeDeinterleaver { ring, index: 0, seen: Ghost(Seq::empty()) };
        proof {
            assert forall|s: int| 0 <= s < 16 implies (#[trigger] d.ring@[s])@ == Seq::new(
                BITS_PER_CIF as nat,
                |i: int| cif_bit(d.seen@, latest(0, s), i),
            ) by {
                assert(d.ring@[s]@ =~= Seq::new(
                    BITS_PER_CIF as nat,
                    |i: int| cif_bit(d.seen@, latest(0, s), i),
                ));
            }
        }
        d
    }

    /// Gives the deinterleaved CIF and takes `cif` in.
    pub fn push(&mut self, cif: &[i16]) -> (out: Vec<i16>)
        requires
            old(self).wf(),
            cif@.len() == BITS_PER_CIF,
        ensures
            final(self).wf(),
            final(self).seen() == old(self).seen().push(cif@),
            out@ == deinterleaved_cif(final(self).seen(), old(self).seen().len() as int),
    {
        let ghost n = self.seen@.len() as int;
        let ghost after = self.seen@.push(cif@);
        let mut out: Vec<i16> = Vec::new();
        let mut i: usize = 0;
        while i < BITS_PER_CIF
            invariant
                i <= BITS_PER_CIF,
                self.wf(),
                *self == *old(self),
                n == self.seen@.len(),
                after == self.seen@.push(cif@),
                out@.len() == i,
                forall|q: int| 0 <= q < i ==> #[trigger] out@[q] == deinterleaved_cif(after, n)[q],
            decreases BITS_PER_CIF - i,
        {
            proof {
                lemma_map(i as int);
            }
            let slot: usize = (self.index + INTERLEAVE_MAP[i % 16]) % RING_SLOTS;
            proof {
                lemma_slot(n, send_delay(i as int));
                assert(slot == (n + send_delay(i as int)) % 16);
                assert(self.ring@[slot as int]@[i as int] == cif_bit(
                    self.seen@,
                    n - 16 + send_delay(i as int),
                    i as int,
                ));
            }
            out.push(self.ring[slot][i]);
            i += 1;
        }
        let at: usize = self.index;
        let copy: Vec<i16> = vstd::slice::slice_to_vec(cif);
        self.ring[at] = copy;
        self.index = (at + 1) % RING_SLOTS;
        proof {
            self.seen@ = after;
            assert forall|s: int| 0 <= s < 16 implies (#[trigger] self.ring@[s])@ == Seq::new(
                BITS_PER_CIF as nat,
                |i: int| cif_bit(after, latest(n + 1, s), i),
            ) by {
                lemma_latest(n, s);
                assert(old(self).ring@[s]@ == Seq::new(
                    BITS_PER_CIF as nat,
                    |i: int| cif_bit(old(self).seen@, latest(n, s), i),
                ));
                assert(self.ring@[s]@ =~= Seq::new(
                    BITS_PER_CIF as nat,
                    |i: int| cif_bit(after, latest(n + 1, s), i),
                ));
            }
        }
        assert(out@ =~= deinterleaved_cif(after, n));
        out
    }
}

impl Default for TimeDeinterleaver {
    fn default() -> (d: Self)
        ensures
            d.wf(),
            d.seen() == Seq::<Seq<i16>>::empty(),
    {
        Self::new()
    }
}

/// The greatest number below `n` that is `s` modulo sixteen.
spec fn latest(n: int, s: int) -> int {
    n - 1 - (n - 1 - s) % 16
}

proof fn lemma_latest(n: int, s: int)
    requires
        0 <= n,
        0 <= s < 16,
    ensures
        n % 16 == s ==> latest(n + 1, s) == n,
        n % 16 != s ==> latest(n + 1, s) == latest(n, s),
        latest(n, s) < n,
{
}

proof fn lemma_slot(n: int, m: int)
    requires
        0 <= n,
        0 <= m < 16,
    ensures
        latest(n, (n + m) % 16) == n - 16 + m,
{
}

proof fn lemma_map(i: int)
    requires
        0 <= i,
    ensures
        INTERLEAVE_MAP@[i % 16] == send_delay(i),
        0 <= send_delay(i) < 16,
{
    let r = i % 16;
    assert(send_delay(r) == send_delay(i)) by {
        assert(i % 2 == r % 2);
        assert((i / 2) % 2 == (r / 2) % 2);
        assert((i / 4) % 2 == (r / 4) % 2);
        assert((i / 8) % 2 == (r / 8) % 2);
    }
}

/// The delays at the transmitter, by place modulo sixteen.
pub proof fn law_send_delays(i: int)
    requires
        0 <= i,
    ensures
        send_delay(i) == seq![0int, 8, 4, 12, 2, 10, 6, 14, 1, 9, 5, 13, 3, 11, 7, 15][i % 16],
{
    lemma_map(i);
    let r = i % 16;
    assert(INTERLEAVE_MAP@[r] == seq![0int, 8, 4, 12, 2, 10, 6, 14, 1, 9, 5, 13, 3, 11, 7, 15][r]);
}

/// A bit that comes in with CIF `t` leaves the deinterleaver sixteen CIFs later, less
/// the delay that it had at the transmitter.
pub proof fn law_deinterleaver_delays(cifs: Seq<Seq<i16>>, t: int, i: int)
    requires
        0 <= t < cifs.len(),
        0 <= i < BITS_PER_CIF,
        cifs[t].len() == BITS_PER_CIF,
    ensures
        deinterleaved_cif(cifs, t + 16 - send_delay(i))[i] == cifs[t][i],
{
}

} // verus!
