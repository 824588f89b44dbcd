//! Forney convolutional byte interleaver of the T-DMB outer code: 12 branches in
//! steps of 17 bytes.

use vstd::prelude::*;

verus! {

/// Number of branches.
pub const N_BRANCHES: usize = 12;

/// Depth in bytes of one delay step.
pub const M_DEPTH: usize = 17;

/// Byte `t` of a stream that is preceded by zeros.
pub open spec fn byte_at(stream: Seq<u8>, t: int) -> u8 {
    if 0 <= t < stream.len() {
        stream[t]
    } else {
        0
    }
}

/// The interleaver delays byte `t` by 17 turns of 12 bytes for every branch index.
pub open spec fn interleaved(stream: Seq<u8>) -> Seq<u8> {
    Seq::new(stream.len(), |t: int| byte_at(stream, t - 204 * (t % 12)))
}

/// The deinterleaver delays what the interleaver did not.
pub open spec fn deinterleaved(stream: Seq<u8>) -> Seq<u8> {
    Seq::new(stream.len(), |t: int| byte_at(stream, t - 204 * (11 - t % 12)))
}

/// Interleaving and then deinterleaving delays the stream by 2244 bytes.
pub proof fn law_deinterleaving_undoes_interleaving(stream: Seq<u8>, t: int)
    requires
        0 <= t,
        t + 2244 < stream.len(),
    ensures
        deinterleaved(interleaved(stream))[t + 2244] == stream[t],
{
    let s = t + 204 * (t % 12);
    assert((t + 2244) % 12 == t % 12);
    assert(s % 12 == t % 12);
    assert(s - 204 * (s % 12) == t);
}

/// What comes out for a stream does not depend on what follows it, so feeding a
/// stream in pieces gives the same bytes as feeding it at once.
pub proof fn law_output_does_not_depend_on_later_input(stream: Seq<u8>, later: Seq<u8>)
    ensures
        interleaved(stream + later).take(stream.len() as int) == interleaved(stream),
        deinterleaved(stream + later).take(stream.len() as int) == deinterleaved(stream),
{
    assert(interleaved(stream + later).take(stream.len() as int) =~= interleaved(stream));
    assert(deinterleaved(stream + later).take(stream.len() as int) =~= deinterleaved(stream));
}

/// Delay line: gives back each byte `depth` calls later, zeros before that.
struct ShiftReg {
    buf: Vec<u8>,
    head: usize,
}

impl ShiftReg {
    /// The bytes in the line, the next one out first.
    spec fn pending(&self) -> Seq<u8> {
        Seq::new(
            self.buf@.len(),
            |q: int|
                if self.head + q < self.buf@.len() {
                    self.buf@[self.head + q]
                } else {
                    self.buf@[self.head + q - self.buf@.len()]
                },
        )
    }

    spec fn wf(&self) -> bool {
        self.buf@.len() > 0 ==> self.head < self.buf@.len()
    }

    fn new(depth: usize) -> (r: Self)
        ensures
            r.wf(),
            r.pending() == Seq::new(depth as nat, |q: int| 0u8),
    {
        ShiftReg { buf: vec![0u8; depth], head: 0 }
    }

    fn shift(&mut self, b: u8) -> (out: u8)
        requires
            old(self).wf(),
        ensures
            final(self).wf(),
            final(self).pending().len() == old(self).pending().len(),
            out == old(self).pending().push(b)[0],
            final(self).pending() == old(self).pending().push(b).drop_first(),
    {
        let n: usize = self.buf.len();
        if n == 0 {
            assert(self.pending() =~= self.pending().push(b).drop_first());
            return b;
        }
        let out: u8 = self.buf[self.head];
        let ghost before = *self;
        self.buf[self.head] = b;
        self.head = if self.head + 1 == n {
            0
        } else {
            self.head + 1
        };
        assert(self.pending() =~= before.pending().push(b).drop_first());
        out
    }
}

/// The twelve delay lines and the stream that went through them.
struct Branches {
    regs: Vec<ShiftReg>,
    idx: usize,
    fed: Ghost<Seq<u8>>,
}

/// The first index at or after `n` that belongs to `branch`.
spec fn next_on_branch(n: int, branch: int) -> int {
    n + (branch - n) % 12
}

impl Branches {
    /// Branch `i` delays by `17 * depths[i]` turns.
    spec fn wf(&self, depths: Seq<int>) -> bool {
        &&& depths.len() == 12
        &&& self.regs@.len() == 12
        &&& self.idx == self.fed@.len() % 12
        &&& forall|i: int|
            0 <= i < 12 ==> {
                &&& (#[trigger] self.regs@[i]).wf()
                &&& 0 <= depths[i]
                &&& self.regs@[i].pending() == line(self.fed@, i, 17 * depths[i])
            }
    }
}

/// What a delay line of `depth` turns on `branch` holds after the stream `fed`.
spec fn line(fed: Seq<u8>, branch: int, depth: int) -> Seq<u8> {
    Seq::new(
        depth as nat,
        |q: int|
            byte_at(
                fed,
                next_on_branch(fed.len() as int, branch) - 12 * (depth - q),
            ),
    )
}

proof fn lemma_line_grows(fed: Seq<u8>, b: u8, branch: int, depth: int)
    requires
        0 <= branch < 12,
        0 <= depth,
    ensures
        branch == fed.len() % 12 ==> line(fed.push(b), branch, depth) == line(
            fed,
            branch,
            depth,
        ).push(b).drop_first(),
        branch == fed.len() % 12 ==> line(fed, branch, depth).push(b)[0] == byte_at(
            fed.push(b),
            fed.len() - 12 * depth,
        ),
        branch != fed.len() % 12 ==> line(fed.push(b), branch, depth) == line(fed, branch, depth),
{
    let n = fed.len() as int;
    if branch == n % 12 {
        assert(next_on_branch(n, branch) == n);
        assert(next_on_branch(n + 1, branch) == n + 12);
        assert(line(fed.push(b), branch, depth) =~= line(fed, branch, depth).push(b).drop_first());
    } else {
        assert(next_on_branch(n + 1, branch) == next_on_branch(n, branch));
        assert(n < next_on_branch(n, branch) < n + 12);
        assert(line(fed.push(b), branch, depth) =~= line(fed, branch, depth));
    }
}

impl Branches {
    fn feed(&mut self, data: &[u8], Ghost(depths): Ghost<Seq<int>>) -> (out: Vec<u8>)
        requires
            old(self).wf(depths),
        ensures
            final(self).wf(depths),
            final(self).fed@ == old(self).fed@ + data@,
            out@ == Seq::new(
                data@.len(),
                |k: int|
                    {
                        let t = old(self).fed@.len() + k;
                        byte_at(final(self).fed@, t - 204 * depths[t % 12])
                    },
            ),
    {
        let ghost start = self.fed@;
        let mut out: Vec<u8> = Vec::new();
        let mut k: usize = 0;
        while k < data.len()
            invariant
                k <= data.len(),
                self.wf(depths),
                self.fed@ == start + data@.subrange(0, k as int),
                out@.len() == k,
                forall|q: int|
                    0 <= q < k ==> #[trigger] out@[q] == byte_at(
                        start + data@,
                        start.len() + q - 204 * depths[(start.len() + q) % 12],
                    ),
            decreases data.len() - k,
        {
            let b: u8 = data[k];
            let i: usize = self.idx;
            let ghost before = self.fed@;
            let ghost regs = self.regs@;
            let o: u8 = self.regs[i].shift(b);
            self.idx = if i + 1 == N_BRANCHES {
                0
            } else {
                i + 1
            };
            proof {
                self.fed@ = before.push(b);
                assert forall|j: int| 0 <= j < 12 implies {
                    &&& (#[trigger] self.regs@[j]).wf()
                    &&& 0 <= depths[j]
                    &&& self.regs@[j].pending() == line(self.fed@, j, 17 * depths[j])
                } by {
                    assert(regs[j].wf());
                    lemma_line_grows(before, b, j, 17 * depths[j]);
                }
                lemma_line_grows(before, b, i as int, 17 * depths[i as int]);
                assert(regs[i as int].wf());
                let t = start.len() + k;
                assert(o == byte_at(before.push(b), t - 204 * depths[i as int]));
                assert(before.push(b) =~= start + data@.subrange(0, k + 1));
                assert(byte_at(before.push(b), t - 204 * depths[i as int]) == byte_at(
                    start + data@,
                    t - 204 * depths[i as int],
                ));
            }
            out.push(o);
            k += 1;
        }
        assert(data@.subrange(0, data@.len() as int) =~= data@);
        out
    }
}

/// Encoder side: branch `i` delays by `17 * i` turns.
pub struct ConvolutionalInterleaver {
    branches: Branches,
}

spec fn rising() -> Seq<int> {
    Seq::new(12, |i: int| i)
}

spec fn falling() -> Seq<int> {
    Seq::new(12, |i: int| 11 - i)
}

impl ConvolutionalInterleaver {
    /// Everything fed so far.
    pub closed spec fn fed(&self) -> Seq<u8> {
        self.branches.fed@
    }

    pub closed spec fn wf(&self) -> bool {
        self.branches.wf(rising())
    }

    pub fn new() -> (r: Self)
        ensures
            r.wf(),
            r.fed() == Seq::<u8>::empty(),
    {
        let mut regs: Vec<ShiftReg> = Vec::new();
        let mut i: usize = 0;
        while i < N_BRANCHES
            invariant
                i <= N_BRANCHES,
                regs@.len() == i,
                forall|j: int|
                    0 <= j < i ==> (#[trigger] regs@[j]).wf() && regs@[j].pending() == line(
                        Seq::empty(),
                        j,
                        17 * j,
                    ),
            decreases N_BRANCHES - i,
        {
            let r: ShiftReg = ShiftReg::new(i * M_DEPTH);
            assert(r.pending() =~= line(Seq::empty(), i as int, 17 * i));
            regs.push(r);
            i += 1;
        }
        ConvolutionalInterleaver { branches: Branches { regs, idx: 0, fed: Ghost(Seq::empty()) } }
    }

    /// Pushes `data` through; the output has the same length and is delayed.
    pub fn feed(&mut self, data: &[u8]) -> (out: Vec<u8>)
        requires
            old(self).wf(),
        ensures
            final(self).wf(),
            final(self).fed() == old(self).fed() + data@,
            out@.len() == data@.len(),
            out@ == interleaved(final(self).fed()).skip(old(self).fed().len() as int),
    {
        let out: Vec<u8> = self.branches.feed(data, Ghost(rising()));
        assert(out@ =~= interleaved(self.fed()).skip(old(self).fed().len() as int));
        out
    }
}

impl Default for ConvolutionalInterleaver {
    fn default() -> (r: Self)
        ensures
            r.wf(),
            r.fed() == Seq::<u8>::empty(),
    {
        Self::new()
    }
}

/// Decoder side: branch `i` delays by `17 * (11 - i)` turns.
pub struct ConvolutionalDeinterleaver {
    branches: Branches,
}

impl ConvolutionalDeinterleaver {
    /// Everything fed so far.
    pub closed spec fn fed(&self) -> Seq<u8> {
        self.branches.fed@
    }

    pub closed spec fn wf(&self) -> bool {
        self.branches.wf(falling())
    }

    pub fn new() -> (r: Self)
        ensures
            r.wf(),
            r.fed() == Seq::<u8>::empty(),
    {
        let mut regs: Vec<ShiftReg> = Vec::new();
        let mut i: usize = 0;
        while i < N_BRANCHES
            invariant
                i <= N_BRANCHES,
                regs@.len() == i,
                forall|j: int|
                    0 <= j < i ==> (#[trigger] regs@[j]).wf() && regs@[j].pending() == line(
                        Seq::empty(),
                        j,
                        17 * (11 - j),
                    ),
            decreases N_BRANCHES - i,
        {
            let r: ShiftReg = ShiftReg::new((N_BRANCHES - 1 - i) * M_DEPTH);
            assert(r.pending() =~= line(Seq::empty(), i as int, 17 * (11 - i)));
            regs.push(r);
            i += 1;
        }
        ConvolutionalDeinterleaver { branches: Branches { regs, idx: 0, fed: Ghost(Seq::empty()) } }
    }

    /// Pushes `data` through; the output has the same length and is delayed.
    pub fn feed(&mut self, data: &[u8]) -> (out: Vec<u8>)
        requires
            old(self).wf(),
        ensures
            final(self).wf(),
            final(self).fed() == old(self).fed() + data@,
            out@.len() == data@.len(),
            out@ == deinterleaved(final(self).fed()).skip(old(self).fed().len() as int),
    {
        let out: Vec<u8> = self.branches.feed(data, Ghost(falling()));
        assert(out@ =~= deinterleaved(self.fed()).skip(old(self).fed().len() as int));
        out
    }

    /// Delay in bytes of interleaver and deinterleaver together.
    pub fn latency_bytes(&self) -> (n: usize)
        ensures
            n == 2244,
    {
        (N_BRANCHES - 1) * M_DEPTH * N_BRANCHES
    }
}

impl Default for ConvolutionalDeinterleaver {
    fn default() -> (r: Self)
        ensures
            r.wf(),
            r.fed() == Seq::<u8>::empty(),
    {
        Self::new()
    }
}

/// A byte on branch `b` of twelve leaves the interleaver 204 bytes later for every
/// branch below, and the deinterleaver 204 bytes later for every branch above; before
/// that zeros come out.
pub proof fn law_branches_delay(stream: Seq<u8>, t: int)
    requires
        0 <= t < stream.len(),
    ensures
        interleaved(stream).len() == stream.len(),
        deinterleaved(stream).len() == stream.len(),
        t + 204 * (t % 12) < stream.len() ==> interleaved(stream)[t + 204 * (t % 12)] == stream[t],
        t + 204 * (11 - t % 12) < stream.len() ==> deinterleaved(stream)[t + 204 * (11 - t % 12)]
            == stream[t],
        t < 204 * (t % 12) ==> interleaved(stream)[t] == 0,
        t < 204 * (11 - t % 12) ==> deinterleaved(stream)[t] == 0,
{
    let a = t + 204 * (t % 12);
    let b = t + 204 * (11 - t % 12);
    assert(a % 12 == t % 12 && b % 12 == t % 12);
}

} // verus!
