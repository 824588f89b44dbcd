//! Little-endian numbers in byte buffers.

use vstd::prelude::*;

verus! {

/// The `n`-byte number at `at`, least significant byte first.
pub open spec fn le_value(s: Seq<u8>, at: int, n: int) -> int
    decreases n,
{
    if n <= 0 {
        0
    } else {
        s[at] + 256 * le_value(s, at + 1, n - 1)
    }
}

/// The `n` bytes of `v`, least significant first.
pub open spec fn le_bytes(v: int, n: int) -> Seq<u8>
    decreases n,
{
    if n <= 0 {
        Seq::empty()
    } else {
        seq![(v % 256) as u8] + le_bytes(v / 256, n - 1)
    }
}

/// A sixteen-bit pattern as a signed number.
pub open spec fn signed16(v: int) -> int {
    if v < 32768 {
        v
    } else {
        v - 65536
    }
}

/// A signed sixteen-bit number as a pattern.
pub open spec fn pattern16(v: i16) -> int {
    if v < 0 {
        v + 65536
    } else {
        v as int
    }
}

/// Reads an unsigned 32-bit number.
pub fn u32_at(s: &[u8], at: usize) -> (v: u32)
    requires
        at + 4 <= s@.len(),
    ensures
        v == le_value(s@, at as int, 4),
{
    reveal_with_fuel(le_value, 5);
    s[at] as u32 + 256 * (s[at + 1] as u32 + 256 * (s[at + 2] as u32 + 256 * (s[at + 3] as u32)))
}

/// Reads a signed 16-bit number.
pub fn i16_at(s: &[u8], at: usize) -> (v: i16)
    requires
        at + 2 <= s@.len(),
    ensures
        v == signed16(le_value(s@, at as int, 2)),
{
    reveal_with_fuel(le_value, 3);
    let pattern: i32 = s[at] as i32 + 256 * (s[at + 1] as i32);
    if pattern < 32768 {
        pattern as i16
    } else {
        (pattern - 65536) as i16
    }
}

/// Appends the low `n` bytes of `v`.
pub fn push_le(out: &mut Vec<u8>, v: u64, n: u32)
    ensures
        final(out)@ == old(out)@ + le_bytes(v as int, n as int),
{
    let mut rest: u64 = v;
    let mut k: u32 = 0;
    assert(out@ + le_bytes(v as int, n as int) =~= old(out)@ + le_bytes(v as int, n as int));
    while k < n
        invariant
            k <= n,
            out@ + le_bytes(rest as int, n - k) == old(out)@ + le_bytes(v as int, n as int),
        decreases n - k,
    {
        let ghost before = out@;
        let b: u8 = (rest % 256) as u8;
        out.push(b);
        proof {
            let tail = le_bytes(rest as int / 256, n - k - 1);
            assert(before.push(b) + tail =~= before + (seq![b] + tail));
        }
        rest = rest / 256;
        k += 1;
    }
    assert(out@ + Seq::<u8>::empty() =~= out@);
}

/// Appends a signed 16-bit number.
pub fn push_i16(out: &mut Vec<u8>, v: i16)
    ensures
        final(out)@ == old(out)@ + le_bytes(pattern16(v), 2),
{
    let pattern: u64 = if v < 0 {
        (v as i64 + 65536) as u64
    } else {
        v as u64
    };
    push_le(out, pattern, 2);
}

/// Reading gives back what was written, wherever it stands.
pub proof fn law_reading_undoes_writing(before: Seq<u8>, v: int, n: int, after: Seq<u8>)
    requires
        0 <= n,
        0 <= v < vstd::arithmetic::power::pow(256, n as nat),
    ensures
        le_bytes(v, n).len() == n,
        le_value(before + le_bytes(v, n) + after, before.len() as int, n) == v,
    decreases n,
{
    let at = before.len() as int;
    let s = before + le_bytes(v, n) + after;
    if n == 0 {
        vstd::arithmetic::power::lemma_pow0(256);
    } else {
        let b = (v % 256) as u8;
        reveal(vstd::arithmetic::power::pow);
        assert(v / 256 < vstd::arithmetic::power::pow(256, (n - 1) as nat)) by {
            let p = vstd::arithmetic::power::pow(256, (n - 1) as nat);
            assert(vstd::arithmetic::power::pow(256, n as nat) == 256 * p);
        }
        law_reading_undoes_writing(before.push(b), v / 256, n - 1, after);
        assert(s =~= before.push(b) + le_bytes(v / 256, n - 1) + after);
        assert(s[at] == b);
    }
}

/// The sign survives the way through the bit pattern.
pub proof fn law_sign_survives(v: i16)
    ensures
        signed16(pattern16(v)) == v,
        0 <= pattern16(v) < 65536,
{
}

} // verus!
