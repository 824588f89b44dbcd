//! CRC-16 of the fast information blocks: polynomial 0x1021, register loaded with
//! ones, result inverted.

use vstd::prelude::*;
use vstd::slice::slice_subrange;

verus! {

/// One shift of the register.
pub open spec fn crc_shift(crc: u16) -> u16 {
    if crc & 0x8000 != 0 {
        (crc << 1) ^ 0x1021
    } else {
        crc << 1
    }
}

/// `n` shifts of the register.
pub open spec fn crc_shifts(crc: u16, n: int) -> u16
    decreases n,
{
    if n <= 0 {
        crc
    } else {
        crc_shift(crc_shifts(crc, n - 1))
    }
}

/// The register after the first `n` bytes of `data`.
pub open spec fn crc_register(data: Seq<u8>, n: int) -> u16
    decreases n,
{
    if n <= 0 {
        0xFFFF
    } else {
        crc_shifts(crc_register(data, n - 1) ^ ((data[n - 1] as u16) << 8), 8)
    }
}

/// The checksum of `data`.
pub open spec fn crc16(data: Seq<u8>) -> u16 {
    crc_register(data, data.len() as int) ^ 0xFFFF
}

/// The last two bytes of a 32-byte block are the checksum of the others.
pub open spec fn is_sound_fib(fib: Seq<u8>) -> bool {
    &&& fib.len() == 32
    &&& crc16(fib.take(30)) == 256 * fib[30] + fib[31]
}

/// Computes the checksum of `data`.
pub fn crc16_ccitt(data: &[u8]) -> (crc: u16)
    ensures
        crc == crc16(data@),
{
    let mut crc: u16 = 0xFFFF;
    let mut n: usize = 0;
    while n < data.len()
        invariant
            n <= data@.len(),
            crc == crc_register(data@, n as int),
        decreases data@.len() - n,
    {
        crc = crc ^ ((data[n] as u16) << 8);
        let ghost loaded = crc;
        let mut k: u8 = 0;
        while k < 8
            invariant
                k <= 8,
                crc == crc_shifts(loaded, k as int),
            decreases 8 - k,
        {
            if crc & 0x8000 != 0 {
                crc = (crc << 1) ^ 0x1021;
            } else {
                crc = crc << 1;
            }
            k += 1;
        }
        n += 1;
    }
    crc ^ 0xFFFF
}

/// Whether `fib` is a block of 32 bytes with a correct checksum.
pub fn fib_ok(fib: &[u8]) -> (ok: bool)
    ensures
        ok == is_sound_fib(fib@),
{
    if fib.len() != 32 {
        return false;
    }
    let expected: u16 = 256 * fib[30] as u16 + fib[31] as u16;
    crc16_ccitt(slice_subrange(fib, 0, 30)) == expected
}

proof fn lemma_shift_injective(a: u16, b: u16)
    by (bit_vector)
    ensures
        crc_shift(a) == crc_shift(b) ==> a == b,
{
}

proof fn lemma_shifts_injective(a: u16, b: u16, n: int)
    requires
        crc_shifts(a, n) == crc_shifts(b, n),
    ensures
        a == b,
    decreases n,
{
    if n > 0 {
        lemma_shift_injective(crc_shifts(a, n - 1), crc_shifts(b, n - 1));
        lemma_shifts_injective(a, b, n - 1);
    }
}

proof fn lemma_load_injective(a: u16, b: u16, x: u8, y: u8)
    by (bit_vector)
    ensures
        a ^ ((x as u16) << 8) == b ^ ((x as u16) << 8) ==> a == b,
        a ^ ((x as u16) << 8) == a ^ ((y as u16) << 8) ==> x == y,
{
}

proof fn lemma_invert_injective(a: u16, b: u16)
    by (bit_vector)
    ensures
        a ^ 0xFFFF == b ^ 0xFFFF ==> a == b,
{
}

proof fn lemma_register_differs(a: Seq<u8>, b: Seq<u8>, at: int, n: int)
    requires
        0 <= at < n <= a.len(),
        a.len() == b.len(),
        a[at] != b[at],
        forall|i: int| 0 <= i < a.len() && i != at ==> a[i] == b[i],
    ensures
        crc_register(a, n) != crc_register(b, n),
    decreases n,
{
    if n - 1 > at {
        lemma_register_differs(a, b, at, n - 1);
        lemma_load_injective(crc_register(a, n - 1), crc_register(b, n - 1), a[n - 1], 0);
    } else {
        lemma_register_same(a, b, at);
        lemma_load_injective(crc_register(a, at), crc_register(b, at), a[at], b[at]);
    }
    let x = crc_register(a, n - 1) ^ ((a[n - 1] as u16) << 8);
    let y = crc_register(b, n - 1) ^ ((b[n - 1] as u16) << 8);
    if crc_shifts(x, 8) == crc_shifts(y, 8) {
        lemma_shifts_injective(x, y, 8);
    }
}

proof fn lemma_register_same(a: Seq<u8>, b: Seq<u8>, n: int)
    requires
        n <= a.len(),
        a.len() == b.len(),
        forall|i: int| 0 <= i < n ==> a[i] == b[i],
    ensures
        crc_register(a, n) == crc_register(b, n),
    decreases n,
{
    if n > 0 {
        lemma_register_same(a, b, n - 1);
    }
}

/// Changing one byte changes the checksum.
pub proof fn law_crc_detects_a_changed_byte(a: Seq<u8>, b: Seq<u8>, at: int)
    requires
        0 <= at < a.len(),
        a.len() == b.len(),
        a[at] != b[at],
        forall|i: int| 0 <= i < a.len() && i != at ==> a[i] == b[i],
    ensures
        crc16(a) != crc16(b),
{
    lemma_register_differs(a, b, at, a.len() as int);
    lemma_invert_injective(crc_register(a, a.len() as int), crc_register(b, b.len() as int));
}

/// A payload followed by its checksum, high byte first, is sound; with one
/// payload byte changed it is not.
pub proof fn law_sealed_fib_is_sound(payload: Seq<u8>, hi: u8, lo: u8, at: int, byte: u8)
    requires
        payload.len() == 30,
        256 * hi + lo == crc16(payload),
        0 <= at < 30,
        byte != payload[at],
    ensures
        is_sound_fib(payload.push(hi).push(lo)),
        !is_sound_fib(payload.update(at, byte).push(hi).push(lo)),
{
    let changed = payload.update(at, byte);
    law_crc_detects_a_changed_byte(payload, changed, at);
    assert(payload.push(hi).push(lo).take(30) =~= payload);
    assert(changed.push(hi).push(lo).take(30) =~= changed);
}

#[verifier::rlimit(40)]
proof fn lemma_residue(
    r: u16,
    hi: u8,
    lo: u8,
    s0: u16,
    s1: u16,
    s2: u16,
    s3: u16,
    s4: u16,
    s5: u16,
    s6: u16,
    s7: u16,
    s8: u16,
    s9: u16,
    s10: u16,
    s11: u16,
    s12: u16,
    s13: u16,
    s14: u16,
    s15: u16,
    s16: u16,
    s17: u16,
)
    by (bit_vector)
    requires
        hi == (((r ^ 0xFFFF) >> 8) as u8),
        lo == (((r ^ 0xFFFF) & 0xFF) as u8),
        s0 == r ^ ((hi as u16) << 8),
        s1 == crc_shift(s0),
        s2 == crc_shift(s1),
        s3 == crc_shift(s2),
        s4 == crc_shift(s3),
        s5 == crc_shift(s4),
        s6 == crc_shift(s5),
        s7 == crc_shift(s6),
        s8 == crc_shift(s7),
        s9 == s8 ^ ((lo as u16) << 8),
        s10 == crc_shift(s9),
        s11 == crc_shift(s10),
        s12 == crc_shift(s11),
        s13 == crc_shift(s12),
        s14 == crc_shift(s13),
        s15 == crc_shift(s14),
        s16 == crc_shift(s15),
        s17 == crc_shift(s16),
    ensures
        s17 == 0x1D0F,
{
}

proof fn lemma_eight_shifts(s: u16)
    ensures
        crc_shifts(s, 8) == crc_shift(
            crc_shift(
                crc_shift(crc_shift(crc_shift(crc_shift(crc_shift(crc_shift(s))))))
            ),
        ),
{
    reveal_with_fuel(crc_shifts, 9);
}

proof fn lemma_checksum_bytes(c: u16, hi: u8, lo: u8)
    by (bit_vector)
    requires
        c == ((hi as u16) << 8) | (lo as u16),
    ensures
        hi == ((c >> 8) as u8),
        lo == ((c & 0xFF) as u8),
{
}

/// The register of a payload and its checksum, high byte first, is the same for every
/// payload.
pub proof fn law_checksum_leaves_a_constant(payload: Seq<u8>, hi: u8, lo: u8)
    requires
        ((hi as u16) << 8) | (lo as u16) == crc16(payload),
    ensures
        crc_register(payload.push(hi).push(lo), payload.len() as int + 2) == 0x1D0F,
{
    let n = payload.len() as int;
    let all = payload.push(hi).push(lo);
    let r = crc_register(payload, n);
    lemma_checksum_bytes(crc16(payload), hi, lo);
    lemma_register_prefix(payload, all, n);
    let s0 = r ^ ((hi as u16) << 8);
    let s1 = crc_shift(s0);
    let s2 = crc_shift(s1);
    let s3 = crc_shift(s2);
    let s4 = crc_shift(s3);
    let s5 = crc_shift(s4);
    let s6 = crc_shift(s5);
    let s7 = crc_shift(s6);
    let s8 = crc_shift(s7);
    let s9 = s8 ^ ((lo as u16) << 8);
    let s10 = crc_shift(s9);
    let s11 = crc_shift(s10);
    let s12 = crc_shift(s11);
    let s13 = crc_shift(s12);
    let s14 = crc_shift(s13);
    let s15 = crc_shift(s14);
    let s16 = crc_shift(s15);
    let s17 = crc_shift(s16);
    lemma_eight_shifts(s0);
    lemma_eight_shifts(s9);
    assert(crc_register(all, n + 1) == s8);
    assert(crc_register(all, n + 2) == s17);
    lemma_residue(
        r, hi, lo, s0, s1, s2, s3, s4, s5, s6, s7, s8, s9, s10, s11, s12, s13, s14, s15, s16, s17,
    );
}

proof fn lemma_register_prefix(a: Seq<u8>, b: Seq<u8>, n: int)
    requires
        n <= a.len() <= b.len(),
        forall|i: int| 0 <= i < n ==> a[i] == b[i],
    ensures
        crc_register(a, n) == crc_register(b, n),
    decreases n,
{
    if n > 0 {
        lemma_register_prefix(a, b, n - 1);
    }
}

} // verus!
