//! Facts about single bits stored in bytes, and MSB-first packing.

use vstd::prelude::*;

verus! {

/// Every element is 0 or 1.
pub open spec fn all_bits(s: Seq<u8>) -> bool {
    forall|i: int| 0 <= i < s.len() ==> #[trigger] s[i] <= 1
}

/// The byte whose bits, most significant first, are `s[at..at + 8]`.
pub open spec fn msb_byte(s: Seq<u8>, at: int) -> int {
    128 * s[at] + 64 * s[at + 1] + 32 * s[at + 2] + 16 * s[at + 3] + 8 * s[at + 4] + 4 * s[at + 5]
        + 2 * s[at + 6] + s[at + 7]
}

/// The bits of `s` packed MSB-first into bytes; a trailing partial byte is left out.
pub open spec fn packed(s: Seq<u8>) -> Seq<u8> {
    Seq::new(s.len() / 8, |k: int| msb_byte(s, 8 * k) as u8)
}

/// The low bit of every element.
pub open spec fn low_bits(s: Seq<u8>) -> Seq<u8> {
    Seq::new(s.len(), |i: int| s[i] & 1)
}

pub proof fn lemma_xor_bit(a: u8, b: u8)
    by (bit_vector)
    requires
        a <= 1,
        b <= 1,
    ensures
        a ^ b <= 1,
        (a ^ b == 0u8) == (a == b),
        (a ^ b) ^ b == a,
        (a ^ b) & 1 == a ^ b,
{
}

pub proof fn lemma_xor_undo(a: u8, b: u8)
    by (bit_vector)
    ensures
        (a ^ b) ^ b == a,
        ((a ^ b) & 1) <= 1,
        (a & 1) <= 1,
        a <= 1 ==> a & 1 == a,
{
}

/// Packs bits, most significant first, into bytes.
pub fn pack_msb(bits: &[u8]) -> (out: Vec<u8>)
    requires
        all_bits(bits@),
        bits@.len() % 8 == 0,
    ensures
        out@ == packed(bits@),
{
    let mut out: Vec<u8> = Vec::new();
    let n: usize = bits.len() / 8;
    let mut k: usize = 0;
    while k < n
        invariant
            all_bits(bits@),
            n == bits.len() / 8,
            k <= n,
            out@.len() == k,
            forall|j: int| 0 <= j < k ==> #[trigger] out@[j] == msb_byte(bits@, 8 * j) as u8,
        decreases n - k,
    {
        let at: usize = 8 * k;
        let high: u8 = 128 * bits[at] + 64 * bits[at + 1] + 32 * bits[at + 2] + 16 * bits[at + 3];
        let low: u8 = 8 * bits[at + 4] + 4 * bits[at + 5] + 2 * bits[at + 6] + bits[at + 7];
        out.push(high + low);
        k += 1;
    }
    out
}

/// Packing is most significant bit first: bit `8 * k + j` has the weight `2 ^ (7 - j)` in
/// byte `k`.
pub proof fn law_packing_puts_first_bits_highest(s: Seq<u8>, k: int)
    requires
        all_bits(s),
        0 <= k,
        8 * k + 8 <= s.len(),
    ensures
        packed(s).len() == s.len() / 8,
        ({
            let byte = packed(s)[k] as int;
            &&& byte / 128 == s[8 * k]
            &&& (byte / 64) % 2 == s[8 * k + 1]
            &&& (byte / 32) % 2 == s[8 * k + 2]
            &&& (byte / 16) % 2 == s[8 * k + 3]
            &&& (byte / 8) % 2 == s[8 * k + 4]
            &&& (byte / 4) % 2 == s[8 * k + 5]
            &&& (byte / 2) % 2 == s[8 * k + 6]
            &&& byte % 2 == s[8 * k + 7]
        }),
{
    let at = 8 * k;
    assert(s[at] <= 1 && s[at + 1] <= 1 && s[at + 2] <= 1 && s[at + 3] <= 1 && s[at + 4] <= 1
        && s[at + 5] <= 1 && s[at + 6] <= 1 && s[at + 7] <= 1);
}

} // verus!
