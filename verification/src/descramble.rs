//! Energy-dispersal descrambling.
//!
//! The pseudo-random binary sequence comes from a nine-stage shift register with
//! polynomial x^9 + x^5 + 1, loaded with ones.  Bits are held one per byte.

use vstd::prelude::*;
use crate::bits::{all_bits, low_bits, packed};
use crate::bits::{lemma_xor_bit, lemma_xor_undo, pack_msb};

verus! {

/// Bit `i` of the pseudo-random sequence.  The bits at negative indices are the
/// register's initial load.
pub open spec fn prbs_bit(i: int) -> u8
    decreases i + 9,
{
    if i < 0 {
        1
    } else {
        prbs_bit(i - 9) ^ prbs_bit(i - 5)
    }
}

/// `s` with the pseudo-random sequence added modulo two.
pub open spec fn descrambled(s: Seq<u8>) -> Seq<u8> {
    Seq::new(s.len(), |i: int| s[i] ^ prbs_bit(i))
}

pub proof fn lemma_prbs_is_bit(i: int)
    ensures
        prbs_bit(i) <= 1,
    decreases i + 9,
{
    if i >= 0 {
        lemma_prbs_is_bit(i - 9);
        lemma_prbs_is_bit(i - 5);
        lemma_xor_bit(prbs_bit(i - 9), prbs_bit(i - 5));
    }
}

/// The first `len` bits of the pseudo-random sequence.
pub fn prbs_sequence(len: usize) -> (seq: Vec<u8>)
    ensures
        seq@ == Seq::new(len as nat, |i: int| prbs_bit(i)),
        all_bits(seq@),
{
    let mut seq: Vec<u8> = Vec::new();
    let mut i: usize = 0;
    while i < len
        invariant
            i <= len,
            seq@.len() == i,
            forall|j: int| 0 <= j < i ==> #[trigger] seq@[j] == prbs_bit(j),
            all_bits(seq@),
        decreases len - i,
    {
        let ninth: u8 = if i >= 9 {
            seq[i - 9]
        } else {
            1
        };
        let fifth: u8 = if i >= 5 {
            seq[i - 5]
        } else {
            1
        };
        proof {
            lemma_prbs_is_bit(i as int);
            assert(ninth == prbs_bit(i - 9));
            assert(fifth == prbs_bit(i - 5));
        }
        seq.push(ninth ^ fifth);
        i += 1;
    }
    seq
}

/// Descrambles `bits` in place.
pub fn descramble_bits(bits: &mut [u8])
    ensures
        final(bits)@ == descrambled(old(bits)@),
{
    let n: usize = bits.len();
    let seq: Vec<u8> = prbs_sequence(n);
    let mut i: usize = 0;
    while i < n
        invariant
            i <= n,
            n == bits@.len(),
            bits@.len() == old(bits)@.len(),
            seq@ == Seq::new(n as nat, |j: int| prbs_bit(j)),
            forall|j: int|
                0 <= j < n ==> #[trigger] bits@[j] == if j < i {
                    old(bits)@[j] ^ prbs_bit(j)
                } else {
                    old(bits)@[j]
                },
        decreases n - i,
    {
        let b: u8 = bits[i] ^ seq[i];
        bits[i] = b;
        i += 1;
    }
}

/// Descrambles `raw_bits` and packs the low bits, most significant first, into bytes.
pub fn descramble_and_pack(raw_bits: &[u8]) -> (out: Vec<u8>)
    requires
        raw_bits@.len() % 8 == 0,
    ensures
        out@ == packed(low_bits(descrambled(raw_bits@))),
        out@.len() == raw_bits@.len() / 8,
{
    let n: usize = raw_bits.len();
    let seq: Vec<u8> = prbs_sequence(n);
    let mut clear: Vec<u8> = Vec::new();
    let mut i: usize = 0;
    while i < n
        invariant
            i <= n,
            n == raw_bits@.len(),
            seq@ == Seq::new(n as nat, |j: int| prbs_bit(j)),
            clear@.len() == i,
            all_bits(clear@),
            forall|j: int| 0 <= j < i ==> #[trigger] clear@[j] == (raw_bits@[j] ^ prbs_bit(j)) & 1,
        decreases n - i,
    {
        proof {
            lemma_xor_undo(raw_bits@[i as int], prbs_bit(i as int));
        }
        clear.push((raw_bits[i] ^ seq[i]) & 1);
        i += 1;
    }
    assert(clear@ == low_bits(descrambled(raw_bits@)));
    pack_msb(&clear)
}

/// Descrambling twice gives the input back.
pub proof fn law_descramble_is_self_inverse(s: Seq<u8>)
    ensures
        descrambled(descrambled(s)) == s,
{
    assert forall|i: int| 0 <= i < s.len() implies descrambled(descrambled(s))[i] == s[i] by {
        lemma_xor_undo(s[i], prbs_bit(i));
    }
    assert(descrambled(descrambled(s)) =~= s);
}

/// Packing a scrambled bit sequence through the descrambler packs the clear bits.
pub proof fn law_pack_undoes_scrambling(clear: Seq<u8>)
    requires
        all_bits(clear),
    ensures
        packed(low_bits(descrambled(descrambled(clear)))) == packed(clear),
{
    law_descramble_is_self_inverse(clear);
    assert forall|i: int| 0 <= i < clear.len() implies low_bits(clear)[i] == clear[i] by {
        lemma_xor_undo(clear[i], 0);
    }
    assert(low_bits(clear) =~= clear);
}

/// Nine consecutive bits of the sequence are never all zero.
pub proof fn law_prbs_has_no_nine_zeros(i: int)
    requires
        i >= -9,
    ensures
        exists|k: int| i <= k < i + 9 && #[trigger] prbs_bit(k) == 1,
    decreases i + 9,
{
    if i < 0 {
        assert(prbs_bit(i) == 1);
    } else {
        law_prbs_has_no_nine_zeros(i - 1);
        let k = choose|k: int| i - 1 <= k < i - 1 + 9 && #[trigger] prbs_bit(k) == 1;
        if k == i - 1 && prbs_bit(i + 3) == 0 {
            lemma_prbs_is_bit(i + 8);
            lemma_xor_bit(prbs_bit(i - 1), prbs_bit(i + 3));
            assert(prbs_bit(i + 8) == prbs_bit(i + 8 - 9) ^ prbs_bit(i + 8 - 5));
            assert(prbs_bit(i + 8) == 1);
        } else if k == i - 1 {
            lemma_prbs_is_bit(i + 3);
        }
    }
}

/// Ten consecutive bits of the sequence are never all one.
pub proof fn law_prbs_has_no_ten_ones(i: int)
    requires
        i >= -9,
    ensures
        exists|k: int| i <= k < i + 10 && #[trigger] prbs_bit(k) == 0,
{
    lemma_prbs_is_bit(i);
    lemma_prbs_is_bit(i + 4);
    lemma_xor_bit(prbs_bit(i), prbs_bit(i + 4));
    assert(prbs_bit(i + 9) == prbs_bit(i + 9 - 9) ^ prbs_bit(i + 9 - 5));
    if prbs_bit(i) == 1 && prbs_bit(i + 4) == 1 {
        assert(prbs_bit(i + 9) == 0);
    } else if prbs_bit(i) == 0 {
    } else {
        assert(prbs_bit(i + 4) == 0);
    }
}

/// The sequence starts behind nine ones, and every bit is the sum modulo two of the
/// ones nine and five places before it.
pub proof fn law_prbs_recurrence(i: int)
    ensures
        -9 <= i < 0 ==> prbs_bit(i) == 1,
        0 <= i ==> prbs_bit(i) == (prbs_bit(i - 9) + prbs_bit(i - 5)) % 2,
{
    if 0 <= i {
        lemma_prbs_is_bit(i);
        lemma_prbs_is_bit(i - 9);
        lemma_prbs_is_bit(i - 5);
        lemma_xor_bit(prbs_bit(i - 9), prbs_bit(i - 5));
    }
}

/// Descrambling flips exactly the bits where the sequence has a one.
pub proof fn law_descrambling_flips_at_ones(s: Seq<u8>, i: int)
    requires
        all_bits(s),
        0 <= i < s.len(),
    ensures
        descrambled(s).len() == s.len(),
        descrambled(s)[i] == (s[i] + prbs_bit(i)) % 2,
{
    lemma_prbs_is_bit(i);
    lemma_xor_bit(s[i], prbs_bit(i));
}

} // verus!
