//! Soft bits of demodulated symbols, filed by frame and symbol number.

use vstd::prelude::*;
use crate::le::{i16_at, law_reading_undoes_writing, law_sign_survives, le_bytes, le_value};
use crate::le::{pattern16, signed16, u32_at};

verus! {

/// Soft bits per symbol record in a dump.
pub const RECORD_SOFT_BITS: usize = 3072;

/// Bytes of a record's header: frame and symbol number.
pub const RECORD_HEADER_BYTES: usize = 8;

/// Bytes of a record.
pub const RECORD_BYTES: usize = 6152;

/// One number for a frame and a symbol, ordered by frame first.
pub open spec fn symbol_key(frame: u32, symbol: u32) -> int {
    0x1_0000_0000 * frame + symbol
}

/// Computes [`symbol_key`].
pub fn make_key(frame: u32, symbol: u32) -> (key: u64)
    ensures
        key == symbol_key(frame, symbol),
{
    0x1_0000_0000 * frame as u64 + symbol as u64
}

/// `keys` rises strictly.
pub open spec fn rising(keys: Seq<u64>) -> bool {
    forall|a: int, b: int| 0 <= a < b < keys.len() ==> #[trigger] keys[a] < #[trigger] keys[b]
}

/// Soft bits by key, in the order of the keys.
pub struct SymbolTable {
    keys: Vec<u64>,
    bits: Vec<Vec<i16>>,
}

impl SymbolTable {
    /// The keys, in rising order.
    pub closed spec fn keys(&self) -> Seq<u64> {
        self.keys@
    }

    /// The soft bits at place `i` of that order.
    pub closed spec fn bits_at(&self, i: int) -> Seq<i16> {
        self.bits@[i]@
    }

    /// The keys rise and each has its soft bits.
    pub closed spec fn wf(&self) -> bool {
        &&& self.keys@.len() == self.bits@.len()
        &&& rising(self.keys@)
    }

    /// The table as a map.
    pub open spec fn map(&self) -> Map<u64, Seq<i16>> {
        Map::new(
            |k: u64| self.keys().contains(k),
            |k: u64| self.bits_at(self.keys().index_of(k)),
        )
    }

    pub proof fn lemma_place(&self, i: int)
        requires
            self.wf(),
            0 <= i < self.keys().len(),
        ensures
            self.map().contains_key(self.keys()[i]),
            self.map()[self.keys()[i]] == self.bits_at(i),
            rising(self.keys()),
    {
        let k = self.keys()[i];
        let j = self.keys().index_of(k);
        assert(self.keys().contains(k));
        if j < i {
            assert(self.keys@[j] < self.keys@[i]);
        } else if i < j {
            assert(self.keys@[i] < self.keys@[j]);
        }
    }

    pub fn new() -> (t: Self)
        ensures
            t.wf(),
            t.keys().len() == 0,
            t.map() == Map::<u64, Seq<i16>>::empty(),
    {
        let t = SymbolTable { keys: Vec::new(), bits: Vec::new() };
        assert(t.map() =~= Map::<u64, Seq<i16>>::empty());
        t
    }

    /// Number of symbols.
    pub fn len(&self) -> (n: usize)
        ensures
            n == self.keys().len(),
    {
        self.keys.len()
    }

    /// Key at place `i`.
    pub fn key(&self, i: usize) -> (k: u64)
        requires
            i < self.keys().len(),
        ensures
            k == self.keys()[i as int],
    {
        self.keys[i]
    }

    /// Soft bits at place `i`.
    pub fn soft_bits(&self, i: usize) -> (b: &[i16])
        requires
            self.wf(),
            i < self.keys().len(),
        ensures
            b@ == self.bits_at(i as int),
    {
        self.bits[i].as_slice()
    }

    /// The first place whose key is not below `key`.
    fn place(&self, key: u64) -> (p: usize)
        requires
            self.wf(),
        ensures
            p <= self.keys@.len(),
            forall|i: int| 0 <= i < p ==> #[trigger] self.keys@[i] < key,
            forall|i: int| p <= i < self.keys@.len() ==> #[trigger] self.keys@[i] >= key,
    {
        let mut lo: usize = 0;
        let mut hi: usize = self.keys.len();
        while lo < hi
            invariant
                self.wf(),
                lo <= hi <= self.keys@.len(),
                forall|i: int| 0 <= i < lo ==> #[trigger] self.keys@[i] < key,
                forall|i: int| hi <= i < self.keys@.len() ==> #[trigger] self.keys@[i] >= key,
            decreases hi - lo,
        {
            let mid: usize = lo + (hi - lo) / 2;
            if self.keys[mid] < key {
                lo = mid + 1;
            } else {
                hi = mid;
            }
        }
        lo
    }

    /// Looks a symbol up.
    pub fn get(&self, key: u64) -> (r: Option<&[i16]>)
        requires
            self.wf(),
        ensures
            r is Some <==> self.map().contains_key(key),
            r matches Some(b) ==> b@ == self.map()[key],
    {
        let p: usize = self.place(key);
        if p < self.keys.len() && self.keys[p] == key {
            proof {
                self.lemma_place(p as int);
            }
            Some(self.bits[p].as_slice())
        } else {
            proof {
                if self.keys@.contains(key) {
                    let i = self.keys@.index_of(key);
                    assert(self.keys@[i] == key);
                }
            }
            None
        }
    }

    /// Files the soft bits of a symbol, in place of what was filed there.
    pub fn insert(&mut self, key: u64, bits: Vec<i16>)
        requires
            old(self).wf(),
        ensures
            final(self).wf(),
            final(self).map() == old(self).map().insert(key, bits@),
    {
        let p: usize = self.place(key);
        let ghost before = *self;
        let ghost added = bits@;
        if p < self.keys.len() && self.keys[p] == key {
            self.bits[p] = bits;
        } else {
            self.keys.insert(p, key);
            self.bits.insert(p, bits);
        }
        proof {
            assert(self.keys@[p as int] == key);
            self.lemma_place(p as int);
            let fresh = self.keys@.len() == before.keys@.len() + 1;
            assert forall|k: u64| #[trigger]
                self.map().contains_key(k) == before.map().insert(
                key,
                added,
            ).contains_key(k) && (self.map().contains_key(k) ==> self.map()[k]
                == before.map().insert(key, added)[k]) by {
                if k == key {
                } else if before.keys@.contains(k) {
                    let i = before.keys@.index_of(k);
                    before.lemma_place(i);
                    let j = if fresh && i >= p {
                        i + 1
                    } else {
                        i
                    };
                    assert(self.keys@[j] == k);
                    self.lemma_place(j);
                } else if self.keys@.contains(k) {
                    let j = self.keys@.index_of(k);
                    let i = if fresh && j > p {
                        j - 1
                    } else {
                        j
                    };
                    assert(before.keys@[i] == k);
                }
            }
            assert(self.map() =~= before.map().insert(key, added));
        }
    }
}

// ---------------------------------------------------------------------------
// Dumps
// ---------------------------------------------------------------------------

/// The key of record `r` of a dump.
pub open spec fn record_key(dump: Seq<u8>, r: int) -> u64 {
    symbol_key(
        le_value(dump, 6152 * r, 4) as u32,
        le_value(dump, 6152 * r + 4, 4) as u32,
    ) as u64
}

/// The soft bits of record `r` of a dump.
pub open spec fn record_bits(dump: Seq<u8>, r: int) -> Seq<i16> {
    Seq::new(3072, |i: int| signed16(le_value(dump, 6152 * r + 8 + 2 * i, 2)) as i16)
}

/// The first `n` records of a dump, later ones in place of earlier ones.
pub open spec fn dump_map(dump: Seq<u8>, n: int) -> Map<u64, Seq<i16>>
    decreases n,
{
    if n <= 0 {
        Map::empty()
    } else {
        dump_map(dump, n - 1).insert(record_key(dump, n - 1), record_bits(dump, n - 1))
    }
}

/// Reads the whole records of a dump; a partial record at its end is left out.
pub fn parse_dump(dump: &[u8]) -> (t: SymbolTable)
    ensures
        t.wf(),
        t.map() == dump_map(dump@, dump@.len() as int / 6152),
{
    let n: usize = dump.len() / RECORD_BYTES;
    let mut t: SymbolTable = SymbolTable::new();
    let mut r: usize = 0;
    while r < n
        invariant
            n == dump.len() / 6152,
            r <= n,
            t.wf(),
            t.map() == dump_map(dump@, r as int),
        decreases n - r,
    {
        assert(6152 * r + 6152 <= dump.len());
        let at: usize = r * RECORD_BYTES;
        let key: u64 = make_key(u32_at(dump, at), u32_at(dump, at + 4));
        let mut bits: Vec<i16> = Vec::new();
        let mut i: usize = 0;
        while i < RECORD_SOFT_BITS
            invariant
                at == 6152 * r,
                at + 6152 <= dump.len(),
                i <= 3072,
                bits@.len() == i,
                forall|j: int| 0 <= j < i ==> #[trigger] bits@[j] == record_bits(dump@, r as int)[j],
            decreases 3072 - i,
        {
            bits.push(i16_at(dump, at + RECORD_HEADER_BYTES + 2 * i));
            i += 1;
        }
        assert(bits@ =~= record_bits(dump@, r as int));
        t.insert(key, bits);
        r += 1;
    }
    t
}

/// The bytes of a record: frame, symbol, and 3072 soft bits of two bytes.
pub open spec fn written_record(frame: u32, symbol: u32, bits: Seq<i16>) -> Seq<u8> {
    le_bytes(frame as int, 4) + le_bytes(symbol as int, 4) + Seq::new(
        6144,
        |j: int| le_bytes(pattern16(bits[j / 2]), 2)[j % 2],
    )
}

proof fn lemma_bytes_len(v: int, n: int)
    requires
        0 <= n,
    ensures
        le_bytes(v, n).len() == n,
    decreases n,
{
    if n > 0 {
        lemma_bytes_len(v / 256, n - 1);
    }
}

proof fn lemma_powers()
    ensures
        vstd::arithmetic::power::pow(256, 4) == 0x1_0000_0000,
        vstd::arithmetic::power::pow(256, 2) == 0x1_0000,
{
    reveal(vstd::arithmetic::power::pow);
    reveal_with_fuel(vstd::arithmetic::power::pow, 5);
}

/// A dump is read record by record, and a later record of a symbol takes the place of an
/// earlier one: reading undoes writing.
pub proof fn law_dumps_read_back(
    dump: Seq<u8>,
    r: int,
    frame: u32,
    symbol: u32,
    bits: Seq<i16>,
    rest: Seq<u8>,
)
    requires
        0 <= r,
        dump.len() == 6152 * r,
        bits.len() == 3072,
    ensures
        dump_map(dump + written_record(frame, symbol, bits) + rest, r + 1) == dump_map(
            dump,
            r,
        ).insert((0x1_0000_0000 * frame + symbol) as u64, bits),
        dump_map(dump, 0) == Map::<u64, Seq<i16>>::empty(),
{
    let rec = written_record(frame, symbol, bits);
    let all = dump + rec + rest;
    lemma_powers();
    lemma_bytes_len(frame as int, 4);
    lemma_bytes_len(symbol as int, 4);
    let tail = Seq::new(6144, |j: int| le_bytes(pattern16(bits[j / 2]), 2)[j % 2]);
    law_reading_undoes_writing(
        dump,
        frame as int,
        4,
        le_bytes(symbol as int, 4) + tail + rest,
    );
    assert(all =~= dump + le_bytes(frame as int, 4) + (le_bytes(symbol as int, 4) + tail + rest));
    law_reading_undoes_writing(
        dump + le_bytes(frame as int, 4),
        symbol as int,
        4,
        tail + rest,
    );
    assert(all =~= (dump + le_bytes(frame as int, 4)) + le_bytes(symbol as int, 4) + (tail + rest));
    assert(record_key(all, r) == (0x1_0000_0000 * frame + symbol) as u64);
    assert forall|i: int| 0 <= i < 3072 implies record_bits(all, r)[i] == bits[i] by {
        let at = 6152 * r + 8 + 2 * i;
        let v = pattern16(bits[i]);
        lemma_bytes_len(v, 2);
        law_sign_survives(bits[i]);
        let before = all.take(at);
        let after = all.skip(at + 2);
        assert forall|j: int| 0 <= j < 2 implies all[at + j] == le_bytes(v, 2)[j] by {
            assert(all[at + j] == tail[2 * i + j]);
            assert((2 * i + j) / 2 == i && (2 * i + j) % 2 == j);
        }
        assert(all =~= before + le_bytes(v, 2) + after) by {
            assert forall|q: int| 0 <= q < all.len() implies all[q] == (before + le_bytes(v, 2)
                + after)[q] by {
                if at <= q < at + 2 {
                    assert(all[at + (q - at)] == le_bytes(v, 2)[q - at]);
                }
            }
        }
        law_reading_undoes_writing(before, v, 2, after);
    }
    assert(record_bits(all, r) =~= bits);
    lemma_dump_prefix(dump, rec + rest, r);
    assert(all =~= dump + (rec + rest));
}

proof fn lemma_dump_prefix(dump: Seq<u8>, rest: Seq<u8>, r: int)
    requires
        0 <= r,
        6152 * r <= dump.len(),
    ensures
        dump_map(dump + rest, r) == dump_map(dump, r),
    decreases r,
{
    if r > 0 {
        lemma_dump_prefix(dump, rest, r - 1);
        let at = 6152 * (r - 1);
        lemma_same_value(dump, rest, at, 4);
        lemma_same_value(dump, rest, at + 4, 4);
        let now = record_bits(dump + rest, r - 1);
        let before = record_bits(dump, r - 1);
        assert forall|i: int| 0 <= i < 3072 implies #[trigger] now[i] == before[i] by {
            lemma_same_value(dump, rest, at + 8 + 2 * i, 2);
        }
        assert(now =~= before);
    }
}

proof fn lemma_same_value(a: Seq<u8>, b: Seq<u8>, at: int, n: int)
    requires
        0 <= at,
        at + n <= a.len(),
    ensures
        le_value(a + b, at, n) == le_value(a, at, n),
    decreases n,
{
    if n > 0 {
        lemma_same_value(a, b, at + 1, n - 1);
    }
}

} // verus!
