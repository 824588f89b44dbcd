//! Comparison of two sets of demodulated symbols, frame by frame.
//!
//! The two sides may number their frames differently.  The comparison looks for
//! the frame offset with the most equal soft bits and reports on the symbols that
//! it pairs.

use vstd::prelude::*;
use crate::symbol_table::{make_key, symbol_key, SymbolTable};

verus! {

/// Largest frame offset that is tried, to either side.
pub const MAX_OFFSET: i32 = 5;

/// Carriers per symbol.
pub const CARRIERS: usize = 1536;

/// Where the samples of the own side come from.
#[derive(Debug, Clone, Copy, PartialEq, Eq, Structural)]
pub enum IqIngest {
    /// Sixteen-bit samples at three million per second, resampled.
    Cs16Le3MSPS,
    /// Eight-bit samples at the internal rate.
    Cu82048k,
}

/// The first place where two paired symbols differ.
#[derive(Debug)]
pub struct Divergence {
    pub dab_rs_frame: u32,
    pub oracle_frame: u32,
    pub symbol_idx: u32,
    pub bit_index: usize,
    pub oracle_value: i16,
    pub dab_rs_value: i16,
    /// 'I' in the first half of a symbol, 'Q' in the second.
    pub i_or_q: char,
    pub carrier_logical_index: usize,
}

/// Outcome of a comparison.
#[derive(Debug)]
pub struct DiagResult {
    pub oracle_records: usize,
    pub dab_rs_records: usize,
    pub best_offset: i32,
    pub aligned_pairs: usize,
    /// Equal soft bits in the paired symbols.
    pub matching_bits: usize,
    /// Soft bits of the own side in the paired symbols.
    pub total_bits: usize,
    pub first_divergence: Option<Divergence>,
    /// Differences of 0, up to 2, up to 8, up to 32, and above.
    pub diff_hist: [usize; 5],
}

// ---------------------------------------------------------------------------
// Two symbols
// ---------------------------------------------------------------------------

/// Length of the part that both have.
pub open spec fn common(a: Seq<i16>, b: Seq<i16>) -> int {
    if a.len() < b.len() {
        a.len() as int
    } else {
        b.len() as int
    }
}

/// Equal elements among the first `n`.
pub open spec fn equal_count(a: Seq<i16>, b: Seq<i16>, n: int) -> int
    decreases n,
{
    if n <= 0 {
        0
    } else {
        equal_count(a, b, n - 1) + if a[n - 1] == b[n - 1] {
            1int
        } else {
            0
        }
    }
}

/// The class of a difference.
pub open spec fn diff_class(x: i16, y: i16) -> int {
    let d = if x < y {
        y - x
    } else {
        x - y
    };
    if d == 0 {
        0
    } else if d <= 2 {
        1
    } else if d <= 8 {
        2
    } else if d <= 32 {
        3
    } else {
        4
    }
}

/// Differences of class `c` among the first `n` elements.
pub open spec fn class_count(a: Seq<i16>, b: Seq<i16>, n: int, c: int) -> int
    decreases n,
{
    if n <= 0 {
        0
    } else {
        class_count(a, b, n - 1, c) + if diff_class(a[n - 1], b[n - 1]) == c {
            1int
        } else {
            0
        }
    }
}

proof fn lemma_counts(a: Seq<i16>, b: Seq<i16>, n: int, c: int)
    ensures
        0 <= equal_count(a, b, n) <= if n < 0 {
            0
        } else {
            n
        },
        0 <= class_count(a, b, n, c) <= if n < 0 {
            0
        } else {
            n
        },
    decreases n,
{
    if n > 0 {
        lemma_counts(a, b, n - 1, c);
    }
}

/// Every difference falls in one class, and class 0 is equality.
pub proof fn law_classes_cover_all_differences(a: Seq<i16>, b: Seq<i16>, n: int)
    requires
        0 <= n,
    ensures
        class_count(a, b, n, 0) + class_count(a, b, n, 1) + class_count(a, b, n, 2) + class_count(
            a,
            b,
            n,
            3,
        ) + class_count(a, b, n, 4) == n,
        class_count(a, b, n, 0) == equal_count(a, b, n),
    decreases n,
{
    if n > 0 {
        law_classes_cover_all_differences(a, b, n - 1);
    }
}

fn count_equal(a: &[i16], b: &[i16]) -> (n: usize)
    ensures
        n == equal_count(a@, b@, common(a@, b@)),
        n <= a@.len(),
{
    let len: usize = if a.len() < b.len() {
        a.len()
    } else {
        b.len()
    };
    let mut n: usize = 0;
    let mut i: usize = 0;
    while i < len
        invariant
            len == common(a@, b@),
            len <= a.len(),
            i <= len,
            n <= i,
            n == equal_count(a@, b@, i as int),
        decreases len - i,
    {
        if a[i] == b[i] {
            n += 1;
        }
        i += 1;
    }
    n
}

/// Adds the differences of two symbols to a histogram.
pub fn update_hist(hist: &mut [usize; 5], a: &[i16], b: &[i16])
    requires
        forall|c: int| 0 <= c < 5 ==> #[trigger] old(hist)@[c] + common(a@, b@) <= usize::MAX,
    ensures
        forall|c: int|
            0 <= c < 5 ==> #[trigger] final(hist)@[c] == old(hist)@[c] + class_count(
                a@,
                b@,
                common(a@, b@),
                c,
            ),
{
    let len: usize = if a.len() < b.len() {
        a.len()
    } else {
        b.len()
    };
    let mut i: usize = 0;
    while i < len
        invariant
            len == common(a@, b@),
            len <= a.len(),
            i <= len,
            forall|c: int| 0 <= c < 5 ==> #[trigger] old(hist)@[c] + common(a@, b@) <= usize::MAX,
            forall|c: int|
                0 <= c < 5 ==> #[trigger] hist@[c] == old(hist)@[c] + class_count(
                    a@,
                    b@,
                    i as int,
                    c,
                ),
        decreases len - i,
    {
        let d: i32 = a[i] as i32 - b[i] as i32;
        let d: i32 = if d < 0 {
            -d
        } else {
            d
        };
        let class: usize = if d == 0 {
            0
        } else if d <= 2 {
            1
        } else if d <= 8 {
            2
        } else if d <= 32 {
            3
        } else {
            4
        };
        proof {
            lemma_counts(a@, b@, i as int, class as int);
            assert(old(hist)@[class as int] + common(a@, b@) <= usize::MAX);
        }
        hist[class] = hist[class] + 1;
        i += 1;
    }
}

// ---------------------------------------------------------------------------
// Two sets of symbols
// ---------------------------------------------------------------------------

/// The key of the other side's symbol that `key` is paired with at `offset`.
pub open spec fn partner_key(key: u64, offset: int) -> Option<u64> {
    let frame = key as int / 0x1_0000_0000 + offset;
    if 0 < frame <= u32::MAX {
        Some(symbol_key(frame as u32, (key as int % 0x1_0000_0000) as u32) as u64)
    } else {
        None
    }
}

/// The other side's symbol that `key` is paired with at `offset`.
pub open spec fn partner(oracle: Map<u64, Seq<i16>>, key: u64, offset: int) -> Option<Seq<i16>> {
    match partner_key(key, offset) {
        Some(k) => if oracle.contains_key(k) {
            Some(oracle[k])
        } else {
            None
        },
        None => None,
    }
}

/// The sum of `f` over the pairs among the first `n` own symbols.
pub open spec fn pair_sum(
    own: SymbolTable,
    oracle: Map<u64, Seq<i16>>,
    offset: int,
    f: spec_fn(Seq<i16>, Seq<i16>) -> int,
    n: int,
) -> int
    decreases n,
{
    if n <= 0 {
        0
    } else {
        pair_sum(own, oracle, offset, f, n - 1) + match partner(
            oracle,
            own.keys()[n - 1],
            offset,
        ) {
            Some(b) => f(own.bits_at(n - 1), b),
            None => 0,
        }
    }
}

/// Soft bits of the first `n` own symbols.
pub open spec fn soft_bit_total(own: SymbolTable, n: int) -> int
    decreases n,
{
    if n <= 0 {
        0
    } else {
        soft_bit_total(own, n - 1) + own.bits_at(n - 1).len()
    }
}

/// Equal soft bits of a pair.
pub open spec fn pair_equal() -> spec_fn(Seq<i16>, Seq<i16>) -> int {
    |a: Seq<i16>, b: Seq<i16>| equal_count(a, b, common(a, b))
}

/// Differences of class `c` of a pair.
pub open spec fn pair_class(c: int) -> spec_fn(Seq<i16>, Seq<i16>) -> int {
    |a: Seq<i16>, b: Seq<i16>| class_count(a, b, common(a, b), c)
}

/// Own soft bits of a pair.
pub open spec fn pair_bits() -> spec_fn(Seq<i16>, Seq<i16>) -> int {
    |a: Seq<i16>, b: Seq<i16>| a.len() as int
}

/// One for every pair.
pub open spec fn pair_one() -> spec_fn(Seq<i16>, Seq<i16>) -> int {
    |a: Seq<i16>, b: Seq<i16>| 1
}

/// Equal soft bits at `offset`.
pub open spec fn equal_at(own: SymbolTable, oracle: Map<u64, Seq<i16>>, offset: int) -> int {
    pair_sum(own, oracle, offset, pair_equal(), own.keys().len() as int)
}

/// `offset` is the first with the most equal soft bits; 0 if no offset has any.
pub open spec fn is_best_offset(
    own: SymbolTable,
    oracle: Map<u64, Seq<i16>>,
    offset: int,
) -> bool {
    &&& -MAX_OFFSET <= offset <= MAX_OFFSET
    &&& forall|o: int|
        -MAX_OFFSET <= o <= MAX_OFFSET ==> #[trigger] equal_at(own, oracle, o) <= equal_at(
            own,
            oracle,
            offset,
        )
    &&& equal_at(own, oracle, offset) > 0 ==> forall|o: int|
        -MAX_OFFSET <= o < offset ==> #[trigger] equal_at(own, oracle, o) < equal_at(
            own,
            oracle,
            offset,
        )
    &&& equal_at(own, oracle, offset) == 0 ==> offset == 0
}

/// `a` and `b` first differ at `j`.
pub open spec fn first_difference(a: Seq<i16>, b: Seq<i16>, j: int) -> bool {
    &&& 0 <= j < common(a, b)
    &&& a[j] != b[j]
    &&& forall|k: int| 0 <= k < j ==> #[trigger] a[k] == b[k]
}

/// The own symbol at place `i` is paired with one that differs from it.
pub open spec fn diverges(
    own: SymbolTable,
    oracle: Map<u64, Seq<i16>>,
    offset: int,
    i: int,
) -> bool {
    match partner(oracle, own.keys()[i], offset) {
        Some(b) => exists|j: int| first_difference(own.bits_at(i), b, j),
        None => false,
    }
}

/// `d` describes the difference at element `j` of the pair at place `i`.
pub open spec fn describes(
    d: Divergence,
    own: SymbolTable,
    oracle: Map<u64, Seq<i16>>,
    offset: int,
    i: int,
    j: int,
) -> bool {
    let key = own.keys()[i] as int;
    &&& partner(oracle, own.keys()[i], offset) matches Some(b) && first_difference(
        own.bits_at(i),
        b,
        j,
    ) && d.oracle_value == b[j]
    &&& d.dab_rs_frame == key / 0x1_0000_0000
    &&& d.oracle_frame == key / 0x1_0000_0000 + offset
    &&& d.symbol_idx == key % 0x1_0000_0000
    &&& d.bit_index == j
    &&& d.dab_rs_value == own.bits_at(i)[j]
    &&& d.i_or_q == if j < 1536 {
        'I'
    } else {
        'Q'
    }
    &&& d.carrier_logical_index == j % 1536
}

/// `d` describes the first divergence in the order of the keys, if there is one.
pub open spec fn is_first_divergence(
    d: Option<Divergence>,
    own: SymbolTable,
    oracle: Map<u64, Seq<i16>>,
    offset: int,
    n: int,
) -> bool {
    match d {
        None => forall|i: int| 0 <= i < n ==> !#[trigger] diverges(own, oracle, offset, i),
        Some(d) => exists|i: int, j: int|
            {
                &&& 0 <= i < n
                &&& forall|k: int| 0 <= k < i ==> !#[trigger] diverges(own, oracle, offset, k)
                &&& #[trigger] describes(d, own, oracle, offset, i, j)
            },
    }
}

proof fn lemma_pair_sum_bound(
    own: SymbolTable,
    oracle: Map<u64, Seq<i16>>,
    offset: int,
    f: spec_fn(Seq<i16>, Seq<i16>) -> int,
    n: int,
)
    requires
        forall|a: Seq<i16>, b: Seq<i16>| 0 <= #[trigger] f(a, b) <= a.len(),
    ensures
        0 <= pair_sum(own, oracle, offset, f, n) <= soft_bit_total(own, n),
    decreases n,
{
    if n > 0 {
        lemma_pair_sum_bound(own, oracle, offset, f, n - 1);
    }
}

proof fn lemma_total_monotone(own: SymbolTable, a: int, b: int)
    requires
        a <= b,
    ensures
        soft_bit_total(own, a) <= soft_bit_total(own, b),
    decreases b,
{
    if a < b && b > 0 {
        lemma_total_monotone(own, a, b - 1);
    }
}

proof fn lemma_pair_functions(c: int)
    ensures
        forall|a: Seq<i16>, b: Seq<i16>| 0 <= #[trigger] pair_equal()(a, b) <= a.len(),
        forall|a: Seq<i16>, b: Seq<i16>| 0 <= #[trigger] pair_class(c)(a, b) <= a.len(),
        forall|a: Seq<i16>, b: Seq<i16>| 0 <= #[trigger] pair_bits()(a, b) <= a.len(),
{
    assert forall|a: Seq<i16>, b: Seq<i16>| 0 <= #[trigger] pair_equal()(a, b) <= a.len() by {
        lemma_counts(a, b, common(a, b), c);
    }
    assert forall|a: Seq<i16>, b: Seq<i16>| 0 <= #[trigger] pair_class(c)(a, b) <= a.len() by {
        lemma_counts(a, b, common(a, b), c);
    }
}

/// Looks up the partner of an own symbol.
fn find_partner(oracle: &SymbolTable, key: u64, offset: i32) -> (r: Option<&[i16]>)
    requires
        oracle.wf(),
    ensures
        r is Some <==> partner(oracle.map(), key, offset as int) is Some,
        r matches Some(b) ==> partner(oracle.map(), key, offset as int) == Some(b@),
{
    let frame: i64 = (key / 0x1_0000_0000) as i64 + offset as i64;
    if frame <= 0 || frame > 0xFFFF_FFFF {
        return None;
    }
    let symbol: u32 = (key % 0x1_0000_0000) as u32;
    oracle.get(make_key(frame as u32, symbol))
}

/// Counts the equal soft bits at one offset.
fn count_equal_at(own: &SymbolTable, oracle: &SymbolTable, offset: i32) -> (n: usize)
    requires
        own.wf(),
        oracle.wf(),
        soft_bit_total(*own, own.keys().len() as int) <= usize::MAX,
    ensures
        n == equal_at(*own, oracle.map(), offset as int),
{
    let mut n: usize = 0;
    let mut i: usize = 0;
    while i < own.len()
        invariant
            own.wf(),
            oracle.wf(),
            soft_bit_total(*own, own.keys().len() as int) <= usize::MAX,
            i <= own.keys().len(),
            n == pair_sum(*own, oracle.map(), offset as int, pair_equal(), i as int),
        decreases own.keys().len() - i,
    {
        proof {
            lemma_pair_functions(0);
            lemma_pair_sum_bound(*own, oracle.map(), offset as int, pair_equal(), i + 1);
            lemma_total_monotone(*own, i + 1, own.keys().len() as int);
        }
        match find_partner(oracle, own.key(i), offset) {
            Some(b) => {
                n += count_equal(own.soft_bits(i), b);
            },
            None => {},
        }
        i += 1;
    }
    n
}

/// Finds the best offset.
fn find_offset(own: &SymbolTable, oracle: &SymbolTable) -> (best: i32)
    requires
        own.wf(),
        oracle.wf(),
        soft_bit_total(*own, own.keys().len() as int) <= usize::MAX,
    ensures
        is_best_offset(*own, oracle.map(), best as int),
{
    let mut best: i32 = 0;
    let mut most: usize = 0;
    let mut offset: i32 = -MAX_OFFSET;
    while offset <= MAX_OFFSET
        invariant
            own.wf(),
            oracle.wf(),
            soft_bit_total(*own, own.keys().len() as int) <= usize::MAX,
            -MAX_OFFSET <= offset <= MAX_OFFSET + 1,
            -MAX_OFFSET <= best <= MAX_OFFSET,
            forall|o: int|
                -MAX_OFFSET <= o < offset ==> #[trigger] equal_at(*own, oracle.map(), o) <= most,
            most > 0 ==> best < offset && most == equal_at(*own, oracle.map(), best as int),
            most > 0 ==> forall|o: int|
                -MAX_OFFSET <= o < best ==> #[trigger] equal_at(*own, oracle.map(), o) < most,
            most == 0 ==> best == 0,
        decreases MAX_OFFSET + 1 - offset,
    {
        let n: usize = count_equal_at(own, oracle, offset);
        if n > most {
            most = n;
            best = offset;
        }
        offset += 1;
    }
    proof {
        lemma_pair_functions(0);
        lemma_pair_sum_bound(
            *own,
            oracle.map(),
            best as int,
            pair_equal(),
            own.keys().len() as int,
        );
    }
    best
}

fn find_difference(a: &[i16], b: &[i16]) -> (r: Option<usize>)
    ensures
        match r {
            Some(j) => first_difference(a@, b@, j as int),
            None => forall|j: int| !first_difference(a@, b@, j),
        },
{
    let len: usize = if a.len() < b.len() {
        a.len()
    } else {
        b.len()
    };
    let mut j: usize = 0;
    while j < len
        invariant
            len == common(a@, b@),
            j <= len,
            forall|k: int| 0 <= k < j ==> #[trigger] a@[k] == b@[k],
        decreases len - j,
    {
        if a[j] != b[j] {
            return Some(j);
        }
        j += 1;
    }
    None
}

/// Compares two sets of symbols.
pub fn compare(own: &SymbolTable, oracle: &SymbolTable) -> (r: DiagResult)
    requires
        own.wf(),
        oracle.wf(),
        soft_bit_total(*own, own.keys().len() as int) <= usize::MAX,
    ensures
        r.oracle_records == oracle.keys().len(),
        r.dab_rs_records == own.keys().len(),
        own.keys().len() == 0 || oracle.keys().len() == 0 ==> r.best_offset == 0 && r.aligned_pairs
            == 0 && r.matching_bits == 0 && r.total_bits == 0 && r.first_divergence is None
            && forall|c: int| 0 <= c < 5 ==> #[trigger] r.diff_hist@[c] == 0,
        own.keys().len() > 0 && oracle.keys().len() > 0 ==> {
            let offset = r.best_offset as int;
            let n = own.keys().len() as int;
            &&& is_best_offset(*own, oracle.map(), offset)
            &&& r.aligned_pairs == pair_sum(*own, oracle.map(), offset, pair_one(), n)
            &&& r.matching_bits == pair_sum(*own, oracle.map(), offset, pair_equal(), n)
            &&& r.total_bits == pair_sum(*own, oracle.map(), offset, pair_bits(), n)
            &&& is_first_divergence(r.first_divergence, *own, oracle.map(), offset, n)
            &&& forall|c: int|
                0 <= c < 5 ==> #[trigger] r.diff_hist@[c] == pair_sum(
                    *own,
                    oracle.map(),
                    offset,
                    pair_class(c),
                    n,
                )
        },
{
    let mut r: DiagResult = DiagResult {
        oracle_records: oracle.len(),
        dab_rs_records: own.len(),
        best_offset: 0,
        aligned_pairs: 0,
        matching_bits: 0,
        total_bits: 0,
        first_divergence: None,
        diff_hist: [0usize; 5],
    };
    if own.len() == 0 || oracle.len() == 0 {
        return r;
    }
    let offset: i32 = find_offset(own, oracle);
    r.best_offset = offset;
    let ghost o = offset as int;
    let ghost total = own.keys().len() as int;
    let mut i: usize = 0;
    while i < own.len()
        invariant
            own.wf(),
            oracle.wf(),
            total == own.keys().len(),
            soft_bit_total(*own, total) <= usize::MAX,
            o == offset,
            i <= total,
            r.oracle_records == oracle.keys().len(),
            r.dab_rs_records == own.keys().len(),
            r.best_offset == offset,
            r.aligned_pairs <= i,
            r.aligned_pairs == pair_sum(*own, oracle.map(), o, pair_one(), i as int),
            r.matching_bits == pair_sum(*own, oracle.map(), o, pair_equal(), i as int),
            r.total_bits == pair_sum(*own, oracle.map(), o, pair_bits(), i as int),
            is_first_divergence(r.first_divergence, *own, oracle.map(), o, i as int),
            forall|c: int|
                0 <= c < 5 ==> #[trigger] r.diff_hist@[c] == pair_sum(
                    *own,
                    oracle.map(),
                    o,
                    pair_class(c),
                    i as int,
                ),
        decreases total - i,
    {
        let key: u64 = own.key(i);
        let ghost before = r.first_divergence;
        proof {
            lemma_pair_functions(0);
            lemma_pair_sum_bound(*own, oracle.map(), o, pair_equal(), i + 1);
            lemma_pair_sum_bound(*own, oracle.map(), o, pair_bits(), i + 1);
            lemma_total_monotone(*own, i + 1, total);
            assert forall|c: int| 0 <= c < 5 implies #[trigger] r.diff_hist@[c] + own.bits_at(
                i as int,
            ).len() <= usize::MAX by {
                lemma_pair_functions(c);
                lemma_pair_sum_bound(*own, oracle.map(), o, pair_class(c), i as int);
            }
        }
        match find_partner(oracle, key, offset) {
            Some(b) => {
                let a: &[i16] = own.soft_bits(i);
                update_hist(&mut r.diff_hist, a, b);
                r.aligned_pairs += 1;
                r.matching_bits += count_equal(a, b);
                r.total_bits += a.len();
                if r.first_divergence.is_none() {
                    match find_difference(a, b) {
                        Some(j) => {
                            let frame: u32 = (key / 0x1_0000_0000) as u32;
                            let d: Divergence = Divergence {
                                dab_rs_frame: frame,
                                oracle_frame: (frame as i64 + offset as i64) as u32,
                                symbol_idx: (key % 0x1_0000_0000) as u32,
                                bit_index: j,
                                oracle_value: b[j],
                                dab_rs_value: a[j],
                                i_or_q: if j < CARRIERS {
                                    'I'
                                } else {
                                    'Q'
                                },
                                carrier_logical_index: j % CARRIERS,
                            };
                            r.first_divergence = Some(d);
                            assert(describes(
                                r.first_divergence->0,
                                *own,
                                oracle.map(),
                                o,
                                i as int,
                                j as int,
                            ));
                        },
                        None => {
                            assert(!diverges(*own, oracle.map(), o, i as int));
                        },
                    }
                }
            },
            None => {
                assert(!diverges(*own, oracle.map(), o, i as int));
            },
        }
        proof {
            lemma_divergence_step(before, r.first_divergence, *own, oracle.map(), o, i as int);
        }
        i += 1;
    }
    r
}

/// In every comparison the class of no difference counts the equal soft bits.
pub proof fn law_histogram_counts_matches(
    own: SymbolTable,
    oracle: Map<u64, Seq<i16>>,
    offset: int,
    n: int,
)
    ensures
        pair_sum(own, oracle, offset, pair_class(0), n) == pair_sum(
            own,
            oracle,
            offset,
            pair_equal(),
            n,
        ),
    decreases n,
{
    if n > 0 {
        law_histogram_counts_matches(own, oracle, offset, n - 1);
        match partner(oracle, own.keys()[n - 1], offset) {
            Some(b) => {
                let a = own.bits_at(n - 1);
                law_classes_cover_all_differences(a, b, common(a, b));
            },
            None => {},
        }
    }
}

/// There is only one best offset.
pub proof fn law_best_offset_is_unique(
    own: SymbolTable,
    oracle: Map<u64, Seq<i16>>,
    a: int,
    b: int,
)
    requires
        is_best_offset(own, oracle, a),
        is_best_offset(own, oracle, b),
    ensures
        a == b,
{
    assert(equal_at(own, oracle, a) <= equal_at(own, oracle, b));
    assert(equal_at(own, oracle, b) <= equal_at(own, oracle, a));
    lemma_pair_functions(0);
    lemma_pair_sum_bound(own, oracle, a, pair_equal(), own.keys().len() as int);
}

proof fn lemma_divergence_step(
    before: Option<Divergence>,
    after: Option<Divergence>,
    own: SymbolTable,
    oracle: Map<u64, Seq<i16>>,
    offset: int,
    i: int,
)
    requires
        0 <= i,
        is_first_divergence(before, own, oracle, offset, i),
        before is Some ==> after == before,
        before is None && after is None ==> !diverges(own, oracle, offset, i),
        before is None && after is Some ==> exists|j: int| #[trigger]
            describes(after->0, own, oracle, offset, i, j),
    ensures
        is_first_divergence(after, own, oracle, offset, i + 1),
{
    if before is Some {
        let d = before->0;
        let (k, j) = choose|k: int, j: int|
            {
                &&& 0 <= k < i
                &&& forall|q: int| 0 <= q < k ==> !#[trigger] diverges(own, oracle, offset, q)
                &&& #[trigger] describes(d, own, oracle, offset, k, j)
            };
        assert(describes(d, own, oracle, offset, k, j));
    } else if after is Some {
        let d = after->0;
        let j = choose|j: int| #[trigger] describes(d, own, oracle, offset, i, j);
        assert(describes(d, own, oracle, offset, i, j));
    } else {
        assert forall|k: int| 0 <= k < i + 1 implies !#[trigger] diverges(
            own,
            oracle,
            offset,
            k,
        ) by {
            if k == i {
            }
        }
    }
}

// ---------------------------------------------------------------------------
// One pair in detail
// ---------------------------------------------------------------------------

/// How often `v` occurs among the first `n` elements.
pub open spec fn occurrences(s: Seq<i16>, v: int, n: int) -> int
    decreases n,
{
    if n <= 0 {
        0
    } else {
        occurrences(s, v, n - 1) + if s[n - 1] == v {
            1int
        } else {
            0
        }
    }
}

/// `a` and `b` hold the same values, in whatever order.
pub open spec fn same_values(a: Seq<i16>, b: Seq<i16>) -> bool {
    forall|v: int| #[trigger]
        occurrences(a, v, a.len() as int) == occurrences(b, v, b.len() as int)
}

/// Places where one is the negative of the other, among the first `n`.
pub open spec fn negated_count(a: Seq<i16>, b: Seq<i16>, n: int) -> int
    decreases n,
{
    if n <= 0 {
        0
    } else {
        negated_count(a, b, n - 1) + if a[n - 1] == -b[n - 1] {
            1int
        } else {
            0
        }
    }
}

/// Carriers, among the first `n`, on which `own` turned by `shift` equals `other`.
pub open spec fn shifted_count(own: Seq<i16>, other: Seq<i16>, shift: int, n: int) -> int
    decreases n,
{
    if n <= 0 {
        0
    } else {
        shifted_count(own, other, shift, n - 1) + if own[(n - 1 + shift) % 1536] == other[n - 1] {
            1int
        } else {
            0
        }
    }
}

/// In which simple ways one symbol may be the other in disguise.
#[derive(Debug)]
pub struct PairReport {
    /// Same values in some order.
    pub same_values: bool,
    /// Same values in the I halves.
    pub same_i: bool,
    /// Same values in the Q halves.
    pub same_q: bool,
    /// The own I half has the values of the other's Q half.
    pub swapped: bool,
    /// Places where the signs are opposite.
    pub negated: usize,
    /// Carriers of the I half that match when turned by -3, -2, -1, 1, 2 and 3.
    pub shifted: [usize; 6],
}

/// The turns that a [`PairReport`] tries.
pub const SHIFTS: [i32; 6] = [-3, -2, -1, 1, 2, 3];

proof fn lemma_occurrences_bound(s: Seq<i16>, v: int, n: int)
    ensures
        0 <= occurrences(s, v, n) <= if n < 0 {
            0
        } else {
            n
        },
        v < -32768 || v > 32767 ==> occurrences(s, v, n) == 0,
    decreases n,
{
    if n > 0 {
        lemma_occurrences_bound(s, v, n - 1);
    }
}

/// Counts every value of `s`.
fn tabulate(s: &[i16]) -> (t: Vec<usize>)
    ensures
        t@.len() == 65536,
        forall|k: int|
            0 <= k < 65536 ==> #[trigger] t@[k] == occurrences(s@, k - 32768, s@.len() as int),
{
    let mut t: Vec<usize> = vec![0usize; 65536];
    let mut n: usize = 0;
    while n < s.len()
        invariant
            n <= s.len(),
            t@.len() == 65536,
            forall|k: int|
                0 <= k < 65536 ==> #[trigger] t@[k] == occurrences(s@, k - 32768, n as int),
        decreases s.len() - n,
    {
        let k: usize = (s[n] as i32 + 32768) as usize;
        proof {
            lemma_occurrences_bound(s@, k - 32768, n as int);
        }
        t[k] = t[k] + 1;
        n += 1;
    }
    t
}

/// Whether two slices hold the same values.
pub fn have_same_values(a: &[i16], b: &[i16]) -> (r: bool)
    ensures
        r == same_values(a@, b@),
{
    let x: Vec<usize> = tabulate(a);
    let y: Vec<usize> = tabulate(b);
    let mut k: usize = 0;
    while k < 65536
        invariant
            k <= 65536,
            x@.len() == 65536,
            y@.len() == 65536,
            forall|q: int|
                0 <= q < 65536 ==> #[trigger] x@[q] == occurrences(
                    a@,
                    q - 32768,
                    a@.len() as int,
                ),
            forall|q: int|
                0 <= q < 65536 ==> #[trigger] y@[q] == occurrences(
                    b@,
                    q - 32768,
                    b@.len() as int,
                ),
            forall|q: int| 0 <= q < k ==> #[trigger] x@[q] == y@[q],
        decreases 65536 - k,
    {
        if x[k] != y[k] {
            assert(occurrences(a@, k - 32768, a@.len() as int) != occurrences(
                b@,
                k - 32768,
                b@.len() as int,
            ));
            return false;
        }
        k += 1;
    }
    proof {
        assert forall|v: int| #[trigger]
            occurrences(a@, v, a@.len() as int) == occurrences(b@, v, b@.len() as int) by {
            lemma_occurrences_bound(a@, v, a@.len() as int);
            lemma_occurrences_bound(b@, v, b@.len() as int);
            if -32768 <= v <= 32767 {
                assert(x@[v + 32768] == y@[v + 32768]);
            }
        }
    }
    true
}

fn count_negated(a: &[i16], b: &[i16]) -> (n: usize)
    ensures
        n == negated_count(a@, b@, common(a@, b@)),
{
    let len: usize = if a.len() < b.len() {
        a.len()
    } else {
        b.len()
    };
    let mut n: usize = 0;
    let mut i: usize = 0;
    while i < len
        invariant
            len == common(a@, b@),
            i <= len,
            n <= i,
            n == negated_count(a@, b@, i as int),
        decreases len - i,
    {
        if a[i] as i32 == -(b[i] as i32) {
            n += 1;
        }
        i += 1;
    }
    n
}

fn count_shifted(own: &[i16], other: &[i16], shift: i32) -> (n: usize)
    requires
        own@.len() >= 1536,
        other@.len() >= 1536,
        -1536 <= shift <= 1536,
    ensures
        n == shifted_count(own@, other@, shift as int, 1536),
{
    let mut n: usize = 0;
    let mut i: usize = 0;
    while i < CARRIERS
        invariant
            own@.len() >= 1536,
            other@.len() >= 1536,
            -1536 <= shift <= 1536,
            i <= 1536,
            n <= i,
            n == shifted_count(own@, other@, shift as int, i as int),
        decreases 1536 - i,
    {
        let at: usize = ((i as i32 + shift + 1536) as usize) % CARRIERS;
        assert(at == (i + shift) % 1536);
        if own[at] == other[i] {
            n += 1;
        }
        i += 1;
    }
    n
}

/// Examines one pair of symbols.
pub fn examine_pair(own: &[i16], other: &[i16]) -> (r: PairReport)
    requires
        own@.len() >= 1536,
        other@.len() >= 1536,
    ensures
        r.same_values == same_values(other@, own@),
        r.same_i == same_values(other@.take(1536), own@.take(1536)),
        r.same_q == same_values(other@.skip(1536), own@.skip(1536)),
        r.swapped == same_values(own@.take(1536), other@.skip(1536)),
        r.negated == negated_count(own@, other@, common(own@, other@)),
        forall|k: int|
            0 <= k < 6 ==> #[trigger] r.shifted@[k] == shifted_count(
                own@,
                other@,
                SHIFTS@[k] as int,
                1536,
            ),
{
    let own_i: &[i16] = vstd::slice::slice_subrange(own, 0, CARRIERS);
    let own_q: &[i16] = vstd::slice::slice_subrange(own, CARRIERS, own.len());
    let other_i: &[i16] = vstd::slice::slice_subrange(other, 0, CARRIERS);
    let other_q: &[i16] = vstd::slice::slice_subrange(other, CARRIERS, other.len());
    let mut shifted: [usize; 6] = [0usize; 6];
    let mut k: usize = 0;
    while k < 6
        invariant
            own@.len() >= 1536,
            other@.len() >= 1536,
            k <= 6,
            forall|q: int|
                0 <= q < k ==> #[trigger] shifted@[q] == shifted_count(
                    own@,
                    other@,
                    SHIFTS@[q] as int,
                    1536,
                ),
        decreases 6 - k,
    {
        let shift: i32 = SHIFTS[k];
        assert(-3 <= shift <= 3);
        shifted[k] = count_shifted(own, other, shift);
        k += 1;
    }
    PairReport {
        same_values: have_same_values(other, own),
        same_i: have_same_values(other_i, own_i),
        same_q: have_same_values(other_q, own_q),
        swapped: have_same_values(own_i, other_q),
        negated: count_negated(own, other),
        shifted,
    }
}

/// A difference is none, at most 2, at most 8, at most 32, or above.
pub proof fn law_difference_classes(x: i16, y: i16)
    ensures
        diff_class(x, y) == 0 <==> x == y,
        diff_class(x, y) <= 1 <==> -2 <= x - y <= 2,
        diff_class(x, y) <= 2 <==> -8 <= x - y <= 8,
        diff_class(x, y) <= 3 <==> -32 <= x - y <= 32,
        0 <= diff_class(x, y) <= 4,
{
}

/// Changing one soft bit moves it from the class it was in to the class it is in now.
pub proof fn law_one_soft_bit_counts_once(
    a: Seq<i16>,
    b: Seq<i16>,
    i: int,
    v: i16,
    n: int,
    c: int,
)
    requires
        0 <= i < n,
        n <= a.len(),
        n <= b.len(),
    ensures
        class_count(a.update(i, v), b, n, c) == class_count(a, b, n, c) - (if diff_class(a[i], b[i])
            == c {
            1int
        } else {
            0
        }) + (if diff_class(v, b[i]) == c {
            1int
        } else {
            0
        }),
        equal_count(a.update(i, v), b, n) == equal_count(a, b, n) - (if a[i] == b[i] {
            1int
        } else {
            0
        }) + (if v == b[i] {
            1int
        } else {
            0
        }),
    decreases n,
{
    if i < n - 1 {
        law_one_soft_bit_counts_once(a, b, i, v, n - 1, c);
    } else {
        lemma_counts_of_prefix(a, a.update(i, v), b, n - 1, c);
    }
}

proof fn lemma_counts_of_prefix(a: Seq<i16>, x: Seq<i16>, b: Seq<i16>, n: int, c: int)
    requires
        forall|j: int| 0 <= j < n ==> a[j] == x[j],
    ensures
        class_count(a, b, n, c) == class_count(x, b, n, c),
        equal_count(a, b, n) == equal_count(x, b, n),
    decreases n,
{
    if n > 0 {
        lemma_counts_of_prefix(a, x, b, n - 1, c);
    }
}

/// A symbol is paired with the one of the same number in the frame `offset` further on.
pub proof fn law_partners_are_offset_frames(
    oracle: Map<u64, Seq<i16>>,
    frame: u32,
    symbol: u32,
    offset: int,
)
    requires
        -5 <= offset <= 5,
    ensures
        ({
            let own = (0x1_0000_0000 * frame + symbol) as u64;
            let other = (0x1_0000_0000 * (frame + offset) + symbol) as u64;
            &&& 0 < frame + offset <= u32::MAX && oracle.contains_key(other) ==> partner(
                oracle,
                own,
                offset,
            ) == Some(oracle[other])
            &&& !(0 < frame + offset <= u32::MAX && oracle.contains_key(other)) ==> partner(
                oracle,
                own,
                offset,
            ) is None
        }),
{
}

/// Every own symbol that has a partner counts once, with its soft bits and those that
/// are equal; one that has none does not count.
pub proof fn law_pairs_count_once(
    own: SymbolTable,
    oracle: Map<u64, Seq<i16>>,
    offset: int,
    n: int,
)
    requires
        0 <= n,
    ensures
        ({
            let more = |f: spec_fn(Seq<i16>, Seq<i16>) -> int|
                pair_sum(own, oracle, offset, f, n + 1) - pair_sum(own, oracle, offset, f, n);
            match partner(oracle, own.keys()[n], offset) {
                Some(b) => {
                    &&& more(pair_one()) == 1
                    &&& more(pair_bits()) == own.bits_at(n).len()
                    &&& more(pair_equal()) == equal_count(
                        own.bits_at(n),
                        b,
                        common(own.bits_at(n), b),
                    )
                },
                None => more(pair_one()) == 0 && more(pair_bits()) == 0 && more(pair_equal()) == 0,
            }
        }),
{
}

proof fn lemma_occurrences_are_counts(s: Seq<i16>, v: i16, n: int)
    requires
        0 <= n <= s.len(),
    ensures
        occurrences(s, v as int, n) == s.take(n).to_multiset().count(v),
    decreases n,
{
    broadcast use vstd::seq_lib::group_to_multiset_ensures;

    if n == 0 {
        assert(s.take(0) =~= Seq::empty());
        assert(s.take(0).to_multiset().len() == 0);
    } else {
        lemma_occurrences_are_counts(s, v, n - 1);
        assert(s.take(n) =~= s.take(n - 1).push(s[n - 1]));
    }
}

/// Two symbols hold the same values exactly if one is the other in another order.
pub proof fn law_same_values_in_any_order(a: Seq<i16>, b: Seq<i16>)
    ensures
        same_values(a, b) <==> a.to_multiset() == b.to_multiset(),
{
    assert(a.take(a.len() as int) =~= a);
    assert(b.take(b.len() as int) =~= b);
    assert forall|v: i16| #[trigger]
        occurrences(a, v as int, a.len() as int) == a.to_multiset().count(v) && occurrences(
            b,
            v as int,
            b.len() as int,
        ) == b.to_multiset().count(v) by {
        lemma_occurrences_are_counts(a, v, a.len() as int);
        lemma_occurrences_are_counts(b, v, b.len() as int);
    }
    if same_values(a, b) {
        assert forall|v: i16| a.to_multiset().count(v) == b.to_multiset().count(v) by {
            assert(occurrences(a, v as int, a.len() as int) == a.to_multiset().count(v));
        }
        assert(a.to_multiset() =~= b.to_multiset());
    }
    if a.to_multiset() == b.to_multiset() {
        assert forall|v: int| #[trigger]
            occurrences(a, v, a.len() as int) == occurrences(b, v, b.len() as int) by {
            lemma_occurrences_bound(a, v, a.len() as int);
            lemma_occurrences_bound(b, v, b.len() as int);
            if -32768 <= v <= 32767 {
                let w = v as i16;
                assert(occurrences(a, w as int, a.len() as int) == a.to_multiset().count(w));
            }
        }
    }
}

proof fn lemma_shifted(own: Seq<i16>, other: Seq<i16>, shift: int, n: int)
    requires
        0 <= n <= 1536,
        own.len() >= 1536,
        other.len() >= 1536,
    ensures
        0 <= shifted_count(own, other, shift, n) <= n,
        shifted_count(own, other, shift, n) == n <==> forall|i: int|
            0 <= i < n ==> #[trigger] other[i] == own[(i + shift) % 1536],
    decreases n,
{
    if n > 0 {
        lemma_shifted(own, other, shift, n - 1);
        assert(n - 1 + shift == (n - 1) + shift);
    }
}

/// A turn by `shift` explains all carriers exactly if the other side's carrier `i` has the
/// own value of carrier `i + shift`, counted round.
pub proof fn law_turned_symbols_match(own: Seq<i16>, other: Seq<i16>, shift: int)
    requires
        own.len() >= 1536,
        other.len() >= 1536,
    ensures
        shifted_count(own, other, shift, 1536) == 1536 <==> forall|i: int|
            0 <= i < 1536 ==> #[trigger] other[i] == own[(i + shift) % 1536],
{
    lemma_shifted(own, other, shift, 1536);
}

/// Opposite signs explain all of the first `n` places exactly if every value is the
/// negative of the other.
pub proof fn law_negated_symbols_match(a: Seq<i16>, b: Seq<i16>, n: int)
    requires
        0 <= n <= common(a, b),
    ensures
        0 <= negated_count(a, b, n) <= n,
        negated_count(a, b, n) == n <==> forall|i: int|
            0 <= i < n ==> #[trigger] a[i] + b[i] == 0,
    decreases n,
{
    if n > 0 {
        law_negated_symbols_match(a, b, n - 1);
    }
}

/// Among offsets with equally many equal soft bits the lowest is taken, and offset 0 if no
/// soft bit is equal at any.
pub proof fn law_lowest_offset_wins(
    own: SymbolTable,
    oracle: Map<u64, Seq<i16>>,
    best: int,
    other: int,
)
    requires
        is_best_offset(own, oracle, best),
        -5 <= other <= 5,
    ensures
        -5 <= best <= 5,
        equal_at(own, oracle, other) <= equal_at(own, oracle, best),
        equal_at(own, oracle, other) == equal_at(own, oracle, best) && equal_at(own, oracle, best)
            > 0 ==> best <= other,
        equal_at(own, oracle, best) == 0 ==> best == 0,
{
}

/// The divergence that is reported comes before all others: no earlier symbol differs from
/// its partner, and no earlier soft bit of the symbol does.
pub proof fn law_reported_divergence_is_first(
    d: Divergence,
    own: SymbolTable,
    oracle: Map<u64, Seq<i16>>,
    offset: int,
    n: int,
)
    requires
        own.wf(),
        n == own.keys().len(),
        is_first_divergence(Some(d), own, oracle, offset, n),
    ensures
        d.dab_rs_value != d.oracle_value,
        d.oracle_frame == d.dab_rs_frame + offset,
        d.i_or_q == 'I' <==> d.bit_index < 1536,
        exists|i: int|
            {
                &&& 0 <= i < n
                &&& #[trigger] own.keys()[i] == 0x1_0000_0000 * d.dab_rs_frame + d.symbol_idx
                &&& own.bits_at(i)[d.bit_index as int] == d.dab_rs_value
                &&& forall|k: int|
                    0 <= k < i ==> own.keys()[k] < own.keys()[i] && !#[trigger] diverges(
                        own,
                        oracle,
                        offset,
                        k,
                    )
                &&& partner(oracle, own.keys()[i], offset) matches Some(b)
                &&& b[d.bit_index as int] == d.oracle_value
                &&& forall|j: int| 0 <= j < d.bit_index ==> #[trigger] own.bits_at(i)[j] == b[j]
            },
{
    let (i, j) = choose|i: int, j: int|
        {
            &&& 0 <= i < n
            &&& forall|k: int| 0 <= k < i ==> !#[trigger] diverges(own, oracle, offset, k)
            &&& #[trigger] describes(d, own, oracle, offset, i, j)
        };
    own.lemma_place(i);
    assert(own.keys()[i] == 0x1_0000_0000 * d.dab_rs_frame + d.symbol_idx);
    assert forall|k: int| 0 <= k < i implies own.keys()[k] < own.keys()[i] && !#[trigger] diverges(
        own,
        oracle,
        offset,
        k,
    ) by {}
}

/// Two paired symbols diverge exactly if they differ somewhere in the part that both have.
pub proof fn law_divergence_is_any_difference(
    own: SymbolTable,
    oracle: Map<u64, Seq<i16>>,
    offset: int,
    i: int,
    b: Seq<i16>,
)
    requires
        partner(oracle, own.keys()[i], offset) == Some(b),
    ensures
        diverges(own, oracle, offset, i) <==> exists|j: int|
            0 <= j < common(own.bits_at(i), b) && #[trigger] own.bits_at(i)[j] != b[j],
{
    let a = own.bits_at(i);
    if exists|j: int| 0 <= j < common(a, b) && #[trigger] a[j] != b[j] {
        let j = choose|j: int| 0 <= j < common(a, b) && #[trigger] a[j] != b[j];
        lemma_least_difference(a, b, j);
        let k = choose|k: int| first_difference(a, b, k);
        let c = partner(oracle, own.keys()[i], offset)->0;
        assert(c == b);
        assert(first_difference(own.bits_at(i), c, k));
        assert(diverges(own, oracle, offset, i));
    }
    if diverges(own, oracle, offset, i) {
        let j = choose|j: int| first_difference(a, b, j);
        assert(own.bits_at(i)[j] != b[j]);
    }
}

proof fn lemma_least_difference(a: Seq<i16>, b: Seq<i16>, j: int)
    requires
        0 <= j < common(a, b),
        a[j] != b[j],
    ensures
        exists|k: int| first_difference(a, b, k),
    decreases j,
{
    if forall|k: int| 0 <= k < j ==> #[trigger] a[k] == b[k] {
        assert(first_difference(a, b, j));
    } else {
        let k = choose|k: int| 0 <= k < j && #[trigger] a[k] != b[k];
        lemma_least_difference(a, b, k);
    }
}

proof fn lemma_shifted_prefix(own: Seq<i16>, x: Seq<i16>, y: Seq<i16>, shift: int, n: int)
    requires
        forall|j: int| 0 <= j < n ==> x[j] == y[j],
    ensures
        shifted_count(own, x, shift, n) == shifted_count(own, y, shift, n),
        negated_count(own, x, n) == negated_count(own, y, n),
    decreases n,
{
    if n > 0 {
        lemma_shifted_prefix(own, x, y, shift, n - 1);
    }
}

/// Every carrier counts once: changing one value changes the counts by that carrier alone.
pub proof fn law_one_carrier_counts_once(
    own: Seq<i16>,
    other: Seq<i16>,
    shift: int,
    i: int,
    v: i16,
    n: int,
)
    requires
        0 <= i < n <= other.len(),
    ensures
        shifted_count(own, other.update(i, v), shift, n) - shifted_count(own, other, shift, n) == (
        if own[(i + shift) % 1536] == v {
            1int
        } else {
            0
        }) - (if own[(i + shift) % 1536] == other[i] {
            1int
        } else {
            0
        }),
        negated_count(own, other.update(i, v), n) - negated_count(own, other, n) == (if own[i] + v
            == 0 {
            1int
        } else {
            0
        }) - (if own[i] + other[i] == 0 {
            1int
        } else {
            0
        }),
    decreases n,
{
    if i < n - 1 {
        law_one_carrier_counts_once(own, other, shift, i, v, n - 1);
    } else {
        lemma_shifted_prefix(own, other, other.update(i, v), shift, n - 1);
    }
}

} // verus!
