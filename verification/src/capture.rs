//! Collecting the soft bits of whole frames for a comparison.

use vstd::prelude::*;
use crate::frame_sync::{expected_start, frame_fits_at, frame_within, NULL_LEN};
use crate::symbol_table::{make_key, SymbolTable};

verus! {

/// Data symbols per frame.
pub const CAPTURED_SYMBOLS: usize = 75;

/// The symbols of `frames` by key: frames are counted from one, and data symbols
/// from two, because the phase reference symbol is the first.
pub open spec fn captured_map(frames: Seq<Seq<Seq<i16>>>) -> Map<u64, Seq<i16>> {
    Map::new(
        |k: u64| 1 <= k / 0x1_0000_0000 <= frames.len() && 2 <= k % 0x1_0000_0000 <= 76,
        |k: u64| frames[k / 0x1_0000_0000 - 1][k % 0x1_0000_0000 - 2],
    )
}

/// [`captured_map`] of `frames`, and the first `n` of `symbols` as one more frame.
spec fn partial_map(frames: Seq<Seq<Seq<i16>>>, symbols: Seq<Seq<i16>>, n: int) -> Map<
    u64,
    Seq<i16>,
> {
    Map::new(
        |k: u64|
            1 <= k / 0x1_0000_0000 <= frames.len() + 1 && 2 <= k % 0x1_0000_0000 <= 76 && (k
                / 0x1_0000_0000 == frames.len() + 1 ==> k % 0x1_0000_0000 < n + 2),
        |k: u64|
            if k / 0x1_0000_0000 == frames.len() + 1 {
                symbols[k % 0x1_0000_0000 - 2]
            } else {
                frames[k / 0x1_0000_0000 - 1][k % 0x1_0000_0000 - 2]
            },
    )
}

/// The contents of `symbols`.
pub open spec fn symbol_views(symbols: Seq<Vec<i16>>) -> Seq<Seq<i16>> {
    Seq::new(symbols.len(), |i: int| symbols[i]@)
}

/// Takes frames until enough are there.
pub struct SymbolCapture {
    max_frames: usize,
    samples: usize,
    frames: u32,
    table: SymbolTable,
    taken: Ghost<Seq<Seq<Seq<i16>>>>,
}

impl SymbolCapture {
    /// Frames to take.
    pub closed spec fn wanted(&self) -> int {
        self.max_frames as int
    }

    /// Samples in the stream.
    pub closed spec fn samples(&self) -> int {
        self.samples as int
    }

    /// The frames taken, symbol by symbol.
    pub closed spec fn taken(&self) -> Seq<Seq<Seq<i16>>> {
        self.taken@
    }

    /// The table holds the frames taken.
    pub closed spec fn wf(&self) -> bool {
        &&& self.table.wf()
        &&& self.frames == self.taken@.len()
        &&& self.table.map() == captured_map(self.taken@)
    }

    /// One more frame is wanted, and can be numbered.
    pub open spec fn wants_more(&self) -> bool {
        self.taken().len() < self.wanted() && self.taken().len() < u32::MAX
    }

    /// Starts on a stream of `samples` samples.
    pub fn begin(max_frames: usize, samples: usize) -> (c: Self)
        ensures
            c.wf(),
            c.wanted() == max_frames,
            c.samples() == samples,
            c.taken() == Seq::<Seq<Seq<i16>>>::empty(),
    {
        let table: SymbolTable = SymbolTable::new();
        assert(table.map() =~= captured_map(Seq::empty()));
        SymbolCapture { max_frames, samples, frames: 0, table, taken: Ghost(Seq::empty()) }
    }

    /// Whether one more frame is wanted.
    pub fn is_open(&self) -> (r: bool)
        requires
            self.wf(),
        ensures
            r == self.wants_more(),
    {
        (self.frames as usize) < self.max_frames && self.frames < u32::MAX
    }

    /// Where the phase reference symbol behind a null symbol is expected, if the
    /// whole frame lies in the stream.
    pub fn frame_start(&self, null_pos: usize) -> (r: Option<usize>)
        ensures
            r is Some <==> frame_within(null_pos + NULL_LEN, 75, self.samples()),
            r matches Some(start) ==> start == null_pos + NULL_LEN,
    {
        expected_start(null_pos, CAPTURED_SYMBOLS, self.samples)
    }

    /// Whether the whole frame with its phase reference symbol at `prs_start` lies
    /// in the stream.
    pub fn accepts_start(&self, prs_start: usize) -> (r: bool)
        ensures
            r == frame_within(prs_start as int, 75, self.samples()),
    {
        frame_fits_at(prs_start, CAPTURED_SYMBOLS, self.samples)
    }

    /// Takes the data symbols of the next frame.
    pub fn take_frame(&mut self, symbols: Vec<Vec<i16>>)
        requires
            old(self).wf(),
            old(self).wants_more(),
            symbols@.len() == CAPTURED_SYMBOLS,
        ensures
            final(self).wf(),
            final(self).wanted() == old(self).wanted(),
            final(self).samples() == old(self).samples(),
            final(self).taken() == old(self).taken().push(symbol_views(symbols@)),
    {
        let ghost before = self.taken@;
        let ghost views = symbol_views(symbols@);
        self.frames += 1;
        assert(self.table.map() =~= partial_map(before, views, 0));
        let mut s: usize = 0;
        while s < CAPTURED_SYMBOLS
            invariant
                s <= 75,
                symbols@.len() == 75,
                views == symbol_views(symbols@),
                self.table.wf(),
                self.frames == before.len() + 1,
                self.table.map() == partial_map(before, views, s as int),
                self.max_frames == old(self).max_frames,
                self.samples == old(self).samples,
            decreases 75 - s,
        {
            let mut bits: Vec<i16> = Vec::new();
            bits.extend_from_slice(symbols[s].as_slice());
            assert(bits@ =~= views[s as int]);
            self.table.insert(make_key(self.frames, s as u32 + 2), bits);
            s += 1;
            assert(self.table.map() =~= partial_map(before, views, s as int));
        }
        proof {
            self.taken@ = before.push(views);
            assert(self.table.map() =~= captured_map(self.taken@));
        }
    }

    /// The symbols taken.
    pub fn finish(self) -> (t: SymbolTable)
        requires
            self.wf(),
        ensures
            t.wf(),
            t.map() == captured_map(self.taken()),
    {
        self.table
    }
}

/// Frame `f` is counted from one and its data symbols from two to 76.
pub proof fn law_captured_symbols_are_filed(frames: Seq<Seq<Seq<i16>>>, f: u32, s: u32)
    ensures
        ({
            let key = (0x1_0000_0000 * f + s) as u64;
            &&& captured_map(frames).contains_key(key) <==> 1 <= f <= frames.len() && 2 <= s <= 76
            &&& captured_map(frames).contains_key(key) ==> captured_map(frames)[key] == frames[f
                - 1][s - 2]
        }),
{
}

} // verus!
