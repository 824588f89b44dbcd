//! Fast information groups in a fast information block.
//!
//! A group starts with a header byte, type in the upper three bits and length of
//! the data behind it in the lower five.  The byte 0xFF ends the groups.

use vstd::prelude::*;
use vstd::slice::{slice_subrange, slice_to_vec};

verus! {

/// One group.
#[derive(Debug, Clone, PartialEq, Eq)]
pub struct Fig {
    /// Type, from the upper three bits of the header.
    pub ftype: u8,
    /// The data behind the header.
    pub data: Vec<u8>,
}

impl View for Fig {
    type V = (u8, Seq<u8>);

    open spec fn view(&self) -> (u8, Seq<u8>) {
        (self.ftype, self.data@)
    }
}

/// The groups of `payload` from byte `i` on, up to the end marker or a length
/// that goes beyond the payload.
pub open spec fn figs_from(payload: Seq<u8>, i: int) -> Seq<(u8, Seq<u8>)>
    decreases payload.len() - i,
{
    let len = payload[i] as int % 32;
    if !(0 <= i < payload.len()) || payload[i] == 0xFF || i + 1 + len > payload.len() {
        Seq::empty()
    } else {
        seq![((payload[i] / 32) as u8, payload.subrange(i + 1, i + 1 + len))] + figs_from(
            payload,
            i + 1 + len,
        )
    }
}

/// Splits a payload into its groups.
pub fn iter_figs(payload: &[u8]) -> (figs: Vec<Fig>)
    ensures
        figs@.map_values(|f: Fig| f@) == figs_from(payload@, 0),
{
    let mut figs: Vec<Fig> = Vec::new();
    let mut i: usize = 0;
    assert(figs@.map_values(|f: Fig| f@) + figs_from(payload@, 0) =~= figs_from(payload@, 0));
    while i < payload.len()
        invariant
            i <= payload@.len(),
            figs@.map_values(|f: Fig| f@) + figs_from(payload@, i as int) == figs_from(payload@, 0),
        ensures
            figs@.map_values(|f: Fig| f@) == figs_from(payload@, 0),
        decreases payload@.len() - i,
    {
        let header: u8 = payload[i];
        let len: usize = (header % 32) as usize;
        if header == 0xFF || len > payload.len() - i - 1 {
            assert(figs@.map_values(|f: Fig| f@) =~= figs_from(payload@, 0));
            break;
        }
        let data: Vec<u8> = slice_to_vec(slice_subrange(payload, i + 1, i + 1 + len));
        let ghost before = figs@;
        figs.push(Fig { ftype: header / 32, data });
        proof {
            let next = figs_from(payload@, i + 1 + len);
            assert(figs@.map_values(|f: Fig| f@) =~= before.map_values(|f: Fig| f@).push(
                ((header / 32) as u8, data@),
            ));
            assert(figs@.map_values(|f: Fig| f@) + next =~= before.map_values(|f: Fig| f@) + (seq![
                ((header / 32) as u8, data@),
            ] + next));
        }
        i += 1 + len;
        proof {
            if i == payload@.len() {
                assert(figs@.map_values(|f: Fig| f@) =~= figs_from(payload@, 0));
            }
        }
    }
    figs
}

/// A group that has a header of its own: type and length fit, and the header is
/// not the end marker.
pub open spec fn encodable(fig: (u8, Seq<u8>)) -> bool {
    &&& fig.0 < 8
    &&& fig.1.len() < 32
    &&& !(fig.0 == 7 && fig.1.len() == 31)
}

/// The groups one after the other, each behind its header.
pub open spec fn joined(figs: Seq<(u8, Seq<u8>)>) -> Seq<u8>
    decreases figs.len(),
{
    if figs.len() == 0 {
        Seq::empty()
    } else {
        seq![(32 * figs[0].0 + figs[0].1.len()) as u8] + figs[0].1 + joined(figs.drop_first())
    }
}

proof fn lemma_split_from(prefix: Seq<u8>, figs: Seq<(u8, Seq<u8>)>, rest: Seq<u8>)
    requires
        forall|k: int| 0 <= k < figs.len() ==> encodable(#[trigger] figs[k]),
        rest.len() > 0 ==> rest[0] == 0xFF,
    ensures
        figs_from(prefix + joined(figs) + rest, prefix.len() as int) == figs,
    decreases figs.len(),
{
    let payload = prefix + joined(figs) + rest;
    let i = prefix.len() as int;
    if figs.len() == 0 {
        assert(figs_from(payload, i) =~= figs);
    } else {
        let fig = figs[0];
        assert(encodable(fig));
        let header = (32 * fig.0 + fig.1.len()) as u8;
        let longer = prefix + seq![header] + fig.1;
        lemma_split_from(longer, figs.drop_first(), rest);
        assert(payload =~= longer + joined(figs.drop_first()) + rest);
        assert(payload[i] == header);
        assert(payload.subrange(i + 1, i + 1 + fig.1.len()) =~= fig.1);
        assert(seq![fig] + figs.drop_first() =~= figs);
        assert(figs_from(payload, i) =~= figs);
    }
}

/// Splitting undoes joining, whatever follows the end marker.
pub proof fn law_splitting_undoes_joining(figs: Seq<(u8, Seq<u8>)>, rest: Seq<u8>)
    requires
        forall|k: int| 0 <= k < figs.len() ==> encodable(#[trigger] figs[k]),
        rest.len() > 0 ==> rest[0] == 0xFF,
    ensures
        figs_from(joined(figs) + rest, 0) == figs,
{
    lemma_split_from(Seq::empty(), figs, rest);
    assert(Seq::<u8>::empty() + joined(figs) + rest =~= joined(figs) + rest);
}

} // verus!
