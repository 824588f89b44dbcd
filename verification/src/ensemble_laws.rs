//! What holds of every ensemble that was gathered from channel blocks.

use vstd::prelude::*;
use crate::crc::crc16;
use crate::ensemble::{component_of, components_at, fib_count, fib_of, has_component};
use crate::ensemble::{same_component, sound_fibs, unknown_ensemble};
use crate::ensemble::{service_blocks, service_or_new, sub_channel_entries, with_block, with_blocks};
use crate::ensemble::{with_component, with_components, with_fibs, with_fig};
use crate::ensemble::{with_figs, with_sub_channels};
use crate::ensemble::{ComponentModel, EnsembleModel, SubChannelModel};
use crate::fig::figs_from;

verus! {

/// No two components of `list` are the same one.
pub open spec fn distinct_components(list: Seq<ComponentModel>) -> bool {
    forall|a: int, b: int|
        0 <= a < b < list.len() ==> !same_component(#[trigger] list[a], #[trigger] list[b])
}

/// A sub-channel has an identifier of six bits, and an address and a size of ten.
pub open spec fn plausible_sub_channel(s: SubChannelModel) -> bool {
    s.sub_ch_id < 64 && s.start_addr < 1024 && s.size_cu < 1024
}

/// A component is in packet mode and has no sub-channel, or it is a stream in a
/// sub-channel and has no component id.
pub open spec fn plausible_component(c: ComponentModel) -> bool {
    &&& c.sub_ch_id is None <==> c.transport == "packet"@
    &&& c.sub_ch_id matches Some(id) ==> id < 64 && c.sc_id_s == 0
}

/// Every component of `list` is plausible.
pub open spec fn plausible_components(list: Seq<ComponentModel>) -> bool {
    forall|k: int| 0 <= k < list.len() ==> plausible_component(#[trigger] list[k])
}

/// Everything is filed under its own identifier and within its limits, and no
/// service lists a component twice.
pub open spec fn consistent(e: EnsembleModel) -> bool {
    &&& forall|id: u8| #[trigger]
        e.sub_channels.contains_key(id) ==> e.sub_channels[id].sub_ch_id == id
            && plausible_sub_channel(e.sub_channels[id])
    &&& forall|sid: u32| #[trigger]
        e.services.contains_key(sid) ==> {
            &&& e.services[sid].sid == sid
            &&& distinct_components(e.services[sid].components)
            &&& plausible_components(e.services[sid].components)
        }
}

proof fn lemma_component_is_plausible(hi: u8, lo: u8)
    ensures
        plausible_component(component_of(hi, lo)),
{
    reveal_strlit("stream-audio");
    reveal_strlit("stream-data");
    reveal_strlit("fidc");
    reveal_strlit("packet");
    assert("stream-audio"@.len() == 12 && "stream-data"@.len() == 11 && "fidc"@.len() == 4
        && "packet"@.len() == 6);
}

proof fn lemma_entries_are_plausible(p: Seq<u8>, i: int)
    ensures
        forall|k: int|
            0 <= k < sub_channel_entries(p, i).len() ==> plausible_sub_channel(
                #[trigger] sub_channel_entries(p, i)[k],
            ),
    decreases p.len() - i,
{
    if i + 3 <= p.len() && (p[i + 2] < 128 || i + 4 <= p.len()) {
        let all = sub_channel_entries(p, i);
        let next = if p[i + 2] < 128 {
            i + 3
        } else {
            i + 4
        };
        let rest = sub_channel_entries(p, next);
        lemma_entries_are_plausible(p, next);
        assert(all == seq![all[0]] + rest);
        assert(plausible_sub_channel(all[0]));
        assert forall|k: int| 0 <= k < all.len() implies plausible_sub_channel(
            #[trigger] all[k],
        ) by {
            if k > 0 {
                assert(all[k] == rest[k - 1]);
            }
        }
    }
}

proof fn lemma_blocks_are_plausible(p: Seq<u8>, i: int, width: int)
    ensures
        forall|k: int|
            0 <= k < service_blocks(p, i, width).len() ==> plausible_components(
                (#[trigger] service_blocks(p, i, width)[k]).1,
            ),
    decreases p.len() - i,
{
    if 0 <= width && i + width < p.len() {
        let start = i + width + 1;
        let n = p[i + width] as int % 16;
        let room = (p.len() - start) / 2;
        assert forall|m: int| plausible_components(#[trigger] components_at(p, start, m)) by {
            assert forall|k: int| 0 <= k < components_at(p, start, m).len() implies
                plausible_component(#[trigger] components_at(p, start, m)[k]) by {
                lemma_component_is_plausible(p[start + 2 * k], p[start + 2 * k + 1]);
            }
        }
        if room >= n {
            let all = service_blocks(p, i, width);
            let rest = service_blocks(p, start + 2 * n, width);
            lemma_blocks_are_plausible(p, start + 2 * n, width);
            assert(all == seq![all[0]] + rest);
            assert forall|k: int| 0 <= k < all.len() implies plausible_components(
                (#[trigger] all[k]).1,
            ) by {
                if k > 0 {
                    assert(all[k] == rest[k - 1]);
                }
            }
        }
    }
}

/// Adding a component again changes nothing.
pub proof fn law_component_is_added_once(list: Seq<ComponentModel>, c: ComponentModel)
    ensures
        with_component(with_component(list, c), c) == with_component(list, c),
{
    if !has_component(list, c) {
        assert(same_component(list.push(c)[list.len() as int], c));
    }
}

proof fn lemma_components_stay_distinct(
    list: Seq<ComponentModel>,
    more: Seq<ComponentModel>,
    n: int,
)
    requires
        distinct_components(list),
        plausible_components(list),
        plausible_components(more),
        n <= more.len(),
    ensures
        distinct_components(with_components(list, more, n)),
        plausible_components(with_components(list, more, n)),
    decreases n,
{
    if n > 0 {
        lemma_components_stay_distinct(list, more, n - 1);
    }
}

proof fn lemma_entries_stay_consistent(e: EnsembleModel, entries: Seq<SubChannelModel>)
    requires
        consistent(e),
        forall|k: int| 0 <= k < entries.len() ==> plausible_sub_channel(#[trigger] entries[k]),
    ensures
        consistent(with_sub_channels(e, entries)),
    decreases entries.len(),
{
    if entries.len() > 0 {
        let next = EnsembleModel {
            sub_channels: e.sub_channels.insert(entries[0].sub_ch_id, entries[0]),
            ..e
        };
        assert(consistent(next));
        lemma_entries_stay_consistent(next, entries.drop_first());
    }
}

proof fn lemma_blocks_stay_consistent(
    e: EnsembleModel,
    blocks: Seq<(u32, Seq<ComponentModel>)>,
    is_data: bool,
)
    requires
        consistent(e),
        forall|k: int| 0 <= k < blocks.len() ==> plausible_components((#[trigger] blocks[k]).1),
    ensures
        consistent(with_blocks(e, blocks, is_data)),
    decreases blocks.len(),
{
    if blocks.len() > 0 {
        let next = with_block(e, blocks[0], is_data);
        let s = service_or_new(e, blocks[0].0, is_data);
        lemma_components_stay_distinct(s.components, blocks[0].1, blocks[0].1.len() as int);
        assert(consistent(next));
        lemma_blocks_stay_consistent(next, blocks.drop_first(), is_data);
    }
}

proof fn lemma_fig_stays_consistent(e: EnsembleModel, fig: (u8, Seq<u8>))
    requires
        consistent(e),
    ensures
        consistent(with_fig(e, fig)),
{
    let p = fig.1;
    if p.len() > 0 {
        lemma_entries_are_plausible(p, 1);
        lemma_blocks_are_plausible(p, 1, 2);
        lemma_blocks_are_plausible(p, 1, 4);
        lemma_entries_stay_consistent(e, sub_channel_entries(p, 1));
        lemma_blocks_stay_consistent(e, service_blocks(p, 1, 2), false);
        lemma_blocks_stay_consistent(e, service_blocks(p, 1, 4), true);
    }
}

proof fn lemma_figs_stay_consistent(e: EnsembleModel, figs: Seq<(u8, Seq<u8>)>, n: int)
    requires
        consistent(e),
        n <= figs.len(),
    ensures
        consistent(with_figs(e, figs, n)),
    decreases n,
{
    if n > 0 {
        lemma_figs_stay_consistent(e, figs, n - 1);
        lemma_fig_stays_consistent(with_figs(e, figs, n - 1), figs[n - 1]);
    }
}

/// A consistent ensemble stays consistent, whatever blocks are taken in.
pub proof fn law_ensemble_stays_consistent(e: EnsembleModel, fic: Seq<u8>, n: int)
    requires
        consistent(e),
    ensures
        consistent(with_fibs(e, fic, n)),
    decreases n,
{
    if n > 0 {
        law_ensemble_stays_consistent(e, fic, n - 1);
        let figs = figs_from(fib_of(fic, n - 1).take(30), 0);
        lemma_figs_stay_consistent(with_fibs(e, fic, n - 1), figs, figs.len() as int);
    }
}

/// The ensemble after the first `n` of `feeds` were taken in, from the start.
pub open spec fn gathered_from(feeds: Seq<Seq<u8>>, n: int) -> EnsembleModel
    decreases n,
{
    if n <= 0 {
        unknown_ensemble()
    } else {
        with_fibs(gathered_from(feeds, n - 1), feeds[n - 1], fib_count(feeds[n - 1]))
    }
}

/// An ensemble gathered from the start is consistent, whatever was taken in.
pub proof fn law_gathered_ensembles_are_consistent(feeds: Seq<Seq<u8>>, n: int)
    ensures
        consistent(gathered_from(feeds, n)),
    decreases n,
{
    if n > 0 {
        law_gathered_ensembles_are_consistent(feeds, n - 1);
        law_ensemble_stays_consistent(
            gathered_from(feeds, n - 1),
            feeds[n - 1],
            fib_count(feeds[n - 1]),
        );
    }
}

proof fn lemma_blocks_of_a_join(e: EnsembleModel, a: Seq<u8>, b: Seq<u8>, n: int)
    requires
        a.len() % 32 == 0,
        32 * n <= a.len(),
    ensures
        with_fibs(e, a + b, n) == with_fibs(e, a, n),
        sound_fibs(a + b, n) == sound_fibs(a, n),
    decreases n,
{
    if n > 0 {
        lemma_blocks_of_a_join(e, a, b, n - 1);
        assert(fib_of(a + b, n - 1) =~= fib_of(a, n - 1));
    }
}

proof fn lemma_blocks_behind_a_join(e: EnsembleModel, a: Seq<u8>, b: Seq<u8>, m: int, n: int)
    requires
        a.len() == 32 * m,
        0 <= n <= fib_count(b),
    ensures
        with_fibs(e, a + b, m + n) == with_fibs(with_fibs(e, a, m), b, n),
        sound_fibs(a + b, m + n) == sound_fibs(a, m) + sound_fibs(b, n),
    decreases n,
{
    if n == 0 {
        lemma_blocks_of_a_join(e, a, b, m);
    } else {
        lemma_blocks_behind_a_join(e, a, b, m, n - 1);
        assert(fib_of(a + b, m + n - 1) =~= fib_of(b, n - 1));
    }
}

/// Taking in whole blocks and then more is taking in both at once.
pub proof fn law_feeds_of_whole_blocks_join(e: EnsembleModel, a: Seq<u8>, b: Seq<u8>)
    requires
        a.len() % 32 == 0,
    ensures
        with_fibs(with_fibs(e, a, fib_count(a)), b, fib_count(b)) == with_fibs(
            e,
            a + b,
            fib_count(a + b),
        ),
        sound_fibs(a, fib_count(a)) + sound_fibs(b, fib_count(b)) == sound_fibs(
            a + b,
            fib_count(a + b),
        ),
        fib_count(a) + fib_count(b) == fib_count(a + b),
{
    lemma_blocks_behind_a_join(e, a, b, fib_count(a), fib_count(b));
}

/// The last entry for a sub-channel stands; sub-channels without an entry stay.
pub proof fn law_last_entry_stands(e: EnsembleModel, entries: Seq<SubChannelModel>, id: u8)
    ensures
        (forall|k: int| 0 <= k < entries.len() ==> (#[trigger] entries[k]).sub_ch_id != id) ==> (
        with_sub_channels(e, entries).sub_channels.contains_key(id)
            == e.sub_channels.contains_key(id) && with_sub_channels(e, entries).sub_channels[id]
            == e.sub_channels[id]),
        forall|k: int|
            0 <= k < entries.len() && (#[trigger] entries[k]).sub_ch_id == id && (forall|j: int|
                k < j < entries.len() ==> (#[trigger] entries[j]).sub_ch_id != id)
                ==> with_sub_channels(e, entries).sub_channels.contains_key(id)
                && with_sub_channels(e, entries).sub_channels[id] == entries[k],
    decreases entries.len(),
{
    if entries.len() > 0 {
        let rest = entries.drop_first();
        let next = EnsembleModel {
            sub_channels: e.sub_channels.insert(entries[0].sub_ch_id, entries[0]),
            ..e
        };
        law_last_entry_stands(next, rest, id);
        assert forall|k: int|
            0 <= k < entries.len() && (#[trigger] entries[k]).sub_ch_id == id && (forall|j: int|
                k < j < entries.len() ==> (#[trigger] entries[j]).sub_ch_id
                    != id) implies with_sub_channels(e, entries).sub_channels.contains_key(id)
            && with_sub_channels(e, entries).sub_channels[id] == entries[k] by {
            if k == 0 {
                assert forall|j: int| 0 <= j < rest.len() implies (#[trigger] rest[j]).sub_ch_id
                    != id by {
                    assert(rest[j] == entries[j + 1]);
                }
            } else {
                assert(rest[k - 1] == entries[k]);
                assert forall|j: int| k - 1 < j < rest.len() implies (
                #[trigger] rest[j]).sub_ch_id != id by {
                    assert(rest[j] == entries[j + 1]);
                }
            }
        }
        if forall|k: int| 0 <= k < entries.len() ==> (#[trigger] entries[k]).sub_ch_id != id {
            assert(entries[0].sub_ch_id != id);
            assert forall|j: int| 0 <= j < rest.len() implies (#[trigger] rest[j]).sub_ch_id
                != id by {
                assert(rest[j] == entries[j + 1]);
            }
        }
    }
}

/// A whole block counts as sound exactly if its last two bytes are the checksum of the
/// thirty before them; a shorter last block never does.
pub proof fn law_sound_blocks_are_counted(fic: Seq<u8>, n: int)
    requires
        0 <= n,
        32 * n < fic.len(),
    ensures
        32 * n + 32 <= fic.len() ==> sound_fibs(fic, n + 1) == sound_fibs(fic, n) + if crc16(
            fic.subrange(32 * n, 32 * n + 30),
        ) == 0x100 * fic[32 * n + 30] + fic[32 * n + 31] {
            1int
        } else {
            0
        },
        32 * n + 32 > fic.len() ==> sound_fibs(fic, n + 1) == sound_fibs(fic, n),
        n < fib_count(fic),
        n + 1 == fib_count(fic) <==> fic.len() <= 32 * n + 32,
{
    if 32 * n + 32 <= fic.len() {
        assert(fib_of(fic, n).take(30) =~= fic.subrange(32 * n, 32 * n + 30));
    }
}

} // verus!
