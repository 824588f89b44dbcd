//! The fast information channel repeats itself; hearing it again teaches nothing new.
//!
//! Every group is taken apart into elementary updates.  An update either writes a
//! place of the ensemble, whatever stood there, or adds something that is added only
//! once.

use vstd::prelude::*;
use crate::crc::is_sound_fib;
use crate::ensemble::{big_endian, fib_of, has_component, same_component, service_blocks};
use crate::ensemble::{service_or_new, sub_channel_entries, with_block, with_blocks, with_component};
use crate::ensemble::{with_components, with_fibs, with_fig, with_figs};
use crate::ensemble::{with_service_label, with_sub_channels};
use crate::ensemble::{ComponentModel, EnsembleModel, SubChannelModel};
use crate::fig::figs_from;
use crate::label::label_text;

verus! {

/// One elementary change of an ensemble.
pub enum Update {
    /// The ensemble has this identifier.
    Eid(u16),
    /// The ensemble has this label.
    Label(Seq<char>),
    /// There is this sub-channel.
    SubChannel(SubChannelModel),
    /// The service has these components; it is a data service if it is new.
    Components(u32, Seq<ComponentModel>, bool),
    /// The service has this label; it is a data service if it is new.
    ServiceLabel(u32, Seq<char>, bool),
}

/// An ensemble after one update.
pub open spec fn updated(e: EnsembleModel, u: Update) -> EnsembleModel {
    match u {
        Update::Eid(eid) => EnsembleModel { eid: Some(eid), ..e },
        Update::Label(label) => EnsembleModel { label, ..e },
        Update::SubChannel(s) => EnsembleModel {
            sub_channels: e.sub_channels.insert(s.sub_ch_id, s),
            ..e
        },
        Update::Components(sid, components, is_data) => with_block(e, (sid, components), is_data),
        Update::ServiceLabel(sid, label, is_data) => with_service_label(e, sid, is_data, label),
    }
}

/// An ensemble after all `updates` in turn.
pub open spec fn after_updates(e: EnsembleModel, updates: Seq<Update>) -> EnsembleModel
    decreases updates.len(),
{
    if updates.len() == 0 {
        e
    } else {
        after_updates(updated(e, updates[0]), updates.drop_first())
    }
}

/// The updates that a FIG 1 stands for.
pub open spec fn label_updates(p: Seq<u8>) -> Seq<Update> {
    let ext = p[0] as int % 8;
    if p.len() == 0 {
        Seq::empty()
    } else if ext == 0 && p.len() >= 21 {
        seq![Update::Label(label_text(p.subrange(3, 19)))]
    } else if ext == 1 && p.len() >= 21 {
        seq![
            Update::ServiceLabel(
                big_endian(p, 1, 2) as u32,
                label_text(p.subrange(3, 19)),
                false,
            ),
        ]
    } else if ext == 5 && p.len() >= 23 {
        seq![
            Update::ServiceLabel(
                big_endian(p, 1, 4) as u32,
                label_text(p.subrange(5, 21)),
                true,
            ),
        ]
    } else {
        Seq::empty()
    }
}

/// One update for each sub-channel entry.
pub open spec fn entry_updates(entries: Seq<SubChannelModel>) -> Seq<Update> {
    Seq::new(entries.len(), |k: int| Update::SubChannel(entries[k]))
}

/// One update for each service.
pub open spec fn block_updates(
    blocks: Seq<(u32, Seq<ComponentModel>)>,
    is_data: bool,
) -> Seq<Update> {
    Seq::new(blocks.len(), |k: int| Update::Components(blocks[k].0, blocks[k].1, is_data))
}

/// The updates that a group stands for.
pub open spec fn fig_updates(fig: (u8, Seq<u8>)) -> Seq<Update> {
    let p = fig.1;
    if fig.0 == 0 && p.len() > 0 {
        let data_services = (p[0] as int / 32) % 2 == 1;
        let ext = p[0] as int % 32;
        if ext == 0 && p.len() >= 4 {
            seq![Update::Eid((256 * p[1] + p[2]) as u16)]
        } else if ext == 1 {
            entry_updates(sub_channel_entries(p, 1))
        } else if ext == 2 {
            block_updates(
                service_blocks(
                    p,
                    1,
                    if data_services {
                        4
                    } else {
                        2
                    },
                ),
                data_services,
            )
        } else {
            Seq::empty()
        }
    } else if fig.0 == 1 {
        label_updates(p)
    } else {
        Seq::empty()
    }
}

/// The updates of the first `n` groups.
pub open spec fn figs_updates(figs: Seq<(u8, Seq<u8>)>, n: int) -> Seq<Update>
    decreases n,
{
    if n <= 0 {
        Seq::empty()
    } else {
        figs_updates(figs, n - 1) + fig_updates(figs[n - 1])
    }
}

/// The updates of the first `n` blocks.
pub open spec fn fic_updates(fic: Seq<u8>, n: int) -> Seq<Update>
    decreases n,
{
    if n <= 0 {
        Seq::empty()
    } else {
        let fib = fib_of(fic, n - 1);
        let figs = figs_from(fib.take(30), 0);
        fic_updates(fic, n - 1) + if is_sound_fib(fib) {
            figs_updates(figs, figs.len() as int)
        } else {
            Seq::empty()
        }
    }
}

proof fn lemma_updates_join(e: EnsembleModel, a: Seq<Update>, b: Seq<Update>)
    ensures
        after_updates(e, a + b) == after_updates(after_updates(e, a), b),
    decreases a.len(),
{
    if a.len() == 0 {
        assert(a + b =~= b);
    } else {
        lemma_updates_join(updated(e, a[0]), a.drop_first(), b);
        assert((a + b).drop_first() =~= a.drop_first() + b);
    }
}

proof fn lemma_entry_updates(e: EnsembleModel, entries: Seq<SubChannelModel>)
    ensures
        after_updates(e, entry_updates(entries)) == with_sub_channels(e, entries),
    decreases entries.len(),
{
    if entries.len() > 0 {
        let us = entry_updates(entries);
        lemma_entry_updates(updated(e, us[0]), entries.drop_first());
        assert(us.drop_first() =~= entry_updates(entries.drop_first()));
    }
}

proof fn lemma_block_updates(
    e: EnsembleModel,
    blocks: Seq<(u32, Seq<ComponentModel>)>,
    is_data: bool,
)
    ensures
        after_updates(e, block_updates(blocks, is_data)) == with_blocks(e, blocks, is_data),
    decreases blocks.len(),
{
    if blocks.len() > 0 {
        let us = block_updates(blocks, is_data);
        lemma_block_updates(updated(e, us[0]), blocks.drop_first(), is_data);
        assert(us.drop_first() =~= block_updates(blocks.drop_first(), is_data));
    }
}

proof fn lemma_fig_updates(e: EnsembleModel, fig: (u8, Seq<u8>))
    ensures
        after_updates(e, fig_updates(fig)) == with_fig(e, fig),
{
    reveal_with_fuel(after_updates, 2);
    let p = fig.1;
    if p.len() > 0 {
        lemma_entry_updates(e, sub_channel_entries(p, 1));
        lemma_block_updates(e, service_blocks(p, 1, 2), false);
        lemma_block_updates(e, service_blocks(p, 1, 4), true);
    }
}

proof fn lemma_figs_updates(e: EnsembleModel, figs: Seq<(u8, Seq<u8>)>, n: int)
    ensures
        after_updates(e, figs_updates(figs, n)) == with_figs(e, figs, n),
    decreases n,
{
    if n > 0 {
        lemma_figs_updates(e, figs, n - 1);
        lemma_updates_join(e, figs_updates(figs, n - 1), fig_updates(figs[n - 1]));
        lemma_fig_updates(with_figs(e, figs, n - 1), figs[n - 1]);
    }
}

/// Taking in blocks is applying their updates.
pub proof fn law_blocks_are_their_updates(e: EnsembleModel, fic: Seq<u8>, n: int)
    ensures
        after_updates(e, fic_updates(fic, n)) == with_fibs(e, fic, n),
    decreases n,
{
    if n > 0 {
        law_blocks_are_their_updates(e, fic, n - 1);
        let fib = fib_of(fic, n - 1);
        let figs = figs_from(fib.take(30), 0);
        let last = if is_sound_fib(fib) {
            figs_updates(figs, figs.len() as int)
        } else {
            Seq::empty()
        };
        lemma_updates_join(e, fic_updates(fic, n - 1), last);
        lemma_figs_updates(with_fibs(e, fic, n - 1), figs, figs.len() as int);
    }
}

// ---------------------------------------------------------------------------
// Places that are written
// ---------------------------------------------------------------------------

/// The sub-channel filed under `id`, if any.
spec fn sub_channel(e: EnsembleModel, id: u8) -> Option<SubChannelModel> {
    if e.sub_channels.contains_key(id) {
        Some(e.sub_channels[id])
    } else {
        None
    }
}

/// The label of service `sid`; empty if there is no such service.
spec fn service_label(e: EnsembleModel, sid: u32) -> Seq<char> {
    if e.services.contains_key(sid) {
        e.services[sid].label
    } else {
        Seq::empty()
    }
}

/// Updates leave a place alone in every ensemble, or write the same into it.
proof fn lemma_places(a: EnsembleModel, b: EnsembleModel, us: Seq<Update>, id: u8, sid: u32)
    ensures
        ({
            let x = after_updates(a, us);
            let y = after_updates(b, us);
            &&& x.eid == y.eid || (x.eid == a.eid && y.eid == b.eid)
            &&& x.label == y.label || (x.label == a.label && y.label == b.label)
            &&& sub_channel(x, id) == sub_channel(y, id) || (sub_channel(x, id) == sub_channel(
                a,
                id,
            ) && sub_channel(y, id) == sub_channel(b, id))
            &&& service_label(x, sid) == service_label(y, sid) || (service_label(x, sid)
                == service_label(a, sid) && service_label(y, sid) == service_label(b, sid))
        }),
    decreases us.len(),
{
    if us.len() > 0 {
        lemma_places(updated(a, us[0]), updated(b, us[0]), us.drop_first(), id, sid);
    }
}

// ---------------------------------------------------------------------------
// What is added once
// ---------------------------------------------------------------------------

/// `y` has every service of `x`, unchanged but for its label and for components
/// that came on top.
spec fn grows(x: EnsembleModel, y: EnsembleModel) -> bool {
    &&& x.short_label == y.short_label
    &&& forall|sid: u32| #[trigger]
        x.services.contains_key(sid) ==> {
            &&& y.services.contains_key(sid)
            &&& x.services[sid].sid == y.services[sid].sid
            &&& x.services[sid].is_data == y.services[sid].is_data
            &&& x.services[sid].short_label == y.services[sid].short_label
            &&& forall|c: ComponentModel| #[trigger]
                has_component(x.services[sid].components, c) ==> has_component(
                    y.services[sid].components,
                    c,
                )
        }
}

/// `x` and `y` have the same services, but for labels.
spec fn same_services(x: EnsembleModel, y: EnsembleModel) -> bool {
    &&& x.short_label == y.short_label
    &&& x.services.dom() == y.services.dom()
    &&& forall|sid: u32| #[trigger]
        x.services.contains_key(sid) ==> {
            &&& x.services[sid].sid == y.services[sid].sid
            &&& x.services[sid].is_data == y.services[sid].is_data
            &&& x.services[sid].short_label == y.services[sid].short_label
            &&& x.services[sid].components == y.services[sid].components
        }
}

/// What `u` adds is there.
spec fn absorbed(e: EnsembleModel, u: Update) -> bool {
    match u {
        Update::Components(sid, components, _) => {
            &&& e.services.contains_key(sid)
            &&& forall|k: int|
                0 <= k < components.len() ==> has_component(
                    e.services[sid].components,
                    #[trigger] components[k],
                )
        },
        Update::ServiceLabel(sid, _, _) => e.services.contains_key(sid),
        _ => true,
    }
}

proof fn lemma_component_kept(list: Seq<ComponentModel>, more: ComponentModel, c: ComponentModel)
    ensures
        has_component(list, c) ==> has_component(with_component(list, more), c),
        has_component(with_component(list, more), more),
{
    let longer = with_component(list, more);
    if has_component(list, c) {
        let k = choose|k: int| 0 <= k < list.len() && same_component(#[trigger] list[k], c);
        assert(longer[k] == list[k]);
    }
    if !has_component(list, more) {
        assert(same_component(longer[list.len() as int], more));
    }
}

proof fn lemma_components_kept(
    list: Seq<ComponentModel>,
    more: Seq<ComponentModel>,
    n: int,
    c: ComponentModel,
    k: int,
)
    requires
        n <= more.len(),
    ensures
        has_component(list, c) ==> has_component(with_components(list, more, n), c),
        0 <= k < n ==> has_component(with_components(list, more, n), more[k]),
        (forall|j: int| 0 <= j < n ==> has_component(list, #[trigger] more[j]))
            ==> with_components(list, more, n) == list,
    decreases n,
{
    if n > 0 {
        let before = with_components(list, more, n - 1);
        lemma_components_kept(list, more, n - 1, c, k);
        lemma_component_kept(before, more[n - 1], c);
        if 0 <= k < n - 1 {
            lemma_component_kept(before, more[n - 1], more[k]);
        }
        if forall|j: int| 0 <= j < n ==> has_component(list, #[trigger] more[j]) {
            assert(has_component(list, more[n - 1]));
        }
    }
}

proof fn lemma_update_grows(e: EnsembleModel, u: Update)
    ensures
        grows(e, updated(e, u)),
        absorbed(updated(e, u), u),
        absorbed(e, u) ==> same_services(updated(e, u), e),
{
    let after = updated(e, u);
    match u {
        Update::Components(sid, components, is_data) => {
            let n = components.len() as int;
            let list = service_or_new(e, sid, is_data).components;
            assert forall|c: ComponentModel| #[trigger] has_component(list, c) implies has_component(
                after.services[sid].components,
                c,
            ) by {
                lemma_components_kept(list, components, n, c, 0);
            }
            assert forall|k: int| 0 <= k < n implies has_component(
                after.services[sid].components,
                #[trigger] components[k],
            ) by {
                lemma_components_kept(list, components, n, components[k], k);
            }
            if absorbed(e, u) {
                lemma_components_kept(list, components, n, components[0], 0);
                assert(after.services.dom() =~= e.services.dom());
            }
        },
        Update::ServiceLabel(sid, _, _) => {
            if absorbed(e, u) {
                assert(after.services.dom() =~= e.services.dom());
            }
        },
        _ => {},
    }
}

proof fn lemma_absorbed_later(x: EnsembleModel, y: EnsembleModel, u: Update)
    requires
        grows(x, y),
        absorbed(x, u),
    ensures
        absorbed(y, u),
{
}

proof fn lemma_updates_grow(e: EnsembleModel, us: Seq<Update>)
    ensures
        grows(e, after_updates(e, us)),
        forall|k: int| 0 <= k < us.len() ==> absorbed(after_updates(e, us), #[trigger] us[k]),
    decreases us.len(),
{
    if us.len() > 0 {
        let next = updated(e, us[0]);
        let rest = us.drop_first();
        lemma_update_grows(e, us[0]);
        lemma_updates_grow(next, rest);
        lemma_absorbed_later(next, after_updates(e, us), us[0]);
        assert forall|k: int| 0 <= k < us.len() implies absorbed(
            after_updates(e, us),
            #[trigger] us[k],
        ) by {
            if k > 0 {
                assert(rest[k - 1] == us[k]);
            }
        }
    }
}

proof fn lemma_absorbed_updates(e: EnsembleModel, us: Seq<Update>)
    requires
        forall|k: int| 0 <= k < us.len() ==> absorbed(e, #[trigger] us[k]),
    ensures
        same_services(after_updates(e, us), e),
    decreases us.len(),
{
    if us.len() > 0 {
        let next = updated(e, us[0]);
        let rest = us.drop_first();
        lemma_update_grows(e, us[0]);
        assert(absorbed(e, us[0]));
        assert forall|k: int| 0 <= k < rest.len() implies absorbed(next, #[trigger] rest[k]) by {
            assert(absorbed(e, us[k + 1]));
            lemma_absorbed_later(e, next, rest[k]);
        }
        lemma_absorbed_updates(next, rest);
    }
}

/// Applying the same updates again changes nothing.
pub proof fn law_repeated_updates_change_nothing(e: EnsembleModel, us: Seq<Update>)
    ensures
        after_updates(after_updates(e, us), us) == after_updates(e, us),
{
    let once = after_updates(e, us);
    let twice = after_updates(once, us);
    lemma_updates_grow(e, us);
    lemma_absorbed_updates(once, us);
    assert forall|id: u8| sub_channel(once, id) == #[trigger] sub_channel(twice, id) by {
        lemma_places(e, once, us, id, 0);
    }
    assert forall|sid: u32| service_label(once, sid) == #[trigger] service_label(twice, sid) by {
        lemma_places(e, once, us, 0, sid);
    }
    lemma_places(e, once, us, 0, 0);
    assert forall|id: u8| #[trigger] once.sub_channels.contains_key(id)
        == twice.sub_channels.contains_key(id) by {
        assert(sub_channel(once, id) == sub_channel(twice, id));
    }
    assert forall|id: u8| #[trigger] once.sub_channels.contains_key(id) implies
        twice.sub_channels[id] == once.sub_channels[id] by {
        assert(sub_channel(once, id) == sub_channel(twice, id));
    }
    assert(twice.sub_channels.dom() =~= once.sub_channels.dom());
    assert(twice.sub_channels =~= once.sub_channels);
    assert forall|sid: u32| #[trigger] once.services.contains_key(sid) implies twice.services[sid]
        == once.services[sid] by {
        assert(twice.services.contains_key(sid));
        assert(service_label(once, sid) == service_label(twice, sid));
        assert(twice.services[sid] =~= once.services[sid]);
    }
    assert(twice.services =~= once.services);
    assert(twice =~= once);
}

/// A channel that repeats itself changes nothing: taking in the same blocks again
/// leaves the ensemble as it is.
pub proof fn law_repeated_blocks_change_nothing(e: EnsembleModel, fic: Seq<u8>, n: int)
    ensures
        with_fibs(with_fibs(e, fic, n), fic, n) == with_fibs(e, fic, n),
{
    law_blocks_are_their_updates(e, fic, n);
    law_blocks_are_their_updates(with_fibs(e, fic, n), fic, n);
    law_repeated_updates_change_nothing(e, fic_updates(fic, n));
}

} // verus!
