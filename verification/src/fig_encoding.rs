//! Writing fast information groups and reading them back.

use vstd::prelude::*;
use crate::crc::{crc16, is_sound_fib};
use crate::ensemble::{big_endian, component_of, components_at, long_entry, service_blocks};
use crate::ensemble::{short_entry, sub_channel_entries, with_blocks, with_component};
use crate::ensemble::{with_components, with_fib, with_fig, with_figs, with_sub_channels};
use crate::ensemble::{ComponentModel, EnsembleModel, ServiceModel, SubChannelModel};
use crate::fic_tables::{eep_label, eep_rate, uep_level, uep_rate, uep_units};
use crate::fig::{encodable, figs_from, joined, law_splitting_undoes_joining};
use crate::label::label_text;
use crate::text::digit;

verus! {

// ---------------------------------------------------------------------------
// Sub-channel organisation
// ---------------------------------------------------------------------------

/// One entry of a FIG 0/1.
pub enum EntryCode {
    /// Three bytes: id, start address, table switch and table index.
    Short { id: u8, start: u16, switch: bool, index: u8 },
    /// Four bytes: id, start address, option, protection level and size.
    Long { id: u8, start: u16, option: u8, level: u8, size: u16 },
}

/// The fields have their widths.
pub open spec fn entry_fits(c: EntryCode) -> bool {
    match c {
        EntryCode::Short { id, start, switch, index } => id < 64 && start < 1024 && index < 64,
        EntryCode::Long { id, start, option, level, size } => id < 64 && start < 1024 && option < 8
            && level < 4 && size < 1024,
    }
}

/// The bytes of an entry.
pub open spec fn entry_bytes(c: EntryCode) -> Seq<u8> {
    match c {
        EntryCode::Short { id, start, switch, index } => seq![
            (4 * id + start / 256) as u8,
            (start % 256) as u8,
            (index + if switch { 64int } else { 0 }) as u8,
        ],
        EntryCode::Long { id, start, option, level, size } => seq![
            (4 * id + start / 256) as u8,
            (start % 256) as u8,
            (128 + 16 * option + 4 * level + size / 256) as u8,
            (size % 256) as u8,
        ],
    }
}

/// The sub-channel that an entry announces.
pub open spec fn entry_meaning(c: EntryCode) -> SubChannelModel {
    match c {
        EntryCode::Short { id, start, switch, index } => SubChannelModel {
            sub_ch_id: id,
            start_addr: start,
            size_cu: uep_units(index as int) as u16,
            protection: "UEP-"@.push(digit(uep_level(index as int))),
            bitrate_kbps: uep_rate(index as int) as u16,
            is_long_form: false,
        },
        EntryCode::Long { id, start, option, level, size } => SubChannelModel {
            sub_ch_id: id,
            start_addr: start,
            size_cu: size,
            protection: eep_label(option as int, level as int),
            bitrate_kbps: eep_rate(option as int, level as int, size as int) as u16,
            is_long_form: true,
        },
    }
}

/// The entries one after the other.
pub open spec fn written_entries(list: Seq<EntryCode>) -> Seq<u8>
    decreases list.len(),
{
    if list.len() == 0 {
        Seq::empty()
    } else {
        entry_bytes(list[0]) + written_entries(list.drop_first())
    }
}

/// What the entries announce.
pub open spec fn entry_meanings(list: Seq<EntryCode>) -> Seq<SubChannelModel> {
    Seq::new(list.len(), |k: int| entry_meaning(list[k]))
}

proof fn lemma_long_bits(option: int, level: int, high: int)
    requires
        0 <= option < 8,
        0 <= level < 4,
        0 <= high < 4,
    ensures
        ({
            let b = 128 + 16 * option + 4 * level + high;
            128 <= b < 256 && (b / 16) % 8 == option && (b / 4) % 4 == level && b % 4 == high
        }),
{
}

proof fn lemma_ten_bits(front: int, v: int)
    requires
        0 <= front < 64,
        0 <= v < 1024,
    ensures
        ({
            let b = 4 * front + v / 256;
            &&& 0 <= b < 256
            &&& b / 4 == front
            &&& (b % 4) * 256 + v % 256 == v
        }),
{
}

proof fn lemma_entry_read(p: Seq<u8>, i: int, c: EntryCode)
    requires
        0 <= i,
        i + entry_bytes(c).len() <= p.len(),
        entry_fits(c),
        p.subrange(i, i + entry_bytes(c).len()) == entry_bytes(c),
    ensures
        c is Short ==> p[i + 2] < 128 && short_entry(p, i) == entry_meaning(c),
        c is Long ==> p[i + 2] >= 128 && long_entry(p, i) == entry_meaning(c),
{
    let b = entry_bytes(c);
    assert forall|j: int| 0 <= j < b.len() implies #[trigger] p[i + j] == b[j] by {
        assert(p.subrange(i, i + b.len())[j] == p[i + j]);
    }
    assert(p[i + 0] == b[0] && p[i + 1] == b[1] && p[i + 2] == b[2]);
    match c {
        EntryCode::Short { id, start, switch, index } => {
            lemma_ten_bits(id as int, start as int);
            assert(p[i + 2] as int % 64 == index);
            assert(short_entry(p, i) == entry_meaning(c));
        },
        EntryCode::Long { id, start, option, level, size } => {
            assert(p[i + 3] == b[3]);
            lemma_ten_bits(id as int, start as int);
            lemma_long_bits(option as int, level as int, size as int / 256);
            assert((p[i + 2] as int / 16) % 8 == option && (p[i + 2] as int / 4) % 4 == level);
            assert((p[i + 2] as int % 4) * 256 + p[i + 3] == size);
            assert(long_entry(p, i) == entry_meaning(c));
        },
    }
}

proof fn lemma_entries_read(prefix: Seq<u8>, list: Seq<EntryCode>, rest: Seq<u8>)
    requires
        forall|k: int| 0 <= k < list.len() ==> entry_fits(#[trigger] list[k]),
        rest.len() < 3 || (rest.len() == 3 && rest[2] >= 128),
    ensures
        sub_channel_entries(prefix + written_entries(list) + rest, prefix.len() as int)
            == entry_meanings(list),
    decreases list.len(),
{
    let p = prefix + written_entries(list) + rest;
    let i = prefix.len() as int;
    if list.len() == 0 {
        assert(rest.len() == 3 ==> p[i + 2] == rest[2]);
        assert(sub_channel_entries(p, i) =~= entry_meanings(list));
    } else {
        let c = list[0];
        let b = entry_bytes(c);
        let longer = prefix + b;
        lemma_entries_read(longer, list.drop_first(), rest);
        assert(p =~= longer + written_entries(list.drop_first()) + rest);
        assert(p.subrange(i, i + b.len()) =~= b);
        lemma_entry_read(p, i, c);
        assert(seq![entry_meaning(c)] + entry_meanings(list.drop_first()) =~= entry_meanings(list));
    }
}

/// Reading undoes writing for sub-channels: a FIG 0/1 with any list of entries files
/// the sub-channel of every entry, in the order of the list; an incomplete entry behind
/// them counts for nothing.
pub proof fn law_sub_channel_entries_come_back(
    e: EnsembleModel,
    header: u8,
    list: Seq<EntryCode>,
    rest: Seq<u8>,
)
    requires
        header % 32 == 1,
        forall|k: int| 0 <= k < list.len() ==> entry_fits(#[trigger] list[k]),
        rest.len() < 3 || (rest.len() == 3 && rest[2] >= 128),
    ensures
        with_fig(e, (0u8, seq![header] + written_entries(list) + rest)) == with_sub_channels(
            e,
            entry_meanings(list),
        ),
{
    lemma_entries_read(seq![header], list, rest);
}

/// Filing sub-channels changes nothing else.
pub proof fn law_filing_changes_sub_channels_only(e: EnsembleModel, list: Seq<SubChannelModel>)
    ensures
        with_sub_channels(e, list).eid == e.eid,
        with_sub_channels(e, list).label == e.label,
        with_sub_channels(e, list).short_label == e.short_label,
        with_sub_channels(e, list).services == e.services,
    decreases list.len(),
{
    if list.len() > 0 {
        let next = EnsembleModel {
            sub_channels: e.sub_channels.insert(list[0].sub_ch_id, list[0]),
            ..e
        };
        law_filing_changes_sub_channels_only(next, list.drop_first());
    }
}

// ---------------------------------------------------------------------------
// Service organisation
// ---------------------------------------------------------------------------

/// One component description of a FIG 0/2.
pub enum ComponentCode {
    /// Audio in a sub-channel.
    Audio { kind: u8, sub_channel: u8, primary: bool, access: bool },
    /// A data stream in a sub-channel.
    Stream { kind: u8, sub_channel: u8, primary: bool, access: bool },
    /// The fast information data channel.
    Fidc { kind: u8, sub_channel: u8, primary: bool, access: bool },
    /// Packet mode.
    Packet { id: u16, primary: bool, access: bool },
}

/// The fields have their widths.
pub open spec fn component_fits(c: ComponentCode) -> bool {
    match c {
        ComponentCode::Audio { kind, sub_channel, primary, access } => kind < 64 && sub_channel
            < 64,
        ComponentCode::Stream { kind, sub_channel, primary, access } => kind < 64 && sub_channel
            < 64,
        ComponentCode::Fidc { kind, sub_channel, primary, access } => kind < 64 && sub_channel < 64,
        ComponentCode::Packet { id, primary, access } => id < 4096,
    }
}

/// The two bits at the end of a description.
pub open spec fn end_bits(primary: bool, access: bool) -> int {
    (if primary {
        2int
    } else {
        0
    }) + (if access {
        1int
    } else {
        0
    })
}

/// The two bytes of a component description.
pub open spec fn component_bytes(c: ComponentCode) -> (u8, u8) {
    match c {
        ComponentCode::Audio { kind, sub_channel, primary, access } => (
            kind,
            (4 * sub_channel + end_bits(primary, access)) as u8,
        ),
        ComponentCode::Stream { kind, sub_channel, primary, access } => (
            (64 + kind) as u8,
            (4 * sub_channel + end_bits(primary, access)) as u8,
        ),
        ComponentCode::Fidc { kind, sub_channel, primary, access } => (
            (128 + kind) as u8,
            (4 * sub_channel + end_bits(primary, access)) as u8,
        ),
        ComponentCode::Packet { id, primary, access } => (
            (192 + id / 64) as u8,
            (4 * (id % 64) + end_bits(primary, access)) as u8,
        ),
    }
}

/// The component that a description stands for.
pub open spec fn component_meaning(c: ComponentCode) -> ComponentModel {
    match c {
        ComponentCode::Audio { kind, sub_channel, primary, access } => ComponentModel {
            sub_ch_id: Some(sub_channel),
            sc_id_s: 0,
            transport: "stream-audio"@,
            ascty_or_dscty: kind,
            is_primary: primary,
            label: Seq::empty(),
        },
        ComponentCode::Stream { kind, sub_channel, primary, access } => ComponentModel {
            sub_ch_id: Some(sub_channel),
            sc_id_s: 0,
            transport: "stream-data"@,
            ascty_or_dscty: kind,
            is_primary: primary,
            label: Seq::empty(),
        },
        ComponentCode::Fidc { kind, sub_channel, primary, access } => ComponentModel {
            sub_ch_id: Some(sub_channel),
            sc_id_s: 0,
            transport: "fidc"@,
            ascty_or_dscty: kind,
            is_primary: primary,
            label: Seq::empty(),
        },
        ComponentCode::Packet { id, primary, access } => ComponentModel {
            sub_ch_id: None,
            sc_id_s: id,
            transport: "packet"@,
            ascty_or_dscty: 0,
            is_primary: primary,
            label: Seq::empty(),
        },
    }
}

/// A component description reads back as the component it was written for.
pub proof fn law_components_come_back(c: ComponentCode)
    requires
        component_fits(c),
    ensures
        component_of(component_bytes(c).0, component_bytes(c).1) == component_meaning(c),
{
    assert(component_of(component_bytes(c).0, component_bytes(c).1) =~= component_meaning(c));
}

/// One service of a FIG 0/2.
pub struct ServiceCode {
    pub sid: u32,
    /// The four bits in front of the number of components.
    pub flags: u8,
    pub components: Seq<ComponentCode>,
}

/// The fields have their widths; ids of programme services have two bytes, those of
/// data services four.
pub open spec fn service_fits(s: ServiceCode, data: bool) -> bool {
    &&& !data ==> s.sid < 0x1_0000
    &&& s.flags < 16
    &&& s.components.len() < 16
    &&& forall|k: int| 0 <= k < s.components.len() ==> component_fits(#[trigger] s.components[k])
}

/// A service id, highest byte first.
pub open spec fn sid_bytes(sid: u32, data: bool) -> Seq<u8> {
    if data {
        seq![
            (sid / 0x100_0000) as u8,
            ((sid / 0x1_0000) % 0x100) as u8,
            ((sid / 0x100) % 0x100) as u8,
            (sid % 0x100) as u8,
        ]
    } else {
        seq![(sid / 0x100) as u8, (sid % 0x100) as u8]
    }
}

/// The component descriptions one after the other.
pub open spec fn written_components(list: Seq<ComponentCode>) -> Seq<u8> {
    Seq::new(
        2 * list.len(),
        |j: int|
            if j % 2 == 0 {
                component_bytes(list[j / 2]).0
            } else {
                component_bytes(list[j / 2]).1
            },
    )
}

/// The bytes of a service: id, number of components, components.
pub open spec fn service_bytes(s: ServiceCode, data: bool) -> Seq<u8> {
    sid_bytes(s.sid, data) + seq![(16 * s.flags + s.components.len()) as u8] + written_components(
        s.components,
    )
}

/// The services one after the other.
pub open spec fn written_services(list: Seq<ServiceCode>, data: bool) -> Seq<u8>
    decreases list.len(),
{
    if list.len() == 0 {
        Seq::empty()
    } else {
        service_bytes(list[0], data) + written_services(list.drop_first(), data)
    }
}

/// A service and its components.
pub open spec fn service_meaning(s: ServiceCode) -> (u32, Seq<ComponentModel>) {
    (s.sid, Seq::new(s.components.len(), |k: int| component_meaning(s.components[k])))
}

/// What the services are.
pub open spec fn service_meanings(list: Seq<ServiceCode>) -> Seq<(u32, Seq<ComponentModel>)> {
    Seq::new(list.len(), |k: int| service_meaning(list[k]))
}

spec fn id_width(data: bool) -> int {
    if data {
        4
    } else {
        2
    }
}

proof fn lemma_sid_read(p: Seq<u8>, i: int, sid: u32, data: bool)
    requires
        0 <= i,
        i + id_width(data) <= p.len(),
        !data ==> sid < 0x1_0000,
        p.subrange(i, i + id_width(data)) == sid_bytes(sid, data),
    ensures
        big_endian(p, i, id_width(data)) == sid,
{
    reveal_with_fuel(big_endian, 5);
    let b = sid_bytes(sid, data);
    assert forall|j: int| 0 <= j < b.len() implies #[trigger] p[i + j] == b[j] by {
        assert(p.subrange(i, i + id_width(data))[j] == p[i + j]);
    }
    assert(p[i + 0] == b[0] && p[i + 1] == b[1]);
    if data {
        assert(p[i + 2] == b[2] && p[i + 3] == b[3]);
    }
}

proof fn lemma_components_read(p: Seq<u8>, start: int, list: Seq<ComponentCode>)
    requires
        0 <= start,
        start + 2 * list.len() <= p.len(),
        forall|k: int| 0 <= k < list.len() ==> component_fits(#[trigger] list[k]),
        p.subrange(start, start + 2 * list.len()) == written_components(list),
    ensures
        components_at(p, start, list.len() as int) == Seq::new(
            list.len(),
            |k: int| component_meaning(list[k]),
        ),
{
    let w = written_components(list);
    assert forall|k: int| 0 <= k < list.len() implies component_of(
        p[start + 2 * k],
        p[start + 2 * k + 1],
    ) == component_meaning(#[trigger] list[k]) by {
        law_components_come_back(list[k]);
        assert(p.subrange(start, start + 2 * list.len())[2 * k] == p[start + 2 * k]);
        assert(p.subrange(start, start + 2 * list.len())[2 * k + 1] == p[start + 2 * k + 1]);
        assert((2 * k) / 2 == k && (2 * k + 1) / 2 == k);
    }
    assert(components_at(p, start, list.len() as int) =~= Seq::new(
        list.len(),
        |k: int| component_meaning(list[k]),
    ));
}

proof fn lemma_parts_read(
    p: Seq<u8>,
    i: int,
    sid: u32,
    count: u8,
    components: Seq<ComponentCode>,
    data: bool,
)
    requires
        0 <= i,
        i + id_width(data) + 1 + 2 * components.len() <= p.len(),
        !data ==> sid < 0x1_0000,
        forall|k: int| 0 <= k < components.len() ==> component_fits(#[trigger] components[k]),
        p.subrange(i, i + id_width(data) + 1 + 2 * components.len()) == sid_bytes(sid, data) + seq![
            count,
        ] + written_components(components),
    ensures
        big_endian(p, i, id_width(data)) == sid,
        p[i + id_width(data)] == count,
        components_at(p, i + id_width(data) + 1, components.len() as int) == Seq::new(
            components.len(),
            |k: int| component_meaning(components[k]),
        ),
{
    let width = id_width(data);
    let n = components.len() as int;
    let start = i + width + 1;
    let ids = sid_bytes(sid, data);
    let whole = p.subrange(i, start + 2 * n);
    assert(ids.len() == width);
    assert(p.subrange(i, i + width) =~= whole.subrange(0, width));
    assert(whole.subrange(0, width) =~= ids);
    assert(p.subrange(start, start + 2 * n) =~= whole.subrange(width + 1, width + 1 + 2 * n));
    assert(whole.subrange(width + 1, width + 1 + 2 * n) =~= written_components(components));
    assert(whole[width] == count);
    assert(p[i + width] == whole[width]);
    lemma_sid_read(p, i, sid, data);
    lemma_components_read(p, start, components);
}

proof fn lemma_service_read(p: Seq<u8>, i: int, s: ServiceCode, data: bool)
    requires
        0 <= i,
        service_fits(s, data),
        i + id_width(data) + 1 + 2 * s.components.len() <= p.len(),
        p.subrange(i, i + id_width(data) + 1 + 2 * s.components.len()) == service_bytes(s, data),
    ensures
        service_blocks(p, i, id_width(data)) == seq![service_meaning(s)] + service_blocks(
            p,
            i + id_width(data) + 1 + 2 * s.components.len(),
            id_width(data),
        ),
{
    let count = (16 * s.flags + s.components.len()) as u8;
    lemma_parts_read(p, i, s.sid, count, s.components, data);
    assert(count as int % 16 == s.components.len());
}

proof fn lemma_cut_off_read(
    p: Seq<u8>,
    i: int,
    s: ServiceCode,
    count: u8,
    data: bool,
)
    requires
        0 <= i,
        service_fits(s, data),
        s.components.len() < count % 16,
        i + id_width(data) + 1 + 2 * s.components.len() <= p.len() <= i + id_width(data) + 2 + 2
            * s.components.len(),
        p.subrange(i, i + id_width(data) + 1 + 2 * s.components.len()) == sid_bytes(s.sid, data)
            + seq![count] + written_components(s.components),
    ensures
        service_blocks(p, i, id_width(data)) == seq![service_meaning(s)],
{
    lemma_parts_read(p, i, s.sid, count, s.components, data);
    let start = i + id_width(data) + 1;
    assert((p.len() - start) / 2 == s.components.len());
}

proof fn lemma_services_read(
    prefix: Seq<u8>,
    list: Seq<ServiceCode>,
    data: bool,
    rest: Seq<u8>,
)
    requires
        forall|k: int| 0 <= k < list.len() ==> service_fits(#[trigger] list[k], data),
    ensures
        ({
            let p = prefix + written_services(list, data) + rest;
            service_blocks(p, prefix.len() as int, id_width(data)) == service_meanings(list)
                + service_blocks(p, p.len() - rest.len(), id_width(data))
        }),
    decreases list.len(),
{
    let p = prefix + written_services(list, data) + rest;
    let i = prefix.len() as int;
    let width = id_width(data);
    if list.len() == 0 {
        assert(service_meanings(list) + service_blocks(p, i, width) =~= service_blocks(
            p,
            i,
            width,
        ));
    } else {
        let s = list[0];
        assert(service_fits(s, data));
        let b = service_bytes(s, data);
        let longer = prefix + b;
        lemma_services_read(longer, list.drop_first(), data, rest);
        assert(p =~= longer + written_services(list.drop_first(), data) + rest);
        assert(p.subrange(i, i + b.len()) =~= b);
        lemma_service_read(p, i, s, data);
        let last = service_blocks(p, p.len() - rest.len(), width);
        assert(seq![service_meaning(s)] + (service_meanings(list.drop_first()) + last)
            =~= service_meanings(list) + last);
    }
}

/// Reading undoes writing for services: a FIG 0/2 with any list of services adds every
/// service of the list with its components, in the order of the list.
pub proof fn law_services_come_back(
    e: EnsembleModel,
    header: u8,
    data: bool,
    list: Seq<ServiceCode>,
    rest: Seq<u8>,
)
    requires
        header % 32 == 2,
        (header / 32) % 2 == if data {
            1int
        } else {
            0
        },
        forall|k: int| 0 <= k < list.len() ==> service_fits(#[trigger] list[k], data),
        rest.len() <= if data {
            4int
        } else {
            2
        },
    ensures
        with_fig(e, (0u8, seq![header] + written_services(list, data) + rest)) == with_blocks(
            e,
            service_meanings(list),
            data,
        ),
{
    lemma_services_read(seq![header], list, data, rest);
    let p = seq![header] + written_services(list, data) + rest;
    assert(service_meanings(list) + service_blocks(p, p.len() - rest.len(), id_width(data))
        =~= service_meanings(list));
}

/// A service at the end of a FIG 0/2 that announces more components than there are still
/// counts, with the components that are complete.
pub proof fn law_cut_off_service_keeps_whole_components(
    e: EnsembleModel,
    header: u8,
    data: bool,
    list: Seq<ServiceCode>,
    last: ServiceCode,
    count: u8,
    half: Seq<u8>,
)
    requires
        header % 32 == 2,
        (header / 32) % 2 == if data {
            1int
        } else {
            0
        },
        forall|k: int| 0 <= k < list.len() ==> service_fits(#[trigger] list[k], data),
        service_fits(last, data),
        last.components.len() < count % 16,
        half.len() <= 1,
    ensures
        with_fig(
            e,
            (
                0u8,
                seq![header] + written_services(list, data) + (sid_bytes(last.sid, data) + seq![
                    count,
                ] + written_components(last.components) + half),
            ),
        ) == with_blocks(e, service_meanings(list).push(service_meaning(last)), data),
{
    let width = id_width(data);
    let body = sid_bytes(last.sid, data) + seq![count] + written_components(last.components);
    let rest = body + half;
    let prefix = seq![header] + written_services(list, data);
    let p = prefix + rest;
    let i = prefix.len() as int;
    lemma_services_read(seq![header], list, data, rest);
    assert(p.subrange(i, i + body.len()) =~= body);
    lemma_cut_off_read(p, i, last, count, data);
    assert(service_meanings(list) + seq![service_meaning(last)] =~= service_meanings(list).push(
        service_meaning(last),
    ));
    assert(p[0] == header);
}

/// Groups are applied in their order.
pub proof fn law_groups_apply_in_order(
    e: EnsembleModel,
    figs: Seq<(u8, Seq<u8>)>,
    next: (u8, Seq<u8>),
)
    ensures
        with_figs(e, figs.push(next), figs.len() as int + 1) == with_fig(
            with_figs(e, figs, figs.len() as int),
            next,
        ),
{
    lemma_groups_of_prefix(e, figs, next, figs.len() as int);
}

proof fn lemma_groups_of_prefix(
    e: EnsembleModel,
    figs: Seq<(u8, Seq<u8>)>,
    next: (u8, Seq<u8>),
    n: int,
)
    requires
        n <= figs.len(),
    ensures
        with_figs(e, figs.push(next), n) == with_figs(e, figs, n),
    decreases n,
{
    if n > 0 {
        lemma_groups_of_prefix(e, figs, next, n - 1);
    }
}

/// Services are added in their order.
pub proof fn law_services_apply_in_order(
    e: EnsembleModel,
    a: Seq<(u32, Seq<ComponentModel>)>,
    b: Seq<(u32, Seq<ComponentModel>)>,
    data: bool,
)
    ensures
        with_blocks(e, a + b, data) == with_blocks(with_blocks(e, a, data), b, data),
    decreases a.len(),
{
    if a.len() == 0 {
        assert(a + b =~= b);
    } else {
        law_services_apply_in_order(
            crate::ensemble::with_block(e, a[0], data),
            a.drop_first(),
            b,
            data,
        );
        assert((a + b).drop_first() =~= a.drop_first() + b);
    }
}

/// A component is added at the end of the list, unless the list has one with the same
/// sub-channel, component id and transport.
pub proof fn law_components_are_told_apart(list: Seq<ComponentModel>, c: ComponentModel)
    ensures
        (exists|k: int|
            0 <= k < list.len() && (#[trigger] list[k]).sub_ch_id == c.sub_ch_id && list[k].sc_id_s
                == c.sc_id_s && list[k].transport == c.transport) ==> with_component(list, c)
            == list,
        (forall|k: int|
            0 <= k < list.len() ==> (#[trigger] list[k]).sub_ch_id != c.sub_ch_id
                || list[k].sc_id_s != c.sc_id_s || list[k].transport != c.transport)
            ==> with_component(list, c) == list.push(c),
{
}

/// Components that differ in sub-channel, component id or transport are all listed.
pub proof fn law_different_components_are_all_listed(more: Seq<ComponentModel>, n: int)
    requires
        0 <= n <= more.len(),
        forall|a: int, b: int|
            0 <= a < b < more.len() ==> (#[trigger] more[a]).sub_ch_id != (
            #[trigger] more[b]).sub_ch_id || more[a].sc_id_s != more[b].sc_id_s || more[a].transport
                != more[b].transport,
    ensures
        with_components(Seq::empty(), more, n) == more.take(n),
    decreases n,
{
    if n == 0 {
        assert(more.take(0) =~= Seq::empty());
    } else {
        law_different_components_are_all_listed(more, n - 1);
        law_components_are_told_apart(more.take(n - 1), more[n - 1]);
        assert(more.take(n - 1).push(more[n - 1]) =~= more.take(n));
    }
}

/// A service that was not known is known, with all its components, after a group that
/// lists services with different ids; a service that is not listed stays as it is.
pub proof fn law_listed_services_are_known(
    e: EnsembleModel,
    blocks: Seq<(u32, Seq<ComponentModel>)>,
    data: bool,
    sid: u32,
)
    requires
        forall|a: int, b: int|
            0 <= a < b < blocks.len() ==> (#[trigger] blocks[a]).0 != (#[trigger] blocks[b]).0,
    ensures
        ({
            let after = with_blocks(e, blocks, data);
            &&& after.eid == e.eid
            &&& after.label == e.label
            &&& after.short_label == e.short_label
            &&& after.sub_channels == e.sub_channels
            &&& (forall|k: int| 0 <= k < blocks.len() ==> (#[trigger] blocks[k]).0 != sid) ==> (
            after.services.contains_key(sid) == e.services.contains_key(sid) && (
            e.services.contains_key(sid) ==> after.services[sid] == e.services[sid]))
            &&& forall|k: int|
                0 <= k < blocks.len() && (#[trigger] blocks[k]).0 == sid ==> {
                    &&& after.services.contains_key(sid)
                    &&& !e.services.contains_key(sid) ==> after.services[sid] == (ServiceModel {
                        sid,
                        is_data: data,
                        label: Seq::empty(),
                        short_label: Seq::empty(),
                        components: with_components(
                            Seq::empty(),
                            blocks[k].1,
                            blocks[k].1.len() as int,
                        ),
                    })
                    &&& e.services.contains_key(sid) ==> after.services[sid] == (ServiceModel {
                        components: with_components(
                            e.services[sid].components,
                            blocks[k].1,
                            blocks[k].1.len() as int,
                        ),
                        ..e.services[sid]
                    })
                }
        }),
    decreases blocks.len(),
{
    if blocks.len() > 0 {
        let next = crate::ensemble::with_block(e, blocks[0], data);
        let rest = blocks.drop_first();
        assert forall|a: int, b: int| 0 <= a < b < rest.len() implies (#[trigger] rest[a]).0 != (
        #[trigger] rest[b]).0 by {
            assert(rest[a] == blocks[a + 1] && rest[b] == blocks[b + 1]);
        }
        law_listed_services_are_known(next, rest, data, sid);
        let after = with_blocks(e, blocks, data);
        if blocks[0].0 == sid {
            assert forall|k: int| 0 <= k < rest.len() implies (#[trigger] rest[k]).0 != sid by {
                assert(rest[k] == blocks[k + 1]);
                assert(blocks[0].0 != blocks[k + 1].0);
            }
            assert forall|k: int| 0 <= k < blocks.len() && (#[trigger] blocks[k]).0 == sid implies k
                == 0 by {
                if k > 0 {
                    assert(blocks[0].0 != blocks[k].0);
                }
            }
        } else {
            assert(next.services.contains_key(sid) == e.services.contains_key(sid));
            assert(e.services.contains_key(sid) ==> next.services[sid] == e.services[sid]);
            assert forall|k: int| 0 <= k < blocks.len() && (#[trigger] blocks[k]).0 == sid implies k
                > 0 && rest[k - 1] == blocks[k] by {}
            if forall|k: int| 0 <= k < blocks.len() ==> (#[trigger] blocks[k]).0 != sid {
                assert forall|k: int| 0 <= k < rest.len() implies (#[trigger] rest[k]).0 != sid by {
                    assert(rest[k] == blocks[k + 1]);
                }
            }
        }
    }
}

// ---------------------------------------------------------------------------
// Ensemble id and labels
// ---------------------------------------------------------------------------

/// A FIG 0/0 sets the ensemble id, highest byte first, and nothing else.
pub proof fn law_ensemble_id_comes_back(e: EnsembleModel, header: u8, eid: u16, rest: Seq<u8>)
    requires
        header % 32 == 0,
        rest.len() >= 1,
    ensures
        with_fig(
            e,
            (0u8, seq![header, (eid / 256) as u8, (eid % 256) as u8] + rest),
        ) == (EnsembleModel { eid: Some(eid), ..e }),
{
    let p = seq![header, (eid / 256) as u8, (eid % 256) as u8] + rest;
    assert(p[0] == header && p[1] == (eid / 256) as u8 && p[2] == (eid % 256) as u8);
}

/// A FIG 1/0 sets the label of the ensemble and nothing else.
pub proof fn law_ensemble_label_comes_back(
    e: EnsembleModel,
    header: u8,
    eid: Seq<u8>,
    label: Seq<u8>,
    rest: Seq<u8>,
)
    requires
        header % 8 == 0,
        eid.len() == 2,
        label.len() == 16,
        rest.len() >= 2,
    ensures
        with_fig(e, (1u8, seq![header] + eid + label + rest)) == (EnsembleModel {
            label: label_text(label),
            ..e
        }),
{
    let p = seq![header] + eid + label + rest;
    assert(p[0] == header);
    assert(p.subrange(3, 19) =~= label);
}

/// A FIG 1/1 or 1/5 sets the label of one service, which becomes known if it was not,
/// and changes nothing else.
pub proof fn law_service_label_comes_back(
    e: EnsembleModel,
    header: u8,
    data: bool,
    sid: u32,
    label: Seq<u8>,
    rest: Seq<u8>,
)
    requires
        header % 8 == if data {
            5int
        } else {
            1
        },
        !data ==> sid < 0x1_0000,
        label.len() == 16,
        rest.len() >= 2,
    ensures
        ({
            let after = with_fig(e, (1u8, seq![header] + sid_bytes(sid, data) + label + rest));
            &&& after.eid == e.eid
            &&& after.label == e.label
            &&& after.short_label == e.short_label
            &&& after.sub_channels == e.sub_channels
            &&& after.services == e.services.insert(
                sid,
                if e.services.contains_key(sid) {
                    ServiceModel { label: label_text(label), ..e.services[sid] }
                } else {
                    ServiceModel {
                        sid,
                        is_data: data,
                        label: label_text(label),
                        short_label: Seq::empty(),
                        components: Seq::empty(),
                    }
                },
            )
        }),
{
    let ids = sid_bytes(sid, data);
    let width = id_width(data);
    let p = seq![header] + ids + label + rest;
    assert(ids.len() == width);
    assert(p[0] == header);
    assert(p.subrange(1, 1 + width) =~= ids);
    assert(p.subrange(1 + width, 17 + width) =~= label);
    lemma_sid_read(p, 1, sid, data);
}

/// Groups of other types, and other extensions of types 0 and 1, change nothing.
pub proof fn law_other_groups_change_nothing(e: EnsembleModel, kind: u8, p: Seq<u8>)
    requires
        p.len() > 0,
        kind == 0 ==> p[0] % 32 > 2,
        kind == 1 ==> p[0] % 8 != 0 && p[0] % 8 != 1 && p[0] % 8 != 5,
    ensures
        with_fig(e, (kind, p)) == e,
{
}

/// A block that is put together from groups, an end marker where there is room, and
/// the checksum of both is what the groups say, in their order.
pub proof fn law_built_block_is_its_groups(
    e: EnsembleModel,
    figs: Seq<(u8, Seq<u8>)>,
    rest: Seq<u8>,
    hi: u8,
    lo: u8,
)
    requires
        forall|k: int| 0 <= k < figs.len() ==> encodable(#[trigger] figs[k]),
        rest.len() > 0 ==> rest[0] == 0xFF,
        (joined(figs) + rest).len() == 30,
        0x100 * hi + lo == crc16(joined(figs) + rest),
    ensures
        is_sound_fib(joined(figs) + rest + seq![hi, lo]),
        with_fib(e, joined(figs) + rest + seq![hi, lo]) == with_figs(e, figs, figs.len() as int),
{
    let payload = joined(figs) + rest;
    let fib = payload + seq![hi, lo];
    assert(fib.take(30) =~= payload);
    law_splitting_undoes_joining(figs, rest);
    assert(figs_from(fib.take(30), 0) == figs);
}

} // verus!
