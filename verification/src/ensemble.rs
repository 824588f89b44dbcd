//! The ensemble, gathered from the fast information channel: ensemble id,
//! sub-channel organisation, service organisation and labels.

use std::collections::BTreeMap;
use vstd::prelude::*;
use vstd::slice::slice_subrange;
use vstd::string::*;
use crate::crc::{fib_ok, is_sound_fib};
use crate::fic_tables::{eep_label, eep_rate, eep_size, uep_level, uep_rate, uep_table, uep_units};
use crate::fig::{figs_from, iter_figs, Fig};
use crate::label::{decode_label, label_text};
use crate::text::{digit, push_decimal};

verus! {

/// A sub-channel.
#[derive(Debug, Clone, PartialEq, Eq)]
pub struct SubChannel {
    /// Identifier.
    pub sub_ch_id: u8,
    /// First capacity unit in the common interleaved frame.
    pub start_addr: u16,
    /// Capacity units occupied.
    pub size_cu: u16,
    /// Protection label, such as "EEP-3A" or "UEP-3".
    pub protection: String,
    /// Bit rate in kbit/s.
    pub bitrate_kbps: u16,
    /// Whether it was signalled in long form.
    pub is_long_form: bool,
}

/// A service component.
#[derive(Debug, Clone, PartialEq, Eq)]
pub struct ServiceComponent {
    /// Sub-channel of a stream component; none in packet mode.
    pub sub_ch_id: Option<u8>,
    /// Component id in packet mode.
    pub sc_id_s: u16,
    /// "stream-audio", "stream-data", "fidc" or "packet".
    pub transport: String,
    /// Audio or data service type.
    pub ascty_or_dscty: u8,
    /// Whether it is the primary component of its service.
    pub is_primary: bool,
    /// Component label.
    pub label: String,
}

/// A service.
#[derive(Debug, Clone, PartialEq, Eq)]
pub struct Service {
    /// Identifier.
    pub sid: u32,
    /// Whether it is a data service.
    pub is_data: bool,
    /// Label.
    pub label: String,
    /// Short label.
    pub short_label: String,
    /// Components, in the order in which they were first signalled.
    pub components: Vec<ServiceComponent>,
}

/// The ensemble as known so far.
#[derive(Debug, Clone, PartialEq, Eq)]
pub struct Ensemble {
    /// Identifier.
    pub eid: Option<u16>,
    /// Label.
    pub label: String,
    /// Short label.
    pub short_label: String,
    /// Sub-channels by identifier.
    pub sub_channels: BTreeMap<u8, SubChannel>,
    /// Services by identifier.
    pub services: BTreeMap<u32, Service>,
}

// ---------------------------------------------------------------------------
// Models
// ---------------------------------------------------------------------------

#[verifier::ext_equal]
pub struct SubChannelModel {
    pub sub_ch_id: u8,
    pub start_addr: u16,
    pub size_cu: u16,
    pub protection: Seq<char>,
    pub bitrate_kbps: u16,
    pub is_long_form: bool,
}

#[verifier::ext_equal]
pub struct ComponentModel {
    pub sub_ch_id: Option<u8>,
    pub sc_id_s: u16,
    pub transport: Seq<char>,
    pub ascty_or_dscty: u8,
    pub is_primary: bool,
    pub label: Seq<char>,
}

#[verifier::ext_equal]
pub struct ServiceModel {
    pub sid: u32,
    pub is_data: bool,
    pub label: Seq<char>,
    pub short_label: Seq<char>,
    pub components: Seq<ComponentModel>,
}

#[verifier::ext_equal]
pub struct EnsembleModel {
    pub eid: Option<u16>,
    pub label: Seq<char>,
    pub short_label: Seq<char>,
    pub sub_channels: Map<u8, SubChannelModel>,
    pub services: Map<u32, ServiceModel>,
}

impl View for SubChannel {
    type V = SubChannelModel;

    open spec fn view(&self) -> SubChannelModel {
        SubChannelModel {
            sub_ch_id: self.sub_ch_id,
            start_addr: self.start_addr,
            size_cu: self.size_cu,
            protection: self.protection@,
            bitrate_kbps: self.bitrate_kbps,
            is_long_form: self.is_long_form,
        }
    }
}

impl View for ServiceComponent {
    type V = ComponentModel;

    open spec fn view(&self) -> ComponentModel {
        ComponentModel {
            sub_ch_id: self.sub_ch_id,
            sc_id_s: self.sc_id_s,
            transport: self.transport@,
            ascty_or_dscty: self.ascty_or_dscty,
            is_primary: self.is_primary,
            label: self.label@,
        }
    }
}

impl View for Service {
    type V = ServiceModel;

    open spec fn view(&self) -> ServiceModel {
        ServiceModel {
            sid: self.sid,
            is_data: self.is_data,
            label: self.label@,
            short_label: self.short_label@,
            components: self.components@.map_values(|c: ServiceComponent| c@),
        }
    }
}

impl View for Ensemble {
    type V = EnsembleModel;

    open spec fn view(&self) -> EnsembleModel {
        EnsembleModel {
            eid: self.eid,
            label: self.label@,
            short_label: self.short_label@,
            sub_channels: self.sub_channels@.map_values(|s: SubChannel| s@),
            services: self.services@.map_values(|s: Service| s@),
        }
    }
}

/// An ensemble of which nothing is known.
pub open spec fn unknown_ensemble() -> EnsembleModel {
    EnsembleModel {
        eid: None,
        label: Seq::empty(),
        short_label: Seq::empty(),
        sub_channels: Map::empty(),
        services: Map::empty(),
    }
}

impl Default for Ensemble {
    fn default() -> (e: Self)
        ensures
            e@ == unknown_ensemble(),
    {
        let e = Ensemble {
            eid: None,
            label: String::new(),
            short_label: String::new(),
            sub_channels: BTreeMap::new(),
            services: BTreeMap::new(),
        };
        assert(e@ =~= unknown_ensemble());
        e
    }
}

// ---------------------------------------------------------------------------
// FIG 0/0: ensemble id
// ---------------------------------------------------------------------------

/// What a FIG 0/0 makes of an ensemble.
pub open spec fn with_fig0_0(e: EnsembleModel, p: Seq<u8>) -> EnsembleModel {
    if p.len() < 4 {
        e
    } else {
        EnsembleModel { eid: Some((256 * p[1] + p[2]) as u16), ..e }
    }
}

fn handle_fig0_0(ens: &mut Ensemble, payload: &[u8])
    ensures
        final(ens)@ == with_fig0_0(old(ens)@, payload@),
{
    if payload.len() < 4 {
        return;
    }
    ens.eid = Some(256 * payload[1] as u16 + payload[2] as u16);
}

// ---------------------------------------------------------------------------
// FIG 0/1: sub-channel organisation
// ---------------------------------------------------------------------------

/// The short-form entry at byte `i`.
pub open spec fn short_entry(p: Seq<u8>, i: int) -> SubChannelModel {
    let idx = p[i + 2] as int % 64;
    SubChannelModel {
        sub_ch_id: (p[i] / 4) as u8,
        start_addr: ((p[i] as int % 4) * 256 + p[i + 1]) as u16,
        size_cu: uep_units(idx) as u16,
        protection: "UEP-"@.push(digit(uep_level(idx))),
        bitrate_kbps: uep_rate(idx) as u16,
        is_long_form: false,
    }
}

/// The long-form entry at byte `i`.
pub open spec fn long_entry(p: Seq<u8>, i: int) -> SubChannelModel {
    let opt = (p[i + 2] as int / 16) % 8;
    let level = (p[i + 2] as int / 4) % 4;
    let size = (p[i + 2] as int % 4) * 256 + p[i + 3];
    SubChannelModel {
        sub_ch_id: (p[i] / 4) as u8,
        start_addr: ((p[i] as int % 4) * 256 + p[i + 1]) as u16,
        size_cu: size as u16,
        protection: eep_label(opt, level),
        bitrate_kbps: eep_rate(opt, level, size) as u16,
        is_long_form: true,
    }
}

/// The entries of a FIG 0/1 from byte `i` on: three bytes in short form, four in
/// long form; an incomplete entry ends them.
pub open spec fn sub_channel_entries(p: Seq<u8>, i: int) -> Seq<SubChannelModel>
    decreases p.len() - i,
{
    if i + 3 > p.len() {
        Seq::empty()
    } else if p[i + 2] < 128 {
        seq![short_entry(p, i)] + sub_channel_entries(p, i + 3)
    } else if i + 4 > p.len() {
        Seq::empty()
    } else {
        seq![long_entry(p, i)] + sub_channel_entries(p, i + 4)
    }
}

/// An ensemble with the entries filed under their identifiers, later ones last.
pub open spec fn with_sub_channels(
    e: EnsembleModel,
    entries: Seq<SubChannelModel>,
) -> EnsembleModel
    decreases entries.len(),
{
    if entries.len() == 0 {
        e
    } else {
        with_sub_channels(
            EnsembleModel {
                sub_channels: e.sub_channels.insert(entries[0].sub_ch_id, entries[0]),
                ..e
            },
            entries.drop_first(),
        )
    }
}

/// Files one sub-channel under its identifier.
fn file_sub_channel(ens: &mut Ensemble, s: SubChannel)
    ensures
        final(ens)@ == (EnsembleModel {
            sub_channels: old(ens)@.sub_channels.insert(s@.sub_ch_id, s@),
            ..old(ens)@
        }),
{
    ens.sub_channels.insert(s.sub_ch_id, s);
    assert(ens@.sub_channels =~= old(ens)@.sub_channels.insert(s@.sub_ch_id, s@));
}

fn handle_fig0_1(ens: &mut Ensemble, payload: &[u8])
    ensures
        final(ens)@ == with_sub_channels(old(ens)@, sub_channel_entries(payload@, 1)),
{
    let n: usize = payload.len();
    let ghost entries = sub_channel_entries(payload@, 1);
    let mut i: usize = 1;
    while n >= 3 && i <= n - 3
        invariant
            n == payload@.len(),
            1 <= i,
            i <= n || i == 1,
            with_sub_channels(ens@, sub_channel_entries(payload@, i as int)) == with_sub_channels(
                old(ens)@,
                entries,
            ),
        ensures
            ens@ == with_sub_channels(old(ens)@, entries),
        decreases n - i,
    {
        let sub_ch_id: u8 = payload[i] / 4;
        let start_addr: u16 = (payload[i] % 4) as u16 * 256 + payload[i + 1] as u16;
        let b: u8 = payload[i + 2];
        if b >= 128 {
            if i > n - 4 {
                break;
            }
            let option: u8 = (b / 16) % 8;
            let level: u8 = (b / 4) % 4;
            let sub_size: u16 = (b % 4) as u16 * 256 + payload[i + 3] as u16;
            let (bitrate_kbps, size_cu, protection) = eep_size(option, level, sub_size);
            let s: SubChannel = SubChannel {
                sub_ch_id,
                start_addr,
                size_cu,
                protection,
                bitrate_kbps,
                is_long_form: true,
            };
            proof {
                assert(s@ =~= long_entry(payload@, i as int));
                let rest = sub_channel_entries(payload@, i + 4);
                assert((seq![s@] + rest).drop_first() =~= rest);
            }
            file_sub_channel(ens, s);
            i += 4;
        } else {
            let idx: u8 = b % 64;
            let (bitrate_kbps, size_cu, protection): (u16, u16, String) = match uep_table(idx) {
                Some((rate, units, label)) => (rate, units, String::from_str(label)),
                None => {
                    let mut label: String = String::from_str("UEP?");
                    push_decimal(&mut label, idx as u64);
                    (0, 0, label)
                },
            };
            let s: SubChannel = SubChannel {
                sub_ch_id,
                start_addr,
                size_cu,
                protection,
                bitrate_kbps,
                is_long_form: false,
            };
            proof {
                assert(s@ =~= short_entry(payload@, i as int));
                let rest = sub_channel_entries(payload@, i + 3);
                assert((seq![s@] + rest).drop_first() =~= rest);
            }
            file_sub_channel(ens, s);
            i += 3;
        }
    }
}

// ---------------------------------------------------------------------------
// FIG 0/2: service organisation
// ---------------------------------------------------------------------------

/// The big-endian number in `p[i..i + width]`.
pub open spec fn big_endian(p: Seq<u8>, i: int, width: int) -> int
    decreases width,
{
    if width <= 0 {
        0
    } else {
        256 * big_endian(p, i, width - 1) + p[i + width - 1]
    }
}

/// Name of the transport mechanism `tmid`.
pub open spec fn transport_name(tmid: int) -> Seq<char> {
    if tmid == 0 {
        "stream-audio"@
    } else if tmid == 1 {
        "stream-data"@
    } else if tmid == 2 {
        "fidc"@
    } else {
        "packet"@
    }
}

/// The component that two description bytes stand for.
pub open spec fn component_of(hi: u8, lo: u8) -> ComponentModel {
    let packet = hi >= 192;
    ComponentModel {
        sub_ch_id: if packet {
            None
        } else {
            Some((lo / 4) as u8)
        },
        sc_id_s: if packet {
            (64 * (hi as int % 64) + lo / 4) as u16
        } else {
            0
        },
        transport: transport_name(hi as int / 64),
        ascty_or_dscty: if packet {
            0
        } else {
            (hi % 64) as u8
        },
        is_primary: (lo as int / 2) % 2 == 1,
        label: Seq::empty(),
    }
}

/// `n` component descriptions from byte `i` on.
pub open spec fn components_at(p: Seq<u8>, i: int, n: int) -> Seq<ComponentModel> {
    Seq::new(n as nat, |k: int| component_of(p[i + 2 * k], p[i + 2 * k + 1]))
}

/// The services of a FIG 0/2 from byte `i` on, each with its components.  `width`
/// is the size of a service id.  Nothing follows a service whose components go
/// beyond the payload; those that are complete still count.
pub open spec fn service_blocks(p: Seq<u8>, i: int, width: int) -> Seq<
    (u32, Seq<ComponentModel>),
>
    decreases p.len() - i,
{
    let sid = big_endian(p, i, width) as u32;
    let start = i + width + 1;
    let n = p[i + width] as int % 16;
    let room = (p.len() - start) / 2;
    if width < 0 || i + width >= p.len() {
        Seq::empty()
    } else if room < n {
        seq![(sid, components_at(p, start, room))]
    } else {
        seq![(sid, components_at(p, start, n))] + service_blocks(p, start + 2 * n, width)
    }
}

/// Two components are the same one.
pub open spec fn same_component(a: ComponentModel, b: ComponentModel) -> bool {
    a.sub_ch_id == b.sub_ch_id && a.sc_id_s == b.sc_id_s && a.transport == b.transport
}

/// Some component of `list` is `c`.
pub open spec fn has_component(list: Seq<ComponentModel>, c: ComponentModel) -> bool {
    exists|k: int| 0 <= k < list.len() && same_component(#[trigger] list[k], c)
}

/// `list` with `c` at its end, unless it has it already.
pub open spec fn with_component(list: Seq<ComponentModel>, c: ComponentModel) -> Seq<
    ComponentModel,
> {
    if has_component(list, c) {
        list
    } else {
        list.push(c)
    }
}

/// `list` with the first `n` of `more` added in turn.
pub open spec fn with_components(
    list: Seq<ComponentModel>,
    more: Seq<ComponentModel>,
    n: int,
) -> Seq<ComponentModel>
    decreases n,
{
    if n <= 0 {
        list
    } else {
        with_component(with_components(list, more, n - 1), more[n - 1])
    }
}

/// The service `sid` as known, or a new one.
pub open spec fn service_or_new(e: EnsembleModel, sid: u32, is_data: bool) -> ServiceModel {
    if e.services.contains_key(sid) {
        e.services[sid]
    } else {
        ServiceModel {
            sid,
            is_data,
            label: Seq::empty(),
            short_label: Seq::empty(),
            components: Seq::empty(),
        }
    }
}

/// An ensemble with the components of one service added.
pub open spec fn with_block(
    e: EnsembleModel,
    block: (u32, Seq<ComponentModel>),
    is_data: bool,
) -> EnsembleModel {
    let s = service_or_new(e, block.0, is_data);
    EnsembleModel {
        services: e.services.insert(
            block.0,
            ServiceModel {
                components: with_components(s.components, block.1, block.1.len() as int),
                ..s
            },
        ),
        ..e
    }
}

/// An ensemble with the blocks added in turn.
pub open spec fn with_blocks(
    e: EnsembleModel,
    blocks: Seq<(u32, Seq<ComponentModel>)>,
    is_data: bool,
) -> EnsembleModel
    decreases blocks.len(),
{
    if blocks.len() == 0 {
        e
    } else {
        with_blocks(with_block(e, blocks[0], is_data), blocks.drop_first(), is_data)
    }
}

impl Service {
    fn new(sid: u32, is_data: bool) -> (s: Self)
        ensures
            s@ == (ServiceModel {
                sid,
                is_data,
                label: Seq::empty(),
                short_label: Seq::empty(),
                components: Seq::empty(),
            }),
    {
        let s = Service {
            sid,
            is_data,
            label: String::new(),
            short_label: String::new(),
            components: Vec::new(),
        };
        assert(s@.components =~= Seq::empty());
        s
    }
}

fn same_sub_channel(a: Option<u8>, b: Option<u8>) -> (r: bool)
    ensures
        r == (a == b),
{
    match (a, b) {
        (Some(x), Some(y)) => x == y,
        (None, None) => true,
        _ => false,
    }
}

/// Adds a component unless the service has it already.
fn add_component(svc: &mut Service, comp: ServiceComponent)
    ensures
        final(svc)@ == (ServiceModel {
            components: with_component(old(svc)@.components, comp@),
            ..old(svc)@
        }),
{
    let ghost list = svc@.components;
    let mut k: usize = 0;
    while k < svc.components.len()
        invariant
            *svc == *old(svc),
            list == svc@.components,
            k <= svc.components@.len(),
            forall|j: int| 0 <= j < k ==> !same_component(#[trigger] list[j], comp@),
        decreases svc.components@.len() - k,
    {
        let c: &ServiceComponent = &svc.components[k];
        assert(list[k as int] == c@);
        if same_sub_channel(c.sub_ch_id, comp.sub_ch_id) && c.sc_id_s == comp.sc_id_s && c.transport
            == comp.transport {
            assert(same_component(list[k as int], comp@));
            return;
        }
        k += 1;
    }
    svc.components.push(comp);
    assert(svc@.components =~= list.push(comp@));
}

/// Reads one component description.
fn parse_component(hi: u8, lo: u8) -> (c: ServiceComponent)
    ensures
        c@ == component_of(hi, lo),
{
    let tmid: u8 = hi / 64;
    let transport: String = match tmid {
        0 => String::from_str("stream-audio"),
        1 => String::from_str("stream-data"),
        2 => String::from_str("fidc"),
        _ => String::from_str("packet"),
    };
    let c = ServiceComponent {
        sub_ch_id: if tmid == 3 {
            None
        } else {
            Some(lo / 4)
        },
        sc_id_s: if tmid == 3 {
            64 * (hi % 64) as u16 + (lo / 4) as u16
        } else {
            0
        },
        transport,
        ascty_or_dscty: if tmid == 3 {
            0
        } else {
            hi % 64
        },
        is_primary: (lo / 2) % 2 == 1,
        label: String::new(),
    };
    assert(c@ =~= component_of(hi, lo));
    c
}

/// Takes the service `sid` out of the ensemble, or makes a new one.
fn take_service(ens: &mut Ensemble, sid: u32, is_data: bool) -> (svc: Service)
    ensures
        svc@ == service_or_new(old(ens)@, sid, is_data),
        final(ens)@ == (EnsembleModel {
            services: old(ens)@.services.remove(sid),
            ..old(ens)@
        }),
{
    let svc: Service = match ens.services.remove(&sid) {
        Some(s) => s,
        None => Service::new(sid, is_data),
    };
    assert(ens@.services =~= old(ens)@.services.remove(sid));
    svc
}

/// Puts a service under `sid`.
fn put_service(ens: &mut Ensemble, sid: u32, svc: Service)
    ensures
        final(ens)@ == (EnsembleModel {
            services: old(ens)@.services.insert(sid, svc@),
            ..old(ens)@
        }),
{
    ens.services.insert(sid, svc);
    assert(ens@.services =~= old(ens)@.services.insert(sid, svc@));
}

/// Reads the service id of `width` bytes at `i`.
fn parse_sid(payload: &[u8], i: usize, width: usize) -> (sid: u32)
    requires
        width == 2 || width == 4,
        i + width <= payload@.len(),
    ensures
        sid == big_endian(payload@, i as int, width as int),
{
    reveal_with_fuel(big_endian, 5);
    let head: u32 = 256 * payload[i] as u32 + payload[i + 1] as u32;
    if width == 2 {
        head
    } else {
        65536 * head + (256 * payload[i + 2] as u32 + payload[i + 3] as u32)
    }
}

/// Adds `n` components from byte `i` on to `svc`.
fn add_components(svc: &mut Service, payload: &[u8], i: usize, n: usize)
    requires
        i + 2 * n <= payload@.len(),
    ensures
        final(svc)@ == (ServiceModel {
            components: with_components(
                old(svc)@.components,
                components_at(payload@, i as int, n as int),
                n as int,
            ),
            ..old(svc)@
        }),
{
    let ghost more = components_at(payload@, i as int, n as int);
    let mut k: usize = 0;
    while k < n
        invariant
            k <= n,
            i + 2 * n <= payload.len(),
            more == components_at(payload@, i as int, n as int),
            svc@ == (ServiceModel {
                components: with_components(old(svc)@.components, more, k as int),
                ..old(svc)@
            }),
        decreases n - k,
    {
        let c: ServiceComponent = parse_component(payload[i + 2 * k], payload[i + 2 * k + 1]);
        assert(c@ == more[k as int]);
        add_component(svc, c);
        k += 1;
    }
}

fn handle_fig0_2(ens: &mut Ensemble, payload: &[u8], p_d: u8)
    requires
        p_d <= 1,
    ensures
        final(ens)@ == with_blocks(
            old(ens)@,
            service_blocks(
                payload@,
                1,
                if p_d == 0 {
                    2
                } else {
                    4
                },
            ),
            p_d == 1,
        ),
{
    let width: usize = if p_d == 0 {
        2
    } else {
        4
    };
    let is_data: bool = p_d == 1;
    let n: usize = payload.len();
    let ghost all = service_blocks(payload@, 1, width as int);
    let mut i: usize = 1;
    while n > width && i < n - width
        invariant_except_break
            with_blocks(
                ens@,
                service_blocks(payload@, i as int, width as int),
                is_data,
            ) == with_blocks(old(ens)@, all, is_data),
        invariant
            n == payload.len(),
            width == 2 || width == 4,
            all == service_blocks(payload@, 1, width as int),
            1 <= i,
        ensures
            ens@ == with_blocks(old(ens)@, all, is_data),
        decreases n - i,
    {
        let sid: u32 = parse_sid(payload, i, width);
        let wanted: usize = (payload[i + width] % 16) as usize;
        let start: usize = i + width + 1;
        let room: usize = (n - start) / 2;
        let count: usize = if room < wanted {
            room
        } else {
            wanted
        };
        let ghost before = ens@;
        let ghost blocks = service_blocks(payload@, i as int, width as int);
        let mut svc: Service = take_service(ens, sid, is_data);
        add_components(&mut svc, payload, start, count);
        put_service(ens, sid, svc);
        proof {
            let block = (sid, components_at(payload@, start as int, count as int));
            assert(blocks[0] == block);
            assert(ens@.services =~= with_block(before, block, is_data).services);
            assert(ens@ == with_block(before, block, is_data));
            if room < wanted {
                assert(blocks.drop_first() =~= Seq::empty());
                assert(with_blocks(ens@, blocks.drop_first(), is_data) == ens@);
            } else {
                let rest = service_blocks(payload@, start + 2 * wanted, width as int);
                assert(blocks.drop_first() =~= rest);
            }
        }
        if room < wanted {
            break;
        }
        i = start + 2 * wanted;
    }
}

// ---------------------------------------------------------------------------
// FIG 1: labels
// ---------------------------------------------------------------------------

/// An ensemble in which service `sid` has `label`.
pub open spec fn with_service_label(
    e: EnsembleModel,
    sid: u32,
    is_data: bool,
    label: Seq<char>,
) -> EnsembleModel {
    EnsembleModel {
        services: e.services.insert(
            sid,
            ServiceModel { label, ..service_or_new(e, sid, is_data) },
        ),
        ..e
    }
}

/// What a FIG 1 makes of an ensemble: extension 0 labels the ensemble, 1 a
/// programme service and 5 a data service.
pub open spec fn with_fig1(e: EnsembleModel, p: Seq<u8>) -> EnsembleModel {
    let ext = p[0] as int % 8;
    if p.len() == 0 {
        e
    } else if ext == 0 && p.len() >= 21 {
        EnsembleModel { label: label_text(p.subrange(3, 19)), ..e }
    } else if ext == 1 && p.len() >= 21 {
        with_service_label(e, big_endian(p, 1, 2) as u32, false, label_text(p.subrange(3, 19)))
    } else if ext == 5 && p.len() >= 23 {
        with_service_label(e, big_endian(p, 1, 4) as u32, true, label_text(p.subrange(5, 21)))
    } else {
        e
    }
}

fn label_service(ens: &mut Ensemble, sid: u32, is_data: bool, label: String)
    ensures
        final(ens)@ == with_service_label(old(ens)@, sid, is_data, label@),
{
    let mut svc: Service = take_service(ens, sid, is_data);
    svc.label = label;
    put_service(ens, sid, svc);
    assert(ens@.services =~= with_service_label(old(ens)@, sid, is_data, label@).services);
}

fn handle_fig1(ens: &mut Ensemble, payload: &[u8])
    ensures
        final(ens)@ == with_fig1(old(ens)@, payload@),
{
    if payload.len() == 0 {
        return;
    }
    let ext: u8 = payload[0] % 8;
    if ext == 0 && payload.len() >= 21 {
        ens.label = decode_label(slice_subrange(payload, 3, 19));
    } else if ext == 1 && payload.len() >= 21 {
        let sid: u32 = parse_sid(payload, 1, 2);
        let label: String = decode_label(slice_subrange(payload, 3, 19));
        label_service(ens, sid, false, label);
    } else if ext == 5 && payload.len() >= 23 {
        let sid: u32 = parse_sid(payload, 1, 4);
        let label: String = decode_label(slice_subrange(payload, 5, 21));
        label_service(ens, sid, true, label);
    }
}

// ---------------------------------------------------------------------------
// Dispatch
// ---------------------------------------------------------------------------

/// What one group makes of an ensemble.
pub open spec fn with_fig(e: EnsembleModel, fig: (u8, Seq<u8>)) -> EnsembleModel {
    let p = fig.1;
    if fig.0 == 0 && p.len() > 0 {
        let data_services = (p[0] as int / 32) % 2 == 1;
        let ext = p[0] as int % 32;
        if ext == 0 {
            with_fig0_0(e, p)
        } else if ext == 1 {
            with_sub_channels(e, sub_channel_entries(p, 1))
        } else if ext == 2 {
            with_blocks(
                e,
                service_blocks(
                    p,
                    1,
                    if data_services {
                        4
                    } else {
                        2
                    },
                ),
                data_services,
            )
        } else {
            e
        }
    } else if fig.0 == 1 {
        with_fig1(e, p)
    } else {
        e
    }
}

/// What the first `n` groups make of an ensemble.
pub open spec fn with_figs(e: EnsembleModel, figs: Seq<(u8, Seq<u8>)>, n: int) -> EnsembleModel
    decreases n,
{
    if n <= 0 {
        e
    } else {
        with_fig(with_figs(e, figs, n - 1), figs[n - 1])
    }
}

/// What one block makes of an ensemble: nothing if its checksum is wrong.
pub open spec fn with_fib(e: EnsembleModel, fib: Seq<u8>) -> EnsembleModel {
    let figs = figs_from(fib.take(30), 0);
    if is_sound_fib(fib) {
        with_figs(e, figs, figs.len() as int)
    } else {
        e
    }
}

/// Block `k` of a channel cut into blocks of 32 bytes; the last may be shorter.
pub open spec fn fib_of(fic: Seq<u8>, k: int) -> Seq<u8> {
    fic.subrange(
        32 * k,
        if 32 * k + 32 <= fic.len() {
            32 * k + 32
        } else {
            fic.len() as int
        },
    )
}

/// Number of blocks in a channel, a shorter last one included.
pub open spec fn fib_count(fic: Seq<u8>) -> int {
    (fic.len() + 31) as int / 32
}

/// What the first `n` blocks make of an ensemble.
pub open spec fn with_fibs(e: EnsembleModel, fic: Seq<u8>, n: int) -> EnsembleModel
    decreases n,
{
    if n <= 0 {
        e
    } else {
        with_fib(with_fibs(e, fic, n - 1), fib_of(fic, n - 1))
    }
}

/// How many of the first `n` blocks are sound.
pub open spec fn sound_fibs(fic: Seq<u8>, n: int) -> int
    decreases n,
{
    if n <= 0 {
        0
    } else {
        sound_fibs(fic, n - 1) + if is_sound_fib(fib_of(fic, n - 1)) {
            1int
        } else {
            0
        }
    }
}

/// Gathers an ensemble from channel blocks and counts them.
#[derive(Debug)]
pub struct FicAccumulator {
    /// The ensemble so far.
    pub ensemble: Ensemble,
    /// Blocks seen.
    pub fib_total: usize,
    /// Blocks with a correct checksum.
    pub fib_ok: usize,
}

impl Default for FicAccumulator {
    fn default() -> (a: Self)
        ensures
            a.ensemble@ == unknown_ensemble(),
            a.fib_total == 0,
            a.fib_ok == 0,
    {
        FicAccumulator { ensemble: Ensemble::default(), fib_total: 0, fib_ok: 0 }
    }
}

impl FicAccumulator {
    /// No more blocks are sound than were seen.
    pub open spec fn wf(&self) -> bool {
        self.fib_ok <= self.fib_total
    }

    pub fn new() -> (a: Self)
        ensures
            a.wf(),
            a.ensemble@ == unknown_ensemble(),
            a.fib_total == 0,
            a.fib_ok == 0,
    {
        FicAccumulator { ensemble: Ensemble::default(), fib_total: 0, fib_ok: 0 }
    }

    /// Takes in the blocks of a fast information channel.
    pub fn feed_fic(&mut self, fic: &[u8])
        requires
            old(self).wf(),
            old(self).fib_total + fib_count(fic@) <= usize::MAX,
        ensures
            final(self).wf(),
            final(self).ensemble@ == with_fibs(old(self).ensemble@, fic@, fib_count(fic@)),
            final(self).fib_total == old(self).fib_total + fib_count(fic@),
            final(self).fib_ok == old(self).fib_ok + sound_fibs(fic@, fib_count(fic@)),
    {
        let n: usize = fic.len();
        let mut k: usize = 0;
        let mut at: usize = 0;
        while at < n
            invariant
                n == fic.len(),
                32 * k < n + 32,
                at == if 32 * k <= n {
                    32 * k
                } else {
                    n as int
                },
                k <= fib_count(fic@),
                old(self).wf(),
                self.wf(),
                old(self).fib_total + fib_count(fic@) <= usize::MAX,
                self.ensemble@ == with_fibs(old(self).ensemble@, fic@, k as int),
                self.fib_total == old(self).fib_total + k,
                self.fib_ok == old(self).fib_ok + sound_fibs(fic@, k as int),
            decreases n - at,
        {
            self.fib_total += 1;
            let end: usize = if n - at < 32 {
                n
            } else {
                at + 32
            };
            let fib: &[u8] = slice_subrange(fic, at, end);
            assert(fib@ =~= fib_of(fic@, k as int));
            self.feed_fib(fib);
            at = end;
            k += 1;
        }
    }

    /// Takes in one block.
    fn feed_fib(&mut self, fib: &[u8])
        requires
            old(self).fib_ok < old(self).fib_total,
        ensures
            final(self).ensemble@ == with_fib(old(self).ensemble@, fib@),
            final(self).fib_total == old(self).fib_total,
            final(self).fib_ok == old(self).fib_ok + if is_sound_fib(fib@) {
                1int
            } else {
                0
            },
    {
        if !fib_ok(fib) {
            return;
        }
        self.fib_ok += 1;
        let figs: Vec<Fig> = iter_figs(slice_subrange(fib, 0, 30));
        let ghost all = figs_from(fib@.take(30), 0);
        let mut k: usize = 0;
        while k < figs.len()
            invariant
                k <= figs@.len(),
                all == figs@.map_values(|f: Fig| f@),
                self.ensemble@ == with_figs(old(self).ensemble@, all, k as int),
                self.fib_total == old(self).fib_total,
                self.fib_ok == old(self).fib_ok + 1,
            decreases figs@.len() - k,
        {
            assert(all[k as int] == figs@[k as int]@);
            self.dispatch(&figs[k]);
            k += 1;
        }
    }

    /// Takes in one group.
    fn dispatch(&mut self, fig: &Fig)
        ensures
            final(self).ensemble@ == with_fig(old(self).ensemble@, fig@),
            final(self).fib_total == old(self).fib_total,
            final(self).fib_ok == old(self).fib_ok,
    {
        let data: &[u8] = fig.data.as_slice();
        if fig.ftype == 0 {
            if data.len() == 0 {
                return;
            }
            let p_d: u8 = (data[0] / 32) % 2;
            let ext: u8 = data[0] % 32;
            if ext == 0 {
                handle_fig0_0(&mut self.ensemble, data);
            } else if ext == 1 {
                handle_fig0_1(&mut self.ensemble, data);
            } else if ext == 2 {
                handle_fig0_2(&mut self.ensemble, data, p_d);
            }
        } else if fig.ftype == 1 {
            handle_fig1(&mut self.ensemble, data);
        }
    }
}

} // verus!
