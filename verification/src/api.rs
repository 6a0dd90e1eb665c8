//! The control plane: lists clients and the source catalog for the web UI, and
//! turns UI edits into multicast [`ControlCommand`]s. Client state
//! (volume/delay/source) lives on the clients and is read here from their
//! telemetry, not stored.
//!
//! Times are epoch milliseconds, or a monotonic clock's nanoseconds where the
//! catalog is looked up.
use vstd::prelude::*;

use crate::assoc;
use crate::catalog;
use crate::catalog::{CatalogStore, RemoteServer, ResolvedSource};
use crate::client::local_device_id;
use crate::clients;
use crate::clients::{ClientRecord, ClientStore, RecordView};
use crate::config::{Config, LocalClientConfig, SourceConfig};
use crate::groups;
use crate::groups::{GroupRecord, GroupStore, GroupView};
use crate::metrics;
use crate::metrics::{ClientHistory, ClientSummary, HistoryView, SourceMeta, TelemetryStore};
use crate::order;
use crate::stream;
use crate::stream::SendParams;
use crate::supervisor;
use crate::supervisor::{RunningSource, SourceRegistry};
use crate::sync::{copy_map, CommandView};
use crate::text;
use crate::text::{copy_opt, filled, parse_u64, same_text, u64_text};
use crate::units::Volume;
use crate::wire;
use crate::wire::{ip_text, octets, ControlCommand, WireFormat, MAX_LEAD_MS};

verus! {

/// This server's own id, so stats can mark which streams are remote (hosted by
/// another server).
#[derive(Debug, Clone, Copy, PartialEq, Eq, Structural)]
pub struct LocalServerId(pub u64);

/// How a request is answered.
#[derive(Debug, Clone, Copy, PartialEq, Eq, Structural)]
pub enum Status {
    Done,
    BadRequest,
    NotFound,
}

/// Runtime handle for the in-process playback client (see
/// [`crate::config::LocalClientConfig`]). Enables it live; a running client
/// can't be cleanly stopped, so disabling/renaming takes effect on the next
/// restart.
#[derive(Debug, Clone, Copy, PartialEq, Eq, Structural)]
pub struct LocalClientCtl {
    pub iface: u32,
    pub running: bool,
}

impl LocalClientCtl {
    pub fn new(iface: u32, running: bool) -> (r: Self)
        ensures
            r == (LocalClientCtl { iface, running }),
    {
        LocalClientCtl { iface, running }
    }

    /// The device id to start the in-process client under, unless it is already
    /// running.
    pub fn ensure_running(&mut self, hostname: &str) -> (r: Option<String>)
        ensures
            *final(self) == (LocalClientCtl { running: true, ..*old(self) }),
            text::opt(r) == if old(self).running {
                None
            } else {
                Some(hostname@ + "-local"@)
            },
    {
        if self.running {
            return None;
        }
        self.running = true;
        Some(local_device_id(hostname))
    }
}

/// What a control command changes on a client.
#[verifier::ext_equal]
pub struct Push {
    pub source: Option<u64>,
    pub volume: Option<Volume>,
    pub delay_ms: Option<u32>,
    pub channel_map: Option<Seq<i16>>,
}

impl Push {
    pub open spec fn source(id: u64) -> Push {
        Push { source: Some(id), volume: None, delay_ms: None, channel_map: None }
    }

    pub open spec fn volume(v: Volume) -> Push {
        Push { source: None, volume: Some(v), delay_ms: None, channel_map: None }
    }

    pub open spec fn delay(ms: u32) -> Push {
        Push { source: None, volume: None, delay_ms: Some(ms), channel_map: None }
    }

    pub open spec fn map(m: Seq<i16>) -> Push {
        Push { source: None, volume: None, delay_ms: None, channel_map: Some(m) }
    }
}

/// Whether the command carries the change to the client at `target`.
pub open spec fn sent_as(c: CommandView, target: u32, cmd_id: u64, p: Push) -> bool {
    &&& wire::ip_of(c.target_ip) == target
    &&& c.cmd_id == cmd_id
    &&& c.source_id == p.source
    &&& c.volume == p.volume
    &&& c.delay_ms == p.delay_ms
    &&& c.channel_map == p.channel_map
}

/// How often each command is multicast: multicast is lossy, and re-applying the
/// same value on the client is a no-op.
pub const COMMAND_REPEATS: usize = 3;

/// Builds the control commands that are multicast to clients. One per server.
#[derive(Debug, Clone, Copy, PartialEq, Eq, Structural)]
pub struct ControlSender {
    pub next_id: u64,
}

impl ControlSender {
    pub fn new() -> (r: Self)
        ensures
            r.next_id == 1,
    {
        ControlSender { next_id: 1 }
    }

    fn take_id(&mut self) -> (id: u64)
        ensures
            id == old(self).next_id,
            final(self).next_id == old(self).next_id.wrapping_add(1),
    {
        let id: u64 = self.next_id;
        self.next_id = self.next_id.wrapping_add(1);
        id
    }

    /// A command that changes a client's source, volume or delay.
    pub fn send(
        &mut self,
        target: u32,
        source_id: Option<u64>,
        volume: Option<Volume>,
        delay_ms: Option<u32>,
    ) -> (r: ControlCommand)
        ensures
            sent_as(
                r@,
                target,
                old(self).next_id,
                (Push { source: source_id, volume, delay_ms, channel_map: None }),
            ),
            final(self).next_id == old(self).next_id.wrapping_add(1),
    {
        ControlCommand {
            target_ip: octets(target),
            cmd_id: self.take_id(),
            set_source_id: source_id,
            set_volume: volume,
            set_delay_ms: delay_ms,
            set_channel_map: None,
        }
    }

    /// A command that changes a client's channel map.
    pub fn send_channel_map(&mut self, target: u32, map: Vec<i16>) -> (r: ControlCommand)
        ensures
            sent_as(r@, target, old(self).next_id, Push::map(map@)),
            final(self).next_id == old(self).next_id.wrapping_add(1),
    {
        ControlCommand {
            target_ip: octets(target),
            cmd_id: self.take_id(),
            set_source_id: None,
            set_volume: None,
            set_delay_ms: None,
            set_channel_map: Some(map),
        }
    }
}

/// A short, stable format label for the UI.
pub fn format_str(f: WireFormat) -> (r: &'static str)
    ensures
        r@ == match f {
            WireFormat::S16Le => "s16"@,
            WireFormat::F32Le => "f32"@,
        },
{
    match f {
        WireFormat::S16Le => "s16",
        WireFormat::F32Le => "f32",
    }
}

/// A client for the UI's list.
#[derive(Debug)]
pub struct ClientDto {
    /// Stable identity; the UI keys clients by this.
    pub id: String,
    pub ip: String,
    /// Display name: the stored override, else the device hostname.
    pub name: String,
    /// Tenths of a second since the last report, to the nearest.
    pub tenths_ago: u64,
    pub connected: bool,
    pub volume: Volume,
    pub delay_ms: u32,
    /// Selected source id as a text; empty means off.
    pub selected_source_id: String,
    /// Output device channel count (for the routing matrix).
    pub output_channels: u16,
    /// Output channel map (one source-channel index per output channel, `-1` =
    /// silence). Empty = default identity mapping.
    pub channel_map: Vec<i16>,
    /// Group this client belongs to (`None` = ungrouped).
    pub group_id: Option<String>,
}

/// A client group, for the Clients board. `source_id` is resolved from the
/// stored source name to the current id (empty = none / not in the catalog).
#[derive(Debug)]
pub struct GroupDto {
    pub id: String,
    pub name: Option<String>,
    pub source_id: String,
}

/// A source for the UI's dropdown.
#[derive(Debug)]
pub struct SourceDto {
    /// Source id as a text.
    pub source_id: String,
    pub name: String,
    pub source_type: String,
    pub sample_rate: u32,
    pub channels: u16,
    pub format: String,
    /// Send lead (ms): caps a client's delay slider when it plays this.
    pub lead_ms: u32,
}

/// A source id as the UI shows it: empty for off.
pub open spec fn id_text(id: u64) -> Seq<char> {
    if id == 0 {
        Seq::empty()
    } else {
        text::decimal(id as nat)
    }
}

fn show_id(id: u64) -> (r: String)
    ensures
        r@ == id_text(id),
{
    if id == 0 {
        let r: String = String::new();
        proof {
            assert(r@ =~= Seq::<char>::empty());
        }
        r
    } else {
        u64_text(id)
    }
}

/// Milliseconds as tenths of a second, to the nearest (halves up).
pub open spec fn tenths(ms: u64) -> int {
    (ms + 50) / 100
}

fn to_tenths(ms: u64) -> (r: u64)
    ensures
        r == tenths(ms),
{
    ((ms as u128 + 50) / 100) as u64
}

/// Whether the entry shows the client, with the display name and group on record.
pub open spec fn shows_client(
    d: ClientDto,
    h: HistoryView,
    records: Map<Seq<char>, RecordView>,
    now_ms: u64,
) -> bool {
    let known = records.contains_key(d.id@);
    &&& d.ip@ == wire::dotted(h.ip)
    &&& d.name@ == if known && records[d.id@].name is Some {
        records[d.id@].name->0
    } else {
        h.hostname
    }
    &&& d.tenths_ago == tenths(metrics::ago(h.last_report_ms, now_ms))
    &&& d.connected == (metrics::ago(h.last_report_ms, now_ms) < metrics::CONNECTED_MS)
    &&& d.volume == h.volume
    &&& d.delay_ms == h.delay_ms
    &&& d.selected_source_id@ == id_text(h.selected_source_id)
    &&& d.output_channels == h.output_channels
    &&& d.channel_map@ == h.channel_map
    &&& text::opt(d.group_id) == if known {
        records[d.id@].group
    } else {
        None
    }
}

/// The client list (from telemetry) with display names from the store, by id.
pub fn client_dtos(
    store: &mut TelemetryStore,
    clients_store: &ClientStore,
    now_ms: u64,
) -> (out: Vec<ClientDto>)
    requires
        old(store).wf(),
        clients_store.wf(),
    ensures
        final(store).wf(),
        final(store).server_hist == old(store).server_hist,
        final(store).clients@ == assoc::fresh_part::<Seq<char>, ClientHistory>(
            old(store).clients@,
            now_ms,
            metrics::STALE_MS,
        ),
        assoc::ascending_names(out@.map_values(|c: ClientDto| c.id@)),
        assoc::names_keys(out@.map_values(|c: ClientDto| c.id@), final(store).clients@),
        forall|i: int|
            0 <= i < out@.len() ==> shows_client(
                #[trigger] out@[i],
                final(store).clients@[out@[i].id@],
                clients_store@,
                now_ms,
            ),
{
    let all: Vec<ClientSummary> = store.clients_summary(now_ms);
    let ghost hist = store.clients@;
    let mut out: Vec<ClientDto> = Vec::new();
    let mut i: usize = 0;
    while i < all.len()
        invariant
            i <= all@.len(),
            clients_store.wf(),
            hist == store.clients@,
            forall|j: int|
                0 <= j < all@.len() ==> metrics::summarises(
                    #[trigger] all@[j],
                    hist[all@[j].id@],
                    now_ms,
                ),
            out@.len() == i,
            forall|j: int|
                0 <= j < i ==> (#[trigger] out@[j]).id@ == all@[j].id@ && shows_client(
                    out@[j],
                    hist[all@[j].id@],
                    clients_store@,
                    now_ms,
                ),
        decreases all@.len() - i,
    {
        let c: &ClientSummary = &all[i];
        proof {
            assert(metrics::summarises(all@[i as int], hist[all@[i as int].id@], now_ms));
        }
        let rec: Option<ClientRecord> = clients_store.get(&c.id);
        let mut name: String = c.hostname.clone();
        let mut group_id: Option<String> = None;
        if let Some(r) = rec {
            if let Some(n) = r.name {
                name = n;
            }
            group_id = r.group;
        }
        out.push(
            ClientDto {
                id: c.id.clone(),
                ip: ip_text(c.ip),
                name,
                tenths_ago: to_tenths(c.ms_ago),
                connected: c.connected,
                volume: c.volume,
                delay_ms: c.delay_ms,
                selected_source_id: show_id(c.selected_source_id),
                output_channels: c.output_channels,
                channel_map: copy_map(&c.channel_map),
                group_id,
            },
        );
        i = i + 1;
    }
    proof {
        assert(out@.map_values(|c: ClientDto| c.id@) =~= all@.map_values(
            |c: ClientSummary| c.id@,
        ));
        assert forall|j: int| 0 <= j < out@.len() implies shows_client(
            #[trigger] out@[j],
            store.clients@[out@[j].id@],
            clients_store@,
            now_ms,
        ) by {
            assert(out@[j].id@ == all@[j].id@);
        }
    }
    out
}

/// The id of the first of the sources with this name.
pub open spec fn id_of_name(sources: Seq<ResolvedSource>, name: Seq<char>) -> Option<u64>
    decreases sources.len(),
{
    if sources.len() == 0 {
        None
    } else if sources[0].entry.name@ == name {
        Some(sources[0].entry.source_id)
    } else {
        id_of_name(sources.skip(1), name)
    }
}

/// The name of the first of the sources with this id.
pub open spec fn name_of_id(sources: Seq<ResolvedSource>, id: u64) -> Option<Seq<char>>
    decreases sources.len(),
{
    if sources.len() == 0 {
        None
    } else if sources[0].entry.source_id == id {
        Some(sources[0].entry.name@)
    } else {
        name_of_id(sources.skip(1), id)
    }
}

/// Look up a source id by name (first match).
fn find_id(sources: &Vec<ResolvedSource>, name: &str) -> (r: Option<u64>)
    ensures
        r == id_of_name(sources@, name@),
{
    let mut i: usize = 0;
    proof {
        assert(sources@.skip(0) =~= sources@);
    }
    while i < sources.len()
        invariant
            i <= sources@.len(),
            id_of_name(sources@, name@) == id_of_name(sources@.skip(i as int), name@),
        decreases sources@.len() - i,
    {
        proof {
            assert(sources@.skip(i as int).skip(1) =~= sources@.skip(i + 1));
        }
        if same_text(sources[i].entry.name.as_str(), name) {
            return Some(sources[i].entry.source_id);
        }
        i = i + 1;
    }
    None
}

/// Look up a source name by id (first match).
fn find_name(sources: &Vec<ResolvedSource>, id: u64) -> (r: Option<String>)
    ensures
        text::opt(r) == name_of_id(sources@, id),
{
    let mut i: usize = 0;
    proof {
        assert(sources@.skip(0) =~= sources@);
    }
    while i < sources.len()
        invariant
            i <= sources@.len(),
            name_of_id(sources@, id) == name_of_id(sources@.skip(i as int), id),
        decreases sources@.len() - i,
    {
        proof {
            assert(sources@.skip(i as int).skip(1) =~= sources@.skip(i + 1));
        }
        if sources[i].entry.source_id == id {
            return Some(sources[i].entry.name.clone());
        }
        i = i + 1;
    }
    None
}

/// Whether the catalog has only forgotten the servers that fell silent.
pub open spec fn catalog_pruned(before: CatalogStore, after: CatalogStore, now: u64) -> bool {
    &&& after.wf()
    &&& after.remote.pairs() == before.live(now)
    &&& after.remote@ == assoc::fresh_part::<u64, RemoteServer>(
        before.remote@,
        now,
        catalog::ANNOUNCE_STALE,
    )
}

/// Look up a catalog source id by name (first match).
pub fn source_id_by_name(catalog: &mut CatalogStore, name: &str, now: u64) -> (r: Option<u64>)
    requires
        old(catalog).wf(),
    ensures
        catalog_pruned(*old(catalog), *final(catalog), now),
        exists|all: Seq<ResolvedSource>|
            #[trigger] catalog::lists_sources(all, old(catalog).live(now)) && r == id_of_name(
                all,
                name@,
            ),
{
    let all: Vec<ResolvedSource> = catalog.snapshot(now);
    let r: Option<u64> = find_id(&all, name);
    proof {
        assert(catalog::lists_sources(all@, old(catalog).live(now)));
    }
    r
}

/// Look up a catalog source name by id.
pub fn source_name_by_id(catalog: &mut CatalogStore, id: u64, now: u64) -> (r: Option<String>)
    requires
        old(catalog).wf(),
    ensures
        catalog_pruned(*old(catalog), *final(catalog), now),
        exists|all: Seq<ResolvedSource>|
            #[trigger] catalog::lists_sources(all, old(catalog).live(now)) && text::opt(r)
                == name_of_id(all, id),
{
    let all: Vec<ResolvedSource> = catalog.snapshot(now);
    let r: Option<String> = find_name(&all, id);
    proof {
        assert(catalog::lists_sources(all@, old(catalog).live(now)));
    }
    r
}

/// The source that a group points at, by its current id; 0 for nothing or a source
/// that is not in the catalog.
pub open spec fn group_source(g: GroupView, sources: Seq<ResolvedSource>) -> u64 {
    match g.source {
        Some(n) => match id_of_name(sources, n) {
            Some(id) => id,
            None => 0,
        },
        None => 0,
    }
}

/// The source that a group points at, as the UI shows it.
pub open spec fn group_source_text(g: GroupView, sources: Seq<ResolvedSource>) -> Seq<char> {
    match g.source {
        Some(n) => match id_of_name(sources, n) {
            Some(id) => text::decimal(id as nat),
            None => Seq::empty(),
        },
        None => Seq::empty(),
    }
}

/// Whether the entries show the groups, in the order of their numbers.
pub open spec fn shows_groups(
    out: Seq<GroupDto>,
    pairs: Seq<(Seq<char>, GroupView)>,
    sources: Seq<ResolvedSource>,
) -> bool {
    exists|p: Seq<int>|
        {
            &&& #[trigger] order::stable_order(groups::suffixes(pairs), p)
            &&& out.len() == p.len()
            &&& forall|i: int|
                0 <= i < out.len() ==> {
                    &&& (#[trigger] out[i]).id@ == pairs[p[i]].0
                    &&& text::opt(out[i].name) == pairs[p[i]].1.name
                    &&& out[i].source_id@ == group_source_text(pairs[p[i]].1, sources)
                }
        }
}

/// The group list, with each group's stored source name resolved to a current
/// source id (empty when off / not in the catalog).
pub fn group_dtos(groups: &GroupStore, sources: &Vec<ResolvedSource>) -> (out: Vec<GroupDto>)
    ensures
        shows_groups(out@, groups.inner.pairs(), sources@),
{
    let all: Vec<(String, GroupRecord)> = groups.list();
    let ghost pairs = groups.inner.pairs();
    let ghost p = choose|p: Seq<int>|
        {
            &&& #[trigger] order::stable_order(groups::suffixes(pairs), p)
            &&& all@.len() == p.len()
            &&& forall|i: int|
                0 <= i < all@.len() ==> ((#[trigger] all@[i]).0@, all@[i].1@) == pairs[p[i]]
        };
    let mut out: Vec<GroupDto> = Vec::new();
    let mut i: usize = 0;
    while i < all.len()
        invariant
            i <= all@.len(),
            all@.len() == p.len(),
            forall|j: int|
                0 <= j < all@.len() ==> ((#[trigger] all@[j]).0@, all@[j].1@) == pairs[p[j]],
            out@.len() == i,
            forall|j: int|
                0 <= j < i ==> {
                    &&& (#[trigger] out@[j]).id@ == pairs[p[j]].0
                    &&& text::opt(out@[j].name) == pairs[p[j]].1.name
                    &&& out@[j].source_id@ == group_source_text(pairs[p[j]].1, sources@)
                },
        decreases all@.len() - i,
    {
        proof {
            assert((all@[i as int].0@, all@[i as int].1@) == pairs[p[i as int]]);
        }
        let rec: &GroupRecord = &all[i].1;
        let mut source_id: String = String::new();
        proof {
            assert(source_id@ =~= Seq::<char>::empty());
        }
        if let Some(n) = &rec.source {
            if let Some(id) = find_id(sources, n.as_str()) {
                source_id = u64_text(id);
            }
        }
        out.push(GroupDto { id: all[i].0.clone(), name: copy_opt(&rec.name), source_id });
        i = i + 1;
    }
    proof {
        assert(order::stable_order(groups::suffixes(pairs), p));
    }
    out
}

/// Whether the entry shows the source.
pub open spec fn shows_in_catalog(d: SourceDto, r: ResolvedSource) -> bool {
    &&& d.source_id@ == text::decimal(r.entry.source_id as nat)
    &&& d.name@ == r.entry.name@
    &&& d.source_type@ == r.entry.source_type@
    &&& d.sample_rate == r.entry.sample_rate
    &&& d.channels == r.entry.channels
    &&& d.format@ == match r.entry.format {
        WireFormat::S16Le => "s16"@,
        WireFormat::F32Le => "f32"@,
    }
    &&& d.lead_ms == r.entry.lead_ms
}

/// The global source catalog for the UI dropdown.
pub fn catalog_dtos(sources: &Vec<ResolvedSource>) -> (out: Vec<SourceDto>)
    ensures
        out@.len() == sources@.len(),
        forall|i: int| 0 <= i < out@.len() ==> shows_in_catalog(#[trigger] out@[i], sources@[i]),
{
    let mut out: Vec<SourceDto> = Vec::new();
    let mut i: usize = 0;
    while i < sources.len()
        invariant
            i <= sources@.len(),
            out@.len() == i,
            forall|j: int| 0 <= j < i ==> shows_in_catalog(#[trigger] out@[j], sources@[j]),
        decreases sources@.len() - i,
    {
        let r: &ResolvedSource = &sources[i];
        out.push(
            SourceDto {
                source_id: u64_text(r.entry.source_id),
                name: r.entry.name.clone(),
                source_type: r.entry.source_type.clone(),
                sample_rate: r.entry.sample_rate,
                channels: r.entry.channels,
                format: format_str(r.entry.format).to_owned(),
                lead_ms: r.entry.lead_ms,
            },
        );
        i = i + 1;
    }
    out
}

/// Whether the metadata describe the source: its send timing where it is hosted
/// here.
pub open spec fn describes(
    m: SourceMeta,
    r: ResolvedSource,
    local: Map<u64, RunningSource>,
    my_id: u64,
) -> bool {
    let id = r.entry.source_id;
    let here = local.contains_key(id);
    &&& m.id == id
    &&& m.name@ == r.entry.name@
    &&& m.sample_rate == r.entry.sample_rate
    &&& m.channels == r.entry.channels
    &&& m.lead_ms == r.entry.lead_ms
    &&& m.redundancy == if here {
        local[id].params.redundancy
    } else {
        0
    }
    &&& m.last_lead_ms == if here {
        local[id].params.last_lead_ms
    } else {
        0
    }
    &&& m.unicast == (here && local[id].params.unicast)
    &&& m.remote == (r.server_id != my_id)
}

/// Send-path source metadata (local + remote), for the per-source cards.
pub fn source_metas(
    sources: &Vec<ResolvedSource>,
    registry: &SourceRegistry,
    my_id: u64,
) -> (out: Vec<SourceMeta>)
    requires
        registry.wf(),
    ensures
        out@.len() == sources@.len(),
        forall|i: int|
            0 <= i < out@.len() ==> describes(
                #[trigger] out@[i],
                sources@[i],
                registry.sources@,
                my_id,
            ),
{
    let mut out: Vec<SourceMeta> = Vec::new();
    let mut i: usize = 0;
    while i < sources.len()
        invariant
            i <= sources@.len(),
            registry.wf(),
            out@.len() == i,
            forall|j: int|
                0 <= j < i ==> describes(
                    #[trigger] out@[j],
                    sources@[j],
                    registry.sources@,
                    my_id,
                ),
        decreases sources@.len() - i,
    {
        let r: &ResolvedSource = &sources[i];
        let mut redundancy: u32 = 0;
        let mut last_lead_ms: u64 = 0;
        let mut unicast: bool = false;
        if let Some(p) = registry.params(r.entry.source_id) {
            redundancy = p.redundancy();
            last_lead_ms = p.last_lead();
            unicast = p.unicast();
        }
        out.push(
            SourceMeta {
                id: r.entry.source_id,
                name: r.entry.name.clone(),
                sample_rate: r.entry.sample_rate,
                channels: r.entry.channels,
                lead_ms: r.entry.lead_ms,
                redundancy,
                last_lead_ms,
                unicast,
                remote: r.server_id != my_id,
            },
        );
        i = i + 1;
    }
    out
}

// Requests.

/// Why a request is refused.
#[derive(Debug)]
pub enum Refusal {
    BadRequest,
    NotFound,
    /// A bad request, with what is wrong with it.
    Because(String),
}

/// The source that a request names: nothing or an empty text is off (0), and what
/// is no number is a bad request.
pub open spec fn requested(source: Option<Seq<char>>) -> Option<u64> {
    match source {
        None => Some(0),
        Some(s) => if s.len() == 0 {
            Some(0)
        } else {
            match text::bounded_value(s, 10, u64::MAX as nat) {
                Some(n) => Some(n as u64),
                None => None,
            }
        },
    }
}

pub fn requested_source(source: &Option<String>) -> (r: Option<u64>)
    ensures
        r == requested(text::opt(*source)),
{
    match source {
        None => Some(0),
        Some(s) => {
            if same_text(s.as_str(), "") {
                proof {
                    reveal_strlit("");
                }
                return Some(0);
            }
            proof {
                reveal_strlit("");
                if s@.len() == 0 {
                    assert(s@ =~= ""@);
                }
            }
            parse_u64(s.as_str())
        },
    }
}

/// The id that a request's path names.
pub open spec fn path_id(s: Seq<char>) -> Option<u64> {
    match text::bounded_value(s, 10, u64::MAX as nat) {
        Some(n) => Some(n as u64),
        None => None,
    }
}

/// Whether the change is sent to the client, if it is known where that is.
pub open spec fn pushed_to(
    r: Option<ControlCommand>,
    known: Map<Seq<char>, HistoryView>,
    id: Seq<char>,
    before: ControlSender,
    after: ControlSender,
    p: Push,
) -> bool {
    if known.contains_key(id) {
        &&& r is Some
        &&& sent_as(r->0@, known[id].ip, before.next_id, p)
        &&& after.next_id == before.next_id.wrapping_add(1)
    } else {
        r is None && after == before
    }
}

/// Set a client's volume: persist it (authoritative), and push it to the client.
pub fn set_volume(
    id: &String,
    volume: Volume,
    store: &TelemetryStore,
    clients_store: &mut ClientStore,
    control: &mut ControlSender,
) -> (r: Option<ControlCommand>)
    requires
        store.wf(),
        old(clients_store).wf(),
    ensures
        final(clients_store).wf(),
        final(clients_store)@ == old(clients_store)@.insert(
            id@,
            (RecordView {
                volume: volume.spec_clamped(),
                ..clients::known(old(clients_store)@, id@)
            }),
        ),
        pushed_to(
            r,
            store.clients@,
            id@,
            *old(control),
            *final(control),
            Push::volume(volume.spec_clamped()),
        ),
{
    let v: Volume = volume.clamped();
    clients_store.set_volume(id, v);
    match store.ip_for_id(id) {
        Some(ip) => Some(control.send(ip, None, Some(v), None)),
        None => None,
    }
}

/// A delay brought up to the sanity ceiling.
pub open spec fn bounded_delay(ms: u32) -> u32 {
    if ms > MAX_LEAD_MS {
        MAX_LEAD_MS as u32
    } else {
        ms
    }
}

/// Set a client's delay. There is a sanity ceiling only; the client re-clamps to
/// its selected source's lead.
pub fn set_delay(
    id: &String,
    delay_ms: u32,
    store: &TelemetryStore,
    clients_store: &mut ClientStore,
    control: &mut ControlSender,
) -> (r: Option<ControlCommand>)
    requires
        store.wf(),
        old(clients_store).wf(),
    ensures
        final(clients_store).wf(),
        final(clients_store)@ == old(clients_store)@.insert(
            id@,
            (RecordView {
                delay_ms: bounded_delay(delay_ms),
                ..clients::known(old(clients_store)@, id@)
            }),
        ),
        pushed_to(
            r,
            store.clients@,
            id@,
            *old(control),
            *final(control),
            Push::delay(bounded_delay(delay_ms)),
        ),
{
    let d: u32 = if delay_ms as u64 > MAX_LEAD_MS {
        MAX_LEAD_MS as u32
    } else {
        delay_ms
    };
    clients_store.set_delay(id, d);
    match store.ip_for_id(id) {
        Some(ip) => Some(control.send(ip, None, None, Some(d))),
        None => None,
    }
}

/// Select a source for a client.
pub fn set_source(
    id: &String,
    source: &Option<String>,
    store: &TelemetryStore,
    control: &mut ControlSender,
) -> (r: Result<Option<ControlCommand>, Status>)
    requires
        store.wf(),
    ensures
        match requested(text::opt(*source)) {
            None => r == Err::<Option<ControlCommand>, Status>(Status::BadRequest)
                && *final(control) == *old(control),
            Some(sid) => r is Ok && pushed_to(
                r->Ok_0,
                store.clients@,
                id@,
                *old(control),
                *final(control),
                Push::source(sid),
            ),
        },
{
    let sid: u64 = match requested_source(source) {
        Some(n) => n,
        None => {
            return Err(Status::BadRequest);
        },
    };
    match store.ip_for_id(id) {
        Some(ip) => Ok(Some(control.send(ip, Some(sid), None, None))),
        None => Ok(None),
    }
}

/// Set a client's output channel map: persist it (authoritative), and push it to
/// the client.
pub fn set_channel_map(
    id: &String,
    map: Vec<i16>,
    store: &TelemetryStore,
    clients_store: &mut ClientStore,
    control: &mut ControlSender,
) -> (r: Option<ControlCommand>)
    requires
        store.wf(),
        old(clients_store).wf(),
    ensures
        final(clients_store).wf(),
        final(clients_store)@ == old(clients_store)@.insert(
            id@,
            (RecordView { channel_map: map@, ..clients::known(old(clients_store)@, id@) }),
        ),
        pushed_to(
            r,
            store.clients@,
            id@,
            *old(control),
            *final(control),
            Push::map(map@),
        ),
{
    clients_store.set_channel_map(id, copy_map(&map));
    match store.ip_for_id(id) {
        Some(ip) => Some(control.send_channel_map(ip, map)),
        None => None,
    }
}

/// Delete a group and drop all its members back to ungrouped.
pub fn delete_group(gid: &String, groups: &mut GroupStore, clients_store: &mut ClientStore) -> (r:
    Status)
    requires
        old(groups).wf(),
        old(clients_store).wf(),
    ensures
        final(groups).wf(),
        final(clients_store).wf(),
        r == if old(groups)@.contains_key(gid@) {
            Status::Done
        } else {
            Status::NotFound
        },
        final(groups)@ == old(groups)@.remove(gid@),
        final(clients_store)@ == clients::without_group(old(clients_store)@, gid@),
{
    let _ = clients_store.clear_group(gid);
    if groups.delete(gid) {
        Status::Done
    } else {
        Status::NotFound
    }
}

/// Rename a group (nothing or a blank clears the name).
pub fn set_group_name(gid: &String, name: Option<String>, groups: &mut GroupStore) -> (r: Status)
    requires
        old(groups).wf(),
    ensures
        final(groups).wf(),
        if old(groups)@.contains_key(gid@) {
            &&& r == Status::Done
            &&& final(groups)@ == old(groups)@.insert(
                gid@,
                GroupView { name: text::filled_of(text::opt(name)), ..old(groups)@[gid@] },
            )
        } else {
            r == Status::NotFound && final(groups)@ == old(groups)@
        },
{
    if groups.set_name(gid, name) {
        Status::Done
    } else {
        Status::NotFound
    }
}

/// The number `n` places after `base`; the count wraps.
pub open spec fn nth_id(base: u64, n: int) -> u64 {
    ((base + n) % 0x1_0000_0000_0000_0000) as u64
}

pub proof fn lemma_next_id(base: u64, n: int)
    requires
        0 <= n,
    ensures
        nth_id(base, n).wrapping_add(1) == nth_id(base, n + 1),
        nth_id(base, 0) == base,
{
    let m = (base + n) % 0x1_0000_0000_0000_0000;
    assert((base + n + 1) % 0x1_0000_0000_0000_0000 == if m == 0xffff_ffff_ffff_ffff {
        0
    } else {
        m + 1
    });
}

/// Whether the list holds the members of a group, each once.
pub open spec fn are_members(
    list: Seq<Seq<char>>,
    records: Map<Seq<char>, RecordView>,
    gid: Seq<char>,
) -> bool {
    &&& list.no_duplicates()
    &&& forall|id: Seq<char>|
        list.contains(id) <==> records.contains_key(id) && #[trigger] records[id].group == Some(gid)
}

/// Where the clients of a list are, as far as it is known.
pub open spec fn targets_of(list: Seq<Seq<char>>, known: Map<Seq<char>, HistoryView>) -> Seq<u32>
    decreases list.len(),
{
    if list.len() == 0 {
        Seq::empty()
    } else {
        let before = targets_of(list.drop_last(), known);
        if known.contains_key(list.last()) {
            before.push(known[list.last()].ip)
        } else {
            before
        }
    }
}

/// Whether the commands carry one change to all the targets.
pub open spec fn sent_to_all(
    out: Seq<ControlCommand>,
    targets: Seq<u32>,
    base: u64,
    p: Push,
) -> bool {
    &&& out.len() == targets.len()
    &&& forall|i: int|
        0 <= i < out.len() ==> sent_as((#[trigger] out[i])@, targets[i], nth_id(base, i), p)
}

/// Point a group at a source (nothing or empty = nothing): persist the choice by
/// name and push the source to every current member.
pub fn set_group_source(
    gid: &String,
    source: &Option<String>,
    groups: &mut GroupStore,
    clients_store: &ClientStore,
    catalog: &mut CatalogStore,
    store: &TelemetryStore,
    control: &mut ControlSender,
    now: u64,
) -> (r: Result<Vec<ControlCommand>, Status>)
    requires
        old(groups).wf(),
        clients_store.wf(),
        old(catalog).wf(),
        store.wf(),
    ensures
        final(groups).wf(),
        final(catalog).wf(),
        !old(groups)@.contains_key(gid@) ==> r == Err::<Vec<ControlCommand>, Status>(
            Status::NotFound,
        ),
        old(groups)@.contains_key(gid@) && requested(text::opt(*source)) is None ==> r == Err::<
            Vec<ControlCommand>,
            Status,
        >(Status::BadRequest),
        r is Err ==> final(groups)@ == old(groups)@ && *final(control) == *old(control)
            && *final(catalog) == *old(catalog),
        old(groups)@.contains_key(gid@) && requested(text::opt(*source)) is Some ==> {
            let sid = requested(text::opt(*source))->0;
            &&& r is Ok
            &&& if sid == 0 {
                &&& *final(catalog) == *old(catalog)
                &&& final(groups)@ == old(groups)@.insert(
                    gid@,
                    GroupView { source: None, ..old(groups)@[gid@] },
                )
            } else {
                &&& catalog_pruned(*old(catalog), *final(catalog), now)
                &&& exists|all: Seq<ResolvedSource>|
                    {
                        &&& #[trigger] catalog::lists_sources(all, old(catalog).live(now))
                        &&& final(groups)@ == old(groups)@.insert(
                            gid@,
                            GroupView { source: name_of_id(all, sid), ..old(groups)@[gid@] },
                        )
                    }
            }
            &&& exists|members: Seq<Seq<char>>|
                {
                    &&& #[trigger] are_members(members, clients_store@, gid@)
                    &&& sent_to_all(
                        r->Ok_0@,
                        targets_of(members, store.clients@),
                        old(control).next_id,
                        Push::source(sid),
                    )
                }
            &&& final(control).next_id == nth_id(old(control).next_id, r->Ok_0@.len() as int)
        },
{
    if !groups.contains(gid) {
        return Err(Status::NotFound);
    }
    let sid: u64 = match requested_source(source) {
        Some(n) => n,
        None => {
            return Err(Status::BadRequest);
        },
    };
    // Persisted by name: ids change with the server.
    let name: Option<String> = if sid == 0 {
        None
    } else {
        source_name_by_id(catalog, sid, now)
    };
    let _ = groups.set_source(gid, name);
    let list: Vec<String> = clients_store.members(gid);
    let ghost members = list@.map_values(|s: String| s@);
    let ghost known = store.clients@;
    let ghost base = control.next_id;
    let mut out: Vec<ControlCommand> = Vec::new();
    let mut i: usize = 0;
    proof {
        assert(are_members(members, clients_store@, gid@));
        assert(members.take(0) =~= Seq::<Seq<char>>::empty());
        lemma_next_id(base, 0);
    }
    while i < list.len()
        invariant
            i <= list@.len(),
            members == list@.map_values(|s: String| s@),
            store.wf(),
            known == store.clients@,
            sent_to_all(
                out@,
                targets_of(members.take(i as int), known),
                base,
                Push::source(sid),
            ),
            control.next_id == nth_id(base, out@.len() as int),
        decreases list@.len() - i,
    {
        proof {
            assert(members.take(i + 1).drop_last() =~= members.take(i as int));
            assert(members.take(i + 1).last() == list@[i as int]@);
            lemma_next_id(base, out@.len() as int);
        }
        if let Some(ip) = store.ip_for_id(&list[i]) {
            let ghost before = out@;
            let c: ControlCommand = control.send(ip, Some(sid), None, None);
            out.push(c);
            proof {
                assert forall|j: int| 0 <= j < out@.len() implies sent_as(
                    (#[trigger] out@[j])@,
                    targets_of(members.take(i + 1), known)[j],
                    nth_id(base, j),
                    Push::source(sid),
                ) by {
                    if j < before.len() {
                        assert(out@[j] == before[j]);
                    }
                }
            }
        }
        i = i + 1;
    }
    proof {
        assert(members.take(i as int) =~= members);
        assert(are_members(members, clients_store@, gid@));
    }
    Ok(out)
}

/// The group that a request names; an empty text is none.
pub open spec fn requested_group(group: Option<Seq<char>>) -> Option<Seq<char>> {
    match group {
        Some(s) => if s.len() == 0 {
            None
        } else {
            Some(s)
        },
        None => None,
    }
}

fn named_group(group: Option<String>) -> (r: Option<String>)
    ensures
        text::opt(r) == requested_group(text::opt(group)),
{
    match group {
        Some(s) => {
            proof {
                reveal_strlit("");
                if s@.len() == 0 {
                    assert(s@ =~= ""@);
                }
            }
            if same_text(s.as_str(), "") {
                None
            } else {
                Some(s)
            }
        },
        None => None,
    }
}

/// Move a client into a group (nothing or empty = out of its group). A grouped
/// client plays the group's source at once, or falls silent if the group has none,
/// rather than keeping its old source.
pub fn set_client_group(
    id: &String,
    group: Option<String>,
    groups: &GroupStore,
    clients_store: &mut ClientStore,
    catalog: &mut CatalogStore,
    store: &TelemetryStore,
    control: &mut ControlSender,
    now: u64,
) -> (r: Result<Option<ControlCommand>, Status>)
    requires
        groups.wf(),
        old(clients_store).wf(),
        old(catalog).wf(),
        store.wf(),
    ensures
        final(clients_store).wf(),
        final(catalog).wf(),
        ({
            let gid = requested_group(text::opt(group));
            let looks_up = gid is Some && groups@.contains_key(gid->0)
                && groups@[gid->0].source is Some && store.clients@.contains_key(id@);
            if looks_up {
                catalog_pruned(*old(catalog), *final(catalog), now)
            } else {
                *final(catalog) == *old(catalog)
            }
        }),
        ({
            let gid = requested_group(text::opt(group));
            if gid is Some && !groups@.contains_key(gid->0) {
                &&& r == Err::<Option<ControlCommand>, Status>(Status::NotFound)
                &&& final(clients_store)@ == old(clients_store)@
                &&& *final(control) == *old(control)
            } else {
                &&& r is Ok
                &&& final(clients_store)@ == old(clients_store)@.insert(
                    id@,
                    (RecordView { group: gid, ..clients::known(old(clients_store)@, id@) }),
                )
                &&& gid is None ==> r->Ok_0 is None && *final(control) == *old(control)
                &&& gid is Some && groups@[gid->0].source is None ==> pushed_to(
                    r->Ok_0,
                    store.clients@,
                    id@,
                    *old(control),
                    *final(control),
                    Push::source(0),
                )
                &&& gid is Some && groups@[gid->0].source is Some ==> if store.clients@.contains_key(
                    id@,
                ) {
                    exists|all: Seq<ResolvedSource>|
                        {
                            &&& #[trigger] catalog::lists_sources(all, old(catalog).live(now))
                            &&& pushed_to(
                                r->Ok_0,
                                store.clients@,
                                id@,
                                *old(control),
                                *final(control),
                                Push::source(group_source(groups@[gid->0], all)),
                            )
                        }
                } else {
                    r->Ok_0 is None && *final(control) == *old(control)
                }
            }
        }),
{
    let gid: Option<String> = named_group(group);
    match &gid {
        None => {
            clients_store.set_group(id, None);
            Ok(None)
        },
        Some(g) => {
            match groups.get(g) {
                None => Err(Status::NotFound),
                Some(rec) => {
                    clients_store.set_group(id, Some(g.clone()));
                    match store.ip_for_id(id) {
                        Some(ip) => {
                            let mut sid: u64 = 0;
                            if let Some(n) = &rec.source {
                                if let Some(x) = source_id_by_name(catalog, n.as_str(), now) {
                                    sid = x;
                                }
                            }
                            Ok(Some(control.send(ip, Some(sid), None, None)))
                        },
                        None => Ok(None),
                    }
                },
            }
        },
    }
}

/// The send timing that a request asks for; what is left out stays.
pub struct SendBody {
    pub lead_ms: Option<u64>,
    pub redundancy: Option<u32>,
    pub last_lead_ms: Option<u64>,
    pub unicast: Option<bool>,
}

/// The send timing with the request applied.
pub open spec fn with_send(p: SendParams, b: SendBody) -> SendParams {
    SendParams {
        lead_ms: match b.lead_ms {
            Some(v) => stream::bounded_lead(v),
            None => p.lead_ms,
        },
        redundancy: match b.redundancy {
            Some(v) => stream::bounded_copies(v),
            None => p.redundancy,
        },
        last_lead_ms: match b.last_lead_ms {
            Some(v) => stream::bounded_last_lead(v),
            None => p.last_lead_ms,
        },
        unicast: match b.unicast {
            Some(v) => v,
            None => p.unicast,
        },
        reanchor: p.reanchor,
    }
}

/// Whether only the send timing of one source has changed.
pub open spec fn retimed(
    before: SourceRegistry,
    after: SourceRegistry,
    id: u64,
    params: SendParams,
) -> bool {
    &&& after.server_id == before.server_id
    &&& after.sources@ == before.sources@.insert(
        id,
        RunningSource { params, ..before.sources@[id] },
    )
}

/// Adjust a local source's send timing (lead / redundancy / last-copy lead),
/// applying it live. Not found for a source id this server doesn't host.
pub fn set_send(id: &str, body: &SendBody, registry: &mut SourceRegistry) -> (r: Status)
    requires
        old(registry).wf(),
    ensures
        final(registry).wf(),
        match path_id(id@) {
            None => r == Status::BadRequest && *final(registry) == *old(registry),
            Some(n) => if old(registry).sources@.contains_key(n) {
                r == Status::Done && retimed(
                    *old(registry),
                    *final(registry),
                    n,
                    with_send(old(registry).sources@[n].params, *body),
                )
            } else {
                r == Status::NotFound && *final(registry) == *old(registry)
            },
        },
{
    let n: u64 = match parse_u64(id) {
        Some(n) => n,
        None => {
            return Status::BadRequest;
        },
    };
    let (mut params, metrics) = match registry.timing(n) {
        Some(t) => t,
        None => {
            return Status::NotFound;
        },
    };
    if let Some(v) = body.lead_ms {
        params.set_lead(v);
    }
    if let Some(v) = body.redundancy {
        params.set_redundancy(v);
    }
    if let Some(v) = body.last_lead_ms {
        params.set_last_lead(v);
    }
    if let Some(v) = body.unicast {
        params.set_unicast(v);
    }
    let _ = registry.set_timing(n, params, metrics);
    Status::Done
}

/// Manually re-anchor a local source's send timeline (it starts anew from now on
/// its next packet, resyncing to real time). Not found for a source id this server
/// doesn't host.
pub fn reanchor_source(id: &str, registry: &mut SourceRegistry) -> (r: Status)
    requires
        old(registry).wf(),
    ensures
        final(registry).wf(),
        match path_id(id@) {
            None => r == Status::BadRequest && *final(registry) == *old(registry),
            Some(n) => if old(registry).sources@.contains_key(n) {
                r == Status::Done && retimed(
                    *old(registry),
                    *final(registry),
                    n,
                    SendParams { reanchor: true, ..old(registry).sources@[n].params },
                )
            } else {
                r == Status::NotFound && *final(registry) == *old(registry)
            },
        },
{
    let n: u64 = match parse_u64(id) {
        Some(n) => n,
        None => {
            return Status::BadRequest;
        },
    };
    match registry.timing(n) {
        Some((mut params, metrics)) => {
            params.request_reanchor();
            let _ = registry.set_timing(n, params, metrics);
            Status::Done
        },
        None => Status::NotFound,
    }
}

/// Rebuild the config's source list from the live registry (with current
/// send-timing values). Other fields (interface, local client) are preserved.
pub fn persist_sources(config: &mut Config, registry: &SourceRegistry)
    ensures
        final(config).interface == old(config).interface,
        final(config).local_client == old(config).local_client,
        exists|p: Seq<int>|
            {
                &&& #[trigger] order::ranked(
                    supervisor::running_keys(registry.sources.pairs()),
                    p,
                )
                &&& final(config).sources@.len() == p.len()
                &&& forall|i: int|
                    0 <= i < p.len() ==> #[trigger] final(config).sources@[i]
                        == supervisor::live_config(registry.sources.pairs()[p[i]].1)
            },
{
    config.sources = registry.configs();
}

/// Enable/disable the in-process playback client and set its name. Returns the
/// device id and name to start it under, if it has to be started: disabling or
/// renaming takes effect on the next server restart.
pub fn set_local_client(
    enabled: bool,
    name: Option<String>,
    config: &mut Config,
    registry: &SourceRegistry,
    local: &mut LocalClientCtl,
    hostname: &str,
) -> (r: Option<(String, Option<String>)>)
    ensures
        final(config).interface == old(config).interface,
        match final(config).local_client {
            Some(c) => enabled && c.id is None && text::opt(c.name) == text::filled_of(
                text::opt(name),
            ),
            None => !enabled,
        },
        *final(local) == if enabled {
            LocalClientCtl { running: true, ..*old(local) }
        } else {
            *old(local)
        },
        r is Some <==> enabled && !old(local).running,
        r matches Some(x) ==> x.0@ == hostname@ + "-local"@ && text::opt(x.1) == text::filled_of(
            text::opt(name),
        ),
        exists|p: Seq<int>|
            {
                &&& #[trigger] order::ranked(
                    supervisor::running_keys(registry.sources.pairs()),
                    p,
                )
                &&& final(config).sources@.len() == p.len()
                &&& forall|i: int|
                    0 <= i < p.len() ==> #[trigger] final(config).sources@[i]
                        == supervisor::live_config(registry.sources.pairs()[p[i]].1)
            },
{
    let name: Option<String> = filled(name);
    config.local_client =
    if enabled {
        Some(LocalClientConfig { id: None, name: copy_opt(&name) })
    } else {
        None
    };
    persist_sources(config, registry);
    if !enabled {
        return None;
    }
    match local.ensure_running(hostname) {
        Some(id) => Some((id, name)),
        None => None,
    }
}

/// Whether a source can be replaced by another: where the new one would be started,
/// there is a group for it beside the sources that are left.
pub open spec fn replaceable(id: Seq<char>, cfg: SourceConfig, registry: SourceRegistry) -> bool {
    match path_id(id) {
        Some(n) => registry.sources@.contains_key(n) ==> supervisor::room_for(
            registry.sources@.remove(n),
            registry.server_id,
            cfg,
        ),
        None => true,
    }
}

/// Whether a source can be replaced by another, or the request is refused anyway.
pub fn can_replace(id: &str, cfg: &SourceConfig, registry: &SourceRegistry) -> (r: bool)
    requires
        registry.wf(),
    ensures
        r == replaceable(id@, *cfg, *registry),
{
    match parse_u64(id) {
        Some(n) => !registry.contains(n) || registry.has_group_instead(n, cfg),
        None => true,
    }
}

/// Replace a source at runtime: remove the old one and start the new config. Where
/// the new one is refused, the old one is gone nevertheless.
pub fn update_source(id: &str, cfg: &SourceConfig, registry: &mut SourceRegistry) -> (r: Result<
    u64,
    Refusal,
>)
    requires
        old(registry).wf(),
        replaceable(id@, *cfg, *old(registry)),
    ensures
        final(registry).wf(),
        final(registry).server_id == old(registry).server_id,
        ({
            let new_id = catalog::id_of(old(registry).server_id, cfg.name@);
            let n = path_id(id@);
            let left = old(registry).sources@.remove(n->0);
            if n is None {
                r matches Err(e) && e is BadRequest && *final(registry) == *old(registry)
            } else if !old(registry).sources@.contains_key(n->0) {
                r matches Err(e) && e is NotFound && *final(registry) == *old(registry)
            } else if !crate::config::runnable(*cfg) {
                r matches Err(e) && e is Because && e->0@ == supervisor::unknown_format(*cfg)
                    && final(registry).sources@ == left
            } else if left.contains_key(new_id) {
                r matches Err(e) && e is Because && e->0@ == supervisor::name_taken(*cfg)
                    && final(registry).sources@ == left
            } else {
                &&& r matches Ok(x)
                &&& x == new_id
                &&& final(registry).sources@.contains_key(new_id)
                &&& final(registry).sources@ == left.insert(
                    new_id,
                    final(registry).sources@[new_id],
                )
                &&& supervisor::started_from(final(registry).sources@[new_id], *cfg)
                &&& supervisor::first_free(
                    left,
                    supervisor::group_start(*cfg, new_id),
                    final(registry).sources@[new_id].group as int,
                )
            }
        }),
{
    let n: u64 = match parse_u64(id) {
        Some(n) => n,
        None => {
            return Err(Refusal::BadRequest);
        },
    };
    if !registry.contains(n) {
        return Err(Refusal::NotFound);
    }
    let _ = registry.remove(n);
    match registry.spawn(cfg) {
        Ok(x) => Ok(x),
        Err(e) => Err(Refusal::Because(e)),
    }
}

/// Remove a source at runtime.
pub fn delete_source(id: &str, registry: &mut SourceRegistry) -> (r: Status)
    requires
        old(registry).wf(),
    ensures
        final(registry).wf(),
        final(registry).server_id == old(registry).server_id,
        match path_id(id@) {
            None => r == Status::BadRequest && final(registry).sources@ == old(registry).sources@,
            Some(n) => {
                &&& r == if old(registry).sources@.contains_key(n) {
                    Status::Done
                } else {
                    Status::NotFound
                }
                &&& final(registry).sources@ == old(registry).sources@.remove(n)
            },
        },
{
    match parse_u64(id) {
        None => Status::BadRequest,
        Some(n) => if registry.remove(n) {
            Status::Done
        } else {
            Status::NotFound
        },
    }
}

/// An id that the UI shows is read back as itself, and off as off.
pub proof fn shown_ids_are_read_back(id: u64)
    ensures
        requested(Some(id_text(id))) == Some(id),
        requested(None) == Some(0u64),
        id != 0 ==> path_id(id_text(id)) == Some(id),
        id == 0 <==> id_text(id).len() == 0,
{
    text::decimal_round_trip(id as nat);
    if id != 0 {
        text::lemma_decimal_nonempty(id as nat);
    }
}

/// What is neither empty nor a number is refused.
pub proof fn other_requests_are_refused(s: Seq<char>)
    requires
        s.len() > 0,
        text::unsigned_value(s, 10) is None || text::unsigned_value(s, 10)->0 > u64::MAX,
    ensures
        requested(Some(s)) is None,
        path_id(s) is None,
{
}

/// Tenths of a second are the nearest to the milliseconds, halves up.
pub proof fn tenths_are_nearest(ms: u64)
    ensures
        -50 <= ms - 100 * tenths(ms) < 50,
{
}

/// What the list shows of a client is what it last reported, under the name on record
/// or else its own; it counts as connected for five seconds.
pub proof fn clients_are_listed_as_reported(
    d: ClientDto,
    h: HistoryView,
    records: Map<Seq<char>, RecordView>,
    now_ms: u64,
)
    requires
        shows_client(d, h, records, now_ms),
        now_ms >= h.last_report_ms,
    ensures
        d.connected <==> now_ms - h.last_report_ms < 5000,
        -50 <= now_ms - h.last_report_ms - 100 * d.tenths_ago < 50,
        d.ip@ == wire::dotted(h.ip),
        requested(Some(d.selected_source_id@)) == Some(h.selected_source_id),
        d.volume == h.volume,
        d.delay_ms == h.delay_ms,
        d.output_channels == h.output_channels,
        d.channel_map@ == h.channel_map,
        !records.contains_key(d.id@) ==> d.name@ == h.hostname && d.group_id is None,
        records.contains_key(d.id@) ==> text::opt(d.group_id) == records[d.id@].group,
        records.contains_key(d.id@) && records[d.id@].name is None ==> d.name@ == h.hostname,
        records.contains_key(d.id@) && records[d.id@].name is Some ==> Some(d.name@)
            == records[d.id@].name,
{
    tenths_are_nearest((now_ms - h.last_report_ms) as u64);
    shown_ids_are_read_back(h.selected_source_id);
}

/// A name is looked up as the first source that has it, and an id likewise.
pub proof fn lookups_find_the_first(
    sources: Seq<ResolvedSource>,
    name: Seq<char>,
    id: u64,
    i: int,
)
    requires
        0 <= i < sources.len(),
    ensures
        sources[i].entry.name@ == name && (forall|j: int|
            0 <= j < i ==> (#[trigger] sources[j]).entry.name@ != name) ==> id_of_name(
            sources,
            name,
        ) == Some(sources[i].entry.source_id),
        sources[i].entry.source_id == id && (forall|j: int|
            0 <= j < i ==> (#[trigger] sources[j]).entry.source_id != id) ==> name_of_id(
            sources,
            id,
        ) == Some(sources[i].entry.name@),
    decreases sources.len(),
{
    let rest = sources.skip(1);
    if i > 0 {
        assert(rest[i - 1] == sources[i]);
        lookups_find_the_first(rest, name, id, i - 1);
        if forall|j: int| 0 <= j < i ==> (#[trigger] sources[j]).entry.name@ != name {
            assert(sources[0].entry.name@ != name);
            assert forall|j: int| 0 <= j < i - 1 implies (#[trigger] rest[j]).entry.name@
                != name by {
                assert(sources[j + 1].entry.name@ != name);
            }
        }
        if forall|j: int| 0 <= j < i ==> (#[trigger] sources[j]).entry.source_id != id {
            assert(sources[0].entry.source_id != id);
            assert forall|j: int| 0 <= j < i - 1 implies (#[trigger] rest[j]).entry.source_id
                != id by {
                assert(sources[j + 1].entry.source_id != id);
            }
        }
    }
}

/// A name that no source has, and an id that none has, are not found.
pub proof fn lookups_find_nothing_else(sources: Seq<ResolvedSource>, name: Seq<char>, id: u64)
    ensures
        (forall|j: int| 0 <= j < sources.len() ==> (#[trigger] sources[j]).entry.name@ != name)
            ==> id_of_name(sources, name) is None,
        (forall|j: int| 0 <= j < sources.len() ==> (#[trigger] sources[j]).entry.source_id != id)
            ==> name_of_id(sources, id) is None,
    decreases sources.len(),
{
    if sources.len() > 0 {
        let rest = sources.skip(1);
        lookups_find_nothing_else(rest, name, id);
        if forall|j: int| 0 <= j < sources.len() ==> (#[trigger] sources[j]).entry.name@ != name {
            assert(sources[0].entry.name@ != name);
            assert forall|j: int| 0 <= j < rest.len() implies (#[trigger] rest[j]).entry.name@
                != name by {
                assert(sources[j + 1].entry.name@ != name);
            }
        }
        if forall|j: int|
            0 <= j < sources.len() ==> (#[trigger] sources[j]).entry.source_id != id {
            assert(sources[0].entry.source_id != id);
            assert forall|j: int| 0 <= j < rest.len() implies (#[trigger] rest[j]).entry.source_id
                != id by {
                assert(sources[j + 1].entry.source_id != id);
            }
        }
    }
}

/// A group plays the source that its stored name leads to, and nothing where it has
/// none or it is gone; what is shown of it reads back as that.
pub proof fn groups_play_their_stored_source(g: GroupView, sources: Seq<ResolvedSource>)
    ensures
        g.source is None ==> group_source(g, sources) == 0 && group_source_text(
            g,
            sources,
        ).len() == 0,
        g.source matches Some(n) ==> match id_of_name(sources, n) {
            Some(id) => group_source(g, sources) == id && requested(
                Some(group_source_text(g, sources)),
            ) == Some(id),
            None => group_source(g, sources) == 0 && group_source_text(g, sources).len() == 0,
        },
{
    if g.source is Some && id_of_name(sources, g.source->0) is Some {
        let id = id_of_name(sources, g.source->0)->0;
        text::decimal_round_trip(id as nat);
        text::lemma_decimal_nonempty(id as nat);
    }
}

/// Groups are listed by their numbers, all of them, each once.
pub proof fn groups_are_listed_by_number(
    out: Seq<GroupDto>,
    pairs: Seq<(Seq<char>, GroupView)>,
    sources: Seq<ResolvedSource>,
    i: int,
    j: int,
)
    requires
        shows_groups(out, pairs, sources),
        0 <= i < j < out.len(),
    ensures
        out.len() == pairs.len(),
        groups::suffix_of(out[i].id@) <= groups::suffix_of(out[j].id@),
        exists|k: int|
            0 <= k < pairs.len() && (#[trigger] pairs[k]).0 == out[i].id@ && pairs[k].1.name
                == text::opt(out[i].name) && out[i].source_id@ == group_source_text(
                pairs[k].1,
                sources,
            ),
{
    let p = choose|p: Seq<int>|
        {
            &&& #[trigger] order::stable_order(groups::suffixes(pairs), p)
            &&& out.len() == p.len()
            &&& forall|i: int|
                0 <= i < out.len() ==> {
                    &&& (#[trigger] out[i]).id@ == pairs[p[i]].0
                    &&& text::opt(out[i].name) == pairs[p[i]].1.name
                    &&& out[i].source_id@ == group_source_text(pairs[p[i]].1, sources)
                }
        };
    order::ordering_sorts(groups::suffixes(pairs), p, i, j);
    assert(out[i].id@ == pairs[p[i]].0 && out[j].id@ == pairs[p[j]].0);
    assert(0 <= p[j] < pairs.len());
    assert(groups::suffixes(pairs)[p[i]] == groups::suffix_of(pairs[p[i]].0));
    assert(groups::suffixes(pairs)[p[j]] == groups::suffix_of(pairs[p[j]].0));
}

/// What the catalog shows of a source reads back as its id, and says what it is.
pub proof fn catalog_entries_are_shown(d: SourceDto, r: ResolvedSource)
    requires
        shows_in_catalog(d, r),
        r.entry.source_id != 0,
    ensures
        requested(Some(d.source_id@)) == Some(r.entry.source_id),
        d.name@ == r.entry.name@,
        d.source_type@ == r.entry.source_type@,
        d.sample_rate == r.entry.sample_rate,
        d.channels == r.entry.channels,
        WireFormat::spec_parse(d.format@) == Some(r.entry.format),
        d.lead_ms == r.entry.lead_ms,
{
    shown_ids_are_read_back(r.entry.source_id);
    crate::config::default_formats_are_known();
}

/// The send timing of a source is known only where it is hosted here; a source is
/// remote exactly if another server announced it.
pub proof fn timing_is_known_of_own_sources(
    m: SourceMeta,
    r: ResolvedSource,
    local: Map<u64, RunningSource>,
    my_id: u64,
)
    requires
        describes(m, r, local, my_id),
    ensures
        m.id == r.entry.source_id,
        m.name@ == r.entry.name@,
        m.sample_rate == r.entry.sample_rate,
        m.channels == r.entry.channels,
        m.lead_ms == r.entry.lead_ms,
        m.remote <==> r.server_id != my_id,
        !local.contains_key(m.id) ==> m.redundancy == 0 && m.last_lead_ms == 0 && !m.unicast,
        local.contains_key(m.id) ==> m.redundancy == local[m.id].params.redundancy
            && m.last_lead_ms == local[m.id].params.last_lead_ms && m.unicast
            == local[m.id].params.unicast,
{
}

/// A delay is brought to the nearest of at most two seconds.
pub proof fn delays_are_bounded(ms: u32)
    ensures
        bounded_delay(ms) <= 2000,
        ms <= 2000 ==> bounded_delay(ms) == ms,
        ms > 2000 ==> bounded_delay(ms) == 2000,
{
}

/// A change goes to the client where it was last heard of, and nowhere while it is
/// unknown.
pub proof fn changes_go_to_known_clients(
    r: Option<ControlCommand>,
    known: Map<Seq<char>, HistoryView>,
    id: Seq<char>,
    before: ControlSender,
    after: ControlSender,
    p: Push,
)
    requires
        pushed_to(r, known, id, before, after, p),
    ensures
        r is Some <==> known.contains_key(id),
        r is None ==> after == before,
        r matches Some(c) ==> {
            &&& wire::ip_of(c@.target_ip) == known[id].ip
            &&& c@.source_id == p.source
            &&& c@.volume == p.volume
            &&& c@.delay_ms == p.delay_ms
            &&& c@.channel_map == p.channel_map
            &&& c@.cmd_id == before.next_id
            &&& before.next_id < u64::MAX ==> after.next_id == before.next_id + 1
        },
{
}

/// A push names one thing and leaves the others alone.
pub proof fn pushes_name_one_thing(id: u64, v: Volume, ms: u32, m: Seq<i16>)
    ensures
        Push::source(id).source == Some(id),
        Push::source(id).volume is None && Push::source(id).delay_ms is None && Push::source(
            id,
        ).channel_map is None,
        Push::volume(v).volume == Some(v),
        Push::volume(v).source is None && Push::volume(v).delay_ms is None && Push::volume(
            v,
        ).channel_map is None,
        Push::delay(ms).delay_ms == Some(ms),
        Push::delay(ms).source is None && Push::delay(ms).volume is None && Push::delay(
            ms,
        ).channel_map is None,
        Push::map(m).channel_map == Some(m),
        Push::map(m).source is None && Push::map(m).volume is None && Push::map(m).delay_ms
            is None,
{
}

/// Command numbers count up one by one, and start over after the highest.
pub proof fn command_numbers_count_up(base: u64, n: int)
    requires
        0 <= n,
    ensures
        base + n <= u64::MAX ==> nth_id(base, n) == base + n,
        u64::MAX < base + n <= 2 * u64::MAX + 1 ==> nth_id(base, n) == base + n
            - 0x1_0000_0000_0000_0000,
{
}

/// The members of a group are those whose record says so, each once.
pub proof fn members_are_on_record(
    list: Seq<Seq<char>>,
    records: Map<Seq<char>, RecordView>,
    gid: Seq<char>,
    i: int,
    j: int,
    id: Seq<char>,
)
    requires
        are_members(list, records, gid),
        0 <= i < j < list.len(),
    ensures
        records.contains_key(list[i]),
        records[list[i]].group == Some(gid),
        list[i] != list[j],
        records.contains_key(id) && records[id].group == Some(gid) ==> list.contains(id),
{
    assert(list.contains(list[i]));
    assert(records[list[i]].group == Some(gid));
}

/// The targets are the addresses of all clients of the list that are known, in order,
/// and no others.
pub proof fn targets_are_the_known_clients(
    list: Seq<Seq<char>>,
    known: Map<Seq<char>, HistoryView>,
    i: int,
)
    requires
        0 <= i < list.len(),
    ensures
        known.contains_key(list[i]) ==> targets_of(list, known).contains(known[list[i]].ip),
        targets_of(list, known).len() <= list.len(),
        (forall|k: int| 0 <= k < list.len() ==> known.contains_key(#[trigger] list[k]))
            ==> targets_of(list, known).len() == list.len() && targets_of(list, known)[i]
            == known[list[i]].ip,
    decreases list.len(),
{
    let init = list.drop_last();
    let n = list.len() - 1;
    let before = targets_of(init, known);
    let after = targets_of(list, known);
    if init.len() > 0 {
        targets_are_the_known_clients(init, known, if i < n {
            i
        } else {
            0
        });
    }
    if forall|k: int| 0 <= k < list.len() ==> known.contains_key(#[trigger] list[k]) {
        assert forall|k: int| 0 <= k < init.len() implies known.contains_key(
            #[trigger] init[k],
        ) by {
            assert(known.contains_key(list[k]));
        }
        assert(known.contains_key(list[n]));
    }
    if i < n {
        assert(init[i] == list[i]);
        if known.contains_key(list[i]) {
            let at = before.index_of(known[list[i]].ip);
            assert(after[at] == before[at]);
        }
    } else if known.contains_key(list[i]) {
        assert(after[before.len() as int] == known[list[i]].ip);
    }
}

/// No target is the address of anyone but a client of the list.
pub proof fn targets_are_of_the_list(
    list: Seq<Seq<char>>,
    known: Map<Seq<char>, HistoryView>,
    t: int,
) -> (i: int)
    requires
        0 <= t < targets_of(list, known).len(),
    ensures
        0 <= i < list.len(),
        known.contains_key(list[i]),
        known[list[i]].ip == targets_of(list, known)[t],
    decreases list.len(),
{
    let before = targets_of(list.drop_last(), known);
    if t < before.len() {
        targets_are_of_the_list(list.drop_last(), known, t)
    } else {
        list.len() - 1
    }
}

/// A change to many goes to each of them once, the same to all.
pub proof fn changes_go_to_all_targets(
    out: Seq<ControlCommand>,
    targets: Seq<u32>,
    base: u64,
    p: Push,
    i: int,
)
    requires
        sent_to_all(out, targets, base, p),
        0 <= i < targets.len(),
    ensures
        out.len() == targets.len(),
        wire::ip_of(out[i]@.target_ip) == targets[i],
        out[i]@.source_id == p.source,
        out[i]@.volume == p.volume,
        out[i]@.delay_ms == p.delay_ms,
        out[i]@.channel_map == p.channel_map,
        base + i <= u64::MAX ==> out[i]@.cmd_id == base + i,
{
    assert(sent_as(out[i]@, targets[i], nth_id(base, i), p));
}

/// An empty text asks for no group, any other for the one that it names.
pub proof fn empty_group_is_none(group: Option<Seq<char>>)
    ensures
        group matches Some(s) ==> (s.len() == 0 ==> requested_group(group) is None) && (s.len() > 0
            ==> requested_group(group) == group),
        group is None ==> requested_group(group) is None,
{
}

/// A request changes what it names of the send timing, to the nearest that is allowed,
/// and nothing else.
pub proof fn requests_change_what_they_name(p: SendParams, b: SendBody)
    ensures
        ({
            let q = with_send(p, b);
            &&& b.lead_ms is None ==> q.lead_ms == p.lead_ms
            &&& b.lead_ms matches Some(v) ==> 1 <= q.lead_ms <= 2000 && (1 <= v <= 2000
                ==> q.lead_ms == v)
            &&& b.redundancy is None ==> q.redundancy == p.redundancy
            &&& b.redundancy matches Some(v) ==> 1 <= q.redundancy <= 8 && (1 <= v <= 8
                ==> q.redundancy == v)
            &&& b.last_lead_ms is None ==> q.last_lead_ms == p.last_lead_ms
            &&& b.last_lead_ms matches Some(v) ==> q.last_lead_ms <= 2000 && (v <= 2000
                ==> q.last_lead_ms == v)
            &&& b.unicast is None ==> q.unicast == p.unicast
            &&& b.unicast matches Some(v) ==> q.unicast == v
            &&& q.reanchor == p.reanchor
        }),
{
}

/// Retiming one source leaves all others alone, and of that one all but its timing.
pub proof fn retiming_spares_other_sources(
    before: SourceRegistry,
    after: SourceRegistry,
    id: u64,
    params: SendParams,
    other: u64,
)
    requires
        retimed(before, after, id, params),
        before.sources@.contains_key(id),
    ensures
        after.sources@.contains_key(other) == before.sources@.contains_key(other),
        other != id && before.sources@.contains_key(other) ==> after.sources@[other]
            == before.sources@[other],
        after.sources@[id].params == params,
        after.sources@[id].name == before.sources@[id].name,
        after.sources@[id].group == before.sources@[id].group,
        after.sources@[id].cfg == before.sources@[id].cfg,
        after.sources@[id].metrics == before.sources@[id].metrics,
        after.server_id == before.server_id,
{
}

/// A request that is refused anyway can be made of any source; any other needs a group
/// for the new one, beside all sources but the one that goes.
pub proof fn replacing_frees_the_old_group(id: Seq<char>, cfg: SourceConfig, r: SourceRegistry)
    ensures
        path_id(id) is None ==> replaceable(id, cfg, r),
        path_id(id) matches Some(n) ==> !r.sources@.contains_key(n) ==> replaceable(id, cfg, r),
        path_id(id) matches Some(n) ==> r.sources@.contains_key(n) ==> (replaceable(id, cfg, r)
            <==> supervisor::room_for(r.sources@.remove(n), r.server_id, cfg)),
{
}

/// A look at the catalog forgets the servers that were silent for fifteen seconds, and
/// no others.
pub proof fn looks_forget_silent_servers(
    before: CatalogStore,
    after: CatalogStore,
    now: u64,
    server: u64,
)
    requires
        catalog_pruned(before, after, now),
    ensures
        after.wf(),
        after.remote@.contains_key(server) <==> before.remote@.contains_key(server) && now
            < before.remote@[server].last_seen + 15_000_000_000,
        after.remote@.contains_key(server) ==> after.remote@[server] == before.remote@[server],
{
    assoc::only_stale_entries_go::<u64, RemoteServer>(
        before.remote@,
        now,
        catalog::ANNOUNCE_STALE,
        server,
    );
}

} // verus!
