//! Runtime source supervisor: owns the live sources, added/removed while the
//! server runs (hot-reload from the web UI). The announcer, stats samplers, and
//! HTTP API read the current set here, so changes take effect without a restart.
use vstd::prelude::*;

use crate::assoc;
use crate::assoc::Assoc;
use crate::catalog;
use crate::catalog::{auto_group, source_id};
use crate::config;
use crate::config::{SourceConfig, SourceKind};
use crate::metrics::ServerMetrics;
use crate::order;
use crate::order::order_named;
use crate::stream::SendParams;
use crate::text::same_text;
use crate::wire;
use crate::wire::{octets, CatalogEntry, WireFormat};

verus! {

/// One running source and everything needed to advertise and meter it.
pub struct RunningSource {
    pub name: String,
    pub group: u32,
    pub wire_fmt: WireFormat,
    pub channels: u16,
    pub sample_rate: u32,
    pub params: SendParams,
    pub metrics: ServerMetrics,
    /// The config that produced this source (its kind/name/group), used to
    /// persist the current source set.
    pub cfg: SourceConfig,
}

impl View for RunningSource {
    type V = RunningSource;

    open spec fn view(&self) -> RunningSource {
        *self
    }
}

/// The nominal (channels, sample_rate) advertised for a source. Spotify decodes
/// at a fixed 44.1 kHz stereo; the rest carry it in their config.
pub open spec fn nominal_of(kind: SourceKind) -> (u16, u32) {
    match kind {
        SourceKind::Pipe { channels, sample_rate, .. } => (channels, sample_rate),
        SourceKind::Sink { channels, sample_rate, .. } => (channels, sample_rate),
        SourceKind::Mic { channels, sample_rate, .. } => (channels, sample_rate),
        SourceKind::Spotify { .. } => (2, 44_100),
    }
}

pub fn nominal_format(kind: &SourceKind) -> (r: (u16, u32))
    ensures
        r == nominal_of(*kind),
{
    match kind {
        SourceKind::Pipe { channels, sample_rate, .. } => (*channels, *sample_rate),
        SourceKind::Sink { channels, sample_rate, .. } => (*channels, *sample_rate),
        SourceKind::Mic { channels, sample_rate, .. } => (*channels, *sample_rate),
        SourceKind::Spotify { .. } => (2, 44_100),
    }
}

/// The address with its last octet moved on by `k`, round within the octet.
#[verifier::opaque]
pub open spec fn nudged(ip: int, k: int) -> int {
    ip - ip % 256 + (ip % 256 + k) % 256
}

fn nudge(ip: u32) -> (r: u32)
    ensures
        r == nudged(ip as int, 1),
{
    proof {
        reveal(nudged);
    }
    let last: u32 = ip % 256;
    if last == 255 {
        ip - 255
    } else {
        ip + 1
    }
}

/// Nudging is done one step at a time.
proof fn lemma_nudge_step(ip: int, k: int)
    requires
        0 <= ip,
        0 <= k,
    ensures
        nudged(nudged(ip, k), 1) == nudged(ip, k + 1),
        nudged(ip, 0) == ip,
{
    reveal(nudged);
    let x = nudged(ip, k);
    assert(x % 256 == (ip % 256 + k) % 256);
    assert(x - x % 256 == ip - ip % 256);
    assert(((ip % 256 + k) % 256 + 1) % 256 == (ip % 256 + k + 1) % 256);
}

/// Whether one of the sources has this group.
pub open spec fn group_used(sources: Map<u64, RunningSource>, ip: int) -> bool {
    exists|id: u64| #[trigger] sources.contains_key(id) && sources[id].group == ip
}

/// Whether some address that differs from `start` in the last octet alone is free.
pub open spec fn has_free(sources: Map<u64, RunningSource>, start: int) -> bool {
    exists|k: int| 0 <= k < 256 && !group_used(sources, #[trigger] nudged(start, k))
}

/// Whether `ip` is the first free address from `start` on.
pub open spec fn first_free(sources: Map<u64, RunningSource>, start: int, ip: int) -> bool {
    exists|k: int|
        {
            &&& 0 <= k < 256
            &&& ip == #[trigger] nudged(start, k)
            &&& !group_used(sources, ip)
            &&& forall|j: int| 0 <= j < k ==> group_used(sources, #[trigger] nudged(start, j))
        }
}

/// Whether there is a group for the source beside the others, if it would be
/// started there at all: its format is known and its name is not taken.
pub open spec fn room_for(
    sources: Map<u64, RunningSource>,
    server_id: u64,
    cfg: SourceConfig,
) -> bool {
    let id = catalog::id_of(server_id, cfg.name@);
    config::runnable(cfg) && !sources.contains_key(id) ==> has_free(sources, group_start(cfg, id))
}

/// Where the search for a source's group starts: the explicit group, or one
/// derived from its id.
pub open spec fn group_start(cfg: SourceConfig, id: u64) -> int {
    match cfg.group {
        Some(g) => g as int,
        None => catalog::group_of(id),
    }
}

/// What is said of a source with an unknown format.
pub open spec fn unknown_format(cfg: SourceConfig) -> Seq<char> {
    "unknown format '"@ + cfg.kind.spec_format() + "'"@
}

/// What is said of a source whose name is taken.
pub open spec fn name_taken(cfg: SourceConfig) -> Seq<char> {
    "a source named '"@ + cfg.name@ + "' already exists"@
}

/// Whether the source is what the config asks for, just started.
pub open spec fn started_from(s: RunningSource, cfg: SourceConfig) -> bool {
    &&& s.name@ == cfg.name@
    &&& Some(s.wire_fmt) == WireFormat::spec_parse(cfg.kind.spec_format())
    &&& (s.channels, s.sample_rate) == nominal_of(cfg.kind)
    &&& s.params == SendParams::spec_new(
        cfg.lead_ms,
        cfg.redundancy,
        cfg.last_lead_ms,
        cfg.unicast,
    )
    &&& s.metrics == ServerMetrics::spec_new()
    &&& s.cfg == cfg
}

/// The source's config with its live send timing folded back in.
pub open spec fn live_config(s: RunningSource) -> SourceConfig {
    SourceConfig {
        lead_ms: s.params.lead_ms,
        redundancy: s.params.redundancy,
        last_lead_ms: s.params.last_lead_ms,
        unicast: s.params.unicast,
        ..s.cfg
    }
}

/// Whether the entry advertises the source under its id.
pub open spec fn advertises(e: CatalogEntry, id: u64, s: RunningSource) -> bool {
    &&& e.source_id == id
    &&& e.name@ == s.name@
    &&& e.source_type@ == s.cfg.kind.spec_kind_name()
    &&& wire::ip_of(e.group@) == s.group
    &&& e.sample_rate == s.sample_rate
    &&& e.channels == s.channels
    &&& e.format == s.wire_fmt
    &&& e.lead_ms == s.params.lead_ms
}

/// The names of the sources, as ordering keys.
pub open spec fn running_keys(sources: Seq<(u64, RunningSource)>) -> Seq<(Seq<char>, u64)> {
    sources.map_values(|s: (u64, RunningSource)| (s.1.name@, 0u64))
}

/// The live set of sources this server streams. Shared across the announcer,
/// stats threads, and the HTTP API.
pub struct SourceRegistry {
    pub server_id: u64,
    pub sources: Assoc<u64, RunningSource>,
}

impl SourceRegistry {
    /// Each source is kept under the id that its name gives, no two stream to one
    /// group, and each has a known format and bounded send timing.
    pub open spec fn wf(&self) -> bool {
        &&& self.sources.wf()
        &&& forall|i: int|
            0 <= i < self.sources.pairs().len() ==> sound(
                #[trigger] self.sources.pairs()[i],
                self.server_id,
            )
        &&& forall|i: int, j: int|
            0 <= i < j < self.sources.pairs().len() ==> (#[trigger] self.sources.pairs()[i]).1.group
                != (#[trigger] self.sources.pairs()[j]).1.group
    }

    pub fn new(server_id: u64) -> (r: Self)
        ensures
            r.wf(),
            r.server_id == server_id,
            r.sources@ == Map::<u64, RunningSource>::empty(),
    {
        SourceRegistry { server_id, sources: Assoc::new() }
    }

    /// The sources, or those that are left without one of them.
    spec fn beside(&self, without: Option<u64>) -> Map<u64, RunningSource> {
        match without {
            Some(n) => self.sources@.remove(n),
            None => self.sources@,
        }
    }

    fn uses_group(&self, without: Option<u64>, ip: u32) -> (r: bool)
        requires
            self.wf(),
        ensures
            r == group_used(self.beside(without), ip as int),
    {
        let ghost pairs = self.sources.pairs();
        let ghost m = self.beside(without);
        let n: usize = self.sources.len();
        let mut i: usize = 0;
        while i < n
            invariant
                n == pairs.len(),
                pairs == self.sources.pairs(),
                m == self.beside(without),
                assoc::distinct_keys(pairs),
                i <= n,
                forall|j: int|
                    0 <= j < i ==> (#[trigger] pairs[j]).1.group != ip || without == Some(
                        pairs[j].0,
                    ),
            decreases n - i,
        {
            let counts: bool = match without {
                Some(x) => *self.sources.key_at(i) != x,
                None => true,
            };
            if counts && self.sources.value_at(i).group == ip {
                proof {
                    assoc::lemma_place(pairs, i as int);
                    assert(m.contains_key(pairs[i as int].0));
                }
                return true;
            }
            i = i + 1;
        }
        proof {
            assert forall|id: u64| #[trigger] m.contains_key(id) implies m[id].group != ip by {
                let p = assoc::place_of(pairs, id);
                assert(pairs[p].0 == id);
            }
        }
        false
    }

    /// Where the search for a source's group starts.
    fn start_of(cfg: &SourceConfig, id: u64) -> (ip: u32)
        ensures
            ip == group_start(*cfg, id),
    {
        match cfg.group {
            Some(g) => g,
            None => auto_group(id),
        }
    }

    /// Whether there is a group for the source, if it would be started.
    pub fn has_group_for(&self, cfg: &SourceConfig) -> (r: bool)
        requires
            self.wf(),
        ensures
            r == room_for(self.sources@, self.server_id, *cfg),
    {
        self.has_room(None, cfg)
    }

    /// Whether there is a group for the source once another one is gone, if it
    /// would be started then.
    pub fn has_group_instead(&self, gone: u64, cfg: &SourceConfig) -> (r: bool)
        requires
            self.wf(),
        ensures
            r == room_for(self.sources@.remove(gone), self.server_id, *cfg),
    {
        self.has_room(Some(gone), cfg)
    }

    fn has_room(&self, without: Option<u64>, cfg: &SourceConfig) -> (r: bool)
        requires
            self.wf(),
        ensures
            r == room_for(self.beside(without), self.server_id, *cfg),
    {
        let id: u64 = source_id(self.server_id, cfg.name.as_str());
        let goes: bool = match without {
            Some(n) => n == id,
            None => false,
        };
        if WireFormat::parse(cfg.kind.format_str()).is_none() || (!goes && self.sources.contains(
            &id,
        )) {
            return true;
        }
        let start: u32 = Self::start_of(cfg, id);
        let ghost m = self.beside(without);
        let mut ip: u32 = start;
        let mut k: u32 = 0;
        proof {
            assert(!m.contains_key(id));
            lemma_nudge_step(start as int, 0);
        }
        while k < 256
            invariant
                self.wf(),
                k <= 256,
                id == catalog::id_of(self.server_id, cfg.name@),
                start == group_start(*cfg, id),
                m == self.beside(without),
                ip == nudged(start as int, k as int),
                forall|j: int| 0 <= j < k ==> group_used(m, #[trigger] nudged(start as int, j)),
            decreases 256 - k,
        {
            if !self.uses_group(without, ip) {
                proof {
                    assert(!group_used(m, nudged(start as int, k as int)));
                }
                return true;
            }
            proof {
                lemma_nudge_step(start as int, k as int);
            }
            ip = nudge(ip);
            k = k + 1;
        }
        false
    }

    /// The first free group from `start` on: nudged off any collision.
    fn free_group(&self, start: u32) -> (ip: u32)
        requires
            self.wf(),
            has_free(self.sources@, start as int),
        ensures
            first_free(self.sources@, start as int, ip as int),
    {
        let ghost m = self.sources@;
        let ghost last = choose|k: int|
            0 <= k < 256 && !group_used(m, #[trigger] nudged(start as int, k));
        let mut ip: u32 = start;
        let mut k: u32 = 0;
        proof {
            lemma_nudge_step(start as int, 0);
        }
        while self.uses_group(None, ip)
            invariant
                self.wf(),
                m == self.sources@,
                0 <= last < 256,
                !group_used(m, nudged(start as int, last)),
                k <= last,
                ip == nudged(start as int, k as int),
                forall|j: int| 0 <= j < k ==> group_used(m, #[trigger] nudged(start as int, j)),
            decreases last - k,
        {
            proof {
                lemma_nudge_step(start as int, k as int);
                assert(group_used(m, nudged(start as int, k as int)));
            }
            ip = nudge(ip);
            k = k + 1;
        }
        ip
    }

    /// Register `cfg` as a running source. Returns its source id, or an error if
    /// the config is invalid or a source with the same name already exists.
    pub fn spawn(&mut self, cfg: &SourceConfig) -> (r: Result<u64, String>)
        requires
            old(self).wf(),
            room_for(old(self).sources@, old(self).server_id, *cfg),
        ensures
            final(self).wf(),
            final(self).server_id == old(self).server_id,
            ({
                let id = catalog::id_of(old(self).server_id, cfg.name@);
                match r {
                    Err(e) => {
                        &&& *final(self) == *old(self)
                        &&& if !config::runnable(*cfg) {
                            e@ == unknown_format(*cfg)
                        } else {
                            old(self).sources@.contains_key(id) && e@ == name_taken(*cfg)
                        }
                    },
                    Ok(x) => {
                        &&& x == id
                        &&& config::runnable(*cfg)
                        &&& !old(self).sources@.contains_key(id)
                        &&& final(self).sources@.contains_key(id)
                        &&& final(self).sources@ == old(self).sources@.insert(
                            id,
                            final(self).sources@[id],
                        )
                        &&& started_from(final(self).sources@[id], *cfg)
                        &&& first_free(
                            old(self).sources@,
                            group_start(*cfg, id),
                            final(self).sources@[id].group as int,
                        )
                    },
                }
            }),
    {
        let wire_fmt: WireFormat = match WireFormat::parse(cfg.kind.format_str()) {
            Some(f) => f,
            None => {
                let mut e: String = "unknown format '".to_owned();
                e.append(cfg.kind.format_str());
                e.append("'");
                proof {
                    assert(e@ =~= unknown_format(*cfg));
                }
                return Err(e);
            },
        };
        let id: u64 = source_id(self.server_id, cfg.name.as_str());
        if self.sources.contains(&id) {
            let mut e: String = "a source named '".to_owned();
            e.append(cfg.name.as_str());
            e.append("' already exists");
            proof {
                assert(e@ =~= name_taken(*cfg));
            }
            return Err(e);
        }
        // Explicit group, or auto-derive one and nudge it off any collision.
        let group: u32 = self.free_group(Self::start_of(cfg, id));
        let (channels, sample_rate) = nominal_format(&cfg.kind);
        let params: SendParams = SendParams::new(
            cfg.lead_ms,
            cfg.redundancy,
            cfg.last_lead_ms,
            cfg.unicast,
        );
        let s: RunningSource = RunningSource {
            name: cfg.name.clone(),
            group,
            wire_fmt,
            channels,
            sample_rate,
            params,
            metrics: ServerMetrics::new(),
            cfg: cfg.clone(),
        };
        let ghost before = self.sources.pairs();
        let ghost sv = s;
        self.sources.insert(id, s);
        proof {
            lemma_joined(before, self.sources.pairs(), id, sv, self.server_id);
        }
        Ok(id)
    }

    /// Forget the source with this id. Returns whether a source was removed.
    pub fn remove(&mut self, id: u64) -> (removed: bool)
        requires
            old(self).wf(),
        ensures
            final(self).wf(),
            final(self).server_id == old(self).server_id,
            removed == old(self).sources@.contains_key(id),
            final(self).sources@ == old(self).sources@.remove(id),
            removed ==> !group_used(final(self).sources@, old(self).sources@[id].group as int),
    {
        match self.sources.find(&id) {
            Some(i) => {
                let ghost before = self.sources.pairs();
                proof {
                    assoc::lemma_place(before, i as int);
                }
                let _ = self.sources.remove_at(i);
                proof {
                    let after = self.sources.pairs();
                    assert forall|a: int| 0 <= a < after.len() implies sound(
                        #[trigger] after[a],
                        self.server_id,
                    ) && after[a].1.group != before[i as int].1.group by {
                        if a < i {
                            assert(after[a] == before[a]);
                        } else {
                            assert(after[a] == before[a + 1]);
                        }
                    }
                    assert forall|a: int, b: int| 0 <= a < b < after.len() implies (
                    #[trigger] after[a]).1.group != (#[trigger] after[b]).1.group by {
                        let a2 = if a < i {
                            a
                        } else {
                            a + 1
                        };
                        let b2 = if b < i {
                            b
                        } else {
                            b + 1
                        };
                        assert(after[a] == before[a2] && after[b] == before[b2]);
                    }
                }
                true
            },
            None => {
                proof {
                    assert(self.sources@.remove(id) =~= self.sources@);
                }
                false
            },
        }
    }

    /// Whether this server hosts the given source id.
    pub fn contains(&self, id: u64) -> (r: bool)
        ensures
            r == self.sources@.contains_key(id),
    {
        self.sources.contains(&id)
    }

    /// The live send params for one source, if hosted here.
    pub fn params(&self, id: u64) -> (r: Option<SendParams>)
        requires
            self.wf(),
        ensures
            match r {
                Some(p) => self.sources@.contains_key(id) && p == self.sources@[id].params && p.wf(),
                None => !self.sources@.contains_key(id),
            },
    {
        match self.sources.find(&id) {
            Some(i) => {
                proof {
                    assoc::lemma_place(self.sources.pairs(), i as int);
                    assert(sound(self.sources.pairs()[i as int], self.server_id));
                }
                Some(self.sources.value_at(i).params)
            },
            None => None,
        }
    }

    /// The send params and metrics of one source, if hosted here.
    pub fn timing(&self, id: u64) -> (r: Option<(SendParams, ServerMetrics)>)
        requires
            self.wf(),
        ensures
            match r {
                Some(t) => self.sources@.contains_key(id) && t.0 == self.sources@[id].params
                    && t.0.wf() && t.1 == self.sources@[id].metrics,
                None => !self.sources@.contains_key(id),
            },
    {
        match self.sources.find(&id) {
            Some(i) => {
                proof {
                    assoc::lemma_place(self.sources.pairs(), i as int);
                    assert(sound(self.sources.pairs()[i as int], self.server_id));
                }
                let s: &RunningSource = self.sources.value_at(i);
                Some((s.params, s.metrics))
            },
            None => None,
        }
    }

    /// Put back the send params and metrics of one source. Returns whether it is
    /// hosted here.
    pub fn set_timing(&mut self, id: u64, params: SendParams, metrics: ServerMetrics) -> (found:
        bool)
        requires
            old(self).wf(),
            params.wf(),
        ensures
            final(self).wf(),
            final(self).server_id == old(self).server_id,
            found == old(self).sources@.contains_key(id),
            final(self).sources@ == if found {
                old(self).sources@.insert(
                    id,
                    RunningSource { params, metrics, ..old(self).sources@[id] },
                )
            } else {
                old(self).sources@
            },
    {
        match self.sources.find(&id) {
            Some(i) => {
                let ghost mid = self.sources;
                let ghost before = self.sources.pairs();
                proof {
                    assoc::lemma_place(before, i as int);
                    assert(sound(before[i as int], self.server_id));
                }
                let s: &mut RunningSource = self.sources.value_mut(i);
                s.params = params;
                s.metrics = metrics;
                proof {
                    assoc::lemma_changed(
                        mid,
                        self.sources,
                        i as int,
                        self.sources.entries@[i as int].1,
                    );
                    let after = self.sources.pairs();
                    assert forall|a: int| 0 <= a < after.len() implies sound(
                        #[trigger] after[a],
                        self.server_id,
                    ) by {
                        if a != i {
                            assert(after[a] == before[a]);
                        }
                    }
                    assert forall|a: int, b: int| 0 <= a < b < after.len() implies (
                    #[trigger] after[a]).1.group != (#[trigger] after[b]).1.group by {
                        assert(before[a].1.group != before[b].1.group);
                    }
                }
                true
            },
            None => false,
        }
    }

    /// The name of one source, if hosted here.
    pub fn name(&self, id: u64) -> (r: Option<String>)
        requires
            self.wf(),
        ensures
            match r {
                Some(n) => self.sources@.contains_key(id) && n@ == self.sources@[id].name@,
                None => !self.sources@.contains_key(id),
            },
    {
        match self.sources.get(&id) {
            Some(s) => Some(s.name.clone()),
            None => None,
        }
    }

    /// The id of the source with this name, if hosted here: the one that the name
    /// gives.
    pub open spec fn hosted(&self, name: Seq<char>) -> Option<u64> {
        let id = catalog::id_of(self.server_id, name);
        if self.sources@.contains_key(id) && self.sources@[id].name@ == name {
            Some(id)
        } else {
            None
        }
    }

    /// The source id currently hosting a source with this name, if any.
    pub fn id_for_name(&self, name: &str) -> (r: Option<u64>)
        requires
            self.wf(),
        ensures
            r == self.hosted(name@),
            r is None ==> forall|id: u64| #[trigger]
                self.sources@.contains_key(id) ==> self.sources@[id].name@ != name@,
    {
        let ghost pairs = self.sources.pairs();
        let n: usize = self.sources.len();
        let mut i: usize = 0;
        while i < n
            invariant
                self.wf(),
                n == pairs.len(),
                pairs == self.sources.pairs(),
                i <= n,
                forall|j: int| 0 <= j < i ==> (#[trigger] pairs[j]).1.name@ != name@,
            decreases n - i,
        {
            if same_text(self.sources.value_at(i).name.as_str(), name) {
                proof {
                    assoc::lemma_place(pairs, i as int);
                    assert(sound(pairs[i as int], self.server_id));
                }
                return Some(*self.sources.key_at(i));
            }
            i = i + 1;
        }
        proof {
            assert forall|id: u64| #[trigger] self.sources@.contains_key(id) implies self.sources@[id].name@
                != name@ by {
                let p = assoc::place_of(pairs, id);
                assert(pairs[p].1 == self.sources@[id]);
            }
        }
        None
    }

    /// Catalog entries (with live params) for the announcer / catalog responder.
    pub fn entries(&self) -> (out: Vec<(CatalogEntry, SendParams)>)
        requires
            self.wf(),
        ensures
            out@.len() == self.sources.pairs().len(),
            forall|i: int|
                0 <= i < out@.len() ==> advertises(
                    (#[trigger] out@[i]).0,
                    self.sources.pairs()[i].0,
                    self.sources.pairs()[i].1,
                ) && out@[i].1 == self.sources.pairs()[i].1.params,
    {
        let ghost pairs = self.sources.pairs();
        let n: usize = self.sources.len();
        let mut out: Vec<(CatalogEntry, SendParams)> = Vec::new();
        let mut i: usize = 0;
        while i < n
            invariant
                self.wf(),
                n == pairs.len(),
                pairs == self.sources.pairs(),
                i <= n,
                out@.len() == i,
                forall|j: int|
                    0 <= j < i ==> advertises(
                        (#[trigger] out@[j]).0,
                        pairs[j].0,
                        pairs[j].1,
                    ) && out@[j].1 == pairs[j].1.params,
            decreases n - i,
        {
            let s: &RunningSource = self.sources.value_at(i);
            proof {
                assert(sound(pairs[i as int], self.server_id));
            }
            out.push(
                (
                    CatalogEntry {
                        source_id: *self.sources.key_at(i),
                        name: s.name.clone(),
                        source_type: s.cfg.kind.kind_name().to_owned(),
                        group: octets(s.group),
                        sample_rate: s.sample_rate,
                        channels: s.channels,
                        format: s.wire_fmt,
                        lead_ms: s.params.lead() as u32,
                    },
                    s.params,
                ),
            );
            i = i + 1;
        }
        out
    }

    /// `(id, metrics)` pairs for the send-path stats samplers.
    pub fn samplers(&self) -> (out: Vec<(u64, ServerMetrics)>)
        ensures
            out@ == self.sources.pairs().map_values(|p: (u64, RunningSource)| (p.0, p.1.metrics)),
    {
        let ghost pairs = self.sources.pairs();
        let n: usize = self.sources.len();
        let mut out: Vec<(u64, ServerMetrics)> = Vec::new();
        let mut i: usize = 0;
        while i < n
            invariant
                n == pairs.len(),
                pairs == self.sources.pairs(),
                i <= n,
                out@.len() == i,
                forall|j: int| 0 <= j < i ==> #[trigger] out@[j] == (pairs[j].0, pairs[j].1.metrics),
            decreases n - i,
        {
            out.push((*self.sources.key_at(i), self.sources.value_at(i).metrics));
            i = i + 1;
        }
        proof {
            assert(out@ =~= pairs.map_values(|p: (u64, RunningSource)| (p.0, p.1.metrics)));
        }
        out
    }

    /// The current source set as configs (with live send-timing fields folded back
    /// in), sorted by name, for persisting.
    pub fn configs(&self) -> (out: Vec<SourceConfig>)
        ensures
            exists|p: Seq<int>|
                {
                    &&& #[trigger] order::ranked(running_keys(self.sources.pairs()), p)
                    &&& out@.len() == p.len()
                    &&& forall|i: int|
                        0 <= i < out@.len() ==> #[trigger] out@[i] == live_config(
                            self.sources.pairs()[p[i]].1,
                        )
                },
    {
        let ghost pairs = self.sources.pairs();
        let n: usize = self.sources.len();
        let mut keys: Vec<(String, u64)> = Vec::new();
        let mut k: usize = 0;
        while k < n
            invariant
                n == pairs.len(),
                pairs == self.sources.pairs(),
                k <= n,
                keys@.len() == k,
                forall|j: int|
                    0 <= j < k ==> (#[trigger] keys@[j]).0@ == pairs[j].1.name@ && keys@[j].1 == 0,
            decreases n - k,
        {
            keys.push((self.sources.value_at(k).name.clone(), 0));
            k = k + 1;
        }
        let p: Vec<usize> = order_named(&keys);
        let ghost q = p@.map_values(|i: usize| i as int);
        proof {
            assert(order::rank_keys(keys@) =~= running_keys(pairs));
        }
        let mut out: Vec<SourceConfig> = Vec::new();
        let mut i: usize = 0;
        while i < p.len()
            invariant
                i <= p@.len(),
                pairs == self.sources.pairs(),
                q == p@.map_values(|i: usize| i as int),
                order::ranked(running_keys(pairs), q),
                out@.len() == i,
                forall|j: int| 0 <= j < i ==> #[trigger] out@[j] == live_config(pairs[q[j]].1),
            decreases p@.len() - i,
        {
            proof {
                assert(q[i as int] == p@[i as int]);
            }
            let s: &RunningSource = self.sources.value_at(p[i]);
            let mut c: SourceConfig = s.cfg.clone();
            c.lead_ms = s.params.lead();
            c.redundancy = s.params.redundancy();
            c.last_lead_ms = s.params.last_lead();
            c.unicast = s.params.unicast();
            out.push(c);
            i = i + 1;
        }
        proof {
            assert(order::ranked(running_keys(pairs), q));
        }
        out
    }
}

/// Whether a source is kept under the id that its name gives, and is sound.
pub open spec fn sound(p: (u64, RunningSource), server_id: u64) -> bool {
    &&& p.0 == catalog::id_of(server_id, p.1.name@)
    &&& p.1.cfg.name@ == p.1.name@
    &&& p.1.params.wf()
    &&& Some(p.1.wire_fmt) == WireFormat::spec_parse(p.1.cfg.kind.spec_format())
}

/// A sound source with a group of its own can join the others.
proof fn lemma_joined(
    before: Seq<(u64, RunningSource)>,
    after: Seq<(u64, RunningSource)>,
    id: u64,
    s: RunningSource,
    server_id: u64,
)
    requires
        assoc::distinct_keys(before),
        after == before.push((id, s)),
        sound((id, s), server_id),
        !group_used(assoc::map_of(before), s.group as int),
        forall|i: int| 0 <= i < before.len() ==> sound(#[trigger] before[i], server_id),
        forall|i: int, j: int|
            0 <= i < j < before.len() ==> (#[trigger] before[i]).1.group != (
            #[trigger] before[j]).1.group,
    ensures
        forall|i: int| 0 <= i < after.len() ==> sound(#[trigger] after[i], server_id),
        forall|i: int, j: int|
            0 <= i < j < after.len() ==> (#[trigger] after[i]).1.group != (
            #[trigger] after[j]).1.group,
{
    assert forall|i: int, j: int| 0 <= i < j < after.len() implies (
    #[trigger] after[i]).1.group != (#[trigger] after[j]).1.group by {
        assert(after[i] == before[i]);
        if j < before.len() {
            assert(after[j] == before[j]);
        } else {
            assoc::lemma_place(before, i);
        }
    }
}

/// No two sources of a registry have one name.
pub proof fn names_are_distinct(r: SourceRegistry, i: int, j: int)
    requires
        r.wf(),
        0 <= i < j < r.sources.pairs().len(),
    ensures
        r.sources.pairs()[i].1.name@ != r.sources.pairs()[j].1.name@,
{
    assert(sound(r.sources.pairs()[i], r.server_id));
    assert(sound(r.sources.pairs()[j], r.server_id));
}

/// A config taken from a running source starts the same source again: the same
/// name, format and send timing.
pub proof fn saved_config_restarts_source(s: RunningSource, again: RunningSource)
    requires
        s.params.wf(),
        s.cfg.name@ == s.name@,
        Some(s.wire_fmt) == WireFormat::spec_parse(s.cfg.kind.spec_format()),
        started_from(again, live_config(s)),
    ensures
        again.name@ == s.name@,
        again.wire_fmt == s.wire_fmt,
        again.params == (SendParams { reanchor: false, ..s.params }),
{
}

/// What is advertised of a source is what its config says, and of a Spotify receiver
/// stereo at 44.1 kHz.
pub proof fn nominal_format_is_the_configs(kind: SourceKind)
    ensures
        match kind {
            SourceKind::Pipe { channels, sample_rate, .. } => nominal_of(kind).0 == channels
                && nominal_of(kind).1 == sample_rate,
            SourceKind::Sink { channels, sample_rate, .. } => nominal_of(kind).0 == channels
                && nominal_of(kind).1 == sample_rate,
            SourceKind::Mic { channels, sample_rate, .. } => nominal_of(kind).0 == channels
                && nominal_of(kind).1 == sample_rate,
            SourceKind::Spotify { .. } => nominal_of(kind).0 == 2 && nominal_of(kind).1 == 44_100,
        },
{
}

/// The search for a free group goes through the addresses that share the first three
/// octets, one after the other, each once, from where it starts on.
pub proof fn search_goes_through_the_last_octet(ip: int, j: int, k: int)
    requires
        0 <= ip,
        0 <= j < k < 256,
    ensures
        nudged(ip, 0) == ip,
        nudged(ip, k) / 256 == ip / 256,
        nudged(ip, j) != nudged(ip, k),
        nudged(ip, j + 1) == nudged(ip, j) + 1 || (nudged(ip, j) % 256 == 255 && nudged(ip, j + 1)
            == nudged(ip, j) - 255),
{
    reveal(nudged);
}

/// The group that is found is free and shares its first three octets with where the
/// search started; where that one is free, it is taken itself.
pub proof fn free_groups_are_taken_as_asked(
    sources: Map<u64, RunningSource>,
    start: int,
    ip: int,
    id: u64,
)
    requires
        0 <= start,
        first_free(sources, start, ip),
    ensures
        ip / 256 == start / 256,
        sources.contains_key(id) ==> sources[id].group != ip,
        (forall|i: u64| #[trigger] sources.contains_key(i) ==> sources[i].group != start) ==> ip
            == start,
        has_free(sources, start),
{
    let k = choose|k: int|
        {
            &&& 0 <= k < 256
            &&& ip == #[trigger] nudged(start, k)
            &&& !group_used(sources, ip)
            &&& forall|j: int| 0 <= j < k ==> group_used(sources, #[trigger] nudged(start, j))
        };
    reveal(nudged);
    if forall|i: u64| #[trigger] sources.contains_key(i) ==> sources[i].group != start {
        assert(!group_used(sources, start));
        if k > 0 {
            assert(nudged(start, 0) == start);
            assert(group_used(sources, nudged(start, 0)));
        }
    }
    if sources.contains_key(id) && sources[id].group == ip {
        assert(group_used(sources, ip));
    }
}

/// Addresses before the one that is found are all taken.
pub proof fn nearer_groups_are_taken(
    sources: Map<u64, RunningSource>,
    start: int,
    ip: int,
    j: int,
) -> (id: u64)
    requires
        first_free(sources, start, ip),
        0 <= start,
        0 <= j < 256,
        forall|i: int| 0 <= i <= j ==> #[trigger] nudged(start, i) != ip,
    ensures
        sources.contains_key(id),
        sources[id].group == nudged(start, j),
{
    let k = choose|k: int|
        {
            &&& 0 <= k < 256
            &&& ip == #[trigger] nudged(start, k)
            &&& !group_used(sources, ip)
            &&& forall|j: int| 0 <= j < k ==> group_used(sources, #[trigger] nudged(start, j))
        };
    assert(k > j);
    assert(group_used(sources, nudged(start, j)));
    choose|id: u64| #[trigger] sources.contains_key(id) && sources[id].group == nudged(start, j)
}

/// A group that is asked for is where the search starts; else it starts at the one
/// that the id gives.
pub proof fn explicit_groups_come_first(cfg: SourceConfig, id: u64)
    ensures
        cfg.group matches Some(g) ==> group_start(cfg, id) == g,
        cfg.group is None ==> group_start(cfg, id) == catalog::group_of(id),
{
}

/// A source that is started has what its config asks for, as far as that is allowed,
/// and has sent nothing yet.
pub proof fn sources_start_as_configured(s: RunningSource, cfg: SourceConfig)
    requires
        started_from(s, cfg),
    ensures
        s.name@ == cfg.name@,
        s.cfg == cfg,
        WireFormat::spec_parse(cfg.kind.spec_format()) == Some(s.wire_fmt),
        s.channels == nominal_of(cfg.kind).0,
        s.sample_rate == nominal_of(cfg.kind).1,
        1 <= cfg.lead_ms <= 2000 ==> s.params.lead_ms == cfg.lead_ms,
        1 <= cfg.redundancy <= 8 ==> s.params.redundancy == cfg.redundancy,
        cfg.last_lead_ms <= 2000 ==> s.params.last_lead_ms == cfg.last_lead_ms,
        s.params.unicast == cfg.unicast,
        !s.params.reanchor,
        s.params.wf(),
        s.metrics.packets_sent == 0,
        s.metrics.frames_sent == 0,
        s.metrics.reanchors == 0,
        !s.metrics.has_audio,
{
}

/// A saved config is the one that the source was started with, with the send timing
/// that it has now.
pub proof fn saved_configs_keep_live_timing(s: RunningSource)
    ensures
        ({
            let c = live_config(s);
            &&& c.lead_ms == s.params.lead_ms
            &&& c.redundancy == s.params.redundancy
            &&& c.last_lead_ms == s.params.last_lead_ms
            &&& c.unicast == s.params.unicast
            &&& c.name == s.cfg.name
            &&& c.kind == s.cfg.kind
            &&& c.group == s.cfg.group
        }),
{
}

/// An entry tells a client all that it needs of a source: under which id and name, to
/// which group, in which format and with which lead it is sent.
pub proof fn entries_tell_where_to_listen(e: CatalogEntry, id: u64, s: RunningSource)
    requires
        advertises(e, id, s),
    ensures
        e.source_id == id,
        e.name@ == s.name@,
        wire::ip_of(e.group@) == s.group,
        e.sample_rate == s.sample_rate,
        e.channels == s.channels,
        e.format == s.wire_fmt,
        e.lead_ms == s.params.lead_ms,
        e.source_type@ == s.cfg.kind.spec_kind_name(),
{
}

/// Where a source of some name is hosted, that name leads to it; a name that no source
/// has leads nowhere.
pub proof fn names_lead_to_their_sources(r: SourceRegistry, name: Seq<char>, i: int)
    requires
        r.wf(),
        0 <= i < r.sources.pairs().len(),
    ensures
        r.sources.pairs()[i].1.name@ == name ==> r.hosted(name) == Some(r.sources.pairs()[i].0),
        r.hosted(name) matches Some(id) ==> r.sources@.contains_key(id) && r.sources@[id].name@
            == name,
{
    let pairs = r.sources.pairs();
    assert(sound(pairs[i], r.server_id));
    assoc::lemma_place(pairs, i);
}

/// There is room for a source that would not be started, and for one that would if
/// any address of its octets is free.
pub proof fn room_is_asked_of_sources_that_start(
    sources: Map<u64, RunningSource>,
    server_id: u64,
    cfg: SourceConfig,
    k: int,
)
    requires
        0 <= k < 256,
    ensures
        WireFormat::spec_parse(cfg.kind.spec_format()) is None ==> room_for(
            sources,
            server_id,
            cfg,
        ),
        ({
            let id = catalog::id_of(server_id, cfg.name@);
            let ip = nudged(group_start(cfg, id), k);
            &&& sources.contains_key(id) ==> room_for(sources, server_id, cfg)
            &&& (forall|i: u64| #[trigger] sources.contains_key(i) ==> sources[i].group != ip)
                ==> room_for(sources, server_id, cfg)
            &&& !room_for(sources, server_id, cfg) ==> exists|i: u64|
                #[trigger] sources.contains_key(i) && sources[i].group == ip
        }),
{
    let id = catalog::id_of(server_id, cfg.name@);
    let ip = nudged(group_start(cfg, id), k);
    if !group_used(sources, ip) {
        assert(has_free(sources, group_start(cfg, id)));
    }
}

} // verus!
