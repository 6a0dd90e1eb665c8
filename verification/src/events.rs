//! The live stats subscription: on connect one snapshot with the full history, and
//! from there on deltas that carry only new samples, plus fresh lists each time.
use vstd::prelude::*;

use crate::api;
use crate::api::{
    catalog_dtos, client_dtos, group_dtos, source_metas, ClientDto, GroupDto, SourceDto,
};
use crate::assoc;
use crate::assoc::Assoc;
use crate::catalog;
use crate::catalog::{CatalogStore, ResolvedSource};
use crate::clients::ClientStore;
use crate::groups::GroupStore;
use crate::lists;
use crate::metrics;
use crate::metrics::{
    ClientHistory, ClientSample, ClientStats, ServerSample, ServerSourceStats, SourceMeta,
    StatsSnapshot, TelemetryStore,
};
use crate::supervisor::SourceRegistry;

verus! {

/// How often a delta is sent.
pub const EVENT_INTERVAL_MS: u64 = 200;

/// What carries a time on the graphs' x-axis.
pub trait Stamped: Copy {
    spec fn at(self) -> u64;

    fn stamp(&self) -> (t: u64)
        ensures
            t == self.at(),
    ;
}

impl Stamped for ServerSample {
    open spec fn at(self) -> u64 {
        self.t
    }

    fn stamp(&self) -> (t: u64) {
        self.t
    }
}

impl Stamped for ClientSample {
    open spec fn at(self) -> u64 {
        self.t
    }

    fn stamp(&self) -> (t: u64) {
        self.t
    }
}

/// The samples past a cursor.
pub open spec fn newer<S: Stamped>(samples: Seq<S>, cursor: u64) -> Seq<S> {
    samples.filter(|s: S| s.at() > cursor)
}

/// The cursor once the samples past it have been sent.
pub open spec fn moved_to<S: Stamped>(samples: Seq<S>, cursor: u64) -> u64 {
    let sent = newer(samples, cursor);
    if sent.len() > 0 {
        sent.last().at()
    } else {
        cursor
    }
}

/// A cursor that has not been set yet is before everything but time zero.
pub open spec fn cursor_of(cursors: Map<Seq<char>, u64>, id: Seq<char>) -> u64 {
    if cursors.contains_key(id) {
        cursors[id]
    } else {
        0
    }
}

/// The cursors once the first `n` of the series have been sent.
pub open spec fn cursors_after<S: Stamped>(
    cursors: Map<Seq<char>, u64>,
    series: Seq<(Seq<char>, Seq<S>)>,
    n: int,
) -> Map<Seq<char>, u64>
    decreases n,
{
    if n <= 0 {
        cursors
    } else {
        let before = cursors_after(cursors, series, n - 1);
        let (id, samples) = series[n - 1];
        before.insert(id, moved_to(samples, cursor_of(before, id)))
    }
}

/// Keeps only the samples past the cursor of a series, and advances the cursor.
fn trim_series<S: Stamped>(
    cursors: &mut Assoc<String, u64>,
    id: &String,
    samples: &Vec<S>,
) -> (out: Vec<S>)
    requires
        old(cursors).wf(),
    ensures
        final(cursors).wf(),
        out@ == newer(samples@, cursor_of(old(cursors)@, id@)),
        final(cursors)@ == old(cursors)@.insert(
            id@,
            moved_to(samples@, cursor_of(old(cursors)@, id@)),
        ),
{
    let cur: u64 = match cursors.get(id) {
        Some(c) => *c,
        None => 0,
    };
    let ghost keep = |s: S| s.at() > cur;
    let mut out: Vec<S> = Vec::new();
    let mut i: usize = 0;
    proof {
        lists::lemma_filter_none(samples@, keep);
    }
    while i < samples.len()
        invariant
            i <= samples@.len(),
            keep == (|s: S| s.at() > cur),
            out@ == samples@.take(i as int).filter(keep),
        decreases samples@.len() - i,
    {
        proof {
            lists::lemma_filter_step(samples@, i as int, keep);
        }
        if samples[i].stamp() > cur {
            out.push(samples[i]);
        }
        i = i + 1;
    }
    proof {
        assert(samples@.take(i as int) =~= samples@);
    }
    let next: u64 = if out.len() > 0 {
        out[out.len() - 1].stamp()
    } else {
        cur
    };
    cursors.insert(id.clone(), next);
    out
}

/// The series of the sources.
pub open spec fn server_series(server: Seq<ServerSourceStats>) -> Seq<
    (Seq<char>, Seq<ServerSample>),
> {
    server.map_values(|s: ServerSourceStats| (s.source_id@, s.samples@))
}

/// The series of the devices.
pub open spec fn client_series(clients: Seq<ClientStats>) -> Seq<(Seq<char>, Seq<ClientSample>)> {
    clients.map_values(|c: ClientStats| (c.id@, c.samples@))
}

/// Whether the sources are the same but for the samples, of which only those past
/// the cursors are left.
pub open spec fn server_trimmed(
    out: Seq<ServerSourceStats>,
    full: Seq<ServerSourceStats>,
    cursors: Map<Seq<char>, u64>,
) -> bool {
    &&& out.len() == full.len()
    &&& forall|i: int|
        0 <= i < out.len() ==> {
            let before = cursors_after(cursors, server_series(full), i);
            &&& (#[trigger] out[i]).samples@ == newer(
                full[i].samples@,
                cursor_of(before, full[i].source_id@),
            )
            &&& same_but_samples(out[i], full[i])
        }
}

/// Whether two sources differ in their samples at most.
pub open spec fn same_but_samples(a: ServerSourceStats, b: ServerSourceStats) -> bool {
    &&& a.source_id@ == b.source_id@
    &&& a.name@ == b.name@
    &&& a.sample_rate == b.sample_rate
    &&& a.channels == b.channels
    &&& a.lead_ms == b.lead_ms
    &&& a.redundancy == b.redundancy
    &&& a.last_lead_ms == b.last_lead_ms
    &&& a.unicast == b.unicast
    &&& a.remote == b.remote
}

/// Whether the devices are the same but for the samples, of which only those past
/// the cursors are left.
pub open spec fn clients_trimmed(
    out: Seq<ClientStats>,
    full: Seq<ClientStats>,
    cursors: Map<Seq<char>, u64>,
) -> bool {
    &&& out.len() == full.len()
    &&& forall|i: int|
        0 <= i < out.len() ==> {
            let before = cursors_after(cursors, client_series(full), i);
            &&& (#[trigger] out[i]).samples@ == newer(
                full[i].samples@,
                cursor_of(before, full[i].id@),
            )
            &&& out[i].id@ == full[i].id@
            &&& out[i].sample_rate == full[i].sample_rate
            &&& out[i].channels == full[i].channels
            &&& out[i].ms_ago == full[i].ms_ago
        }
}

/// Whether the devices are all that are known, each with its history, by id.
pub open spec fn shows_devices(
    devices: Seq<ClientStats>,
    known: Map<Seq<char>, metrics::HistoryView>,
    now_ms: u64,
) -> bool {
    &&& assoc::ascending_names(devices.map_values(|c: ClientStats| c.id@))
    &&& assoc::names_keys(devices.map_values(|c: ClientStats| c.id@), known)
    &&& forall|i: int|
        0 <= i < devices.len() ==> metrics::shows_history(
            #[trigger] devices[i],
            known[devices[i].id@],
            now_ms,
        )
}

/// One event. A snapshot carries the full history (applied fresh), a delta only
/// samples newer than the subscriber's cursors (appended). The lists are small and
/// part of every event.
pub struct EventPayload {
    pub snapshot: bool,
    pub now_ms: u64,
    pub server: Vec<ServerSourceStats>,
    pub clients_hist: Vec<ClientStats>,
    pub clients: Vec<ClientDto>,
    pub catalog: Vec<SourceDto>,
    pub groups: Vec<GroupDto>,
}

/// Where one subscriber stands.
pub struct Subscription {
    pub first: bool,
    /// Highest sample time already sent, per source id / per device id.
    pub server_cur: Assoc<String, u64>,
    pub client_cur: Assoc<String, u64>,
}

impl Subscription {
    pub open spec fn wf(&self) -> bool {
        self.server_cur.wf() && self.client_cur.wf()
    }

    pub fn new() -> (r: Self)
        ensures
            r.wf(),
            r.first,
            r.server_cur@ == Map::<Seq<char>, u64>::empty(),
            r.client_cur@ == Map::<Seq<char>, u64>::empty(),
    {
        Subscription { first: true, server_cur: Assoc::new(), client_cur: Assoc::new() }
    }

    /// Keep only the samples past each source's cursor, and advance the cursors.
    pub fn trim_server(&mut self, full: &Vec<ServerSourceStats>) -> (out: Vec<ServerSourceStats>)
        requires
            old(self).wf(),
        ensures
            final(self).wf(),
            final(self).first == old(self).first,
            final(self).client_cur == old(self).client_cur,
            server_trimmed(out@, full@, old(self).server_cur@),
            final(self).server_cur@ == cursors_after(
                old(self).server_cur@,
                server_series(full@),
                full@.len() as int,
            ),
    {
        let ghost cur = self.server_cur@;
        let ghost series = server_series(full@);
        let mut out: Vec<ServerSourceStats> = Vec::new();
        let mut i: usize = 0;
        while i < full.len()
            invariant
                i <= full@.len(),
                self.wf(),
                self.first == old(self).first,
                self.client_cur == old(self).client_cur,
                series == server_series(full@),
                self.server_cur@ == cursors_after(cur, series, i as int),
                out@.len() == i,
                forall|j: int|
                    0 <= j < i ==> {
                        let before = cursors_after(cur, series, j);
                        &&& (#[trigger] out@[j]).samples@ == newer(
                            full@[j].samples@,
                            cursor_of(before, full@[j].source_id@),
                        )
                        &&& same_but_samples(out@[j], full@[j])
                    },
            decreases full@.len() - i,
        {
            let s: &ServerSourceStats = &full[i];
            proof {
                assert(series[i as int] == (s.source_id@, s.samples@));
            }
            let samples: Vec<ServerSample> = trim_series(
                &mut self.server_cur,
                &s.source_id,
                &s.samples,
            );
            out.push(
                ServerSourceStats {
                    source_id: s.source_id.clone(),
                    name: s.name.clone(),
                    sample_rate: s.sample_rate,
                    channels: s.channels,
                    lead_ms: s.lead_ms,
                    redundancy: s.redundancy,
                    last_lead_ms: s.last_lead_ms,
                    unicast: s.unicast,
                    remote: s.remote,
                    samples,
                },
            );
            i = i + 1;
        }
        out
    }

    /// Keep only the samples past each device's cursor, and advance the cursors.
    pub fn trim_clients(&mut self, full: &Vec<ClientStats>) -> (out: Vec<ClientStats>)
        requires
            old(self).wf(),
        ensures
            final(self).wf(),
            final(self).first == old(self).first,
            final(self).server_cur == old(self).server_cur,
            clients_trimmed(out@, full@, old(self).client_cur@),
            final(self).client_cur@ == cursors_after(
                old(self).client_cur@,
                client_series(full@),
                full@.len() as int,
            ),
    {
        let ghost cur = self.client_cur@;
        let ghost series = client_series(full@);
        let mut out: Vec<ClientStats> = Vec::new();
        let mut i: usize = 0;
        while i < full.len()
            invariant
                i <= full@.len(),
                self.wf(),
                self.first == old(self).first,
                self.server_cur == old(self).server_cur,
                series == client_series(full@),
                self.client_cur@ == cursors_after(cur, series, i as int),
                out@.len() == i,
                forall|j: int|
                    0 <= j < i ==> {
                        let before = cursors_after(cur, series, j);
                        &&& (#[trigger] out@[j]).samples@ == newer(
                            full@[j].samples@,
                            cursor_of(before, full@[j].id@),
                        )
                        &&& out@[j].id@ == full@[j].id@
                        &&& out@[j].sample_rate == full@[j].sample_rate
                        &&& out@[j].channels == full@[j].channels
                        &&& out@[j].ms_ago == full@[j].ms_ago
                    },
            decreases full@.len() - i,
        {
            let c: &ClientStats = &full[i];
            proof {
                assert(series[i as int] == (c.id@, c.samples@));
            }
            let samples: Vec<ClientSample> = trim_series(&mut self.client_cur, &c.id, &c.samples);
            out.push(
                ClientStats {
                    id: c.id.clone(),
                    sample_rate: c.sample_rate,
                    channels: c.channels,
                    ms_ago: c.ms_ago,
                    samples,
                },
            );
            i = i + 1;
        }
        out
    }

    /// The next event for the subscriber.
    pub fn next_event(
        &mut self,
        store: &mut TelemetryStore,
        catalog: &mut CatalogStore,
        clients_store: &ClientStore,
        groups: &GroupStore,
        registry: &SourceRegistry,
        my_id: u64,
        now_ms: u64,
        now: u64,
    ) -> (e: EventPayload)
        requires
            old(self).wf(),
            old(store).wf(),
            old(catalog).wf(),
            clients_store.wf(),
            registry.wf(),
        ensures
            final(self).wf(),
            !final(self).first,
            final(store).wf(),
            final(store).server_hist == old(store).server_hist,
            final(store).clients@ == assoc::fresh_part::<Seq<char>, ClientHistory>(
                old(store).clients@,
                now_ms,
                metrics::STALE_MS,
            ),
            api::catalog_pruned(*old(catalog), *final(catalog), now),
            e.snapshot == old(self).first,
            e.now_ms == now_ms,
            exists|sources: Seq<ResolvedSource>, metas: Seq<SourceMeta>, full: StatsSnapshot|
                {
                    &&& #[trigger] catalog::lists_sources(sources, old(catalog).live(now))
                    &&& metas.len() == sources.len()
                    &&& forall|i: int|
                        0 <= i < metas.len() ==> api::describes(
                            #[trigger] metas[i],
                            sources[i],
                            registry.sources@,
                            my_id,
                        )
                    &&& #[trigger] metrics::sources_by_name(
                        full.server@,
                        metas,
                        old(store).server_hist@,
                    )
                    &&& shows_devices(full.clients@, final(store).clients@, now_ms)
                    &&& server_trimmed(e.server@, full.server@, old(self).server_cur@)
                    &&& final(self).server_cur@ == cursors_after(
                        old(self).server_cur@,
                        server_series(full.server@),
                        full.server@.len() as int,
                    )
                    &&& clients_trimmed(e.clients_hist@, full.clients@, old(self).client_cur@)
                    &&& final(self).client_cur@ == cursors_after(
                        old(self).client_cur@,
                        client_series(full.clients@),
                        full.clients@.len() as int,
                    )
                    &&& e.catalog@.len() == sources.len()
                    &&& forall|i: int|
                        0 <= i < e.catalog@.len() ==> api::shows_in_catalog(
                            #[trigger] e.catalog@[i],
                            sources[i],
                        )
                    &&& api::shows_groups(e.groups@, groups.inner.pairs(), sources)
                },
            assoc::ascending_names(e.clients@.map_values(|c: ClientDto| c.id@)),
            assoc::names_keys(e.clients@.map_values(|c: ClientDto| c.id@), final(store).clients@),
            forall|i: int|
                0 <= i < e.clients@.len() ==> api::shows_client(
                    #[trigger] e.clients@[i],
                    final(store).clients@[e.clients@[i].id@],
                    clients_store@,
                    now_ms,
                ),
    {
        let sources: Vec<ResolvedSource> = catalog.snapshot(now);
        let metas: Vec<SourceMeta> = source_metas(&sources, registry, my_id);
        let full: StatsSnapshot = store.snapshot(&metas, now_ms);
        let server: Vec<ServerSourceStats> = self.trim_server(&full.server);
        let clients_hist: Vec<ClientStats> = self.trim_clients(&full.clients);
        let ghost known = store.clients@;
        let clients: Vec<ClientDto> = client_dtos(store, clients_store, now_ms);
        proof {
            assert(store.clients@ =~= known);
            assert(shows_devices(full.clients@, known, now_ms));
        }
        let e: EventPayload = EventPayload {
            snapshot: self.first,
            now_ms: full.now_ms,
            server,
            clients_hist,
            clients,
            catalog: catalog_dtos(&sources),
            groups: group_dtos(groups, &sources),
        };
        self.first = false;
        proof {
            assert(catalog::lists_sources(sources@, old(catalog).live(now)));
            assert(metrics::sources_by_name(full.server@, metas@, old(store).server_hist@));
        }
        e
    }
}

/// Whether samples stand in the order of their times.
pub open spec fn in_order<S: Stamped>(samples: Seq<S>) -> bool {
    forall|i: int, j: int|
        0 <= i < j < samples.len() ==> (#[trigger] samples[i]).at() < (#[trigger] samples[j]).at()
}

proof fn lemma_newer_step<S: Stamped>(samples: Seq<S>, cursor: u64)
    requires
        samples.len() > 0,
    ensures
        newer(samples, cursor) == if samples.last().at() > cursor {
            newer(samples.drop_last(), cursor).push(samples.last())
        } else {
            newer(samples.drop_last(), cursor)
        },
{
    let n = samples.len() as int;
    lists::lemma_filter_step(samples, n - 1, |s: S| s.at() > cursor);
    assert(samples.take(n) =~= samples);
    assert(samples.take(n - 1) =~= samples.drop_last());
}

/// Of samples in order, those past a cursor are a tail.
proof fn lemma_newer_is_tail<S: Stamped>(samples: Seq<S>, cursor: u64, i: int)
    requires
        0 <= i <= samples.len(),
        forall|j: int| 0 <= j < i ==> (#[trigger] samples[j]).at() <= cursor,
        forall|j: int| i <= j < samples.len() ==> (#[trigger] samples[j]).at() > cursor,
    ensures
        newer(samples, cursor) == samples.skip(i),
    decreases samples.len(),
{
    if samples.len() == 0 {
        reveal(Seq::filter);
        assert(newer(samples, cursor) =~= samples.skip(i));
    } else {
        let init = samples.drop_last();
        lemma_newer_step(samples, cursor);
        if i == samples.len() {
            lemma_newer_is_tail(init, cursor, i - 1);
            assert(samples[samples.len() - 1].at() <= cursor);
            assert(init.skip(i - 1) =~= Seq::<S>::empty());
            assert(samples.skip(i) =~= Seq::<S>::empty());
        } else {
            lemma_newer_is_tail(init, cursor, i);
            assert(samples[samples.len() - 1].at() > cursor);
            assert(samples.skip(i) =~= init.skip(i).push(samples.last()));
        }
    }
}

/// Every sample is sent once: once the samples so far have been sent, an event
/// with more carries exactly what came since, whatever was sent before.
pub proof fn deltas_carry_only_news<S: Stamped>(old_samples: Seq<S>, more: Seq<S>, cursor: u64)
    requires
        in_order(old_samples + more),
        newer(old_samples, cursor).len() > 0,
    ensures
        newer(old_samples + more, moved_to(old_samples, cursor)) == more,
{
    let all = old_samples + more;
    let n = old_samples.len() as int;
    assert forall|i: int, j: int| 0 <= i < j < n implies (#[trigger] old_samples[i]).at() < (
    #[trigger] old_samples[j]).at() by {
        assert(all[i] == old_samples[i] && all[j] == old_samples[j]);
    }
    lemma_last_sent(old_samples, cursor);
    let c = moved_to(old_samples, cursor);
    assert(n > 0) by {
        if n == 0 {
            reveal(Seq::filter);
        }
    }
    assert(c == old_samples[n - 1].at());
    assert forall|j: int| 0 <= j < n implies (#[trigger] all[j]).at() <= c by {
        assert(all[j] == old_samples[j]);
        if j < n - 1 {
            assert(old_samples[j].at() < old_samples[n - 1].at());
        }
    }
    assert forall|j: int| n <= j < all.len() implies (#[trigger] all[j]).at() > c by {
        assert(all[n - 1] == old_samples[n - 1]);
        assert(all[n - 1].at() < all[j].at());
    }
    lemma_newer_is_tail(all, c, n);
    assert(all.skip(n) =~= more);
}

/// Of samples in order, if any are past the cursor the last is.
proof fn lemma_last_sent<S: Stamped>(samples: Seq<S>, cursor: u64)
    requires
        in_order(samples),
        newer(samples, cursor).len() > 0,
    ensures
        samples.len() > 0,
        newer(samples, cursor).last() == samples.last(),
    decreases samples.len(),
{
    if samples.len() == 0 {
        reveal(Seq::filter);
    } else {
        lemma_newer_step(samples, cursor);
        if samples.last().at() <= cursor {
            let init = samples.drop_last();
            assert forall|j: int| 0 <= j < init.len() implies (#[trigger] init[j]).at()
                <= cursor by {
                assert(init[j] == samples[j]);
                assert(samples[j].at() < samples[samples.len() - 1].at());
            }
            lemma_newer_is_tail(init, cursor, init.len() as int);
        }
    }
}

/// The first event carries the full history: nothing is held back but samples of
/// time zero.
pub proof fn snapshot_carries_history<S: Stamped>(id: Seq<char>, samples: Seq<S>)
    requires
        forall|i: int| 0 <= i < samples.len() ==> (#[trigger] samples[i]).at() > 0,
    ensures
        newer(samples, cursor_of(Map::empty(), id)) == samples,
{
    lemma_newer_is_tail(samples, 0, 0);
    assert(samples.skip(0) =~= samples);
}

/// What is sent of a series is its samples past the cursor, all of them and no others.
pub proof fn only_samples_past_the_cursor_are_sent<S: Stamped>(
    samples: Seq<S>,
    cursor: u64,
    i: int,
)
    requires
        0 <= i < samples.len(),
    ensures
        samples[i].at() > cursor ==> newer(samples, cursor).contains(samples[i]),
        forall|j: int|
            0 <= j < newer(samples, cursor).len() ==> (#[trigger] newer(samples, cursor)[j]).at()
                > cursor && samples.contains(newer(samples, cursor)[j]),
        newer(samples, cursor).len() <= samples.len(),
{
    broadcast use {
        Seq::lemma_filter_pred,
        Seq::lemma_filter_contains,
        Seq::lemma_filter_len,
        Seq::lemma_filter_contains_rev,
    };

    let keep = |s: S| s.at() > cursor;
    let kept = samples.filter(keep);
    assert forall|j: int| 0 <= j < kept.len() implies (#[trigger] kept[j]).at() > cursor
        && samples.contains(kept[j]) by {
        assert(keep(kept[j]));
        assert(kept.contains(kept[j]));
    }
    if samples[i].at() > cursor {
        assert(keep(samples[i]));
    }
}

/// A cursor never goes back, and once the samples of a series in order have been sent,
/// none of them is past it.
pub proof fn cursors_move_past_what_was_sent<S: Stamped>(samples: Seq<S>, cursor: u64, i: int)
    requires
        0 <= i < samples.len(),
    ensures
        moved_to(samples, cursor) >= cursor,
        moved_to(samples, cursor) == cursor || exists|j: int|
            0 <= j < samples.len() && (#[trigger] samples[j]).at() == moved_to(samples, cursor),
        in_order(samples) ==> samples[i].at() <= moved_to(samples, cursor),
    decreases samples.len(),
{
    only_samples_past_the_cursor_are_sent(samples, cursor, i);
    let sent = newer(samples, cursor);
    if sent.len() > 0 {
        let last = sent[sent.len() - 1];
        assert(last.at() > cursor && samples.contains(last));
        let j = samples.index_of(last);
        assert(samples[j].at() == moved_to(samples, cursor));
    }
    if in_order(samples) && samples[i].at() > cursor {
        lemma_last_is_sent(samples, cursor, i);
    }
}

/// Where any sample in order is past the cursor, the last of all is sent last.
proof fn lemma_last_is_sent<S: Stamped>(samples: Seq<S>, cursor: u64, i: int)
    requires
        in_order(samples),
        0 <= i < samples.len(),
        samples[i].at() > cursor,
    ensures
        newer(samples, cursor).len() > 0,
        newer(samples, cursor).last() == samples.last(),
        samples[i].at() <= samples.last().at(),
{
    reveal(Seq::filter);
    let n = samples.len() - 1;
    if i < n {
        assert(samples[i].at() < samples[n].at());
    }
    let keep = |s: S| s.at() > cursor;
    assert(keep(samples.last()));
    assert(samples.filter(keep) == samples.drop_last().filter(keep).push(samples.last()));
}

/// A series that has not been sent before starts at the beginning.
pub proof fn cursors_start_at_zero(cursors: Map<Seq<char>, u64>, id: Seq<char>)
    ensures
        cursors.contains_key(id) ==> cursor_of(cursors, id) == cursors[id],
        !cursors.contains_key(id) ==> cursor_of(cursors, id) == 0,
{
}

/// Sending series moves their own cursors, each to the last sample sent of it, and no
/// other ones.
pub proof fn cursors_move_with_their_series<S: Stamped>(
    cursors: Map<Seq<char>, u64>,
    series: Seq<(Seq<char>, Seq<S>)>,
    n: int,
    id: Seq<char>,
)
    requires
        0 <= n <= series.len(),
    ensures
        (forall|k: int| 0 <= k < n ==> (#[trigger] series[k]).0 != id) ==> cursor_of(
            cursors_after(cursors, series, n),
            id,
        ) == cursor_of(cursors, id),
        cursor_of(cursors_after(cursors, series, n), id) >= cursor_of(cursors, id),
        forall|k: int|
            #![trigger series[k]]
            0 <= k < n && series[k].0 == id && (forall|j: int|
                0 <= j < n && j != k ==> (#[trigger] series[j]).0 != id) ==> cursors_after(
                cursors,
                series,
                n,
            ).contains_key(id) && cursors_after(cursors, series, n)[id] == moved_to(
                series[k].1,
                cursor_of(cursors, id),
            ),
    decreases n,
{
    if n > 0 {
        cursors_move_with_their_series(cursors, series, n - 1, id);
        let before = cursors_after(cursors, series, n - 1);
        let (at, samples) = series[n - 1];
        if at == id {
            lemma_moves_on(samples, cursor_of(before, id));
        }
        assert forall|k: int|
            #![trigger series[k]]
            0 <= k < n && series[k].0 == id && (forall|j: int|
                0 <= j < n && j != k ==> (#[trigger] series[j]).0 != id) implies cursors_after(
            cursors,
            series,
            n,
        ).contains_key(id) && cursors_after(cursors, series, n)[id] == moved_to(
            series[k].1,
            cursor_of(cursors, id),
        ) by {
            if k < n - 1 {
                assert(series[n - 1].0 != id);
                assert(cursors_after(cursors, series, n - 1).contains_key(id));
            } else {
                assert(cursor_of(before, id) == cursor_of(cursors, id));
            }
        }
    }
}

proof fn lemma_moves_on<S: Stamped>(samples: Seq<S>, cursor: u64)
    ensures
        moved_to(samples, cursor) >= cursor,
{
    if samples.len() > 0 {
        cursors_move_past_what_was_sent(samples, cursor, 0);
    } else {
        reveal(Seq::filter);
    }
}

/// Trimming leaves the sources and devices that there are, in their order, each with
/// the samples past its own cursor alone.
pub proof fn trimming_keeps_all_but_old_samples(
    out: Seq<ServerSourceStats>,
    full: Seq<ServerSourceStats>,
    cursors: Map<Seq<char>, u64>,
    i: int,
)
    requires
        server_trimmed(out, full, cursors),
        0 <= i < full.len(),
        forall|j: int| 0 <= j < i ==> (#[trigger] full[j]).source_id@ != full[i].source_id@,
    ensures
        out.len() == full.len(),
        out[i].source_id@ == full[i].source_id@,
        out[i].name@ == full[i].name@,
        out[i].sample_rate == full[i].sample_rate,
        out[i].channels == full[i].channels,
        out[i].lead_ms == full[i].lead_ms,
        out[i].redundancy == full[i].redundancy,
        out[i].last_lead_ms == full[i].last_lead_ms,
        out[i].unicast == full[i].unicast,
        out[i].remote == full[i].remote,
        out[i].samples@ == newer(full[i].samples@, cursor_of(cursors, full[i].source_id@)),
{
    let s = server_series(full);
    let id = full[i].source_id@;
    assert forall|k: int| 0 <= k < i implies (#[trigger] s[k]).0 != id by {
        assert(full[k].source_id@ != id);
    }
    cursors_move_with_their_series(cursors, s, i, id);
    assert(out[i].source_id@ == full[i].source_id@);
}

/// The same holds of the devices.
pub proof fn trimming_keeps_all_devices(
    out: Seq<ClientStats>,
    full: Seq<ClientStats>,
    cursors: Map<Seq<char>, u64>,
    i: int,
)
    requires
        clients_trimmed(out, full, cursors),
        0 <= i < full.len(),
        forall|j: int| 0 <= j < i ==> (#[trigger] full[j]).id@ != full[i].id@,
    ensures
        out.len() == full.len(),
        out[i].id@ == full[i].id@,
        out[i].sample_rate == full[i].sample_rate,
        out[i].channels == full[i].channels,
        out[i].ms_ago == full[i].ms_ago,
        out[i].samples@ == newer(full[i].samples@, cursor_of(cursors, full[i].id@)),
{
    let s = client_series(full);
    let id = full[i].id@;
    assert forall|k: int| 0 <= k < i implies (#[trigger] s[k]).0 != id by {
        assert(full[k].id@ != id);
    }
    cursors_move_with_their_series(cursors, s, i, id);
    assert(out[i].id@ == full[i].id@);
}

/// Every device that is shown is known, with its own history, and every one that is
/// known is shown.
pub proof fn known_devices_are_shown(
    devices: Seq<ClientStats>,
    known: Map<Seq<char>, metrics::HistoryView>,
    now_ms: u64,
    i: int,
    id: Seq<char>,
)
    requires
        shows_devices(devices, known, now_ms),
        0 <= i < devices.len(),
    ensures
        known.contains_key(devices[i].id@),
        devices[i].samples@ == known[devices[i].id@].samples,
        devices[i].sample_rate == known[devices[i].id@].sample_rate,
        devices[i].channels == known[devices[i].id@].channels,
        known.contains_key(id) ==> exists|k: int|
            0 <= k < devices.len() && (#[trigger] devices[k]).id@ == id,
{
    let ids = devices.map_values(|c: ClientStats| c.id@);
    assert(metrics::shows_history(devices[i], known[devices[i].id@], now_ms));
    assert(ids[i] == devices[i].id@);
    assert(ids.contains(ids[i]));
    if known.contains_key(id) {
        assert(ids.contains(id));
        let k = ids.index_of(id);
        assert(devices[k].id@ == id);
    }
}

} // verus!
