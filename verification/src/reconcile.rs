//! Reconcile persisted settings onto clients: adopt a new client's reported
//! values, and push the stored volume/delay/map/source to a (re)connecting client
//! whose live values differ. This is what makes settings survive restarts.
use vstd::prelude::*;

use crate::api;
use crate::api::{ControlSender, Push};
use crate::clients;
use crate::clients::{ClientRecord, ClientStore, RecordView};
use crate::lists::same_items;
use crate::metrics::ClientSummary;
use crate::supervisor::SourceRegistry;
use crate::sync::{copy_map, SettingsView};
use crate::text;
use crate::text::{holds_text, same_opt};
use crate::units::FULL_VOLUME;
use crate::wire;
use crate::wire::ControlCommand;

verus! {

/// How often stored settings are enforced onto clients.
pub const RECONCILE_MS: u64 = 500;

/// The record that counts for a client: the stored one, or a new one with the
/// values that it reports.
pub open spec fn effective(records: Map<Seq<char>, RecordView>, c: ClientSummary) -> RecordView {
    if records.contains_key(c.id@) {
        records[c.id@]
    } else {
        clients::plain_record(c.volume, c.delay_ms)
    }
}

/// The stored source to restore on first sight, if this server still hosts it and
/// the client plays something else.
pub open spec fn source_to_restore(
    rec: RecordView,
    registry: SourceRegistry,
    c: ClientSummary,
) -> Option<u64> {
    match rec.source {
        Some(name) => match registry.hosted(name) {
            Some(id) => if c.selected_source_id != id {
                Some(id)
            } else {
                None
            },
            None => None,
        },
        None => None,
    }
}

/// What the client plays of ours, by name; nothing when off or playing another
/// server's source.
pub open spec fn playing_here(registry: SourceRegistry, c: ClientSummary) -> Option<Seq<char>> {
    if c.selected_source_id != 0 && registry.sources@.contains_key(c.selected_source_id) {
        Some(registry.sources@[c.selected_source_id].name@)
    } else {
        None
    }
}

/// The volume push that is due.
pub open spec fn volume_due(rec: RecordView, c: ClientSummary) -> Seq<Push> {
    if rec.volume.spec_differs(c.volume) {
        seq![Push::volume(rec.volume)]
    } else {
        Seq::empty()
    }
}

/// The delay push that is due.
pub open spec fn delay_due(rec: RecordView, c: ClientSummary) -> Seq<Push> {
    if rec.delay_ms != c.delay_ms {
        seq![Push::delay(rec.delay_ms)]
    } else {
        Seq::empty()
    }
}

/// The channel-map push that is due: a non-default map the client isn't yet using.
pub open spec fn map_due(rec: RecordView, c: ClientSummary) -> Seq<Push> {
    if rec.channel_map.len() > 0 && rec.channel_map != c.channel_map@ {
        seq![Push::map(rec.channel_map)]
    } else {
        Seq::empty()
    }
}

/// The source push that is due, on first sight alone: later selections are the
/// user's.
pub open spec fn source_due(
    rec: RecordView,
    registry: SourceRegistry,
    c: ClientSummary,
    first: bool,
) -> Seq<Push> {
    if first {
        match source_to_restore(rec, registry, c) {
            Some(id) => seq![Push::source(id)],
            None => Seq::empty(),
        }
    } else {
        Seq::empty()
    }
}

/// The pushes of stored values that are due.
pub open spec fn stored_due(rec: RecordView, c: ClientSummary) -> Seq<Push> {
    volume_due(rec, c) + delay_due(rec, c) + map_due(rec, c)
}

/// All that is pushed to a client.
pub open spec fn pushes(
    rec: RecordView,
    registry: SourceRegistry,
    c: ClientSummary,
    first: bool,
) -> Seq<Push> {
    stored_due(rec, c) + source_due(rec, registry, c, first)
}

/// The records after a client was looked at: a new client gets one, and once its
/// source was restored, what it plays of ours is kept track of.
pub open spec fn records_after(
    records: Map<Seq<char>, RecordView>,
    registry: SourceRegistry,
    c: ClientSummary,
    first: bool,
) -> Map<Seq<char>, RecordView> {
    let rec = effective(records, c);
    if first || playing_here(registry, c) == rec.source {
        if records.contains_key(c.id@) {
            records
        } else {
            records.insert(c.id@, rec)
        }
    } else {
        records.insert(c.id@, RecordView { source: playing_here(registry, c), ..rec })
    }
}

/// Whether the commands carry the pushes to the client, in order.
pub open spec fn carries_all(
    out: Seq<ControlCommand>,
    target: u32,
    base: u64,
    all: Seq<Push>,
) -> bool {
    &&& out.len() == all.len()
    &&& forall|i: int|
        0 <= i < out.len() ==> api::sent_as(
            (#[trigger] out[i])@,
            target,
            api::nth_id(base, i),
            all[i],
        )
}

/// The clients whose stored source was already restored, so later selections are
/// not fought.
pub struct Reconciler {
    pub restored: Vec<String>,
}

impl Reconciler {
    pub fn new() -> (r: Self)
        ensures
            text::views(r.restored@) == Seq::<Seq<char>>::empty(),
    {
        let r: Reconciler = Reconciler { restored: Vec::new() };
        proof {
            assert(text::views(r.restored@) =~= Seq::<Seq<char>>::empty());
        }
        r
    }

    /// Whether the client has been seen before.
    pub open spec fn has_seen(&self, id: Seq<char>) -> bool {
        text::views(self.restored@).contains(id)
    }

    /// Look at one client: returns the commands to send to it, and whether its
    /// record has changed.
    pub fn reconcile(
        &mut self,
        c: &ClientSummary,
        clients_store: &mut ClientStore,
        registry: &SourceRegistry,
        control: &mut ControlSender,
    ) -> (r: (Vec<ControlCommand>, bool))
        requires
            old(clients_store).wf(),
            registry.wf(),
        ensures
            final(clients_store).wf(),
            ({
                let first = !old(self).has_seen(c.id@);
                let rec = effective(old(clients_store)@, *c);
                &&& carries_all(
                    r.0@,
                    c.ip,
                    old(control).next_id,
                    pushes(rec, *registry, *c, first),
                )
                &&& final(control).next_id == api::nth_id(
                    old(control).next_id,
                    r.0@.len() as int,
                )
                &&& final(clients_store)@ == records_after(
                    old(clients_store)@,
                    *registry,
                    *c,
                    first,
                )
                &&& r.1 == (!old(clients_store)@.contains_key(c.id@) || (!first && playing_here(
                    *registry,
                    *c,
                ) != rec.source))
                &&& !r.1 ==> final(clients_store)@ == old(clients_store)@
                &&& text::views(final(self).restored@) == if first {
                    text::views(old(self).restored@).push(c.id@)
                } else {
                    text::views(old(self).restored@)
                }
            }),
    {
        let ghost base = control.next_id;
        let (rec, created) = clients_store.get_or_create(&c.id, c.volume, c.delay_ms);
        let mut changed: bool = created;
        let ghost rv = rec@;
        let mut out: Vec<ControlCommand> = push_stored(&rec, c, control);
        let ghost had = out@;
        let ghost stored = stored_due(rv, *c);
        let first: bool = !holds_text(&self.restored, &c.id);
        if first {
            let ghost seen = self.restored@;
            self.restored.push(c.id.clone());
            proof {
                assert(text::views(self.restored@) =~= text::views(seen).push(c.id@));
            }
            match restore_id(&rec, registry, c) {
                Some(id) => {
                    proof {
                        api::lemma_next_id(base, out@.len() as int);
                    }
                    let cmd: ControlCommand = control.send(c.ip, Some(id), None, None);
                    out.push(cmd);
                },
                None => {},
            }
        } else {
            let cur: Option<String> = if c.selected_source_id == 0 {
                None
            } else {
                registry.name(c.selected_source_id)
            };
            if !same_opt(&cur, &rec.source) {
                let ghost mid = clients_store@;
                clients_store.set_source_name(&c.id, cur);
                changed = true;
                proof {
                    assert(clients::known(mid, c.id@) == rv);
                    assert(clients_store@ =~= records_after(
                        old(clients_store)@,
                        *registry,
                        *c,
                        first,
                    ));
                }
            }
        }
        proof {
            lemma_extend(
                had,
                out@,
                c.ip,
                base,
                stored,
                source_due(rv, *registry, *c, first),
            );
        }
        (out, changed)
    }
}

/// The stored source to restore, if any.
fn restore_id(rec: &ClientRecord, registry: &SourceRegistry, c: &ClientSummary) -> (r: Option<u64>)
    requires
        registry.wf(),
    ensures
        r == source_to_restore(rec@, *registry, *c),
{
    match &rec.source {
        Some(name) => match registry.id_for_name(name.as_str()) {
            Some(id) => if c.selected_source_id != id {
                Some(id)
            } else {
                None
            },
            None => None,
        },
        None => None,
    }
}

/// The commands that bring a client's volume, delay and channel map to the stored
/// ones.
fn push_stored(rec: &ClientRecord, c: &ClientSummary, control: &mut ControlSender) -> (out: Vec<
    ControlCommand,
>)
    ensures
        carries_all(out@, c.ip, old(control).next_id, stored_due(rec@, *c)),
        final(control).next_id == api::nth_id(old(control).next_id, out@.len() as int),
{
    let ghost base = control.next_id;
    let ghost rv = rec@;
    let mut out: Vec<ControlCommand> = Vec::new();
    proof {
        api::lemma_next_id(base, 0);
        assert(carries_all(out@, c.ip, base, Seq::empty()));
    }
    let ghost o0 = out@;
    if rec.volume.differs(c.volume) {
        let cmd: ControlCommand = control.send(c.ip, None, Some(rec.volume), None);
        out.push(cmd);
    }
    proof {
        lemma_extend(o0, out@, c.ip, base, Seq::empty(), volume_due(rv, *c));
        assert(Seq::<Push>::empty() + volume_due(rv, *c) =~= volume_due(rv, *c));
        api::lemma_next_id(base, o0.len() as int);
        api::lemma_next_id(base, out@.len() as int);
    }
    let ghost o1 = out@;
    if rec.delay_ms != c.delay_ms {
        let cmd: ControlCommand = control.send(c.ip, None, None, Some(rec.delay_ms));
        out.push(cmd);
    }
    proof {
        lemma_extend(o1, out@, c.ip, base, volume_due(rv, *c), delay_due(rv, *c));
        api::lemma_next_id(base, out@.len() as int);
    }
    let ghost o2 = out@;
    if rec.channel_map.len() > 0 && !same_items(&rec.channel_map, &c.channel_map) {
        let cmd: ControlCommand = control.send_channel_map(c.ip, copy_map(&rec.channel_map));
        out.push(cmd);
    }
    proof {
        lemma_extend(
            o2,
            out@,
            c.ip,
            base,
            volume_due(rv, *c) + delay_due(rv, *c),
            map_due(rv, *c),
        );
    }
    out
}

/// Commands with at most one more carry pushes with at most one more.
proof fn lemma_extend(
    before: Seq<ControlCommand>,
    after: Seq<ControlCommand>,
    target: u32,
    base: u64,
    had: Seq<Push>,
    more: Seq<Push>,
)
    requires
        carries_all(before, target, base, had),
        more.len() <= 1,
        more.len() == 0 ==> after == before,
        more.len() == 1 ==> after == before.push(after.last()) && api::sent_as(
            after.last()@,
            target,
            api::nth_id(base, before.len() as int),
            more[0],
        ),
    ensures
        carries_all(after, target, base, had + more),
{
    let has = had + more;
    if more.len() == 1 {
        assert(after.len() == before.len() + 1);
        assert forall|i: int| 0 <= i < after.len() implies api::sent_as(
            (#[trigger] after[i])@,
            target,
            api::nth_id(base, i),
            has[i],
        ) by {
            if i < before.len() {
                assert(after[i] == before[i]);
                assert(has[i] == had[i]);
            } else {
                assert(after[i] == after.last());
                assert(has[i] == more[0]);
            }
        }
    } else {
        assert(has =~= had);
    }
}

/// Applying the pushed volume brings a client to the stored one, so that nothing
/// more is due; the same holds of the channel map, and of the delay up to the lead
/// of the source that the client plays.
pub proof fn pushes_settle(s: SettingsView, rec: RecordView)
    requires
        0 <= rec.volume.units <= FULL_VOLUME,
    ensures
        !s.with_volume(rec.volume).volume.spec_differs(rec.volume),
        s.with_map(rec.channel_map).channel_map == rec.channel_map,
        rec.delay_ms <= s.lead_ms ==> s.with_delay(rec.delay_ms).delay_ms == rec.delay_ms,
        rec.delay_ms > s.lead_ms ==> s.with_delay(rec.delay_ms).delay_ms == s.lead_ms,
{
}

/// A client whose live values are the stored ones is left alone once its source
/// has been restored.
pub proof fn settled_client_is_left_alone(
    rec: RecordView,
    registry: SourceRegistry,
    c: ClientSummary,
)
    requires
        !rec.volume.spec_differs(c.volume),
        rec.delay_ms == c.delay_ms,
        rec.channel_map.len() == 0 || rec.channel_map == c.channel_map@,
    ensures
        pushes(rec, registry, c, false) == Seq::<Push>::empty(),
{
    assert(pushes(rec, registry, c, false) =~= Seq::<Push>::empty());
}

/// A client's settings after the commands, applied in order.
pub open spec fn settings_after(s: SettingsView, out: Seq<ControlCommand>) -> SettingsView
    decreases out.len(),
{
    if out.len() == 0 {
        s
    } else {
        settings_after(s, out.drop_last()).after(out.last()@)
    }
}

/// The settings with one push applied.
spec fn stepped(s: SettingsView, p: Push) -> SettingsView {
    let a = match p.volume {
        Some(v) => s.with_volume(v),
        None => s,
    };
    let b = match p.delay_ms {
        Some(d) => a.with_delay(d),
        None => a,
    };
    let c = match p.source {
        Some(id) => b.with_selection(id),
        None => b,
    };
    match p.channel_map {
        Some(m) => c.with_map(m),
        None => c,
    }
}

/// The settings with pushes applied in order.
spec fn stepped_by(s: SettingsView, all: Seq<Push>) -> SettingsView
    decreases all.len(),
{
    if all.len() == 0 {
        s
    } else {
        stepped(stepped_by(s, all.drop_last()), all.last())
    }
}

/// Commands do to the settings what the pushes do that they carry.
proof fn lemma_commands_step(
    s: SettingsView,
    out: Seq<ControlCommand>,
    target: u32,
    base: u64,
    all: Seq<Push>,
)
    requires
        carries_all(out, target, base, all),
    ensures
        settings_after(s, out) == stepped_by(s, all),
    decreases out.len(),
{
    if out.len() > 0 {
        let n = out.len() - 1;
        assert(carries_all(out.drop_last(), target, base, all.drop_last())) by {
            assert forall|i: int| 0 <= i < n implies api::sent_as(
                (#[trigger] out.drop_last()[i])@,
                target,
                api::nth_id(base, i),
                all.drop_last()[i],
            ) by {
                assert(out[i] == out.drop_last()[i]);
            }
        }
        lemma_commands_step(s, out.drop_last(), target, base, all.drop_last());
        assert(api::sent_as(out[n]@, target, api::nth_id(base, n), all[n]));
    }
}

/// Pushes apply one part after the other.
proof fn lemma_steps_add(s: SettingsView, a: Seq<Push>, b: Seq<Push>)
    ensures
        stepped_by(s, a + b) == stepped_by(stepped_by(s, a), b),
    decreases b.len(),
{
    if b.len() == 0 {
        assert(a + b =~= a);
    } else {
        assert((a + b).drop_last() =~= a + b.drop_last());
        assert((a + b).last() == b.last());
        lemma_steps_add(s, a, b.drop_last());
    }
}

/// At most one push applies as it stands.
proof fn lemma_one_step(s: SettingsView, a: Seq<Push>)
    requires
        a.len() <= 1,
    ensures
        a.len() == 0 ==> stepped_by(s, a) == s,
        a.len() == 1 ==> stepped_by(s, a) == stepped(s, a[0]),
{
    if a.len() == 1 {
        assert(a.drop_last().len() == 0);
        assert(stepped_by(s, a.drop_last()) == s);
    }
}

/// Which settings all that is pushed leaves a client with.
proof fn lemma_all_steps(
    s: SettingsView,
    rec: RecordView,
    registry: SourceRegistry,
    c: ClientSummary,
    first: bool,
) -> (r: (SettingsView, SettingsView, SettingsView))
    ensures
        r.0 == if rec.volume.spec_differs(c.volume) {
            s.with_volume(rec.volume)
        } else {
            s
        },
        r.1 == if rec.delay_ms != c.delay_ms {
            r.0.with_delay(rec.delay_ms)
        } else {
            r.0
        },
        r.2 == if map_due(rec, c).len() > 0 {
            r.1.with_map(rec.channel_map)
        } else {
            r.1
        },
        stepped_by(s, pushes(rec, registry, c, first)) == stepped_by(
            r.2,
            source_due(rec, registry, c, first),
        ),
{
    let a = volume_due(rec, c);
    let b = delay_due(rec, c);
    let m = map_due(rec, c);
    let d = source_due(rec, registry, c, first);
    lemma_steps_add(s, a + b + m, d);
    lemma_steps_add(s, a + b, m);
    lemma_steps_add(s, a, b);
    let s1 = stepped_by(s, a);
    let s2 = stepped_by(s1, b);
    let s3 = stepped_by(s2, m);
    lemma_one_step(s, a);
    lemma_one_step(s1, b);
    lemma_one_step(s2, m);
    (s1, s2, s3)
}

/// The first time a client is seen, the commands that it is sent leave it playing the
/// source that is stored for it, where that is hosted here; if it plays that one
/// already, no command names a source. No command does either where nothing that is
/// hosted is stored, nor at any later time: the client then goes on playing what it
/// plays.
pub proof fn stored_source_is_restored(
    s: SettingsView,
    rec: RecordView,
    registry: SourceRegistry,
    c: ClientSummary,
    first: bool,
    out: Seq<ControlCommand>,
    base: u64,
)
    requires
        s.selected == c.selected_source_id,
        carries_all(out, c.ip, base, pushes(rec, registry, c, first)),
    ensures
        first && rec.source is Some ==> match registry.hosted(rec.source->0) {
            Some(id) => settings_after(s, out).selected == id,
            None => settings_after(s, out).selected == s.selected,
        },
        !first || rec.source is None ==> settings_after(s, out).selected == s.selected,
        !first || rec.source is None || registry.hosted(rec.source->0) is None || registry.hosted(
            rec.source->0,
        ) == Some(s.selected) ==> forall|i: int|
            0 <= i < out.len() ==> (#[trigger] out[i])@.source_id is None,
{
    lemma_commands_step(s, out, c.ip, base, pushes(rec, registry, c, first));
    let (s1, s2, s3) = lemma_all_steps(s, rec, registry, c, first);
    let d = source_due(rec, registry, c, first);
    lemma_one_step(s3, d);
    assert(s3.selected == s.selected);
    assert forall|i: int| 0 <= i < out.len() && d.len() == 0 implies (
    #[trigger] out[i])@.source_id is None by {
        let all = pushes(rec, registry, c, first);
        assert(api::sent_as(out[i]@, c.ip, api::nth_id(base, i), all[i]));
    }
}

/// Whenever a client is looked at, the commands that it is sent bring its volume to
/// the stored one, its channel map to the stored one where there is one, and its delay
/// to the stored one as far as the lead of what it plays allows. All go to the client
/// itself.
pub proof fn stored_values_are_enforced(
    s: SettingsView,
    rec: RecordView,
    registry: SourceRegistry,
    c: ClientSummary,
    first: bool,
    out: Seq<ControlCommand>,
    base: u64,
)
    requires
        s.volume == c.volume,
        s.delay_ms == c.delay_ms,
        s.channel_map == c.channel_map@,
        0 <= rec.volume.units <= 0x100_0000_0000,
        carries_all(out, c.ip, base, pushes(rec, registry, c, first)),
    ensures
        ({
            let end = settings_after(s, out);
            &&& end.volume == rec.volume || (end.volume == c.volume && !rec.volume.spec_differs(
                c.volume,
            ))
            &&& rec.delay_ms <= s.lead_ms ==> end.delay_ms == rec.delay_ms
            &&& rec.delay_ms > s.lead_ms && rec.delay_ms != c.delay_ms ==> end.delay_ms
                == s.lead_ms
            &&& end.channel_map == if rec.channel_map.len() > 0 {
                rec.channel_map
            } else {
                c.channel_map@
            }
            &&& end.lead_ms == s.lead_ms
            &&& forall|i: int|
                0 <= i < out.len() ==> wire::ip_of((#[trigger] out[i])@.target_ip) == c.ip
        }),
{
    let all = pushes(rec, registry, c, first);
    lemma_commands_step(s, out, c.ip, base, all);
    let (s1, s2, s3) = lemma_all_steps(s, rec, registry, c, first);
    lemma_one_step(s3, source_due(rec, registry, c, first));
    assert forall|i: int| 0 <= i < out.len() implies wire::ip_of((#[trigger] out[i])@.target_ip)
        == c.ip by {
        assert(api::sent_as(out[i]@, c.ip, api::nth_id(base, i), all[i]));
    }
}

/// Looking at a client touches no other client's record, and of its own only what it
/// plays, and that not the first time: from then on the record says what the client
/// plays of this server's sources, or nothing.
pub proof fn records_follow_what_is_played(
    records: Map<Seq<char>, RecordView>,
    registry: SourceRegistry,
    c: ClientSummary,
    first: bool,
)
    ensures
        ({
            let after = records_after(records, registry, c, first);
            let rec = after[c.id@];
            let here = registry.sources@.contains_key(c.selected_source_id)
                && c.selected_source_id != 0;
            &&& after.contains_key(c.id@)
            &&& after.remove(c.id@) == records.remove(c.id@)
            &&& records.contains_key(c.id@) ==> rec == (RecordView {
                source: rec.source,
                ..records[c.id@]
            })
            &&& !records.contains_key(c.id@) ==> rec == (RecordView {
                source: rec.source,
                ..clients::plain_record(c.volume, c.delay_ms)
            })
            &&& first && records.contains_key(c.id@) ==> rec.source == records[c.id@].source
            &&& !first && here ==> rec.source == Some(
                registry.sources@[c.selected_source_id].name@,
            )
            &&& !first && !here ==> rec.source is None
        }),
{
    let after = records_after(records, registry, c, first);
    assert(after.remove(c.id@) =~= records.remove(c.id@));
}

/// A client has been seen exactly if it is on the list of those whose source was
/// restored.
pub proof fn seen_clients_are_on_the_list(r: Reconciler, id: Seq<char>)
    ensures
        r.has_seen(id) <==> exists|i: int|
            0 <= i < r.restored@.len() && (#[trigger] r.restored@[i])@ == id,
{
    let list = text::views(r.restored@);
    if r.has_seen(id) {
        let i = list.index_of(id);
        assert(r.restored@[i]@ == id);
    }
    if exists|i: int| 0 <= i < r.restored@.len() && (#[trigger] r.restored@[i])@ == id {
        let i = choose|i: int| 0 <= i < r.restored@.len() && (#[trigger] r.restored@[i])@ == id;
        assert(list[i] == id);
    }
}

} // verus!
