//! Edits from the web UI, live events and what servers push to clients.
use rustcast::api::{
    can_replace, catalog_dtos, client_dtos, delete_group, delete_source, format_str, group_dtos,
    persist_sources, reanchor_source, requested_source, set_channel_map, set_client_group,
    set_delay, set_group_name, set_group_source, set_local_client, set_send, set_source,
    set_volume, source_id_by_name, source_metas, source_name_by_id, update_source, ControlSender,
    LocalClientCtl, Refusal, SendBody, Status,
};
use rustcast::catalog::CatalogStore;
use rustcast::client::local_device_id;
use rustcast::clients::ClientStore;
use rustcast::config::{Config, SourceConfig, SourceKind};
use rustcast::events::Subscription;
use rustcast::groups::GroupStore;
use rustcast::metrics::{telemetry_report, DeviceMetrics, TelemetryStore};
use rustcast::reconcile::Reconciler;
use rustcast::supervisor::SourceRegistry;
use rustcast::sync::ClientSettings;
use rustcast::units::{Volume, FULL_VOLUME};
use rustcast::wire::{
    ip_from, CatalogAnnounce, CatalogEntry, TelemetryReport, WireFormat, MAX_LEAD_MS,
};

fn s(t: &str) -> String {
    t.to_string()
}

fn report(id: &str, sent_ms: u64, settings: &ClientSettings) -> TelemetryReport {
    telemetry_report(&DeviceMetrics::new(), settings, &s(id), [0; 6], &s("host"), sent_ms)
}

fn telemetry(ids: &[&str]) -> TelemetryStore {
    let mut t = TelemetryStore::new();
    for (i, id) in ids.iter().enumerate() {
        t.push_client(0x0a00_0001 + i as u32, report(id, 1000, &ClientSettings::new()), 1000);
    }
    t
}

fn catalog() -> CatalogStore {
    let mut c = CatalogStore::new();
    let mut sources = Vec::new();
    for (id, name) in [(7, "Radio"), (8, "Vinyl")] {
        sources.push(CatalogEntry {
            source_id: id,
            name: s(name),
            source_type: s("pipe"),
            group: [239, 255, 1, id as u8],
            sample_rate: 48_000,
            channels: 2,
            format: WireFormat::F32Le,
            lead_ms: 200,
        });
    }
    let a = CatalogAnnounce {
        server_id: 1,
        server_ip: [10, 0, 0, 9],
        sync_port: 5005,
        sent_ms: 0,
        sources,
    };
    c.merge(a, 0);
    c
}

fn pipe(name: &str) -> SourceConfig {
    SourceConfig {
        name: s(name),
        group: None,
        lead_ms: 200,
        redundancy: 1,
        last_lead_ms: 60,
        unicast: false,
        kind: SourceKind::Pipe {
            path: s("fifo"),
            format: s("s16"),
            channels: 2,
            sample_rate: 44_100,
        },
    }
}

#[test]
fn commands_are_numbered() {
    let mut c = ControlSender::new();
    let a = c.send(0x0a00_0001, Some(7), None, None);
    let b = c.send_channel_map(0x0a00_0002, vec![1, 0]);
    assert_eq!(a.target_ip, [10, 0, 0, 1]);
    assert_eq!(a.set_source_id, Some(7));
    assert_eq!(a.set_channel_map, None);
    assert_eq!(b.set_channel_map, Some(vec![1, 0]));
    assert_eq!(b.set_source_id, None);
    assert_ne!(a.cmd_id, b.cmd_id);
}

#[test]
fn formats_have_names() {
    assert_eq!(format_str(WireFormat::S16Le), "s16");
    assert_eq!(format_str(WireFormat::F32Le), "f32");
}

#[test]
fn volume_edits_are_stored_and_pushed() {
    let t = telemetry(&["a"]);
    let mut clients = ClientStore::load(None);
    let mut ctl = ControlSender::new();
    let v = Volume { units: FULL_VOLUME * 2 };
    let cmd = set_volume(&s("a"), v, &t, &mut clients, &mut ctl).unwrap();
    assert_eq!(cmd.set_volume, Some(Volume { units: FULL_VOLUME }));
    assert_eq!(cmd.target_ip, [10, 0, 0, 1]);
    assert_eq!(clients.get(&s("a")).unwrap().volume, Volume { units: FULL_VOLUME });
    // A client that is away is told when it comes back.
    assert!(set_volume(&s("z"), v, &t, &mut clients, &mut ctl).is_none());
    assert!(clients.get(&s("z")).is_some());
}

#[test]
fn delay_and_map_edits() {
    let t = telemetry(&["a"]);
    let mut clients = ClientStore::load(None);
    let mut ctl = ControlSender::new();
    let cmd = set_delay(&s("a"), 10_000, &t, &mut clients, &mut ctl).unwrap();
    assert_eq!(cmd.set_delay_ms, Some(MAX_LEAD_MS as u32));
    assert_eq!(clients.get(&s("a")).unwrap().delay_ms, MAX_LEAD_MS as u32);
    let cmd = set_channel_map(&s("a"), vec![1, 0], &t, &mut clients, &mut ctl).unwrap();
    assert_eq!(cmd.set_channel_map, Some(vec![1, 0]));
    assert_eq!(clients.get(&s("a")).unwrap().channel_map, vec![1, 0]);
}

#[test]
fn source_edits_are_parsed() {
    assert_eq!(requested_source(&None), Some(0));
    assert_eq!(requested_source(&Some(s("7"))), Some(7));
    assert_eq!(requested_source(&Some(s("radio"))), None);
    let t = telemetry(&["a"]);
    let mut ctl = ControlSender::new();
    let cmd = set_source(&s("a"), &Some(s("7")), &t, &mut ctl).unwrap().unwrap();
    assert_eq!(cmd.set_source_id, Some(7));
    assert_eq!(
        set_source(&s("a"), &Some(s("x")), &t, &mut ctl).unwrap_err(),
        Status::BadRequest
    );
}

#[test]
fn sources_are_found_by_name() {
    let mut c = catalog();
    assert_eq!(source_id_by_name(&mut c, "Vinyl", 0), Some(8));
    assert_eq!(source_id_by_name(&mut c, "Tape", 0), None);
    assert_eq!(source_name_by_id(&mut c, 7, 0), Some(s("Radio")));
    assert_eq!(source_name_by_id(&mut c, 9, 0), None);
}

#[test]
fn groups_move_their_members() {
    let t = telemetry(&["a", "b", "c"]);
    let mut groups = GroupStore::load(None);
    let mut clients = ClientStore::load(None);
    let mut cat = catalog();
    let mut ctl = ControlSender::new();
    let g = groups.create();
    for id in ["a", "b"] {
        let r = set_client_group(
            &s(id),
            Some(g.clone()),
            &groups,
            &mut clients,
            &mut cat,
            &t,
            &mut ctl,
            0,
        );
        assert!(r.is_ok());
    }
    assert_eq!(clients.members(&g), vec![s("a"), s("b")]);
    assert_eq!(
        set_client_group(
            &s("c"),
            Some(s("nope")),
            &groups,
            &mut clients,
            &mut cat,
            &t,
            &mut ctl,
            0
        )
        .unwrap_err(),
        Status::NotFound
    );
    let cmds = set_group_source(
        &g,
        &Some(s("7")),
        &mut groups,
        &clients,
        &mut cat,
        &t,
        &mut ctl,
        0,
    )
    .unwrap();
    assert_eq!(cmds.len(), 2);
    assert!(cmds.iter().all(|c| c.set_source_id == Some(7)));
    assert_eq!(groups.get(&g).unwrap().source, Some(s("Radio")));
    // A client that joins takes the group's source.
    let joined = set_client_group(
        &s("c"),
        Some(g.clone()),
        &groups,
        &mut clients,
        &mut cat,
        &t,
        &mut ctl,
        0,
    )
    .unwrap()
    .unwrap();
    assert_eq!(joined.set_source_id, Some(7));
    assert_eq!(joined.target_ip, [10, 0, 0, 3]);
    let bad = set_group_source(
        &g,
        &Some(s("x")),
        &mut groups,
        &clients,
        &mut cat,
        &t,
        &mut ctl,
        0,
    );
    assert_eq!(bad.unwrap_err(), Status::BadRequest);
    let gone = set_group_source(
        &s("nope"),
        &Some(s("7")),
        &mut groups,
        &clients,
        &mut cat,
        &t,
        &mut ctl,
        0,
    );
    assert_eq!(gone.unwrap_err(), Status::NotFound);
    assert_eq!(set_group_name(&g, Some(s("Upstairs")), &mut groups), Status::Done);
    assert_eq!(set_group_name(&s("nope"), None, &mut groups), Status::NotFound);
    let dtos = group_dtos(&groups, &cat.snapshot(0));
    assert_eq!(dtos.len(), 1);
    assert_eq!((dtos[0].name.clone(), dtos[0].source_id.as_str()), (Some(s("Upstairs")), "7"));
    assert_eq!(delete_group(&g, &mut groups, &mut clients), Status::Done);
    assert_eq!(delete_group(&g, &mut groups, &mut clients), Status::NotFound);
    assert!(clients.members(&g).is_empty());
}

#[test]
fn clients_are_listed() {
    let mut t = telemetry(&["a", "b"]);
    let mut clients = ClientStore::load(None);
    clients.set_name(&s("a"), Some(s("Kitchen")));
    clients.set_group(&s("b"), Some(s("g1")));
    let dtos = client_dtos(&mut t, &clients, 2500);
    assert_eq!(dtos.len(), 2);
    let a = dtos.iter().find(|d| d.id == "a").unwrap();
    assert_eq!(a.name, "Kitchen");
    assert_eq!(a.ip, "10.0.0.1");
    assert_eq!(a.tenths_ago, 15);
    assert_eq!(a.selected_source_id, "");
    let b = dtos.iter().find(|d| d.id == "b").unwrap();
    assert_eq!(b.name, "host");
    assert_eq!(b.group_id, Some(s("g1")));
}

#[test]
fn the_catalog_is_listed() {
    let mut c = catalog();
    let dtos = catalog_dtos(&c.snapshot(0));
    assert_eq!(dtos.len(), 2);
    let d = dtos.iter().find(|d| d.name == "Radio").unwrap();
    assert_eq!((d.source_id.as_str(), d.format.as_str(), d.lead_ms), ("7", "f32", 200));
    let r = SourceRegistry::new(1);
    let m = source_metas(&c.snapshot(0), &r, 1);
    assert!(m.iter().all(|m| !m.remote));
    let m = source_metas(&c.snapshot(0), &r, 2);
    assert!(m.iter().all(|m| m.remote));
}

#[test]
fn sources_are_edited() {
    let mut r = SourceRegistry::new(1);
    let id = r.spawn(&pipe("A")).unwrap();
    let other = r.spawn(&pipe("B")).unwrap();
    let text = format!("{id}");
    let body = SendBody {
        lead_ms: Some(500),
        redundancy: None,
        last_lead_ms: Some(70),
        unicast: Some(true),
    };
    assert_eq!(set_send(&text, &body, &mut r), Status::Done);
    let p = r.params(id).unwrap();
    assert_eq!((p.lead(), p.redundancy(), p.last_lead(), p.unicast()), (500, 1, 70, true));
    assert_eq!(set_send("x", &body, &mut r), Status::BadRequest);
    assert_eq!(set_send("1", &body, &mut r), Status::NotFound);
    assert_eq!(reanchor_source(&text, &mut r), Status::Done);
    assert!(r.params(id).unwrap().reanchor);
    assert_eq!(reanchor_source("1", &mut r), Status::NotFound);
    assert_eq!(reanchor_source("x", &mut r), Status::BadRequest);
    // Renamed, it is another source.
    let moved = update_source(&text, &pipe("C"), &mut r).unwrap();
    assert!(!r.contains(id) && r.contains(moved) && r.contains(other));
    assert!(matches!(update_source("x", &pipe("C"), &mut r), Err(Refusal::BadRequest)));
    assert!(matches!(update_source("1", &pipe("C"), &mut r), Err(Refusal::NotFound)));
    assert_eq!(delete_source(&format!("{moved}"), &mut r), Status::Done);
    assert_eq!(delete_source(&format!("{moved}"), &mut r), Status::NotFound);
    assert_eq!(delete_source("x", &mut r), Status::BadRequest);
    let mut config = Config { interface: None, sources: Vec::new(), local_client: None };
    persist_sources(&mut config, &r);
    assert_eq!(config.sources.len(), 1);
    assert_eq!(config.sources[0].name, "B");
}

#[test]
fn a_source_is_replaced_in_a_full_range() {
    let at = |name: &str, group: u32| SourceConfig { group: Some(group), ..pipe(name) };
    let base: u32 = 0xefff_0000;
    let mut r = SourceRegistry::new(1);
    let mut ids = Vec::new();
    for k in 0..256u32 {
        assert!(r.has_group_for(&at(&format!("s{k}"), base)));
        ids.push(r.spawn(&at(&format!("s{k}"), base)).unwrap());
    }
    let group_of = |r: &SourceRegistry, id: u64| {
        let e = r.entries();
        ip_from(&e.iter().find(|e| e.0.source_id == id).unwrap().0.group)
    };
    assert_eq!(group_of(&r, ids[9]), base + 9);
    // No group is left for another one, but one that is refused needs none.
    let fresh = at("fresh", base);
    assert!(!r.has_group_for(&fresh));
    assert!(r.has_group_for(&at("s0", base)));
    assert!(r.spawn(&at("s0", base)).is_err());
    // The group of the source that goes is the one that is free then.
    let text = format!("{}", ids[9]);
    assert!(r.has_group_instead(ids[9], &fresh));
    assert!(can_replace(&text, &fresh, &r));
    assert!(can_replace("x", &fresh, &r) && can_replace("1", &fresh, &r));
    let new = update_source(&text, &fresh, &mut r).unwrap();
    assert_eq!(group_of(&r, new), base + 9);
    assert!(!r.contains(ids[9]));
    // Where the new one is refused, the old one is gone nevertheless.
    let taken = update_source(&format!("{new}"), &at("s0", base), &mut r);
    assert!(matches!(taken, Err(Refusal::Because(e)) if e == "a source named 's0' already exists"));
    assert!(!r.contains(new));
}

#[test]
fn the_catalog_is_read_only_to_look_a_source_up() {
    let t = telemetry(&["a"]);
    let mut groups = GroupStore::load(None);
    let mut clients = ClientStore::load(None);
    let mut cat = catalog();
    let mut ctl = ControlSender::new();
    let g = groups.create();
    let known = cat.remote.len();
    assert!(known > 0);
    // Every server is stale by now; only a look-up forgets them.
    let late = u64::MAX;
    for (id, group) in [("a", Some(s("nope"))), ("a", None), ("a", Some(g.clone()))] {
        let _ = set_client_group(
            &s(id),
            group,
            &groups,
            &mut clients,
            &mut cat,
            &t,
            &mut ctl,
            late,
        );
        assert_eq!(cat.remote.len(), known);
    }
    for (gid, source) in [(s("nope"), s("7")), (g.clone(), s("x")), (g.clone(), s("0"))] {
        let _ = set_group_source(
            &gid,
            &Some(source),
            &mut groups,
            &clients,
            &mut cat,
            &t,
            &mut ctl,
            late,
        );
        assert_eq!(cat.remote.len(), known);
    }
    let _ = set_group_source(&g, &Some(s("7")), &mut groups, &clients, &mut cat, &t, &mut ctl, 0);
    assert_eq!(groups.get(&g).unwrap().source, Some(s("Radio")));
    let away = set_client_group(
        &s("z"),
        Some(g.clone()),
        &groups,
        &mut clients,
        &mut cat,
        &t,
        &mut ctl,
        late,
    );
    assert!(away.unwrap().is_none());
    assert_eq!(cat.remote.len(), known);
    let silent = set_client_group(
        &s("a"),
        Some(g),
        &groups,
        &mut clients,
        &mut cat,
        &t,
        &mut ctl,
        late,
    );
    assert_eq!(silent.unwrap().unwrap().set_source_id, Some(0));
    assert_eq!(cat.remote.len(), 0);
}

#[test]
fn the_local_client_is_started_once() {
    let mut config = Config { interface: None, sources: Vec::new(), local_client: None };
    let r = SourceRegistry::new(1);
    let mut local = LocalClientCtl::new(0, false);
    let started =
        set_local_client(true, Some(s("Server")), &mut config, &r, &mut local, "box").unwrap();
    assert_eq!(started.0, local_device_id("box"));
    assert!(config.local_client.is_some());
    assert!(local.running);
    assert_eq!(local.ensure_running("box"), None);
    let _ = set_local_client(false, None, &mut config, &r, &mut local, "box");
    assert!(config.local_client.is_none());
}

#[test]
fn events_start_with_everything_and_go_on_with_news() {
    let mut t = telemetry(&["a"]);
    let mut c = catalog();
    let clients = ClientStore::load(None);
    let groups = GroupStore::load(None);
    let r = SourceRegistry::new(1);
    let mut sub = Subscription::new();
    let first = sub.next_event(&mut t, &mut c, &clients, &groups, &r, 1, 1000, 0);
    assert!(first.snapshot);
    assert_eq!(first.clients.len(), 1);
    assert_eq!(first.catalog.len(), 2);
    assert_eq!(first.clients_hist[0].samples.len(), 1);
    let idle = sub.next_event(&mut t, &mut c, &clients, &groups, &r, 1, 1200, 0);
    assert!(!idle.snapshot);
    assert!(idle.clients_hist.iter().all(|h| h.samples.is_empty()));
    t.push_client(0x0a00_0001, report("a", 1300, &ClientSettings::new()), 1300);
    let news = sub.next_event(&mut t, &mut c, &clients, &groups, &r, 1, 1400, 0);
    assert_eq!(news.clients_hist[0].samples.len(), 1);
    // Someone who joins later gets all of it.
    let mut late = Subscription::new();
    let all = late.next_event(&mut t, &mut c, &clients, &groups, &r, 1, 1400, 0);
    assert_eq!(all.clients_hist[0].samples.len(), 2);
}

#[test]
fn stored_settings_are_pushed_until_they_hold() {
    let mut clients = ClientStore::load(None);
    clients.set_delay(&s("a"), 90);
    clients.set_volume(&s("a"), Volume { units: FULL_VOLUME / 2 });
    let registry = SourceRegistry::new(1);
    let mut ctl = ControlSender::new();
    let mut rec = Reconciler::new();
    let mut settings = ClientSettings::new();
    let mut t = TelemetryStore::new();
    t.push_client(0x0a00_0001, report("a", 1000, &settings), 1000);
    let summary = &t.clients_summary(1000)[0];
    let (cmds, _) = rec.reconcile(summary, &mut clients, &registry, &mut ctl);
    assert!(!cmds.is_empty());
    for c in &cmds {
        settings.apply_command(c);
    }
    assert_eq!(settings.delay_ms(), 90);
    assert_eq!(settings.report_values().1, Volume { units: FULL_VOLUME / 2 });
    // Once the client reports what is stored, it is left alone.
    t.push_client(0x0a00_0001, report("a", 1100, &settings), 1100);
    let summary = &t.clients_summary(1100)[0];
    let (cmds, changed) = rec.reconcile(summary, &mut clients, &registry, &mut ctl);
    assert!(cmds.is_empty());
    assert!(!changed);
}

#[test]
fn a_new_client_is_remembered_as_it_is() {
    let mut clients = ClientStore::load(None);
    let registry = SourceRegistry::new(1);
    let mut ctl = ControlSender::new();
    let mut rec = Reconciler::new();
    let mut settings = ClientSettings::new();
    settings.set_delay(33);
    let mut t = TelemetryStore::new();
    t.push_client(0x0a00_0001, report("new", 1000, &settings), 1000);
    let summary = &t.clients_summary(1000)[0];
    let (cmds, changed) = rec.reconcile(summary, &mut clients, &registry, &mut ctl);
    assert!(changed);
    assert!(cmds.is_empty());
    assert_eq!(clients.get(&s("new")).unwrap().delay_ms, 33);
}
