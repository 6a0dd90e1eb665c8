//! Telemetry, its history, and the catalog of sources.
use rustcast::catalog::{
    auto_group, build_announce, fnv1a, source_id, to_le, CatalogStore, ANNOUNCE_STALE,
};
use rustcast::metrics::{
    build_stats, frame, frame_len, holds, receive_stats, sample_sources, telemetry_report,
    vanished, DeviceMetrics, ServerMetrics, ServerSample, SourceMeta, TelemetryStore,
    CONNECTED_MS, HISTORY_LEN, MAX_REPORT_BYTES, STALE_MS,
};
use rustcast::stream::SendParams;
use rustcast::sync::{ClientSettings, SyncStats};
use rustcast::units::{Millis, Volume, FULL_VOLUME};
use rustcast::wire::{
    octets, CatalogAnnounce, CatalogEntry, SourceStat, StatsBroadcast, TelemetryReport,
    WireFormat,
};

fn report(id: &str, sent_ms: u64) -> TelemetryReport {
    let mut m = DeviceMetrics::new();
    m.set_format(48_000, 2);
    m.set_output_channels(2);
    telemetry_report(
        &m,
        &ClientSettings::new(),
        &id.to_string(),
        [1, 2, 3, 4, 5, 6],
        &"host".to_string(),
        sent_ms,
    )
}

#[test]
fn device_counters_are_reported() {
    let mut m = DeviceMetrics::new();
    m.set_format(48_000, 2);
    m.set_output_channels(6);
    m.record_append(10);
    m.record_append(5);
    m.record_packet_received();
    m.record_overrun_drop();
    m.record_late_drop();
    m.record_lost(3);
    m.record_underrun();
    m.set_output_queue_len(4);
    m.set_jitter_buffer_len(7);
    m.record_sync(&SyncStats {
        applied_offset_ms: Millis { flicks: 1 },
        target_offset_ms: Millis { flicks: 2 },
        best_rtt_ms: Millis { flicks: 3 },
        last_offset_ms: Millis { flicks: 4 },
        last_rtt_ms: Millis { flicks: 5 },
        samples: 6,
    });
    let mut settings = ClientSettings::new();
    settings.set_selection(77);
    settings.set_delay(30);
    settings.set_volume(Volume { units: FULL_VOLUME / 2 });
    settings.set_channel_map(vec![1, 0]);
    let r = telemetry_report(
        &m,
        &settings,
        &"id".to_string(),
        [9; 6],
        &"host".to_string(),
        123,
    );
    assert_eq!(r.sent_ms, 123);
    assert_eq!((r.device_id.as_str(), r.hostname.as_str()), ("id", "host"));
    assert_eq!(r.mac, [9; 6]);
    assert_eq!((r.sample_rate, r.channels, r.output_channels), (48_000, 2, 6));
    assert_eq!((r.blocks_appended, r.samples_appended), (2, 15));
    assert_eq!((r.packets_received, r.overrun_drops, r.late_drops), (1, 1, 1));
    assert_eq!((r.lost_packets, r.underruns), (3, 1));
    assert_eq!((r.output_queue_len, r.jitter_buffer_len), (4, 7));
    assert_eq!((r.clock_offset_ms.flicks, r.clock_target_offset_ms.flicks), (1, 2));
    assert_eq!((r.rtt_ms.flicks, r.last_offset_ms.flicks, r.last_rtt_ms.flicks), (3, 4, 5));
    assert_eq!(r.sync_samples, 6);
    assert_eq!((r.selected_source_id, r.delay_ms), (77, 30));
    assert_eq!(r.volume.units, FULL_VOLUME / 2);
    assert_eq!(r.channel_map, vec![1, 0]);
}

#[test]
fn frames_announce_their_length() {
    let f = frame(&vec![7, 8, 9]);
    assert_eq!(f, vec![0, 0, 0, 3, 7, 8, 9]);
    assert_eq!(frame_len(&[0, 0, 0, 3]), Some(3));
    assert_eq!(frame_len(&[0, 1, 0, 0]), Some(MAX_REPORT_BYTES));
    assert_eq!(frame_len(&[0, 1, 0, 1]), None);
}

#[test]
fn vanished_servers_are_let_go() {
    assert_eq!(vanished(&vec![1, 2, 3], &vec![3, 1]), vec![2]);
    assert!(holds(&vec![1, 2], 2) && !holds(&vec![1, 2], 3));
}

#[test]
fn reports_build_up_a_history() {
    let mut t = TelemetryStore::new();
    t.push_client(10, report("b", 1000), 1001);
    t.push_client(11, report("a", 1000), 1002);
    let s = t.clients_summary(1003);
    assert_eq!(s.len(), 2);
    let b = s.iter().find(|c| c.id == "b").unwrap();
    assert_eq!(b.ip, 10);
    assert_eq!(b.ms_ago, 2);
    assert!(b.connected);
    assert_eq!(t.ip_for_id(&"a".to_string()), Some(11));
    assert_eq!(t.ip_for_id(&"c".to_string()), None);
}

#[test]
fn clients_disconnect_and_go_stale() {
    let mut t = TelemetryStore::new();
    t.push_client(10, report("a", 0), 0);
    assert!(t.clients_summary(CONNECTED_MS - 1)[0].connected);
    assert!(!t.clients_summary(CONNECTED_MS)[0].connected);
    assert_eq!(t.clients_summary(STALE_MS - 1).len(), 1);
    assert!(t.clients_summary(STALE_MS).is_empty());
}

#[test]
fn late_reports_are_not_plotted_out_of_order() {
    let mut t = TelemetryStore::new();
    for sent in [1000, 1200, 1100] {
        t.push_client(10, report("a", sent), 5000);
    }
    let s = t.snapshot(&Vec::new(), 5000);
    let times: Vec<u64> = s.clients[0].samples.iter().map(|x| x.t).collect();
    let mut sorted = times.clone();
    sorted.sort();
    assert_eq!(times, sorted);
    assert_eq!(s.now_ms, 5000);
}

fn meta(id: u64, remote: bool) -> SourceMeta {
    SourceMeta {
        id,
        name: "Radio".to_string(),
        sample_rate: 48_000,
        channels: 2,
        lead_ms: 200,
        redundancy: 2,
        last_lead_ms: 60,
        unicast: false,
        remote,
    }
}

#[test]
fn server_history_is_bounded() {
    let mut t = TelemetryStore::new();
    for i in 0..HISTORY_LEN as u64 + 5 {
        let s = ServerSample { t: i, packets_sent: i, frames_sent: 0, reanchors: 0, pending_len: 0 };
        t.push_server(3, s);
    }
    let snap = t.snapshot(&vec![meta(3, false), meta(4, true)], 0);
    assert_eq!(snap.server.len(), 2);
    assert_eq!(snap.server[0].source_id, "3");
    assert_eq!(snap.server[0].samples.len(), HISTORY_LEN);
    assert_eq!(snap.server[0].samples[0].t, 5);
    assert_eq!(snap.server[0].redundancy, 2);
    assert!(snap.server[1].samples.is_empty());
    assert!(snap.server[1].remote);
}

#[test]
fn stats_travel_between_servers() {
    let mut m = ServerMetrics::new();
    m.set_static(48_000, 2, 200);
    m.record_packet_sent(256);
    m.record_copy_sent();
    m.record_reanchor();
    m.set_pending_len(9);
    let b = build_stats(1, 500, &vec![(7, m)]);
    assert_eq!((b.server_id, b.sent_ms), (1, 500));
    let want =
        SourceStat { source_id: 7, packets_sent: 2, frames_sent: 256, reanchors: 1, pending_len: 9 };
    assert_eq!(b.sources, vec![want]);
    let mut t = TelemetryStore::new();
    // A server's own stats are not taken back.
    receive_stats(&mut t, &b, 1, 600);
    assert!(t.snapshot(&vec![meta(7, false)], 0).server[0].samples.is_empty());
    receive_stats(&mut t, &b, 2, 600);
    let s = t.snapshot(&vec![meta(7, true)], 0);
    assert_eq!(s.server[0].samples[0].packets_sent, 2);
    assert_eq!(s.server[0].samples[0].t, 600);
    let own = StatsBroadcast { server_id: 1, sent_ms: 0, sources: Vec::new() };
    receive_stats(&mut t, &own, 2, 700);
    assert_eq!(t.snapshot(&vec![meta(7, true)], 0).server[0].samples.len(), 1);
    sample_sources(&mut t, &vec![(7, m)], 800);
    assert_eq!(t.snapshot(&vec![meta(7, true)], 0).server[0].samples.len(), 2);
}

#[test]
fn server_metrics_are_read_back() {
    let mut m = ServerMetrics::new();
    m.set_static(44_100, 2, 300);
    m.set_has_audio(true);
    assert_eq!((m.sample_rate(), m.channels(), m.lead_ms()), (44_100, 2, 300));
    let s = m.snapshot(5);
    assert_eq!((s.t, s.packets_sent), (5, 0));
}

#[test]
fn hashes_are_fnv1a() {
    assert_eq!(fnv1a(b""), 0xcbf2_9ce4_8422_2325);
    assert_eq!(fnv1a(b"a"), 0xaf63_dc4c_8601_ec8c);
    assert_eq!(fnv1a(b"foobar"), 0x8594_4171_f739_67e8);
    assert_eq!(to_le(0x0102), vec![2, 1, 0, 0, 0, 0, 0, 0]);
}

#[test]
fn source_ids_depend_on_server_and_name() {
    assert_eq!(source_id(1, "A"), source_id(1, "A"));
    assert_ne!(source_id(1, "A"), source_id(2, "A"));
    assert_ne!(source_id(1, "A"), source_id(1, "B"));
    let g = octets(auto_group(source_id(1, "A")));
    assert_eq!((g[0], g[1]), (239, 255));
    assert!(g[2] >= 128);
}

fn entry(id: u64, name: &str) -> CatalogEntry {
    CatalogEntry {
        source_id: id,
        name: name.to_string(),
        source_type: "pipe".to_string(),
        group: [239, 255, 1, 1],
        sample_rate: 48_000,
        channels: 2,
        format: WireFormat::S16Le,
        lead_ms: 200,
    }
}

fn announce(server_id: u64, sources: Vec<CatalogEntry>) -> CatalogAnnounce {
    CatalogAnnounce { server_id, server_ip: [10, 0, 0, 1], sync_port: 5005, sent_ms: 1, sources }
}

#[test]
fn announced_sources_resolve() {
    let mut c = CatalogStore::new();
    c.merge(announce(1, vec![entry(7, "A")]), 0);
    let r = c.resolve(7, 0).unwrap();
    assert_eq!((r.entry.name.as_str(), r.server_id, r.server_ip), ("A", 1, 0x0a00_0001));
    assert_eq!(r.sync_port, 5005);
    assert!(c.resolve(8, 0).is_none());
    // A new announcement takes the place of the old one.
    c.merge(announce(1, vec![entry(8, "B")]), 1);
    assert!(c.resolve(7, 1).is_none());
    assert!(c.resolve(8, 1).is_some());
}

#[test]
fn silent_servers_leave_the_catalog() {
    let mut c = CatalogStore::new();
    c.merge(announce(1, vec![entry(7, "A")]), 0);
    c.merge(announce(2, vec![entry(8, "B")]), ANNOUNCE_STALE);
    let names: Vec<String> =
        c.snapshot(ANNOUNCE_STALE + 1).into_iter().map(|s| s.entry.name).collect();
    assert_eq!(names, vec!["B"]);
}

#[test]
fn the_sender_is_the_server() {
    let mut c = CatalogStore::new();
    let mut a = announce(1, vec![entry(7, "A")]);
    a.server_ip = [0, 0, 0, 0];
    c.merge_from(a, 0xc0a8_0005, 0);
    assert_eq!(c.server_ips(0), vec![0xc0a8_0005]);
}

#[test]
fn announcements_carry_the_live_lead() {
    let p = SendParams::new(350, 1, 60, false);
    let a = build_announce(9, 5005, &vec![(entry(7, "A"), p)], 42);
    assert_eq!((a.server_id, a.sync_port, a.sent_ms), (9, 5005, 42));
    assert_eq!(a.sources[0].lead_ms, 350);
    assert_eq!(a.sources[0].source_id, 7);
}
