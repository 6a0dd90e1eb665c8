//! Remembered clients and groups, configuration and running sources.
use rustcast::clients::{mac_hex, parse_mac_hex, ClientRecord, ClientStore};
use rustcast::config::{
    default_channels, default_device_name, default_format, default_last_lead_ms, default_lead_ms,
    default_redundancy, default_sample_rate, default_sink_name, default_spotify_format, Config,
    SourceConfig, SourceKind,
};
use rustcast::groups::{num_suffix, GroupRecord, GroupStore};
use rustcast::metrics::ServerMetrics;
use rustcast::stream::SendParams;
use rustcast::supervisor::{nominal_format, SourceRegistry};
use rustcast::units::{Volume, FULL_VOLUME};
use rustcast::wire::WireFormat;

fn s(t: &str) -> String {
    t.to_string()
}

#[test]
fn clients_are_remembered() {
    let mut c = ClientStore::load(None);
    assert!(c.get(&s("a")).is_none());
    let (rec, created) = c.get_or_create(&s("a"), Volume { units: 5 }, 40);
    assert!(created);
    assert_eq!((rec.volume.units, rec.delay_ms), (5, 40));
    let (rec, created) = c.get_or_create(&s("a"), Volume { units: 9 }, 1);
    assert!(!created);
    assert_eq!(rec.volume.units, 5);
    c.set_volume(&s("a"), Volume { units: 6 });
    c.set_delay(&s("a"), 41);
    c.set_source_name(&s("a"), Some(s("Radio")));
    c.set_channel_map(&s("a"), vec![1, 0]);
    c.set_name(&s("a"), Some(s("Kitchen")));
    c.set_group(&s("a"), Some(s("g1")));
    let rec = c.get(&s("a")).unwrap();
    assert_eq!(rec.volume.units, 6);
    assert_eq!(rec.delay_ms, 41);
    assert_eq!(rec.source, Some(s("Radio")));
    assert_eq!(rec.channel_map, vec![1, 0]);
    assert_eq!(rec.name, Some(s("Kitchen")));
    assert_eq!(rec.group, Some(s("g1")));
}

#[test]
fn setting_one_field_starts_from_the_defaults() {
    let mut c = ClientStore::load(None);
    c.set_delay(&s("x"), 7);
    let rec = c.get(&s("x")).unwrap();
    let d = ClientRecord::default();
    assert_eq!(rec.volume, d.volume);
    assert_eq!(rec.volume.units, FULL_VOLUME);
    assert_eq!(rec.delay_ms, 7);
}

#[test]
fn groups_have_members() {
    let mut c = ClientStore::load(None);
    for (id, g) in [("a", "g1"), ("b", "g2"), ("c", "g1")] {
        c.set_group(&s(id), Some(s(g)));
    }
    assert_eq!(c.members(&s("g1")), vec![s("a"), s("c")]);
    assert!(c.clear_group(&s("g1")));
    assert!(c.members(&s("g1")).is_empty());
    assert_eq!(c.members(&s("g2")), vec![s("b")]);
    assert!(!c.clear_group(&s("g1")));
}

#[test]
fn loaded_clients_are_there() {
    let rec = ClientRecord { delay_ms: 12, ..ClientRecord::default() };
    let c = ClientStore::load(Some(vec![(s("a"), rec)]));
    assert_eq!(c.get(&s("a")).unwrap().delay_ms, 12);
}

#[test]
fn macs_round_trip() {
    let mac = [0x00, 0x1b, 0xff, 0xa0, 0x05, 0x9c];
    assert_eq!(mac_hex(mac), "00:1b:ff:a0:05:9c");
    assert_eq!(parse_mac_hex(&mac_hex(mac)), Some(mac));
    assert_eq!(parse_mac_hex("00:1b:ff"), None);
    assert_eq!(parse_mac_hex("00:1b:ff:a0:05:9c:00"), None);
    assert_eq!(parse_mac_hex("00:1b:ff:a0:05:xx"), None);
}

#[test]
fn group_ids_count_up() {
    let mut g = GroupStore::load(None);
    assert!(g.can_create());
    let a = g.create();
    let b = g.create();
    assert_ne!(a, b);
    assert_eq!(num_suffix(&b), num_suffix(&a) + 1);
    assert!(g.contains(&a));
    assert!(g.delete(&a));
    assert!(!g.delete(&a));
    assert!(!g.contains(&a));
    // A new id is above all those in use.
    let c = g.create();
    assert!(num_suffix(&c) > num_suffix(&b));
    assert!(g.set_name(&c, Some(s("Upstairs"))));
    assert!(g.set_source(&c, Some(s("Radio"))));
    assert!(!g.set_name(&a, None));
    assert!(!g.set_source(&a, None));
    let rec = g.get(&c).unwrap();
    assert_eq!((rec.name, rec.source), (Some(s("Upstairs")), Some(s("Radio"))));
    assert_eq!(g.list().len(), 2);
}

#[test]
fn group_ids_run_out() {
    let rec = GroupRecord { name: None, source: None };
    let top = format!("g{}", u64::MAX);
    assert_eq!(num_suffix(&top), u64::MAX);
    assert_eq!(num_suffix("kitchen"), 0);
    let g = GroupStore::load(Some(vec![(top, rec)]));
    assert!(!g.can_create());
}

fn pipe(name: &str) -> SourceConfig {
    SourceConfig {
        name: s(name),
        group: None,
        lead_ms: default_lead_ms(),
        redundancy: default_redundancy(),
        last_lead_ms: default_last_lead_ms(),
        unicast: false,
        kind: SourceKind::Pipe {
            path: s("fifo"),
            format: default_format(),
            channels: default_channels(),
            sample_rate: default_sample_rate(),
        },
    }
}

fn config(sources: Vec<SourceConfig>) -> Config {
    Config { interface: None, sources, local_client: None }
}

#[test]
fn defaults_of_the_configuration() {
    assert_eq!(default_lead_ms(), 200);
    assert_eq!(default_redundancy(), 1);
    assert_eq!(default_last_lead_ms(), 60);
    assert_eq!(default_channels(), 2);
    assert_eq!(default_sample_rate(), 44_100);
    assert_eq!(default_format(), "s16");
    assert_eq!(default_spotify_format(), "f32");
    assert_eq!(default_device_name(), "RustCast");
    assert_eq!(default_sink_name(), "RustCast");
    assert_eq!(pipe("A").kind.kind_name(), "pipe");
    assert_eq!(
        SourceKind::Mic { device: None, format: s("s16le"), channels: 1, sample_rate: 16_000 }
            .kind_name(),
        "mic"
    );
    assert_eq!(pipe("A").kind.format_str(), default_format());
    assert!(WireFormat::parse(&default_format()).is_some());
    assert!(WireFormat::parse(&default_spotify_format()).is_some());
}

#[test]
fn configurations_are_validated() {
    assert!(config(vec![pipe("A"), pipe("B")]).validate().is_ok());
    assert_eq!(config(Vec::new()).validate(), Err(s("config has no sources")));
    let mut odd = pipe("A");
    odd.kind = SourceKind::Spotify { device_name: s("x"), format: s("ogg") };
    assert_eq!(
        config(vec![pipe("B"), odd]).validate(),
        Err(s("source 'A': unknown format 'ogg' (expected s16 or f32)"))
    );
}

#[test]
fn sources_without_channels_or_rate_are_refused() {
    let with = |name: &str, format: &str, channels: u16, sample_rate: u32| SourceConfig {
        kind: SourceKind::Pipe { path: s("fifo"), format: s(format), channels, sample_rate },
        ..pipe(name)
    };
    assert!(config(vec![with("A", "s16", 1, 1)]).validate().is_ok());
    assert_eq!(
        config(vec![with("A", "s16", 0, 44_100)]).validate(),
        Err(s("source 'A': channels must be > 0"))
    );
    // The first that fails is named.
    assert_eq!(
        config(vec![pipe("A"), with("B", "f32", 2, 0), with("C", "s16", 0, 0)]).validate(),
        Err(s("source 'B': sample_rate must be > 0"))
    );
    assert_eq!(
        config(vec![with("A", "ogg", 0, 0)]).validate(),
        Err(s("source 'A': unknown format 'ogg' (expected s16 or f32)"))
    );
    let mut mic = pipe("M");
    mic.kind = SourceKind::Mic { device: None, format: s("s16"), channels: 0, sample_rate: 1 };
    assert_eq!(mic.fault(), Some(s("source 'M': channels must be > 0")));
    // A Spotify source brings its own shape.
    mic.kind = SourceKind::Spotify { device_name: s("x"), format: s("f32") };
    assert_eq!(mic.fault(), None);
}

#[test]
fn nominal_formats() {
    assert_eq!(nominal_format(&pipe("A").kind), (2, default_sample_rate()));
    let spotify = SourceKind::Spotify { device_name: s("x"), format: s("s16le") };
    assert_eq!(nominal_format(&spotify), (2, 44_100));
}

#[test]
fn sources_start_and_stop() {
    let mut r = SourceRegistry::new(1);
    assert!(r.has_group_for(&pipe("A")));
    let a = r.spawn(&pipe("A")).unwrap();
    let b = r.spawn(&pipe("B")).unwrap();
    assert_ne!(a, b);
    assert!(r.contains(a) && r.contains(b));
    assert!(r.spawn(&pipe("A")).is_err());
    assert_eq!(r.name(a), Some(s("A")));
    assert_eq!(r.id_for_name("B"), Some(b));
    assert_eq!(r.id_for_name("C"), None);
    assert_eq!(r.params(a).unwrap().lead(), 200);
    let entries = r.entries();
    assert_eq!(entries.len(), 2);
    assert_ne!(entries[0].0.group, entries[1].0.group);
    assert_eq!(r.samplers().len(), 2);
    assert!(r.remove(a));
    assert!(!r.remove(a));
    assert_eq!(r.configs().len(), 1);
    assert_eq!(r.configs()[0].name, "B");
}

#[test]
fn bad_sources_are_refused() {
    let mut r = SourceRegistry::new(1);
    let mut odd = pipe("A");
    odd.kind = SourceKind::Spotify { device_name: s("x"), format: s("ogg") };
    assert!(r.spawn(&odd).is_err());
    assert!(r.entries().is_empty());
}

#[test]
fn saved_sources_keep_their_timing() {
    let mut r = SourceRegistry::new(1);
    let a = r.spawn(&pipe("A")).unwrap();
    let p = SendParams::new(400, 3, 100, true);
    assert!(r.set_timing(a, p, ServerMetrics::new()));
    assert!(!r.set_timing(a + 1, p, ServerMetrics::new()));
    let (q, _) = r.timing(a).unwrap();
    assert_eq!(q, p);
    let cfg = &r.configs()[0];
    assert_eq!((cfg.lead_ms, cfg.redundancy, cfg.last_lead_ms, cfg.unicast), (400, 3, 100, true));
    // Started again from what was saved, it is the same source with the same timing.
    let mut again = SourceRegistry::new(1);
    assert_eq!(again.spawn(cfg), Ok(a));
    assert_eq!(again.params(a).unwrap(), p);
}
