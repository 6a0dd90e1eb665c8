//! The client's jitter buffer and source selection; capture sources.
use rustcast::catalog::ResolvedSource;
use rustcast::metrics::DeviceMetrics;
use rustcast::source::network::{
    frames_to_millis, packet_duration_ms, BufState, NetworkSource, PlayChunk, Pulled,
    SelectionWatcher, MAX_BUFFERED,
};
use rustcast::player::{takes_block, MAX_QUEUED_BUFFERS};
use rustcast::source::librespot::{receiver_format, Pacer};
use rustcast::source::pipe::PcmAssembler;
use rustcast::source::pulse::{
    capture_device, module_id, record_args, sink_listed, sink_to_load, PulseKind,
};
use rustcast::source::Format;
use rustcast::sync::{ClientSettings, SyncTarget, SyncedClock};
use rustcast::units::{Millis, FLICKS_PER_MS};
use rustcast::wire::{AudioPacket, CatalogEntry, WireFormat};

fn packet(seq: u64, play_at_ms: u64) -> AudioPacket {
    AudioPacket {
        source_id: 7,
        seq,
        play_at_ms,
        sample_rate: 1000,
        channels: 1,
        format: WireFormat::S16Le,
        data: vec![seq as u8, 0, 1, 0],
        channel_ids: Vec::new(),
    }
}

fn ms(n: u64) -> Millis {
    Millis { flicks: n as i128 * FLICKS_PER_MS }
}

#[test]
fn packets_leave_in_order_once() {
    let mut b = BufState::new();
    assert!(b.accept(packet(2, 1002)));
    assert!(b.accept(packet(0, 1000)));
    assert!(b.accept(packet(1, 1001)));
    // A repeated packet changes nothing.
    assert!(b.accept(packet(1, 1001)));
    assert_eq!(b.packets.len(), 3);
    assert_eq!(b.pull().unwrap().seq, 0);
    assert_eq!(b.pull().unwrap().seq, 1);
    // What was taken does not come back.
    assert!(!b.accept(packet(1, 1001)));
    assert_eq!(b.pull().unwrap().seq, 2);
    assert!(b.pull().is_none());
}

#[test]
fn clearing_forgets_what_was_played() {
    let mut b = BufState::new();
    assert!(b.accept(packet(5, 1000)));
    assert_eq!(b.pull().unwrap().seq, 5);
    b.clear();
    assert!(b.accept(packet(5, 1000)));
}

#[test]
fn the_buffer_is_bounded() {
    let mut b = BufState::new();
    for i in 0..MAX_BUFFERED as u64 + 10 {
        let _ = b.accept(packet(i, 1000 + i));
    }
    assert!(b.packets.len() <= MAX_BUFFERED);
}

#[test]
fn packets_of_other_sources_are_dropped() {
    let mut n = NetworkSource::new();
    let mut m = DeviceMetrics::new();
    n.active_source_id = 8;
    assert!(!n.receive(packet(0, 1000), true, &mut m));
    n.active_source_id = 7;
    assert!(n.receive(packet(0, 1000), true, &mut m));
    assert_eq!(m.packets_received, 1);
    assert_eq!(m.jitter_buffer_len, 1);
}

#[test]
fn packets_wait_for_the_clock() {
    let mut n = NetworkSource::new();
    let mut m = DeviceMetrics::new();
    n.active_source_id = 7;
    assert!(!n.receive(packet(0, 1000), false, &mut m));
}

#[test]
fn a_newer_packet_that_plays_earlier_drops_the_old_timeline() {
    let mut b = BufState::new();
    assert!(b.accept(packet(0, 1000)));
    assert!(b.accept(packet(1, 1100)));
    assert!(b.accept(packet(2, 1200)));
    assert!(b.accept(packet(3, 1050)));
    let left: Vec<u64> = b.packets.iter().map(|p| p.seq).collect();
    assert_eq!(left, vec![0, 3]);
    assert_eq!(b.newest, Some((3, 1050)));
}

#[test]
fn nothing_is_pulled_without_a_selection() {
    let mut n = NetworkSource::new();
    let mut m = DeviceMetrics::new();
    n.active_source_id = 7;
    assert!(n.receive(packet(0, 1000), true, &mut m));
    assert!(n.receive(packet(3, 1006), true, &mut m));
    n.active_source_id = 0;
    assert!(n.pull_next(&mut m).is_none());
    n.active_source_id = 7;
    assert_eq!(n.pull_next(&mut m).unwrap().seq, 0);
    assert_eq!(m.jitter_buffer_len, 1);
    assert_eq!(n.pull_next(&mut m).unwrap().seq, 3);
}

#[test]
fn samples_come_decoded() {
    let mut n = NetworkSource::new();
    let mut m = DeviceMetrics::new();
    n.active_source_id = 7;
    match n.next_samples(0, ms(1000), &mut m) {
        Pulled::Nothing => {}
        _ => panic!("nothing has come in"),
    }
    assert!(n.receive(packet(4, 1000), true, &mut m));
    match n.next_samples(0, ms(1000), &mut m) {
        Pulled::Ready(chunk, format) => {
            assert_eq!(format, WireFormat::S16Le);
            assert_eq!(chunk.samples, vec![4, 1]);
            assert_eq!(chunk.play_at_ms, 1000);
            assert_eq!(chunk.channels, 1);
        }
        _ => panic!("a packet is there"),
    }
}

#[test]
fn nothing_plays_before_the_clock_is_ready() {
    let mut n = NetworkSource::new();
    let mut m = DeviceMetrics::new();
    n.active_source_id = 7;
    assert!(n.receive(packet(4, 1000), true, &mut m));
    let before = m;
    // Not even a late packet goes.
    for now in [ms(1000), ms(60_000)] {
        assert!(matches!(n.next_when_ready(false, 0, now, &mut m), Pulled::Nothing));
        assert_eq!(n.buf.packets.len(), 1);
        assert_eq!(n.buf.consumed_seq, None);
        assert_eq!(m, before);
    }
    match n.next_when_ready(true, 0, ms(1000), &mut m) {
        Pulled::Ready(chunk, _) => assert_eq!(chunk.samples, vec![4, 1]),
        _ => panic!("a packet is there"),
    }
    assert_eq!(n.buf.consumed_seq, Some(4));
    assert!(matches!(n.next_when_ready(true, 0, ms(1000), &mut m), Pulled::Nothing));
}

#[test]
fn past_packets_are_shed() {
    let mut n = NetworkSource::new();
    let mut m = DeviceMetrics::new();
    n.active_source_id = 7;
    assert!(n.receive(packet(4, 1000), true, &mut m));
    match n.next_samples(0, ms(60_000), &mut m) {
        Pulled::Late => {}
        _ => panic!("a minute late"),
    }
    assert_eq!(m.late_drops, 1);
}

#[test]
fn durations_follow_the_rate() {
    assert_eq!(packet_duration_ms(&packet(0, 0)), ms(2));
    assert_eq!(frames_to_millis(480, 48_000), ms(10));
    let c = PlayChunk {
        samples: vec![0u32; 960],
        channels: 2,
        sample_rate: 48_000,
        play_at_ms: 0,
        channel_ids: Vec::new(),
    };
    assert_eq!(c.duration_ms(), 10);
}

fn resolved(id: u64, server: u32) -> ResolvedSource {
    ResolvedSource {
        entry: CatalogEntry {
            source_id: id,
            name: "Radio".to_string(),
            source_type: "pipe".to_string(),
            group: [239, 255, 1, 2],
            sample_rate: 44_100,
            channels: 2,
            format: WireFormat::S16Le,
            lead_ms: 250,
        },
        server_id: 1,
        server_ip: server,
        sync_port: 5005,
    }
}

#[test]
fn selection_moves_the_stack() {
    let mut w = SelectionWatcher::new();
    let mut net = NetworkSource::new();
    let mut settings = ClientSettings::new();
    let mut target = SyncTarget::new();
    let mut clock = SyncedClock::new(0);
    let mut m = DeviceMetrics::new();
    let first = Some(resolved(7, 0x0a00_0001));
    assert_eq!(w.group_to_join(&first), Some(0xefff_0102));
    let left = w.step(
        7,
        &first,
        &mut net,
        &mut settings,
        &mut target,
        &mut clock,
        &mut m,
        10,
    );
    assert_eq!(left, None);
    assert_eq!(net.active_source_id, 7);
    assert_eq!(target.get(), Some((0x0a00_0001, 5005)));
    assert_eq!(settings.active_lead_ms(), 250);
    assert_eq!((m.sample_rate, m.channels), (44_100, 2));
    assert_eq!(w.group_to_join(&first), None);
    // Nothing selected: all of it is let go.
    let left = w.step(
        0,
        &None,
        &mut net,
        &mut settings,
        &mut target,
        &mut clock,
        &mut m,
        20,
    );
    assert_eq!(left, Some(0xefff_0102));
    assert_eq!(net.active_source_id, 0);
    assert_eq!(target.get(), None);
}

#[test]
fn pcm_is_put_together_across_reads() {
    let mut a = PcmAssembler::new();
    assert_eq!(a.push(&vec![0x01]), Vec::<u32>::new());
    assert_eq!(a.push(&vec![0x02, 0x03]), vec![0x0201]);
    assert_eq!(a.push(&vec![0x04, 0x05, 0x06]), vec![0x0403, 0x0605]);
    let mut whole = PcmAssembler::new();
    assert_eq!(whole.push(&vec![1, 2, 3, 4, 5, 6]), vec![0x0201, 0x0403, 0x0605]);
}

#[test]
fn capture_devices_and_arguments() {
    let sink = PulseKind::Sink { sink_name: "cast".to_string() };
    assert_eq!(capture_device(&sink), "cast.monitor");
    let mic = PulseKind::Source { device: None };
    assert_eq!(capture_device(&mic), "");
    let plain = record_args(&mic, Format { channels: 1, sample_rate: 16_000 });
    assert!(!plain.iter().any(|a| a.starts_with("--device")));
    let named = PulseKind::Source { device: Some("usb".to_string()) };
    assert_eq!(capture_device(&named), "usb");
    let args = record_args(&sink, Format { channels: 2, sample_rate: 48_000 });
    assert!(args.contains(&"--rate=48000".to_string()));
    assert!(args.contains(&"--channels=2".to_string()));
    assert!(args.iter().any(|a| a == "--device=cast.monitor"));
}

#[test]
fn sinks_are_found_in_a_listing() {
    let listing = "1\talsa\tmodule\n7\tcast\tmodule-null-sink.c\ts16le\n";
    assert!(sink_listed(listing, "cast"));
    assert!(!sink_listed(listing, "module-null-sink.c"));
    assert!(!sink_listed("", "cast"));
    assert_eq!(sink_to_load(listing, "cast"), None);
    assert_eq!(
        sink_to_load("", "cast").unwrap(),
        vec![
            "load-module",
            "module-null-sink",
            "sink_name=cast",
            "sink_properties=device.description=cast"
        ]
    );
    assert_eq!(module_id("42\n"), Some("42".to_string()));
    assert_eq!(module_id(" \n"), None);
}

#[test]
fn packets_are_paced_to_realtime() {
    assert_eq!(receiver_format(), Format { channels: 2, sample_rate: 44_100 });
    let mut p = Pacer::new();
    // The first goes out at once; 441 frames play for 10 ms.
    assert_eq!(p.pace(1_000, 882), 0);
    assert_eq!(p.next_deadline, Some(10_001_000));
    assert_eq!(p.pace(4_001_000, 882), 6_000_000);
    assert_eq!(p.next_deadline, Some(20_001_000));
    // Nothing to play, nothing to wait for.
    assert_eq!(p.pace(4_001_000, 0), 0);
    // Fallen behind: no burst to catch up.
    assert_eq!(p.pace(500_000_000, 882), 0);
    assert_eq!(p.next_deadline, Some(510_000_000));
    p.reset();
    assert_eq!(p.pace(1, 2), 0);
}

#[test]
fn blocks_are_dropped_when_the_queue_is_deep() {
    assert!(takes_block(1, MAX_QUEUED_BUFFERS));
    assert!(!takes_block(1, MAX_QUEUED_BUFFERS + 1));
    assert!(!takes_block(0, 0));
}
