//! The synchronised clock, client settings and listeners.
use rustcast::sync::{
    copy_map, respond, ClientSettings, Listeners, SyncClient, SyncStep, SyncTarget, SyncedClock,
    IDLE_POLL_MS, LISTENER_TTL, SAMPLE_WINDOW, STEADY_INTERVAL_MS, WARMUP_INTERVAL_MS,
    WARMUP_SAMPLES,
};
use rustcast::units::{Millis, Volume, FLICKS_PER_MS, FULL_VOLUME};
use rustcast::wire::{ControlCommand, TimeRequest, TimeResponse, MAX_DELAY_MS};

fn ms(n: i128) -> Millis {
    Millis { flicks: n * FLICKS_PER_MS }
}

fn warm(offset: i128) -> SyncedClock {
    let mut clock = SyncedClock::new(1000);
    for _ in 0..WARMUP_SAMPLES {
        clock.add_sample(ms(offset), ms(4), 1000);
    }
    clock
}

#[test]
fn clock_waits_for_the_warmup() {
    let mut clock = SyncedClock::new(1000);
    for i in 0..WARMUP_SAMPLES {
        assert!(!clock.is_initialized());
        assert_eq!(clock.sample_count(), i);
        clock.add_sample(ms(50), ms(4), 1000);
    }
    assert!(clock.is_initialized());
    assert_eq!(clock.server_now_ms(1000), ms(1050));
}

#[test]
fn lowest_round_trip_wins() {
    let mut clock = SyncedClock::new(0);
    clock.add_sample(ms(90), ms(30), 0);
    clock.add_sample(ms(10), ms(2), 0);
    clock.add_sample(ms(70), ms(9), 0);
    clock.add_sample(ms(11), ms(2), 0);
    let s = clock.stats();
    assert_eq!(s.target_offset_ms, ms(10));
    assert_eq!(s.best_rtt_ms, ms(2));
    assert_eq!(s.last_offset_ms, ms(11));
    assert_eq!(s.last_rtt_ms, ms(2));
    assert_eq!(s.samples, 4);
    assert_eq!(s.applied_offset_ms, ms(0));
}

#[test]
fn window_forgets_the_oldest() {
    let mut clock = SyncedClock::new(0);
    clock.add_sample(ms(10), ms(1), 0);
    for _ in 0..SAMPLE_WINDOW {
        clock.add_sample(ms(20), ms(5), 0);
    }
    assert_eq!(clock.sample_count(), SAMPLE_WINDOW);
    assert_eq!(clock.stats().target_offset_ms, ms(20));
}

#[test]
fn offset_slews_by_half_a_percent() {
    let mut clock = warm(0);
    clock.add_sample(ms(10), ms(1), 1000);
    // 100 ms later at most half a millisecond is made up.
    let r = clock.server_now_ms(1100);
    assert_eq!(r.flicks, 1100 * FLICKS_PER_MS + FLICKS_PER_MS / 2);
    // In two calls or in one, the same way is made.
    let mut other = warm(0);
    other.add_sample(ms(10), ms(1), 1000);
    let _ = other.server_now_ms(1040);
    assert_eq!(other.server_now_ms(1100), r);
    // It stops at the target.
    assert_eq!(clock.server_now_ms(100_000), ms(100_010));
    // A clock that went back moves nothing.
    assert_eq!(clock.server_now_ms(50_000), ms(50_010));
}

#[test]
fn reset_forgets_the_server() {
    let mut clock = warm(30);
    clock.reset(2000);
    assert!(!clock.is_initialized());
    assert_eq!(clock.sample_count(), 0);
    assert_eq!(clock.server_now_ms(2000), ms(2000));
}

#[test]
fn empty_clock_has_blank_stats() {
    let s = SyncedClock::new(5).stats();
    assert_eq!(s.samples, 0);
    assert_eq!(s.best_rtt_ms, ms(0));
    assert_eq!(s.last_offset_ms, ms(0));
}

#[test]
fn sync_idles_without_a_target() {
    let mut client = SyncClient::new();
    let mut clock = SyncedClock::new(0);
    let settings = ClientSettings::new();
    match client.begin(&SyncTarget::new(), &mut clock, &settings, 10) {
        SyncStep::Idle { sleep_ms } => assert_eq!(sleep_ms, IDLE_POLL_MS),
        SyncStep::Ask { .. } => panic!("there is no one to ask"),
    }
}

#[test]
fn sync_asks_and_takes_the_answer() {
    let mut client = SyncClient::new();
    let mut clock = SyncedClock::new(0);
    let mut settings = ClientSettings::new();
    settings.set_selection(77);
    settings.set_channel_map(vec![1, 0]);
    let mut target = SyncTarget::new();
    target.set(0x0a00_0001, 5005);
    let request = match client.begin(&target, &mut clock, &settings, 1000) {
        SyncStep::Ask { ip, port, request } => {
            assert_eq!((ip, port), (0x0a00_0001, 5005));
            request
        }
        SyncStep::Idle { .. } => panic!("there is a target"),
    };
    assert_eq!(request.client_send_ms, 1000);
    assert_eq!(request.selected_source_id, 77);
    assert_eq!(request.channel_map, vec![1, 0]);
    // Asked at 1000, answered with 5000, back at 1010: the server was at 5000
    // half way, so it runs 3995 ms ahead, and the round trip took 10 ms.
    let resp = TimeResponse { client_send_ms: 1000, server_ms: 5000, nonce: request.nonce };
    let stats = client.on_reply(&mut clock, &resp, 1000, 1010).unwrap();
    assert_eq!(stats.last_offset_ms, ms(3995));
    assert_eq!(stats.last_rtt_ms, ms(10));
    // An answer to another question is dropped.
    let stray = TimeResponse { client_send_ms: 1000, server_ms: 1, nonce: request.nonce + 9 };
    assert!(client.on_reply(&mut clock, &stray, 1000, 1010).is_none());
    assert_eq!(clock.sample_count(), 1);
}

#[test]
fn half_milliseconds_are_kept() {
    let client = SyncClient::new();
    let mut clock = SyncedClock::new(0);
    let resp = TimeResponse { client_send_ms: 1000, server_ms: 1001, nonce: client.nonce };
    let stats = client.on_reply(&mut clock, &resp, 1000, 1001).unwrap();
    assert_eq!(stats.last_offset_ms.flicks, FLICKS_PER_MS / 2);
}

#[test]
fn lopsided_paths_cost_half_the_round_trip() {
    // The server truly runs 100 ms ahead; the request and the answer take turns
    // at using up the whole round trip of 8 ms.
    for (there, offset) in [(0, 96), (4, 100), (8, 104)] {
        let client = SyncClient::new();
        let mut clock = SyncedClock::new(0);
        let server_ms = 1000 + there + 100;
        let resp = TimeResponse { client_send_ms: 1000, server_ms, nonce: client.nonce };
        let stats = client.on_reply(&mut clock, &resp, 1000, 1008).unwrap();
        assert_eq!(stats.last_offset_ms, ms(offset));
        assert_eq!(stats.last_rtt_ms, ms(8));
    }
}

#[test]
fn a_new_server_resets_the_clock() {
    let mut client = SyncClient::new();
    let mut clock = warm(10);
    let settings = ClientSettings::new();
    let mut target = SyncTarget::new();
    target.set(1, 5005);
    let _ = client.begin(&target, &mut clock, &settings, 2000);
    for _ in 0..WARMUP_SAMPLES {
        clock.add_sample(ms(10), ms(4), 2000);
    }
    let _ = client.begin(&target, &mut clock, &settings, 2000);
    assert!(clock.is_initialized());
    target.set(2, 5005);
    let _ = client.begin(&target, &mut clock, &settings, 2000);
    assert!(!clock.is_initialized());
}

#[test]
fn sync_slows_down_after_the_warmup() {
    assert_eq!(SyncClient::interval(&SyncedClock::new(0)), WARMUP_INTERVAL_MS);
    assert_eq!(SyncClient::interval(&warm(0)), STEADY_INTERVAL_MS);
}

#[test]
fn sync_target_is_set_and_cleared() {
    let mut t = SyncTarget::new();
    assert_eq!(t.get(), None);
    t.set(7, 9);
    assert_eq!(t.get(), Some((7, 9)));
    t.clear();
    assert_eq!(t.get(), None);
}

fn command(source: Option<u64>, units: Option<i64>, delay: Option<u32>) -> ControlCommand {
    ControlCommand {
        target_ip: [1, 2, 3, 4],
        cmd_id: 1,
        set_source_id: source,
        set_volume: units.map(|units| Volume { units }),
        set_delay_ms: delay,
        set_channel_map: None,
    }
}

#[test]
fn settings_are_clamped() {
    let mut s = ClientSettings::new();
    s.apply_command(&command(None, Some(FULL_VOLUME * 3), Some(5000)));
    assert_eq!(s.report_values(), (0, Volume { units: FULL_VOLUME }, MAX_DELAY_MS));
    s.apply_command(&command(None, Some(-5), None));
    assert_eq!(s.report_values().1, Volume { units: 0 });
}

#[test]
fn repeated_commands_change_nothing_more() {
    let mut s = ClientSettings::new();
    let cmd = command(Some(9), Some(FULL_VOLUME / 4), Some(20));
    s.apply_command(&cmd);
    let _ = s.take_volume_update();
    let (id, epoch, changed) = s.selection_since(0);
    assert_eq!((id, changed), (9, true));
    s.apply_command(&cmd);
    // The selection stays and the volume is not pushed again.
    assert_eq!(s.selection_since(epoch), (9, epoch, false));
    assert_eq!(s.delay_ms(), 20);
}

#[test]
fn an_empty_command_keeps_all() {
    let mut s = ClientSettings::new();
    s.set_selection(3);
    s.set_delay(40);
    s.set_volume(Volume { units: FULL_VOLUME / 2 });
    s.set_active_lead(300);
    s.apply_command(&command(None, None, None));
    assert_eq!(s.report_values(), (3, Volume { units: FULL_VOLUME / 2 }, 40));
    assert_eq!(s.active_lead_ms(), 300);
}

#[test]
fn maps_copy() {
    assert_eq!(copy_map(&vec![3, -1, 2]), vec![3, -1, 2]);
}

#[test]
fn listeners_expire() {
    let mut l = Listeners::new();
    l.touch(1, 10, vec![0], 0);
    l.touch(1, 11, Vec::new(), LISTENER_TTL);
    l.touch(2, 12, Vec::new(), 0);
    assert_eq!(l.listeners(1, LISTENER_TTL - 1), vec![10, 11]);
    assert_eq!(l.listeners(1, LISTENER_TTL), vec![11]);
    assert!(!l.has_listener(3, 0));
    assert!(l.has_listener(1, LISTENER_TTL + 1));
    // Pruning one source leaves the others as they were.
    assert_eq!(l.listeners(2, LISTENER_TTL - 1), vec![12]);
}

#[test]
fn listeners_are_touched_in_place() {
    let mut l = Listeners::new();
    l.touch(1, 10, vec![0], 0);
    l.touch(1, 10, vec![1, 0], 5);
    assert_eq!(l.targets(1, 5), vec![(10, vec![1, 0])]);
}

#[test]
fn respond_stamps_and_registers() {
    let mut l = Listeners::new();
    let req = TimeRequest {
        client_send_ms: 12,
        nonce: 34,
        selected_source_id: 5,
        channel_map: vec![0, 1],
    };
    let r = respond(&mut l, &req, Some(0x0a00_0002), 100, 999);
    assert_eq!(r, TimeResponse { client_send_ms: 12, server_ms: 999, nonce: 34 });
    assert_eq!(l.targets(5, 100), vec![(0x0a00_0002, vec![0, 1])]);
    // A client that plays nothing is answered but is no listener.
    let idle = TimeRequest { selected_source_id: 0, ..req };
    let _ = respond(&mut l, &idle, Some(0x0a00_0003), 100, 999);
    assert_eq!(l.listeners(0, 100), Vec::<u32>::new());
}

#[test]
fn the_estimate_advances_evenly() {
    let mut clock = warm(0);
    clock.add_sample(ms(-500), ms(1), 1000);
    // The server's clock is far behind, yet the estimate only runs half a percent
    // slow, and never backwards.
    let a = clock.server_now_ms(2000);
    let b = clock.server_now_ms(3000);
    assert_eq!((b.flicks - a.flicks) * 200, 1000 * FLICKS_PER_MS * 199);
}
