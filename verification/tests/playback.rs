//! Placing chunks in the output queue and routing channels.
use rustcast::client::{
    device_identity, handle_control, local_device_id, parse_mac, primary_mac, remap_channels,
    schedule_chunk, Placement, PlayStep, Player, LATE_LEEWAY, MAX_SLEEP, TARGET_PLAY_QUEUE,
};
use rustcast::metrics::DeviceMetrics;
use rustcast::source::network::PlayChunk;
use rustcast::sync::ClientSettings;
use rustcast::units::{Millis, Volume, FLICKS_PER_MS, FULL_VOLUME};
use rustcast::wire::ControlCommand;

fn flicks(ms: f64) -> Millis {
    Millis { flicks: (ms * FLICKS_PER_MS as f64).round() as i128 }
}

fn ms(m: Millis) -> f64 {
    m.flicks as f64 / FLICKS_PER_MS as f64
}

fn target_play_queue_ms() -> f64 {
    ms(Millis { flicks: TARGET_PLAY_QUEUE })
}

fn max_sleep_ms() -> f64 {
    ms(Millis { flicks: MAX_SLEEP })
}

fn sched(now: f64, target: f64, dur: f64, qe: Option<f64>) -> Placement {
    schedule_chunk(flicks(now), flicks(target), flicks(dur), qe.map(flicks))
}

fn remap(samples: &[f32], src_ch: usize, out_ch: usize, map: &[i16], ids: &[u16]) -> Vec<f32> {
    remap_channels(samples, src_ch, out_ch, map, ids, 0.0f32)
}

#[test]
fn empty_queue_waits_until_target() {
    // Nothing queued: hold the chunk until its target time, then start.
    let p = sched(1000.0, 1200.0, 20.0, None);
    assert_eq!(ms(p.wait_ms), 200.0);
    assert!(!p.drop && ms(p.crop_ms) == 0.0);
    assert_eq!(ms(p.start_ms), 1200.0);
    assert_eq!(ms(p.new_queue_end), 1220.0);
}

#[test]
fn steady_state_paces_to_cushion() {
    // Queue ends right at the target (chunk plays on time). We should wait
    // only until the queue has drained to the cushion, and it plays at `qe`.
    let target = 5000.0;
    let qe = 5000.0;
    let now = 4900.0; // queue is 100ms deep, cushion is 60ms
    let p = sched(now, target, 20.0, Some(qe));
    assert_eq!(ms(p.wait_ms), qe - target_play_queue_ms() - now); // 40ms: drain 100 to 60
    assert_eq!(ms(p.crop_ms), 0.0);
    assert_eq!(ms(p.start_ms), qe);
    assert_eq!(ms(p.new_queue_end), qe + 20.0);
}

#[test]
fn queue_below_cushion_appends_immediately() {
    // Queue shallower than the cushion: no wait, build it up; still on time.
    let p = sched(4990.0, 5000.0, 20.0, Some(5000.0)); // 10ms queued
    assert_eq!(ms(p.wait_ms), 0.0);
    assert_eq!(ms(p.start_ms), 5000.0);
    assert_eq!(ms(p.new_queue_end), 5020.0);
}

#[test]
fn late_queue_crops_front() {
    // Delay was lowered slightly: target is 5000 but the queue still ends at
    // 5010 (10ms too deep). Crop 10ms off the front so the tail lands on time;
    // the survivor (meant for 5010) plays at 5010 and the queue-end advances
    // to target + dur.
    let p = sched(4980.0, 5000.0, 40.0, Some(5010.0));
    assert!(!p.drop);
    assert!((ms(p.crop_ms) - 10.0).abs() < 1e-9);
    assert_eq!(ms(p.start_ms), 5010.0);
    assert_eq!(ms(p.new_queue_end), 5010.0 + (40.0 - 10.0)); // = 5040 = target + dur
}

#[test]
fn wholly_late_chunk_dropped() {
    // Queue ends 40ms past the target and the chunk is only 20ms long: every
    // sample is behind the queue's play position, so drop it entirely.
    let p = sched(4980.0, 5000.0, 20.0, Some(5040.0));
    assert!(p.drop);
    assert_eq!(ms(p.crop_ms), 0.0);
}

#[test]
fn gap_restarts_at_target() {
    // Queued audio ends well before the target (a gap / delay was raised):
    // wait out the gap and restart exactly at the target.
    let p = sched(4900.0, 5200.0, 20.0, Some(4950.0));
    assert_eq!(ms(p.wait_ms), 300.0); // wait to target, queue underruns meanwhile
    assert_eq!(ms(p.start_ms), 5200.0);
    assert_eq!(ms(p.new_queue_end), 5220.0);
}

#[test]
fn sleep_is_capped() {
    let p = sched(0.0, 100_000.0, 20.0, None);
    assert_eq!(ms(p.wait_ms), max_sleep_ms());
}

#[test]
fn late_chunk_on_empty_queue_starts_at_once() {
    // 10 ms late, 20 ms long: the past half is cropped, the rest starts now.
    let p = sched(1010.0, 1000.0, 20.0, None);
    assert_eq!(ms(p.wait_ms), 0.0);
    assert_eq!(ms(p.crop_ms), 10.0);
    assert_eq!(ms(p.start_ms), 1010.0);
    assert_eq!(ms(p.new_queue_end), 1020.0);
}

#[test]
fn leeway_is_on_time() {
    let p = schedule_chunk(
        Millis { flicks: LATE_LEEWAY },
        Millis { flicks: 0 },
        flicks(20.0),
        None,
    );
    assert!(!p.drop);
    assert_eq!(p.crop_ms.flicks, 0);
    let q = schedule_chunk(
        Millis { flicks: LATE_LEEWAY + 1 },
        Millis { flicks: 0 },
        flicks(20.0),
        None,
    );
    assert_eq!(q.crop_ms.flicks, LATE_LEEWAY + 1);
}

#[test]
fn clients_with_different_queues_play_in_step() {
    // Four clients take the same 40 ms chunk with target 5000, each with its own
    // queue; the sample 30 ms into the chunk plays at 5030 on every one of them.
    for (now, queue_end) in
        [(4900.0, None), (4980.0, Some(5010.0)), (4950.0, Some(5000.0)), (5020.0, None)]
    {
        let p = sched(now, 5000.0, 40.0, queue_end);
        assert!(!p.drop);
        assert_eq!(ms(p.start_ms) + 30.0 - ms(p.crop_ms), 5030.0);
    }
}

#[test]
fn identity_map_passes_through() {
    let s = [1.0, 2.0, 3.0, 4.0]; // 2 frames stereo
    assert_eq!(remap(&s, 2, 2, &[], &[]), s);
}

#[test]
fn swap_and_silence() {
    let s = [1.0, 2.0, 3.0, 4.0];
    assert_eq!(remap(&s, 2, 2, &[1, -1], &[]), [2.0, 0.0, 4.0, 0.0]);
}

#[test]
fn mono_upmixed_to_stereo() {
    let s = [1.0, 2.0, 3.0]; // 3 frames mono
    assert_eq!(remap(&s, 1, 2, &[0, 0], &[]), [1.0, 1.0, 2.0, 2.0, 3.0, 3.0]);
}

#[test]
fn out_of_range_index_is_silent() {
    let s = [1.0, 2.0]; // 1 frame stereo
    assert_eq!(remap(&s, 2, 2, &[5, 0], &[]), [0.0, 1.0]);
}

#[test]
fn downmix_to_fewer_outputs() {
    let s = [1.0, 2.0, 3.0, 4.0]; // 2 frames stereo
    assert_eq!(remap(&s, 2, 1, &[1], &[]), [2.0, 4.0]);
}

#[test]
fn subset_stream_routed_by_source_index() {
    // A unicast subset packet carrying source channels 2 then 0 (physical
    // order), for a client mapping output0 from src0, output1 from src2.
    let s = [10.0, 100.0]; // 1 frame: [src2, src0]
    let ids = [2u16, 0];
    assert_eq!(remap(&s, 2, 2, &[0, 2], &ids), [100.0, 10.0]);
}

#[test]
fn subset_missing_source_is_silent() {
    // Only source channel 0 was sent; an output wanting src1 gets silence.
    let s = [5.0]; // 1 frame, 1 present channel (src0)
    let ids = [0u16];
    assert_eq!(remap(&s, 1, 2, &[0, 1], &ids), [5.0, 0.0]);
}

fn chunk(samples: Vec<u32>, play_at_ms: u64) -> PlayChunk<u32> {
    PlayChunk { samples, channels: 1, sample_rate: 1000, play_at_ms, channel_ids: Vec::new() }
}

#[test]
fn player_places_a_chunk_and_counts_it() {
    let mut player = Player::new();
    let mut metrics = DeviceMetrics::new();
    let none: Vec<i16> = Vec::new();
    // 20 ms of audio stamped 100 ms ahead, of which 50 ms are the delay.
    let c = chunk((0..20).collect(), 1100);
    let step = player.place(c, 0, flicks(1000.0), 50, 1, &none, 0, &mut metrics);
    match step {
        PlayStep::Append { sleep_ms, samples } => {
            assert_eq!(sleep_ms, 50);
            assert_eq!(samples, (0..20).collect::<Vec<u32>>());
        }
        _ => panic!("the chunk is on time"),
    }
    assert_eq!(metrics.blocks_appended, 1);
    assert_eq!(metrics.samples_appended, 20);
    assert_eq!(player.queue_end, Some(flicks(1070.0)));
    assert_eq!(ms(metrics.source_delay_ms), 50.0);
}

#[test]
fn player_crops_a_late_chunk() {
    let mut player = Player::new();
    let mut metrics = DeviceMetrics::new();
    let none: Vec<i16> = Vec::new();
    let c = chunk((0..20).collect(), 1000);
    match player.place(c, 0, flicks(1005.0), 0, 1, &none, 0, &mut metrics) {
        PlayStep::Append { sleep_ms, samples } => {
            assert_eq!(sleep_ms, 0);
            assert_eq!(samples, (5..20).collect::<Vec<u32>>());
        }
        _ => panic!("three quarters of the chunk are left"),
    }
    assert_eq!(metrics.late_drops, 1);
}

#[test]
fn player_drops_a_chunk_that_is_past() {
    let mut player = Player::new();
    let mut metrics = DeviceMetrics::new();
    let none: Vec<i16> = Vec::new();
    let c = chunk((0..20).collect(), 1000);
    let step = player.place(c, 0, flicks(2000.0), 0, 1, &none, 0, &mut metrics);
    assert!(matches!(step, PlayStep::Late { .. }));
    assert_eq!(metrics.late_drops, 1);
    assert_eq!(metrics.blocks_appended, 0);
}

#[test]
fn player_routes_channels() {
    let mut player = Player::new();
    let mut metrics = DeviceMetrics::new();
    let map: Vec<i16> = vec![1, -1];
    let c = PlayChunk {
        samples: vec![1u32, 2, 3, 4],
        channels: 2,
        sample_rate: 1000,
        play_at_ms: 1000,
        channel_ids: Vec::new(),
    };
    match player.place(c, 0, flicks(1000.0), 0, 2, &map, 0, &mut metrics) {
        PlayStep::Append { samples, .. } => assert_eq!(samples, vec![2, 0, 4, 0]),
        _ => panic!("the chunk is on time"),
    }
}

#[test]
fn drained_queue_is_an_underrun() {
    let mut player = Player::new();
    let mut metrics = DeviceMetrics::new();
    let none: Vec<i16> = Vec::new();
    // A queue that was never fed has not run dry.
    let first = chunk((0..20).collect(), 1000);
    let _ = player.place(first, 0, flicks(1000.0), 0, 1, &none, 0, &mut metrics);
    assert_eq!(metrics.underruns, 0);
    let second = chunk((0..20).collect(), 1020);
    let _ = player.place(second, 1, flicks(1000.0), 0, 1, &none, 0, &mut metrics);
    assert_eq!(metrics.underruns, 0);
    assert_eq!(player.queue_end, Some(flicks(1040.0)));
    let third = chunk((0..20).collect(), 1100);
    let _ = player.place(third, 0, flicks(1050.0), 0, 1, &none, 0, &mut metrics);
    assert_eq!(metrics.underruns, 1);
    player.idle(&mut metrics);
    assert_eq!(player.queue_end, None);
    assert_eq!(metrics.output_queue_len, 0);
}

#[test]
fn mac_addresses_parse() {
    assert_eq!(parse_mac("aa:bb:cc:dd:ee:0f"), Some([0xaa, 0xbb, 0xcc, 0xdd, 0xee, 0x0f]));
    assert_eq!(parse_mac("aa:bb:cc:dd:ee"), None);
    assert_eq!(parse_mac("aa:bb:cc:dd:ee:zz"), None);
}

#[test]
fn primary_mac_takes_the_first_real_interface() {
    let ifaces = vec![
        ("wlan0".to_string(), "02:00:00:00:00:02\n".to_string()),
        ("lo".to_string(), "00:00:00:00:00:00".to_string()),
        ("eth0".to_string(), "02:00:00:00:00:01\n".to_string()),
    ];
    assert_eq!(primary_mac(&ifaces, "box"), [2, 0, 0, 0, 0, 1]);
    // No interface has an address: one is made up, marked as locally
    // administered and not multicast, and the same for the same host.
    let none: Vec<(String, String)> = Vec::new();
    let made = primary_mac(&none, "box");
    assert_eq!(made[0] & 0x03, 0x02);
    assert_eq!(made, primary_mac(&none, "box"));
    assert_ne!(made, primary_mac(&none, "other"));
}

#[test]
fn device_identity_defaults_to_the_mac() {
    let mac = [0xaa, 0xbb, 0xcc, 0x00, 0x01, 0x02];
    assert_eq!(device_identity(None, mac), "aa:bb:cc:00:01:02");
    assert_eq!(device_identity(Some("kitchen".to_string()), mac), "kitchen");
}

#[test]
fn local_device_ids_are_told_apart_by_host() {
    assert_eq!(local_device_id("box"), local_device_id("box"));
    assert_ne!(local_device_id("box"), local_device_id("other"));
}

#[test]
fn control_reaches_only_its_target() {
    let mut settings = ClientSettings::new();
    let cmd = ControlCommand {
        target_ip: [192, 168, 1, 7],
        cmd_id: 1,
        set_source_id: Some(42),
        set_volume: Some(Volume { units: FULL_VOLUME / 2 }),
        set_delay_ms: Some(80),
        set_channel_map: Some(vec![1, 0]),
    };
    assert!(!handle_control(&mut settings, &cmd, 0xc0a8_0108));
    assert_eq!(settings.selected(), 0);
    assert!(handle_control(&mut settings, &cmd, 0xc0a8_0107));
    assert_eq!(settings.selected(), 42);
    assert_eq!(settings.delay_ms(), 80);
    assert_eq!(settings.channel_map(), vec![1, 0]);
    assert_eq!(settings.take_volume_update(), Some(Volume { units: FULL_VOLUME / 2 }));
    assert_eq!(settings.take_volume_update(), None);
}
