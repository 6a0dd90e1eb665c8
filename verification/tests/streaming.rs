//! Cutting, stamping, repeating and addressing packets.
use rustcast::client::remap_channels;
use rustcast::metrics::ServerMetrics;
use rustcast::stream::{
    all_quiet, dests, needed_channels, select_channels, Packetizer, RetransmitQueue,
    ScheduledCopy, SendParams, SendState, StreamShape, IDLE_WAIT_MS, MAX_COPIES,
    REANCHOR_TOLERANCE_MS, SILENCE_HOLD_MS,
};
use rustcast::sync::Listeners;
use rustcast::wire::{WireFormat, AUDIO_PORT, MAX_LEAD_MS};

fn shape() -> StreamShape {
    StreamShape {
        source_id: 9,
        group: 0xefff_0001,
        format: WireFormat::S16Le,
        channels: 2,
        sample_rate: 48_000,
    }
}

#[test]
fn send_params_are_bounded() {
    let p = SendParams::new(10_000, 99, 5_000, false);
    assert_eq!(p.lead(), MAX_LEAD_MS);
    assert_eq!(p.redundancy(), MAX_COPIES);
    assert!(p.last_lead() <= p.lead());
    let mut q = SendParams::new(200, 0, 60, true);
    assert_eq!(q.redundancy(), 1);
    assert!(q.unicast());
    q.set_lead(100_000);
    assert_eq!(q.lead(), MAX_LEAD_MS);
    q.set_redundancy(3);
    assert_eq!(q.redundancy(), 3);
    q.set_last_lead(50);
    assert_eq!(q.last_lead(), 50);
    q.set_unicast(false);
    assert!(!q.unicast());
}

#[test]
fn reanchor_is_taken_once() {
    let mut p = SendParams::new(200, 1, 60, false);
    assert!(!p.take_reanchor());
    p.request_reanchor();
    assert!(p.take_reanchor());
    assert!(!p.take_reanchor());
}

#[test]
fn needed_channels_name_the_sources_once() {
    assert_eq!(needed_channels(&[], 2), None);
    assert_eq!(needed_channels(&[0, 1], 2), None);
    assert_eq!(needed_channels(&[2, 0, 2, -1, 7], 4), Some(vec![0, 2]));
    // All silence: the whole stream is sent.
    assert_eq!(needed_channels(&[-1], 2), None);
}

#[test]
fn selected_channels_keep_the_frames() {
    let full = [1, 2, 3, 4, 5, 6];
    assert_eq!(select_channels(&full, 3, &[2, 0], 0), vec![3, 1, 6, 4]);
    assert_eq!(select_channels(&full, 3, &[9], 0), vec![0, 0]);
}

#[test]
fn multicast_goes_to_the_group() {
    let p = SendParams::new(200, 1, 60, false);
    let mut l = Listeners::new();
    l.touch(9, 5, vec![0], 0);
    let d = dests(&p, 0xefff_0001, 9, &mut l, 2, 0);
    assert_eq!(d.len(), 1);
    assert_eq!((d[0].ip, d[0].port), (0xefff_0001, AUDIO_PORT));
    assert_eq!(d[0].subset, None);
}

#[test]
fn unicast_goes_to_each_listener() {
    let p = SendParams::new(200, 1, 60, true);
    let mut l = Listeners::new();
    l.touch(9, 5, vec![1], 0);
    l.touch(9, 6, Vec::new(), 0);
    let d = dests(&p, 0xefff_0001, 9, &mut l, 2, 0);
    assert_eq!(d.len(), 2);
    assert_eq!((d[0].ip, d[0].port, d[0].subset.clone()), (5, AUDIO_PORT, Some(vec![1])));
    assert_eq!((d[1].ip, d[1].subset.clone()), (6, None));
}

#[test]
fn packets_hold_about_a_kilobyte() {
    assert_eq!(shape().frames_per_packet(), 256);
    assert_eq!(shape().samples_per_packet(), 512);
    let wide = StreamShape { channels: 1000, ..shape() };
    assert_eq!(wide.frames_per_packet(), 1);
}

#[test]
fn packetizer_cuts_evenly() {
    let mut p: Packetizer<u32> = Packetizer::new();
    p.push(&vec![1, 2, 3]);
    assert_eq!(p.next_packet(4), None);
    p.push(&vec![4, 5]);
    assert_eq!(p.next_packet(4), Some(vec![1, 2, 3, 4]));
    assert_eq!(p.next_packet(4), None);
    assert_eq!(p.pending, vec![5]);
}

#[test]
fn quiet_is_one_step() {
    // Either zero, and one 16-bit step either way.
    assert!(all_quiet(&vec![0.0f32.to_bits(), (-0.0f32).to_bits()]));
    let step = 1.0f32 / 32768.0;
    assert!(all_quiet(&vec![step.to_bits(), (-step).to_bits()]));
    assert!(!all_quiet(&vec![0, (step * 1.5).to_bits()]));
    assert!(!all_quiet(&vec![f32::NAN.to_bits()]));
    assert!(all_quiet(&Vec::new()));
}

#[test]
fn packets_are_stamped_by_the_sample_clock() {
    let mut s = SendState::new(10_000);
    let mut params = SendParams::new(200, 1, 60, false);
    let mut metrics = ServerMetrics::new();
    let mut l = Listeners::new();
    l.touch(9, 5, Vec::new(), 0);
    assert!(s.has_room(48_000, 10_000));
    let slot = s.begin(&shape(), &mut params, &mut metrics, 10_000);
    assert_eq!(slot.play_at_ms, slot.send_at_ms + 200);
    let words = vec![1u32; 512];
    let e = s.finish(&shape(), &slot, &words, false, &params, &mut l, 0, &mut metrics, 3);
    assert_eq!(e.packets.len(), 1);
    assert_eq!(e.packets[0].seq, 0);
    assert_eq!(e.packets[0].play_at_ms, slot.play_at_ms);
    assert_eq!(e.packets[0].data.len(), 1024);
    assert_eq!(e.packets[0].channels, 2);
    assert_eq!(e.sends.len(), 1);
    assert!(e.copies_at.is_empty());
    assert_eq!(metrics.packets_sent, 1);
    assert_eq!(metrics.frames_sent, 256);
    assert_eq!(metrics.pending_len, 3);
    // 3 packets later, 768 frames or 16 ms have gone by.
    for _ in 0..2 {
        let slot = s.begin(&shape(), &mut params, &mut metrics, 10_000);
        let _ = s.finish(&shape(), &slot, &words, false, &params, &mut l, 0, &mut metrics, 0);
    }
    let later = s.begin(&shape(), &mut params, &mut metrics, 10_000);
    assert_eq!(later.play_at_ms, slot.play_at_ms + 16);
}

#[test]
fn a_stalled_stream_is_anchored_anew() {
    let mut s = SendState::new(10_000);
    let mut params = SendParams::new(200, 1, 60, false);
    let mut metrics = ServerMetrics::new();
    let on_time = s.begin(&shape(), &mut params, &mut metrics, 10_000);
    assert_eq!(metrics.reanchors, 0);
    // Far behind: the timeline moves up to now.
    let behind = s.begin(&shape(), &mut params, &mut metrics, 20_000);
    assert_eq!(metrics.reanchors, 1);
    assert!(behind.play_at_ms >= on_time.play_at_ms + 10_000 - REANCHOR_TOLERANCE_MS);
    // On request too.
    params.request_reanchor();
    let _ = s.begin(&shape(), &mut params, &mut metrics, 20_000);
    assert_eq!(metrics.reanchors, 2);
    assert!(!params.take_reanchor());
}

#[test]
fn copies_are_spread_over_the_lead() {
    let mut s = SendState::new(10_000);
    let mut params = SendParams::new(300, 3, 60, false);
    let mut metrics = ServerMetrics::new();
    let mut l = Listeners::new();
    l.touch(9, 5, Vec::new(), 0);
    let slot = s.begin(&shape(), &mut params, &mut metrics, 10_000);
    let words = vec![1u32; 512];
    let e = s.finish(&shape(), &slot, &words, false, &params, &mut l, 0, &mut metrics, 0);
    // From 300 ms down to 60 ms ahead in even steps of 120 ms.
    assert_eq!(e.copies_at, vec![slot.send_at_ms + 120, slot.send_at_ms + 240]);
    // The packet and its two copies are on the wire, its frames count once.
    assert_eq!(metrics.packets_sent, 3);
    assert_eq!(metrics.frames_sent, 256);
}

#[test]
fn one_chunk_gives_the_words_and_the_silence() {
    let mut s = SendState::new(10_000);
    let mut params = SendParams::new(200, 1, 60, false);
    let mut metrics = ServerMetrics::new();
    let mut l = Listeners::new();
    l.touch(9, 5, Vec::new(), 0);
    let loud = vec![0.5f32.to_bits(); 512];
    let slot = s.begin(&shape(), &mut params, &mut metrics, 10_000);
    let e = s.emit(&shape(), &slot, &loud, &params, &mut l, 0, &mut metrics, 1);
    assert_eq!(e.packets.len(), 1);
    assert_eq!(e.packets[0].data, shape().format.encode(&vec![16_383; 512]));
    assert!(metrics.has_audio);
    assert_eq!((s.seq, s.silent_frames), (1, 0));
    // One 16-bit step is silence, whatever its word.
    let quiet = vec![(1.0f32 / 32768.0).to_bits(); 512];
    let packets = (SILENCE_HOLD_MS * 48) / 256 + 2;
    let mut last = 1;
    for _ in 0..packets {
        let slot = s.begin(&shape(), &mut params, &mut metrics, 10_000);
        let e = s.emit(&shape(), &slot, &quiet, &params, &mut l, 0, &mut metrics, 1);
        last = e.packets.len();
    }
    assert_eq!(last, 0);
    assert!(!metrics.has_audio);
    let slot = s.begin(&shape(), &mut params, &mut metrics, 10_000);
    let e = s.emit(&shape(), &slot, &loud, &params, &mut l, 0, &mut metrics, 1);
    assert_eq!(e.sends.len(), 1);
}

#[test]
fn long_silence_is_not_sent() {
    let mut s = SendState::new(10_000);
    let mut params = SendParams::new(200, 1, 60, false);
    let mut metrics = ServerMetrics::new();
    let mut l = Listeners::new();
    l.touch(9, 5, Vec::new(), 0);
    let words = vec![0u32; 512];
    let packets = (SILENCE_HOLD_MS * 48) / 256 + 2;
    let mut last = 1;
    for _ in 0..packets {
        let slot = s.begin(&shape(), &mut params, &mut metrics, 10_000);
        let e = s.finish(&shape(), &slot, &words, true, &params, &mut l, 0, &mut metrics, 0);
        last = e.sends.len();
    }
    assert_eq!(last, 0);
    assert!(!metrics.has_audio);
    // The first sound ends it.
    let slot = s.begin(&shape(), &mut params, &mut metrics, 10_000);
    let loud = vec![5u32; 512];
    let e = s.finish(&shape(), &slot, &loud, false, &params, &mut l, 0, &mut metrics, 0);
    assert_eq!(e.sends.len(), 1);
    assert!(metrics.has_audio);
}

#[test]
fn unicast_subsets_share_packets() {
    let mut s = SendState::new(10_000);
    let mut params = SendParams::new(200, 1, 60, true);
    let mut metrics = ServerMetrics::new();
    let mut l = Listeners::new();
    l.touch(9, 5, vec![1], 0);
    l.touch(9, 6, vec![1, -1], 0);
    l.touch(9, 7, Vec::new(), 0);
    let slot = s.begin(&shape(), &mut params, &mut metrics, 10_000);
    let words: Vec<u32> = (0..512).collect();
    let e = s.finish(&shape(), &slot, &words, false, &params, &mut l, 0, &mut metrics, 0);
    assert_eq!(e.sends.len(), 3);
    assert_eq!(e.packets.len(), 2);
    assert_eq!(e.sends[0].packet, e.sends[1].packet);
    let right = &e.packets[e.sends[0].packet];
    assert_eq!(right.channel_ids, vec![1]);
    assert_eq!(right.channels, 1);
    assert_eq!(right.data[0..4], [1, 0, 3, 0]);
    let all = &e.packets[e.sends[2].packet];
    assert_eq!(all.channels, 2);
    assert_eq!(all.data[0..4], [0, 0, 1, 0]);
}

#[test]
fn copies_leave_in_order_when_due() {
    let mut q: RetransmitQueue<char> = RetransmitQueue::new();
    assert_eq!(q.wait_ms(0), IDLE_WAIT_MS);
    q.push(ScheduledCopy { at: 30, ip: 1, port: 2, payload: 'c' });
    q.push(ScheduledCopy { at: 10, ip: 1, port: 2, payload: 'a' });
    q.push(ScheduledCopy { at: 20, ip: 1, port: 2, payload: 'b' });
    assert!(q.pop_due(9).is_none());
    assert_eq!(q.wait_ms(4), 6);
    assert_eq!(q.pop_due(20).unwrap().payload, 'a');
    assert_eq!(q.pop_due(20).unwrap().payload, 'b');
    assert!(q.pop_due(20).is_none());
    assert_eq!(q.pop_due(31).unwrap().payload, 'c');
}

#[test]
fn unheard_sources_send_nothing() {
    let mut s = SendState::new(10_000);
    let mut params = SendParams::new(200, 2, 60, false);
    let mut metrics = ServerMetrics::new();
    let mut l = Listeners::new();
    let slot = s.begin(&shape(), &mut params, &mut metrics, 10_000);
    let words = vec![1u32; 512];
    let e = s.finish(&shape(), &slot, &words, false, &params, &mut l, 0, &mut metrics, 0);
    assert!(e.packets.is_empty() && e.sends.is_empty() && e.copies_at.is_empty());
    assert_eq!(metrics.packets_sent, 0);
    // The sequence holds still, so the stream resumes gap-free; time goes on.
    assert_eq!(s.seq, 0);
    assert_eq!(s.total_frames, 256);
}

#[test]
fn a_subset_plays_like_the_whole_stream() {
    let full: Vec<u32> = (0..12).collect();
    let map: [i16; 4] = [3, -1, 1, 3];
    let ids = needed_channels(&map, 4).unwrap();
    assert_eq!(ids, vec![1, 3]);
    let part = select_channels(&full, 4, &ids, 0);
    assert_eq!(
        remap_channels(&part, ids.len(), 4, &map, &ids, 0),
        remap_channels(&full, 4, 4, &map, &[], 0)
    );
}
