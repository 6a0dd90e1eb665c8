//! Live telemetry. Client devices measure their own buffers and sample flow into
//! [`DeviceMetrics`] and stream periodic [`TelemetryReport`]s over TCP to every
//! server they know; each server records its per-source send path in
//! [`ServerMetrics`] and keeps a short history in a [`TelemetryStore`] that the
//! web UI subscribes to.
//!
//! Counters are cumulative since process start and wrap; gauges are the
//! instantaneous value at snapshot time.
//!
//! Source ids are 64-bit and are shown to the UI as *text*, because they exceed
//! the safe-integer range of JavaScript (2^53).
use vstd::prelude::*;

use crate::assoc;
use crate::assoc::{Assoc, Dated};
use crate::lists;
use crate::order;
use crate::order::order_named;
use crate::sync::{copy_map, ClientSettings, SyncStats};
use crate::text;
use crate::text::u64_text;
use crate::units::{Millis, Volume, FLICKS_PER_MS, MAX_FLICKS};
use crate::wire::{SourceStat, StatsBroadcast, TelemetryReport};

verus! {

/// Retained history per source: ~60 s at the client's 10 Hz report rate.
pub const HISTORY_LEN: usize = 600;

/// Forget a client's history if it stops reporting for this long (60 s).
pub const STALE_MS: u64 = 60_000;

/// A client is "connected" if a report arrived within this window (5 s).
pub const CONNECTED_MS: u64 = 5_000;

/// Cap on a single framed telemetry report, to reject junk on the TCP stream.
pub const MAX_REPORT_BYTES: usize = 65536;

/// How often a server broadcasts its send-path stats to other servers.
pub const STATS_BROADCAST_MS: u64 = 250;

// The client side.

/// Client-side metrics, written from the playback loop and the network receiver
/// and read by the telemetry sender.
#[derive(Debug, Clone, Copy, PartialEq, Eq, Structural)]
pub struct DeviceMetrics {
    pub blocks_appended: u64,
    pub samples_appended: u64,
    pub packets_received: u64,
    pub overrun_drops: u64,
    pub late_drops: u64,
    pub lost_packets: u64,
    pub underruns: u64,
    pub output_queue_len: u32,
    pub jitter_buffer_len: u32,
    pub sample_rate: u32,
    pub channels: u16,
    /// Channels on the local output device (fixed at startup).
    pub output_channels: u16,
    /// Duration of one packet of the stream.
    pub packet_ms: Millis,
    /// How far playback runs behind the packets' timestamps.
    pub source_delay_ms: Millis,
    pub clock_offset: Millis,
    pub clock_target: Millis,
    pub last_offset: Millis,
    pub last_rtt: Millis,
    pub rtt: Millis,
    pub sync_samples: u32,
}

impl DeviceMetrics {
    pub open spec fn spec_new() -> DeviceMetrics {
        let zero = Millis { flicks: 0 };
        DeviceMetrics {
            blocks_appended: 0,
            samples_appended: 0,
            packets_received: 0,
            overrun_drops: 0,
            late_drops: 0,
            lost_packets: 0,
            underruns: 0,
            output_queue_len: 0,
            jitter_buffer_len: 0,
            sample_rate: 0,
            channels: 0,
            output_channels: 0,
            packet_ms: zero,
            source_delay_ms: zero,
            clock_offset: zero,
            clock_target: zero,
            last_offset: zero,
            last_rtt: zero,
            rtt: zero,
            sync_samples: 0,
        }
    }

    pub fn new() -> (r: Self)
        ensures
            r == Self::spec_new(),
    {
        let zero: Millis = Millis { flicks: 0 };
        DeviceMetrics {
            blocks_appended: 0,
            samples_appended: 0,
            packets_received: 0,
            overrun_drops: 0,
            late_drops: 0,
            lost_packets: 0,
            underruns: 0,
            output_queue_len: 0,
            jitter_buffer_len: 0,
            sample_rate: 0,
            channels: 0,
            output_channels: 0,
            packet_ms: zero,
            source_delay_ms: zero,
            clock_offset: zero,
            clock_target: zero,
            last_offset: zero,
            last_rtt: zero,
            rtt: zero,
            sync_samples: 0,
        }
    }

    /// Record the current stream format, so reports can carry it (lets the UI
    /// convert buffer depths to milliseconds). Updated on every source switch.
    pub fn set_format(&mut self, sample_rate: u32, channels: u16)
        ensures
            *final(self) == (DeviceMetrics { sample_rate, channels, ..*old(self) }),
    {
        self.sample_rate = sample_rate;
        self.channels = channels;
    }

    /// Record the output device's channel count (set once at startup).
    pub fn set_output_channels(&mut self, channels: u16)
        ensures
            *final(self) == (DeviceMetrics { output_channels: channels, ..*old(self) }),
    {
        self.output_channels = channels;
    }

    /// The output device's channel count, for building the default channel map.
    pub fn output_channels(&self) -> (r: u16)
        ensures
            r == self.output_channels,
    {
        self.output_channels
    }

    /// Record the duration of one packet, so the UI can show buffer depths in ms.
    pub fn set_packet_ms(&mut self, ms: Millis)
        ensures
            *final(self) == (DeviceMetrics { packet_ms: ms, ..*old(self) }),
    {
        self.packet_ms = ms;
    }

    /// Record how far behind its timestamp a chunk's first sample plays.
    pub fn set_source_delay(&mut self, ms: Millis)
        ensures
            *final(self) == (DeviceMetrics { source_delay_ms: ms, ..*old(self) }),
    {
        self.source_delay_ms = ms;
    }

    pub open spec fn appended(self, samples: usize) -> DeviceMetrics {
        DeviceMetrics {
            blocks_appended: self.blocks_appended.wrapping_add(1),
            samples_appended: self.samples_appended.wrapping_add(samples as u64),
            ..self
        }
    }

    /// One block of `samples` interleaved values handed to the player.
    pub fn record_append(&mut self, samples: usize)
        ensures
            *final(self) == old(self).appended(samples),
    {
        self.blocks_appended = self.blocks_appended.wrapping_add(1);
        self.samples_appended = self.samples_appended.wrapping_add(samples as u64);
    }

    pub fn record_packet_received(&mut self)
        ensures
            *final(self) == (DeviceMetrics {
                packets_received: old(self).packets_received.wrapping_add(1),
                ..*old(self)
            }),
    {
        self.packets_received = self.packets_received.wrapping_add(1);
    }

    pub fn record_overrun_drop(&mut self)
        ensures
            *final(self) == (DeviceMetrics {
                overrun_drops: old(self).overrun_drops.wrapping_add(1),
                ..*old(self)
            }),
    {
        self.overrun_drops = self.overrun_drops.wrapping_add(1);
    }

    pub fn record_late_drop(&mut self)
        ensures
            *final(self) == (DeviceMetrics {
                late_drops: old(self).late_drops.wrapping_add(1),
                ..*old(self)
            }),
    {
        self.late_drops = self.late_drops.wrapping_add(1);
    }

    /// `n` packets declared lost (a seq-gap skipped by the jitter timeout).
    pub fn record_lost(&mut self, n: u64)
        ensures
            *final(self) == (DeviceMetrics {
                lost_packets: old(self).lost_packets.wrapping_add(n),
                ..*old(self)
            }),
    {
        self.lost_packets = self.lost_packets.wrapping_add(n);
    }

    pub fn record_underrun(&mut self)
        ensures
            *final(self) == (DeviceMetrics {
                underruns: old(self).underruns.wrapping_add(1),
                ..*old(self)
            }),
    {
        self.underruns = self.underruns.wrapping_add(1);
    }

    pub fn set_output_queue_len(&mut self, n: usize)
        ensures
            *final(self) == (DeviceMetrics { output_queue_len: n as u32, ..*old(self) }),
    {
        self.output_queue_len = n as u32;
    }

    pub fn set_jitter_buffer_len(&mut self, n: usize)
        ensures
            *final(self) == (DeviceMetrics { jitter_buffer_len: n as u32, ..*old(self) }),
    {
        self.jitter_buffer_len = n as u32;
    }

    /// Current jitter-buffer depth in packets (for the combined-budget cap).
    pub fn jitter_buffer_len(&self) -> (r: u32)
        ensures
            r == self.jitter_buffer_len,
    {
        self.jitter_buffer_len
    }

    /// Record the latest clock-sync state (offsets/RTT, sample count).
    pub fn record_sync(&mut self, s: &SyncStats)
        ensures
            *final(self) == (DeviceMetrics {
                clock_offset: s.applied_offset_ms,
                clock_target: s.target_offset_ms,
                last_offset: s.last_offset_ms,
                last_rtt: s.last_rtt_ms,
                rtt: s.best_rtt_ms,
                sync_samples: s.samples as u32,
                ..*old(self)
            }),
    {
        self.clock_offset = s.applied_offset_ms;
        self.clock_target = s.target_offset_ms;
        self.last_offset = s.last_offset_ms;
        self.last_rtt = s.last_rtt_ms;
        self.rtt = s.best_rtt_ms;
        self.sync_samples = s.samples as u32;
    }

    /// Whether a report carries these values.
    pub open spec fn reported_by(self, r: TelemetryReport) -> bool {
        &&& r.sample_rate == self.sample_rate
        &&& r.channels == self.channels
        &&& r.output_channels == self.output_channels
        &&& r.blocks_appended == self.blocks_appended
        &&& r.samples_appended == self.samples_appended
        &&& r.packets_received == self.packets_received
        &&& r.overrun_drops == self.overrun_drops
        &&& r.late_drops == self.late_drops
        &&& r.lost_packets == self.lost_packets
        &&& r.underruns == self.underruns
        &&& r.output_queue_len == self.output_queue_len
        &&& r.jitter_buffer_len == self.jitter_buffer_len
        &&& r.clock_offset_ms == self.clock_offset
        &&& r.clock_target_offset_ms == self.clock_target
        &&& r.last_offset_ms == self.last_offset
        &&& r.last_rtt_ms == self.last_rtt
        &&& r.rtt_ms == self.rtt
        &&& r.sync_samples == self.sync_samples
    }

    /// A wire snapshot of all current values, stamped with the local clock. The
    /// client-owned settings fields (selected source / volume / delay) are left
    /// at defaults here and filled in by [`telemetry_report`].
    pub fn snapshot(&self, now_ms: u64) -> (r: TelemetryReport)
        ensures
            self.reported_by(r),
            r.sent_ms == now_ms,
            r.device_id@ == Seq::<char>::empty(),
            r.mac@ == seq![0u8, 0, 0, 0, 0, 0],
            r.hostname@ == Seq::<char>::empty(),
            r.selected_source_id == 0,
            r.volume.units == 0,
            r.delay_ms == 0,
            r.channel_map@ == Seq::<i16>::empty(),
    {
        let r: TelemetryReport = TelemetryReport {
            sent_ms: now_ms,
            device_id: String::new(),
            mac: [0, 0, 0, 0, 0, 0],
            hostname: String::new(),
            sample_rate: self.sample_rate,
            channels: self.channels,
            output_channels: self.output_channels,
            selected_source_id: 0,
            volume: Volume { units: 0 },
            delay_ms: 0,
            channel_map: Vec::new(),
            blocks_appended: self.blocks_appended,
            samples_appended: self.samples_appended,
            packets_received: self.packets_received,
            overrun_drops: self.overrun_drops,
            late_drops: self.late_drops,
            lost_packets: self.lost_packets,
            underruns: self.underruns,
            output_queue_len: self.output_queue_len,
            jitter_buffer_len: self.jitter_buffer_len,
            clock_offset_ms: self.clock_offset,
            clock_target_offset_ms: self.clock_target,
            last_offset_ms: self.last_offset,
            last_rtt_ms: self.last_rtt,
            rtt_ms: self.rtt,
            sync_samples: self.sync_samples,
        };
        proof {
            assert(r.mac@ =~= seq![0u8, 0, 0, 0, 0, 0]);
        }
        r
    }
}

/// The report that a client sends: its metrics, its own settings, and who it is.
pub fn telemetry_report(
    metrics: &DeviceMetrics,
    settings: &ClientSettings,
    device_id: &String,
    mac: [u8; 6],
    hostname: &String,
    now_ms: u64,
) -> (r: TelemetryReport)
    ensures
        metrics.reported_by(r),
        r.sent_ms == now_ms,
        r.device_id@ == device_id@,
        r.mac@ == mac@,
        r.hostname@ == hostname@,
        r.selected_source_id == settings@.selected,
        r.volume == settings@.volume,
        r.delay_ms == settings@.delay_ms,
        r.channel_map@ == settings@.channel_map,
{
    let mut report: TelemetryReport = metrics.snapshot(now_ms);
    let (sel, vol, delay) = settings.report_values();
    report.selected_source_id = sel;
    report.volume = vol;
    report.delay_ms = delay;
    report.channel_map = settings.channel_map();
    report.device_id = device_id.clone();
    report.mac = mac;
    report.hostname = hostname.clone();
    report
}

/// Four bytes of a length, the most significant first.
pub open spec fn length_prefix(n: u32) -> Seq<u8> {
    seq![
        (n / 0x100_0000) as u8,
        (n / 0x1_0000 % 0x100) as u8,
        (n / 0x100 % 0x100) as u8,
        (n % 0x100) as u8,
    ]
}

/// Frame a report for the length-prefixed TCP telemetry stream.
pub fn frame(bytes: &Vec<u8>) -> (out: Vec<u8>)
    ensures
        out@ == length_prefix(bytes@.len() as u32) + bytes@,
{
    let n: u32 = bytes.len() as u32;
    let mut out: Vec<u8> = Vec::new();
    out.push((n / 0x100_0000) as u8);
    out.push((n / 0x1_0000 % 0x100) as u8);
    out.push((n / 0x100 % 0x100) as u8);
    out.push((n % 0x100) as u8);
    proof {
        assert(out@ =~= length_prefix(n));
    }
    let mut i: usize = 0;
    while i < bytes.len()
        invariant
            i <= bytes@.len(),
            n == bytes@.len() as u32,
            out@ == length_prefix(n) + bytes@.take(i as int),
        decreases bytes@.len() - i,
    {
        out.push(bytes[i]);
        i = i + 1;
        proof {
            assert(out@ =~= length_prefix(n) + bytes@.take(i as int));
        }
    }
    proof {
        assert(bytes@.take(i as int) =~= bytes@);
    }
    out
}

/// The length that a frame's first four bytes announce, unless it is junk.
pub open spec fn announced_len(head: Seq<u8>) -> Option<int> {
    let n = head[0] * 0x100_0000 + head[1] * 0x1_0000 + head[2] * 0x100 + head[3];
    if n == 0 || n > MAX_REPORT_BYTES {
        None
    } else {
        Some(n)
    }
}

/// How many bytes follow a frame's head; `None` where the head is junk and the
/// stream must be given up.
pub fn frame_len(head: &[u8; 4]) -> (r: Option<usize>)
    ensures
        match r {
            Some(n) => announced_len(head@) == Some(n as int),
            None => announced_len(head@) is None,
        },
{
    let n: u64 = head[0] as u64 * 0x100_0000 + head[1] as u64 * 0x1_0000 + head[2] as u64 * 0x100
        + head[3] as u64;
    if n == 0 || n > MAX_REPORT_BYTES as u64 {
        None
    } else {
        Some(n as usize)
    }
}

/// The head of a frame announces exactly the bytes that follow it, for every
/// report that is not empty and not too long.
pub proof fn frame_announces_its_bytes(bytes: Seq<u8>)
    requires
        0 < bytes.len() <= MAX_REPORT_BYTES,
    ensures
        ({
            let framed = length_prefix(bytes.len() as u32) + bytes;
            &&& announced_len(framed.take(4)) == Some(bytes.len() as int)
            &&& framed.skip(4) == bytes
        }),
{
    let n = bytes.len() as u32;
    let framed = length_prefix(n) + bytes;
    assert(framed.take(4) =~= length_prefix(n));
    assert(framed.skip(4) =~= bytes);
    let p = length_prefix(n);
    assert(p[0] == n / 0x100_0000 && p[1] == n / 0x1_0000 % 0x100 && p[2] == n / 0x100 % 0x100
        && p[3] == n % 0x100);
}

/// The connected servers that have vanished from the catalog.
pub fn vanished(connected: &Vec<u32>, servers: &Vec<u32>) -> (out: Vec<u32>)
    ensures
        out@ == connected@.filter(|ip: u32| !servers@.contains(ip)),
{
    let ghost gone = |ip: u32| !servers@.contains(ip);
    let mut out: Vec<u32> = Vec::new();
    let mut i: usize = 0;
    proof {
        lists::lemma_filter_none(connected@, gone);
    }
    while i < connected.len()
        invariant
            i <= connected@.len(),
            gone == (|ip: u32| !servers@.contains(ip)),
            out@ == connected@.take(i as int).filter(gone),
        decreases connected@.len() - i,
    {
        proof {
            lists::lemma_filter_step(connected@, i as int, gone);
        }
        if !holds(servers, connected[i]) {
            out.push(connected[i]);
        }
        i = i + 1;
    }
    proof {
        assert(connected@.take(i as int) =~= connected@);
    }
    out
}

/// Whether the list holds the address.
pub fn holds(list: &Vec<u32>, ip: u32) -> (r: bool)
    ensures
        r == list@.contains(ip),
{
    let mut i: usize = 0;
    while i < list.len()
        invariant
            i <= list@.len(),
            forall|j: int| 0 <= j < i ==> list@[j] != ip,
        decreases list@.len() - i,
    {
        if list[i] == ip {
            return true;
        }
        i = i + 1;
    }
    false
}

// The server side.

/// Server-side send-path metrics for one source, written by that source's send
/// loop and sampled into the telemetry store for the UI.
#[derive(Debug, Clone, Copy, PartialEq, Eq, Structural)]
pub struct ServerMetrics {
    pub packets_sent: u64,
    pub frames_sent: u64,
    pub reanchors: u64,
    pub pending_len: u32,
    pub sample_rate: u32,
    pub channels: u16,
    pub lead_ms: u32,
    /// Whether the source is producing anything but silence.
    pub has_audio: bool,
}

impl ServerMetrics {
    pub open spec fn spec_new() -> ServerMetrics {
        ServerMetrics {
            packets_sent: 0,
            frames_sent: 0,
            reanchors: 0,
            pending_len: 0,
            sample_rate: 0,
            channels: 0,
            lead_ms: 0,
            has_audio: false,
        }
    }

    pub fn new() -> (r: Self)
        ensures
            r == Self::spec_new(),
    {
        ServerMetrics {
            packets_sent: 0,
            frames_sent: 0,
            reanchors: 0,
            pending_len: 0,
            sample_rate: 0,
            channels: 0,
            lead_ms: 0,
            has_audio: false,
        }
    }

    /// Record the fixed stream parameters, surfaced to the UI for context.
    pub fn set_static(&mut self, sample_rate: u32, channels: u16, lead_ms: u32)
        ensures
            *final(self) == (ServerMetrics { sample_rate, channels, lead_ms, ..*old(self) }),
    {
        self.sample_rate = sample_rate;
        self.channels = channels;
        self.lead_ms = lead_ms;
    }

    pub open spec fn packet_sent(self, frames: u64) -> ServerMetrics {
        ServerMetrics {
            packets_sent: self.packets_sent.wrapping_add(1),
            frames_sent: self.frames_sent.wrapping_add(frames),
            ..self
        }
    }

    /// One packet of `frames` frames put on the wire.
    pub fn record_packet_sent(&mut self, frames: u64)
        ensures
            *final(self) == old(self).packet_sent(frames),
    {
        self.packets_sent = self.packets_sent.wrapping_add(1);
        self.frames_sent = self.frames_sent.wrapping_add(frames);
    }

    pub open spec fn copy_sent(self) -> ServerMetrics {
        ServerMetrics { packets_sent: self.packets_sent.wrapping_add(1), ..self }
    }

    /// A redundant *copy* of an already-counted packet: bumps the wire packet
    /// count only (its frames are not new audio).
    pub fn record_copy_sent(&mut self)
        ensures
            *final(self) == old(self).copy_sent(),
    {
        self.packets_sent = self.packets_sent.wrapping_add(1);
    }

    /// The counters after `n` copies.
    pub open spec fn copies_sent(self, n: int) -> ServerMetrics
        decreases n,
    {
        if n <= 0 {
            self
        } else {
            self.copies_sent(n - 1).copy_sent()
        }
    }

    /// So many copies to each of so many destinations.
    pub fn record_copies_sent(&mut self, dests: usize, copies: usize)
        ensures
            *final(self) == old(self).copies_sent(dests * copies),
    {
        let mut i: usize = 0;
        proof {
            assert(0int * copies == 0) by (nonlinear_arith);
        }
        while i < dests
            invariant
                i <= dests,
                *self == old(self).copies_sent(i * copies),
            decreases dests - i,
        {
            let mut k: usize = 0;
            while k < copies
                invariant
                    k <= copies,
                    i < dests,
                    *self == old(self).copies_sent(i * copies + k),
                decreases copies - k,
            {
                proof {
                    assert(0 <= i * copies) by (nonlinear_arith)
                        requires
                            0 <= i,
                            0 <= copies,
                    ;
                }
                self.record_copy_sent();
                k = k + 1;
            }
            proof {
                assert((i + 1) * copies == i * copies + copies) by (nonlinear_arith);
            }
            i = i + 1;
        }
    }

    pub open spec fn reanchored(self) -> ServerMetrics {
        ServerMetrics { reanchors: self.reanchors.wrapping_add(1), ..self }
    }

    /// The timeline was re-anchored (source fell behind / paused / gap).
    pub fn record_reanchor(&mut self)
        ensures
            *final(self) == old(self).reanchored(),
    {
        self.reanchors = self.reanchors.wrapping_add(1);
    }

    pub fn set_pending_len(&mut self, n: usize)
        ensures
            *final(self) == (ServerMetrics { pending_len: n as u32, ..*old(self) }),
    {
        self.pending_len = n as u32;
    }

    pub fn set_has_audio(&mut self, on: bool)
        ensures
            *final(self) == (ServerMetrics { has_audio: on, ..*old(self) }),
    {
        self.has_audio = on;
    }

    pub open spec fn sampled(self, now_ms: u64) -> ServerSample {
        ServerSample {
            t: now_ms,
            packets_sent: self.packets_sent,
            frames_sent: self.frames_sent,
            reanchors: self.reanchors,
            pending_len: self.pending_len,
        }
    }

    /// A timestamped sample of the current values, for the history ring.
    pub fn snapshot(&self, now_ms: u64) -> (r: ServerSample)
        ensures
            r == self.sampled(now_ms),
    {
        ServerSample {
            t: now_ms,
            packets_sent: self.packets_sent,
            frames_sent: self.frames_sent,
            reanchors: self.reanchors,
            pending_len: self.pending_len,
        }
    }

    pub fn sample_rate(&self) -> (r: u32)
        ensures
            r == self.sample_rate,
    {
        self.sample_rate
    }

    pub fn channels(&self) -> (r: u16)
        ensures
            r == self.channels,
    {
        self.channels
    }

    pub fn lead_ms(&self) -> (r: u32)
        ensures
            r == self.lead_ms,
    {
        self.lead_ms
    }
}

/// One timestamped client telemetry sample kept in the server's history ring.
/// `t` is the time on the server's clock, the graph's shared x-axis.
#[derive(Debug, Clone, Copy, PartialEq, Eq, Structural)]
pub struct ClientSample {
    pub t: u64,
    pub blocks_appended: u64,
    pub samples_appended: u64,
    pub packets_received: u64,
    pub overrun_drops: u64,
    pub late_drops: u64,
    pub lost_packets: u64,
    pub underruns: u64,
    pub output_queue_len: u32,
    pub jitter_buffer_len: u32,
    pub clock_offset_ms: Millis,
    pub clock_target_offset_ms: Millis,
    pub last_offset_ms: Millis,
    pub last_rtt_ms: Millis,
    pub rtt_ms: Millis,
    pub sync_samples: u32,
}

/// One timestamped server send-path sample.
#[derive(Debug, Clone, Copy, PartialEq, Eq, Structural)]
pub struct ServerSample {
    pub t: u64,
    pub packets_sent: u64,
    pub frames_sent: u64,
    pub reanchors: u64,
    pub pending_len: u32,
}

/// A client's recent telemetry and its latest state.
pub struct ClientHistory {
    pub samples: Vec<ClientSample>,
    pub sample_rate: u32,
    pub channels: u16,
    pub output_channels: u16,
    pub last_report_ms: u64,
    /// Highest client-clock send time seen, to drop out-of-order/duplicate
    /// reports.
    pub last_sent_ms: u64,
    /// Current source IP of the client (for targeting control commands).
    pub ip: u32,
    /// Device hostname reported by the client (the default display name).
    pub hostname: String,
    // Latest reported client-owned settings, for the client list.
    pub volume: Volume,
    pub delay_ms: u32,
    pub selected_source_id: u64,
    pub channel_map: Vec<i16>,
}

/// What is known of a client.
#[verifier::ext_equal]
pub struct HistoryView {
    pub samples: Seq<ClientSample>,
    pub sample_rate: u32,
    pub channels: u16,
    pub output_channels: u16,
    pub last_report_ms: u64,
    pub last_sent_ms: u64,
    pub ip: u32,
    pub hostname: Seq<char>,
    pub volume: Volume,
    pub delay_ms: u32,
    pub selected_source_id: u64,
    pub channel_map: Seq<i16>,
}

impl View for ClientHistory {
    type V = HistoryView;

    open spec fn view(&self) -> HistoryView {
        HistoryView {
            samples: self.samples@,
            sample_rate: self.sample_rate,
            channels: self.channels,
            output_channels: self.output_channels,
            last_report_ms: self.last_report_ms,
            last_sent_ms: self.last_sent_ms,
            ip: self.ip,
            hostname: self.hostname@,
            volume: self.volume,
            delay_ms: self.delay_ms,
            selected_source_id: self.selected_source_id,
            channel_map: self.channel_map@,
        }
    }
}

impl Dated for ClientHistory {
    open spec fn date(v: HistoryView) -> u64 {
        v.last_report_ms
    }

    fn dated(&self) -> (r: u64) {
        self.last_report_ms
    }
}

/// The samples with one more, the oldest left off beyond [`HISTORY_LEN`].
pub open spec fn ring_with<T>(samples: Seq<T>, s: T) -> Seq<T> {
    let all = samples.push(s);
    if all.len() > HISTORY_LEN {
        all.drop_first()
    } else {
        all
    }
}

/// Adds a sample to a history ring.
fn push_ring<T>(samples: &mut Vec<T>, s: T)
    requires
        old(samples)@.len() <= HISTORY_LEN,
    ensures
        final(samples)@ == ring_with(old(samples)@, s),
        final(samples)@.len() <= HISTORY_LEN,
{
    let ghost before = samples@;
    samples.push(s);
    if samples.len() > HISTORY_LEN {
        let _ = samples.remove(0);
    }
    proof {
        assert(samples@ =~= ring_with(before, s));
    }
}

/// The client's send time on the server's clock, in milliseconds.
pub open spec fn display_time(sent_ms: u64, offset: Millis) -> u64 {
    let t = Millis::spec_whole(sent_ms as int) + offset.flicks;
    if t < 0 {
        0
    } else if t / (FLICKS_PER_MS as int) > u64::MAX {
        u64::MAX
    } else {
        (t / (FLICKS_PER_MS as int)) as u64
    }
}

/// Plot each sample at the client's *send* time, mapped onto the server clock via
/// the reported offset. The client sends at an even rate, so this spaces samples
/// evenly regardless of delivery jitter.
fn display_ms(sent_ms: u64, offset: Millis) -> (t: u64)
    ensures
        t == display_time(sent_ms, offset),
{
    if offset.flicks > MAX_FLICKS {
        return u64::MAX;
    }
    if offset.flicks < -MAX_FLICKS {
        return 0;
    }
    let t: i128 = Millis::whole(sent_ms).flicks + offset.flicks;
    if t < 0 {
        return 0;
    }
    let ms: i128 = t / FLICKS_PER_MS;
    if ms > u64::MAX as i128 {
        u64::MAX
    } else {
        ms as u64
    }
}

/// The history sample that a report makes.
pub open spec fn sample_of(report: TelemetryReport) -> ClientSample {
    ClientSample {
        t: display_time(report.sent_ms, report.clock_offset_ms),
        blocks_appended: report.blocks_appended,
        samples_appended: report.samples_appended,
        packets_received: report.packets_received,
        overrun_drops: report.overrun_drops,
        late_drops: report.late_drops,
        lost_packets: report.lost_packets,
        underruns: report.underruns,
        output_queue_len: report.output_queue_len,
        jitter_buffer_len: report.jitter_buffer_len,
        clock_offset_ms: report.clock_offset_ms,
        clock_target_offset_ms: report.clock_target_offset_ms,
        last_offset_ms: report.last_offset_ms,
        last_rtt_ms: report.last_rtt_ms,
        rtt_ms: report.rtt_ms,
        sync_samples: report.sync_samples,
    }
}

/// The history of a client not heard of before.
pub open spec fn first_history(ip: u32, report: TelemetryReport, recv_ms: u64) -> HistoryView {
    HistoryView {
        samples: Seq::empty(),
        sample_rate: report.sample_rate,
        channels: report.channels,
        output_channels: report.output_channels,
        last_report_ms: recv_ms,
        last_sent_ms: 0,
        ip,
        hostname: report.hostname@,
        volume: report.volume,
        delay_ms: report.delay_ms,
        selected_source_id: report.selected_source_id,
        channel_map: report.channel_map@,
    }
}

/// The history after a report: a reordered or repeated one changes nothing.
pub open spec fn absorbed(
    h: HistoryView,
    ip: u32,
    report: TelemetryReport,
    recv_ms: u64,
) -> HistoryView {
    if report.sent_ms <= h.last_sent_ms {
        h
    } else {
        HistoryView {
            samples: ring_with(h.samples, sample_of(report)),
            last_sent_ms: report.sent_ms,
            ..first_history(ip, report, recv_ms)
        }
    }
}

impl ClientHistory {
    /// Take in a report. Reordered/duplicate ones are dropped so the graph x-axis
    /// stays monotonic.
    fn absorb(&mut self, ip: u32, report: &TelemetryReport, recv_ms: u64)
        requires
            old(self).samples@.len() <= HISTORY_LEN,
        ensures
            final(self)@ == absorbed(old(self)@, ip, *report, recv_ms),
            final(self).samples@.len() <= HISTORY_LEN,
    {
        if report.sent_ms <= self.last_sent_ms {
            return;
        }
        self.last_sent_ms = report.sent_ms;
        self.sample_rate = report.sample_rate;
        self.channels = report.channels;
        self.output_channels = report.output_channels;
        self.last_report_ms = recv_ms;
        self.ip = ip;
        self.hostname = report.hostname.clone();
        self.volume = report.volume;
        self.delay_ms = report.delay_ms;
        self.selected_source_id = report.selected_source_id;
        self.channel_map = copy_map(&report.channel_map);
        push_ring(
            &mut self.samples,
            ClientSample {
                t: display_ms(report.sent_ms, report.clock_offset_ms),
                blocks_appended: report.blocks_appended,
                samples_appended: report.samples_appended,
                packets_received: report.packets_received,
                overrun_drops: report.overrun_drops,
                late_drops: report.late_drops,
                lost_packets: report.lost_packets,
                underruns: report.underruns,
                output_queue_len: report.output_queue_len,
                jitter_buffer_len: report.jitter_buffer_len,
                clock_offset_ms: report.clock_offset_ms,
                clock_target_offset_ms: report.clock_target_offset_ms,
                last_offset_ms: report.last_offset_ms,
                last_rtt_ms: report.last_rtt_ms,
                rtt_ms: report.rtt_ms,
                sync_samples: report.sync_samples,
            },
        );
    }
}

/// Per-device stats emitted to the UI: the recent history window plus context.
/// Keyed by device id so the UI can match it to the client list.
#[derive(Debug, Clone)]
pub struct ClientStats {
    pub id: String,
    pub sample_rate: u32,
    pub channels: u16,
    /// Milliseconds since the last report.
    pub ms_ago: u64,
    pub samples: Vec<ClientSample>,
}

/// One server source's send-path stats (one UI "server" card per source).
#[derive(Debug, Clone)]
pub struct ServerSourceStats {
    /// Source id as a text (see the module's note on the JavaScript range).
    pub source_id: String,
    pub name: String,
    pub sample_rate: u32,
    pub channels: u16,
    pub lead_ms: u32,
    /// Redundant copies per packet and the last-copy lead (send-timing sliders).
    /// Meaningful for local sources; 0 for remote (not controllable from here).
    pub redundancy: u32,
    pub last_lead_ms: u64,
    /// Whether this source streams by unicast to listeners (local sources only).
    pub unicast: bool,
    /// True if hosted by a different server (learned via the stats broadcast).
    pub remote: bool,
    pub samples: Vec<ServerSample>,
}

/// Metadata for one source the UI should show a send-path card for. Built by the
/// caller from the catalog, so it spans local and remote servers.
pub struct SourceMeta {
    pub id: u64,
    pub name: String,
    pub sample_rate: u32,
    pub channels: u16,
    pub lead_ms: u32,
    pub redundancy: u32,
    pub last_lead_ms: u64,
    pub unicast: bool,
    pub remote: bool,
}

/// The stats payload: per-source server history + one entry per device.
#[derive(Debug, Clone)]
pub struct StatsSnapshot {
    pub now_ms: u64,
    pub server: Vec<ServerSourceStats>,
    pub clients: Vec<ClientStats>,
}

/// A client's latest state for the client list (not the graph history).
pub struct ClientSummary {
    pub id: String,
    pub ip: u32,
    pub hostname: String,
    /// Milliseconds since the last report.
    pub ms_ago: u64,
    pub connected: bool,
    pub volume: Volume,
    pub delay_ms: u32,
    pub selected_source_id: u64,
    pub output_channels: u16,
    pub channel_map: Vec<i16>,
}

/// How long ago something was, never negative.
pub open spec fn ago(then_ms: u64, now_ms: u64) -> u64 {
    if now_ms < then_ms {
        0
    } else {
        (now_ms - then_ms) as u64
    }
}

/// Whether a summary shows what is known of a client.
pub open spec fn summarises(c: ClientSummary, h: HistoryView, now_ms: u64) -> bool {
    &&& c.ip == h.ip
    &&& c.hostname@ == h.hostname
    &&& c.ms_ago == ago(h.last_report_ms, now_ms)
    &&& c.connected == (ago(h.last_report_ms, now_ms) < CONNECTED_MS)
    &&& c.volume == h.volume
    &&& c.delay_ms == h.delay_ms
    &&& c.selected_source_id == h.selected_source_id
    &&& c.output_channels == h.output_channels
    &&& c.channel_map@ == h.channel_map
}

/// Whether the stats of a device show its history.
pub open spec fn shows_history(c: ClientStats, h: HistoryView, now_ms: u64) -> bool {
    &&& c.sample_rate == h.sample_rate
    &&& c.channels == h.channels
    &&& c.ms_ago == ago(h.last_report_ms, now_ms)
    &&& c.samples@ == h.samples
}

/// Whether the stats of a source show its metadata and its history.
pub open spec fn shows_source(
    s: ServerSourceStats,
    m: SourceMeta,
    hist: Map<u64, Seq<ServerSample>>,
) -> bool {
    &&& s.source_id@ == text::decimal(m.id as nat)
    &&& s.name@ == m.name@
    &&& s.sample_rate == m.sample_rate
    &&& s.channels == m.channels
    &&& s.lead_ms == m.lead_ms
    &&& s.redundancy == m.redundancy
    &&& s.last_lead_ms == m.last_lead_ms
    &&& s.unicast == m.unicast
    &&& s.remote == m.remote
    &&& s.samples@ == if hist.contains_key(m.id) {
        hist[m.id]
    } else {
        Seq::empty()
    }
}

/// The names of the sources, as ordering keys.
pub open spec fn meta_keys(sources: Seq<SourceMeta>) -> Seq<(Seq<char>, u64)> {
    sources.map_values(|m: SourceMeta| (m.name@, 0u64))
}

/// Whether the stats are those of the sources, put in the order of their names;
/// sources of one name stay in the order in which they came.
pub open spec fn sources_by_name(
    server: Seq<ServerSourceStats>,
    sources: Seq<SourceMeta>,
    hist: Map<u64, Seq<ServerSample>>,
) -> bool {
    exists|p: Seq<int>|
        {
            &&& #[trigger] order::ranked(meta_keys(sources), p)
            &&& server.len() == p.len()
            &&& forall|i: int|
                0 <= i < server.len() ==> shows_source(#[trigger] server[i], sources[p[i]], hist)
        }
}

/// Server-side ring buffers of recent telemetry, keyed by device id, plus the
/// per-source server send-path history. Fed by the telemetry receiver and a
/// periodic server-metrics sampler; read by the HTTP handlers.
pub struct TelemetryStore {
    /// Keyed by client device id.
    pub clients: Assoc<String, ClientHistory>,
    pub server_hist: Assoc<u64, Vec<ServerSample>>,
}

fn copy_samples<T: Copy>(v: &Vec<T>) -> (r: Vec<T>)
    ensures
        r@ == v@,
{
    let mut r: Vec<T> = Vec::new();
    let mut i: usize = 0;
    while i < v.len()
        invariant
            i <= v@.len(),
            r@ == v@.take(i as int),
        decreases v@.len() - i,
    {
        r.push(v[i]);
        i = i + 1;
        proof {
            assert(r@ =~= v@.take(i as int));
        }
    }
    proof {
        assert(v@.take(i as int) =~= v@);
    }
    r
}

impl TelemetryStore {
    pub open spec fn wf(&self) -> bool {
        &&& self.clients.wf()
        &&& self.server_hist.wf()
        &&& forall|i: int|
            0 <= i < self.clients.pairs().len() ==> (#[trigger] self.clients.pairs()[i]).1.samples.len()
                <= HISTORY_LEN
        &&& forall|i: int|
            0 <= i < self.server_hist.pairs().len() ==> (
            #[trigger] self.server_hist.pairs()[i]).1.len() <= HISTORY_LEN
    }

    pub fn new() -> (r: Self)
        ensures
            r.wf(),
            r.clients@ == Map::<Seq<char>, HistoryView>::empty(),
            r.server_hist@ == Map::<u64, Seq<ServerSample>>::empty(),
    {
        TelemetryStore { clients: Assoc::new(), server_hist: Assoc::new() }
    }

    /// Record a report received from `ip` at server time `recv_ms`, keyed by the
    /// client's device id.
    pub fn push_client(&mut self, ip: u32, report: TelemetryReport, recv_ms: u64)
        requires
            old(self).wf(),
        ensures
            final(self).wf(),
            final(self).server_hist == old(self).server_hist,
            ({
                let id = report.device_id@;
                let known = if old(self).clients@.contains_key(id) {
                    old(self).clients@[id]
                } else {
                    first_history(ip, report, recv_ms)
                };
                final(self).clients@ == old(self).clients@.insert(
                    id,
                    absorbed(known, ip, report, recv_ms),
                )
            }),
    {
        let ghost before = self.clients;
        match self.clients.find(&report.device_id) {
            Some(i) => {
                proof {
                    assoc::lemma_place(before.pairs(), i as int);
                    assert(self.clients.pairs()[i as int].1 == self.clients.entries@[i as int].1@);
                }
                let h: &mut ClientHistory = self.clients.value_mut(i);
                h.absorb(ip, &report, recv_ms);
                proof {
                    let v = self.clients.entries@[i as int].1;
                    assoc::lemma_changed(before, self.clients, i as int, v);
                }
            },
            None => {
                let mut h: ClientHistory = ClientHistory {
                    samples: Vec::new(),
                    sample_rate: report.sample_rate,
                    channels: report.channels,
                    output_channels: report.output_channels,
                    last_report_ms: recv_ms,
                    last_sent_ms: 0,
                    ip,
                    hostname: report.hostname.clone(),
                    volume: report.volume,
                    delay_ms: report.delay_ms,
                    selected_source_id: report.selected_source_id,
                    channel_map: copy_map(&report.channel_map),
                };
                proof {
                    assert(h@ =~= first_history(ip, report, recv_ms));
                }
                h.absorb(ip, &report, recv_ms);
                self.clients.insert(report.device_id.clone(), h);
            },
        }
    }

    /// Record a server send-path sample for one source.
    pub fn push_server(&mut self, source_id: u64, sample: ServerSample)
        requires
            old(self).wf(),
        ensures
            final(self).wf(),
            final(self).clients == old(self).clients,
            final(self).server_hist@ == old(self).server_hist@.insert(
                source_id,
                ring_with(
                    if old(self).server_hist@.contains_key(source_id) {
                        old(self).server_hist@[source_id]
                    } else {
                        Seq::empty()
                    },
                    sample,
                ),
            ),
    {
        let ghost before = self.server_hist;
        match self.server_hist.find(&source_id) {
            Some(i) => {
                proof {
                    assoc::lemma_place(before.pairs(), i as int);
                    assert(before.pairs()[i as int].1 == before.entries@[i as int].1@);
                }
                let q: &mut Vec<ServerSample> = self.server_hist.value_mut(i);
                push_ring(q, sample);
                proof {
                    let v = self.server_hist.entries@[i as int].1;
                    assoc::lemma_changed(before, self.server_hist, i as int, v);
                }
            },
            None => {
                let mut q: Vec<ServerSample> = Vec::new();
                push_ring(&mut q, sample);
                self.server_hist.insert(source_id, q);
            },
        }
    }

    /// Drop the devices that have gone stale.
    fn forget_stale(&mut self, now_ms: u64)
        requires
            old(self).wf(),
        ensures
            final(self).wf(),
            final(self).server_hist == old(self).server_hist,
            final(self).clients@ == assoc::fresh_part::<Seq<char>, ClientHistory>(
                old(self).clients@,
                now_ms,
                STALE_MS,
            ),
    {
        let ghost before = self.clients;
        self.clients.keep_fresh(now_ms, STALE_MS);
        proof {
            assert forall|i: int| 0 <= i < self.clients.pairs().len() implies (
            #[trigger] self.clients.pairs()[i]).1.samples.len() <= HISTORY_LEN by {
                assoc::lemma_place(self.clients.pairs(), i);
                let k = self.clients.pairs()[i].0;
                assert(before@.contains_key(k) && before@[k] == self.clients@[k]);
                let p = assoc::place_of(before.pairs(), k);
                assert(before.pairs()[p].1 == before@[k]);
            }
        }
    }

    /// Each currently-known client's latest state, for the client list.
    pub fn clients_summary(&mut self, now_ms: u64) -> (out: Vec<ClientSummary>)
        requires
            old(self).wf(),
        ensures
            final(self).wf(),
            final(self).server_hist == old(self).server_hist,
            final(self).clients@ == assoc::fresh_part::<Seq<char>, ClientHistory>(
                old(self).clients@,
                now_ms,
                STALE_MS,
            ),
            assoc::ascending_names(out@.map_values(|c: ClientSummary| c.id@)),
            assoc::names_keys(out@.map_values(|c: ClientSummary| c.id@), final(self).clients@),
            forall|i: int|
                0 <= i < out@.len() ==> summarises(
                    #[trigger] out@[i],
                    final(self).clients@[out@[i].id@],
                    now_ms,
                ),
    {
        self.forget_stale(now_ms);
        let p: Vec<usize> = self.clients.by_key();
        let ghost pairs = self.clients.pairs();
        let mut out: Vec<ClientSummary> = Vec::new();
        let mut i: usize = 0;
        while i < p.len()
            invariant
                i <= p@.len(),
                self.clients.wf(),
                pairs == self.clients.pairs(),
                assoc::ascending(pairs, p@),
                out@.len() == i,
                forall|j: int|
                    0 <= j < i ==> (#[trigger] out@[j]).id@ == pairs[p@[j] as int].0 && summarises(
                        out@[j],
                        pairs[p@[j] as int].1,
                        now_ms,
                    ),
            decreases p@.len() - i,
        {
            let h: &ClientHistory = self.clients.value_at(p[i]);
            let age: u64 = now_ms.saturating_sub(h.last_report_ms);
            out.push(
                ClientSummary {
                    id: self.clients.key_at(p[i]).clone(),
                    ip: h.ip,
                    hostname: h.hostname.clone(),
                    ms_ago: age,
                    connected: age < CONNECTED_MS,
                    volume: h.volume,
                    delay_ms: h.delay_ms,
                    selected_source_id: h.selected_source_id,
                    output_channels: h.output_channels,
                    channel_map: copy_map(&h.channel_map),
                },
            );
            i = i + 1;
        }
        proof {
            let names = out@.map_values(|c: ClientSummary| c.id@);
            assoc::lemma_keys_listed(pairs, p@, names);
            assert forall|j: int| 0 <= j < out@.len() implies summarises(
                #[trigger] out@[j],
                self.clients@[out@[j].id@],
                now_ms,
            ) by {
                assoc::lemma_place(pairs, p@[j] as int);
            }
        }
        out
    }

    /// The current IP of the client with this device id, if known: used to target
    /// control commands (which address clients by IP).
    pub fn ip_for_id(&self, id: &String) -> (r: Option<u32>)
        requires
            self.wf(),
        ensures
            r == if self.clients@.contains_key(id@) {
                Some(self.clients@[id@].ip)
            } else {
                None
            },
    {
        match self.clients.get(id) {
            Some(h) => Some(h.ip),
            None => None,
        }
    }

    /// The send-path stats of the sources, by name.
    fn server_stats(&self, sources: &Vec<SourceMeta>) -> (server: Vec<ServerSourceStats>)
        requires
            self.wf(),
        ensures
            sources_by_name(server@, sources@, self.server_hist@),
    {
        let mut keys: Vec<(String, u64)> = Vec::new();
        let mut k: usize = 0;
        while k < sources.len()
            invariant
                k <= sources@.len(),
                keys@.len() == k,
                forall|j: int|
                    0 <= j < k ==> (#[trigger] keys@[j]).0@ == sources@[j].name@ && keys@[j].1 == 0,
            decreases sources@.len() - k,
        {
            keys.push((sources[k].name.clone(), 0));
            k = k + 1;
        }
        let p: Vec<usize> = order_named(&keys);
        let ghost q = p@.map_values(|i: usize| i as int);
        proof {
            assert(order::rank_keys(keys@) =~= meta_keys(sources@));
        }
        let mut server: Vec<ServerSourceStats> = Vec::new();
        let mut i: usize = 0;
        while i < p.len()
            invariant
                i <= p@.len(),
                self.wf(),
                q == p@.map_values(|i: usize| i as int),
                order::ranked(meta_keys(sources@), q),
                server@.len() == i,
                forall|j: int|
                    0 <= j < i ==> shows_source(
                        #[trigger] server@[j],
                        sources@[q[j]],
                        self.server_hist@,
                    ),
            decreases p@.len() - i,
        {
            proof {
                assert(q[i as int] == p@[i as int]);
            }
            let m: &SourceMeta = &sources[p[i]];
            let samples: Vec<ServerSample> = match self.server_hist.get(&m.id) {
                Some(v) => copy_samples(v),
                None => Vec::new(),
            };
            server.push(
                ServerSourceStats {
                    source_id: u64_text(m.id),
                    name: m.name.clone(),
                    sample_rate: m.sample_rate,
                    channels: m.channels,
                    lead_ms: m.lead_ms,
                    redundancy: m.redundancy,
                    last_lead_ms: m.last_lead_ms,
                    unicast: m.unicast,
                    remote: m.remote,
                    samples,
                },
            );
            i = i + 1;
        }
        proof {
            assert(order::ranked(meta_keys(sources@), q));
        }
        server
    }

    /// Build the stats payload for the given sources (local + remote, from the
    /// catalog), dropping devices that have gone stale.
    pub fn snapshot(&mut self, sources: &Vec<SourceMeta>, now_ms: u64) -> (r: StatsSnapshot)
        requires
            old(self).wf(),
        ensures
            final(self).wf(),
            final(self).server_hist == old(self).server_hist,
            final(self).clients@ == assoc::fresh_part::<Seq<char>, ClientHistory>(
                old(self).clients@,
                now_ms,
                STALE_MS,
            ),
            r.now_ms == now_ms,
            sources_by_name(r.server@, sources@, old(self).server_hist@),
            assoc::ascending_names(r.clients@.map_values(|c: ClientStats| c.id@)),
            assoc::names_keys(r.clients@.map_values(|c: ClientStats| c.id@), final(self).clients@),
            forall|i: int|
                0 <= i < r.clients@.len() ==> shows_history(
                    #[trigger] r.clients@[i],
                    final(self).clients@[r.clients@[i].id@],
                    now_ms,
                ),
    {
        let server: Vec<ServerSourceStats> = self.server_stats(sources);
        self.forget_stale(now_ms);
        let p: Vec<usize> = self.clients.by_key();
        let ghost pairs = self.clients.pairs();
        let mut clients: Vec<ClientStats> = Vec::new();
        let mut i: usize = 0;
        while i < p.len()
            invariant
                i <= p@.len(),
                self.clients.wf(),
                pairs == self.clients.pairs(),
                assoc::ascending(pairs, p@),
                clients@.len() == i,
                forall|j: int|
                    0 <= j < i ==> (#[trigger] clients@[j]).id@ == pairs[p@[j] as int].0
                        && shows_history(clients@[j], pairs[p@[j] as int].1, now_ms),
            decreases p@.len() - i,
        {
            let h: &ClientHistory = self.clients.value_at(p[i]);
            clients.push(
                ClientStats {
                    id: self.clients.key_at(p[i]).clone(),
                    sample_rate: h.sample_rate,
                    channels: h.channels,
                    ms_ago: now_ms.saturating_sub(h.last_report_ms),
                    samples: copy_samples(&h.samples),
                },
            );
            i = i + 1;
        }
        proof {
            let names = clients@.map_values(|c: ClientStats| c.id@);
            assoc::lemma_keys_listed(pairs, p@, names);
            assert forall|j: int| 0 <= j < clients@.len() implies shows_history(
                #[trigger] clients@[j],
                self.clients@[clients@[j].id@],
                now_ms,
            ) by {
                assoc::lemma_place(pairs, p@[j] as int);
            }
        }
        StatsSnapshot { now_ms, server, clients }
    }
}

/// A report is taken in once: repeated, or overtaken by a later one, it changes
/// nothing, and the highest send time never falls.
pub proof fn reports_never_go_back(
    h: HistoryView,
    ip: u32,
    report: TelemetryReport,
    recv_ms: u64,
    ip2: u32,
    later: TelemetryReport,
    recv2_ms: u64,
)
    requires
        later.sent_ms <= report.sent_ms,
    ensures
        ({
            let once = absorbed(h, ip, report, recv_ms);
            &&& absorbed(once, ip2, later, recv2_ms) == once
            &&& once.last_sent_ms >= h.last_sent_ms
            &&& once.last_sent_ms >= report.sent_ms
        }),
{
}

/// Under one clock offset the samples of a client are plotted in the order in
/// which it sent them.
pub proof fn plotted_in_send_order(sent_a: u64, sent_b: u64, offset: Millis)
    requires
        sent_a <= sent_b,
    ensures
        display_time(sent_a, offset) <= display_time(sent_b, offset),
{
    let a = Millis::spec_whole(sent_a as int) + offset.flicks;
    let b = Millis::spec_whole(sent_b as int) + offset.flicks;
    assert(a <= b);
    vstd::arithmetic::div_mod::lemma_div_is_ordered(a, b, FLICKS_PER_MS as int);
}

/// This server's per-source send-path stats, as broadcast to the other servers.
pub fn build_stats(
    server_id: u64,
    sent_ms: u64,
    sources: &Vec<(u64, ServerMetrics)>,
) -> (r: StatsBroadcast)
    ensures
        r.server_id == server_id,
        r.sent_ms == sent_ms,
        r.sources@ == sources@.map_values(
            |s: (u64, ServerMetrics)|
                (SourceStat {
                    source_id: s.0,
                    packets_sent: s.1.packets_sent,
                    frames_sent: s.1.frames_sent,
                    reanchors: s.1.reanchors,
                    pending_len: s.1.pending_len,
                }),
        ),
{
    let mut stats: Vec<SourceStat> = Vec::new();
    let mut i: usize = 0;
    while i < sources.len()
        invariant
            i <= sources@.len(),
            stats@.len() == i,
            forall|j: int|
                0 <= j < i ==> #[trigger] stats@[j] == (SourceStat {
                    source_id: sources@[j].0,
                    packets_sent: sources@[j].1.packets_sent,
                    frames_sent: sources@[j].1.frames_sent,
                    reanchors: sources@[j].1.reanchors,
                    pending_len: sources@[j].1.pending_len,
                }),
        decreases sources@.len() - i,
    {
        let s: ServerSample = sources[i].1.snapshot(sent_ms);
        stats.push(
            SourceStat {
                source_id: sources[i].0,
                packets_sent: s.packets_sent,
                frames_sent: s.frames_sent,
                reanchors: s.reanchors,
                pending_len: s.pending_len,
            },
        );
        i = i + 1;
    }
    StatsBroadcast { server_id, sent_ms, sources: stats }
}

/// The history sample that another server's stats make at our receive time, so
/// remote streams share this server's timeline on the graphs.
pub open spec fn remote_sample(st: SourceStat, t: u64) -> ServerSample {
    ServerSample {
        t,
        packets_sent: st.packets_sent,
        frames_sent: st.frames_sent,
        reanchors: st.reanchors,
        pending_len: st.pending_len,
    }
}

/// The send-path history after the first `n` of the broadcast stats.
pub open spec fn with_stats(
    hist: Map<u64, Seq<ServerSample>>,
    stats: Seq<SourceStat>,
    n: int,
    t: u64,
) -> Map<u64, Seq<ServerSample>>
    decreases n,
{
    if n <= 0 {
        hist
    } else {
        let before = with_stats(hist, stats, n - 1, t);
        let st = stats[n - 1];
        before.insert(
            st.source_id,
            ring_with(
                if before.contains_key(st.source_id) {
                    before[st.source_id]
                } else {
                    Seq::empty()
                },
                remote_sample(st, t),
            ),
        )
    }
}

/// Take in a stats broadcast received at `t`. Own broadcasts (matching
/// `my_server_id`) are ignored: the local sampler already records them at full
/// rate.
pub fn receive_stats(
    store: &mut TelemetryStore,
    msg: &StatsBroadcast,
    my_server_id: u64,
    t: u64,
)
    requires
        old(store).wf(),
    ensures
        final(store).wf(),
        final(store).clients == old(store).clients,
        final(store).server_hist@ == if msg.server_id == my_server_id {
            old(store).server_hist@
        } else {
            with_stats(
                old(store).server_hist@,
                msg.sources@,
                msg.sources@.len() as int,
                t,
            )
        },
{
    if msg.server_id == my_server_id {
        return;
    }
    let ghost hist = store.server_hist@;
    let ghost clients = store.clients;
    let mut i: usize = 0;
    while i < msg.sources.len()
        invariant
            i <= msg.sources@.len(),
            store.wf(),
            store.clients == clients,
            store.server_hist@ == with_stats(hist, msg.sources@, i as int, t),
        decreases msg.sources@.len() - i,
    {
        let st: SourceStat = msg.sources[i];
        store.push_server(
            st.source_id,
            ServerSample {
                t,
                packets_sent: st.packets_sent,
                frames_sent: st.frames_sent,
                reanchors: st.reanchors,
                pending_len: st.pending_len,
            },
        );
        i = i + 1;
    }
}

/// Sample each source's send-path metrics into the history.
pub fn sample_sources(
    store: &mut TelemetryStore,
    sources: &Vec<(u64, ServerMetrics)>,
    now_ms: u64,
)
    requires
        old(store).wf(),
    ensures
        final(store).wf(),
        final(store).clients == old(store).clients,
        final(store).server_hist@ == with_samples(
            old(store).server_hist@,
            sources@,
            sources@.len() as int,
            now_ms,
        ),
{
    let ghost hist = store.server_hist@;
    let ghost clients = store.clients;
    let mut i: usize = 0;
    while i < sources.len()
        invariant
            i <= sources@.len(),
            store.wf(),
            store.clients == clients,
            store.server_hist@ == with_samples(hist, sources@, i as int, now_ms),
        decreases sources@.len() - i,
    {
        store.push_server(sources[i].0, sources[i].1.snapshot(now_ms));
        i = i + 1;
    }
}

/// The send-path history after the first `n` of the local sources are sampled.
pub open spec fn with_samples(
    hist: Map<u64, Seq<ServerSample>>,
    sources: Seq<(u64, ServerMetrics)>,
    n: int,
    now_ms: u64,
) -> Map<u64, Seq<ServerSample>>
    decreases n,
{
    if n <= 0 {
        hist
    } else {
        let before = with_samples(hist, sources, n - 1, now_ms);
        let id = sources[n - 1].0;
        before.insert(
            id,
            ring_with(
                if before.contains_key(id) {
                    before[id]
                } else {
                    Seq::empty()
                },
                sources[n - 1].1.sampled(now_ms),
            ),
        )
    }
}

/// Every copy counts as one more packet on the wire, and as nothing else.
pub proof fn copies_count_one_by_one(m: ServerMetrics, n: int)
    requires
        0 <= n,
        m.packets_sent + n <= u64::MAX,
    ensures
        m.copies_sent(n) == (ServerMetrics {
            packets_sent: (m.packets_sent + n) as u64,
            ..m
        }),
    decreases n,
{
    if n > 0 {
        copies_count_one_by_one(m, n - 1);
    }
}

/// A history holds the latest six hundred samples, the newest last.
pub proof fn history_keeps_the_latest<T>(samples: Seq<T>, s: T)
    requires
        samples.len() <= 600,
    ensures
        ({
            let r = ring_with(samples, s);
            &&& r.len() == samples.len() + 1 || (samples.len() == 600 && r.len() == 600)
            &&& r.len() <= 600
            &&& r.last() == s
            &&& forall|k: int|
                1 <= k < r.len() ==> #[trigger] r[r.len() - 1 - k] == samples[samples.len() - k]
        }),
{
}

/// A sample is plotted at the whole millisecond of the server's clock in which the
/// client sent it, as far as the clock goes.
pub proof fn plotted_within_a_millisecond(sent_ms: u64, offset: Millis)
    ensures
        ({
            let t = 705_600 * sent_ms + offset.flicks;
            let shown = display_time(sent_ms, offset);
            &&& t <= 0 ==> shown == 0
            &&& 0 <= t && t < 705_600 * 0x1_0000_0000_0000_0000 ==> 705_600 * shown <= t
                < 705_600 * (shown + 1)
            &&& t >= 705_600 * 0x1_0000_0000_0000_0000 ==> shown == u64::MAX
        }),
{
}

/// A report that is newer than all before it adds one sample, of its own values, and
/// what is known of the client is then what it says.
pub proof fn newer_reports_are_taken_in(
    h: HistoryView,
    ip: u32,
    report: TelemetryReport,
    recv_ms: u64,
)
    requires
        report.sent_ms > h.last_sent_ms,
        h.samples.len() <= 600,
    ensures
        ({
            let a = absorbed(h, ip, report, recv_ms);
            &&& a.samples.len() > 0
            &&& a.samples.last() == sample_of(report)
            &&& a.samples.len() >= h.samples.len()
            &&& a.last_sent_ms == report.sent_ms
            &&& a.last_report_ms == recv_ms
            &&& a.ip == ip
            &&& a.hostname == report.hostname@
            &&& a.volume == report.volume
            &&& a.delay_ms == report.delay_ms
            &&& a.selected_source_id == report.selected_source_id
            &&& a.channel_map == report.channel_map@
            &&& a.sample_rate == report.sample_rate
            &&& a.channels == report.channels
            &&& a.output_channels == report.output_channels
        }),
{
}

/// A client's first report starts an empty history.
pub proof fn histories_start_empty(ip: u32, report: TelemetryReport, recv_ms: u64)
    ensures
        ({
            let f = first_history(ip, report, recv_ms);
            &&& f.samples.len() == 0
            &&& f.last_sent_ms == 0
            &&& f.last_report_ms == recv_ms
            &&& f.ip == ip
            &&& report.sent_ms > 0 ==> absorbed(f, ip, report, recv_ms).samples == seq![
                sample_of(report),
            ]
        }),
{
    let f = first_history(ip, report, recv_ms);
    if report.sent_ms > 0 {
        assert(absorbed(f, ip, report, recv_ms).samples =~= seq![sample_of(report)]);
    }
}

/// A sample has every count and measure of its report.
pub proof fn samples_have_the_reports_values(report: TelemetryReport)
    ensures
        ({
            let s = sample_of(report);
            &&& s.t == display_time(report.sent_ms, report.clock_offset_ms)
            &&& s.blocks_appended == report.blocks_appended
            &&& s.samples_appended == report.samples_appended
            &&& s.packets_received == report.packets_received
            &&& s.overrun_drops == report.overrun_drops
            &&& s.late_drops == report.late_drops
            &&& s.lost_packets == report.lost_packets
            &&& s.underruns == report.underruns
            &&& s.output_queue_len == report.output_queue_len
            &&& s.jitter_buffer_len == report.jitter_buffer_len
            &&& s.clock_offset_ms == report.clock_offset_ms
            &&& s.clock_target_offset_ms == report.clock_target_offset_ms
            &&& s.last_offset_ms == report.last_offset_ms
            &&& s.last_rtt_ms == report.last_rtt_ms
            &&& s.rtt_ms == report.rtt_ms
            &&& s.sync_samples == report.sync_samples
        }),
{
}

/// A report carries the counters of the device, and a source's sample those of the
/// source.
pub proof fn reports_carry_the_counters(
    m: DeviceMetrics,
    r: TelemetryReport,
    s: ServerMetrics,
    now_ms: u64,
)
    requires
        m.reported_by(r),
    ensures
        r.blocks_appended == m.blocks_appended,
        r.samples_appended == m.samples_appended,
        r.packets_received == m.packets_received,
        r.overrun_drops == m.overrun_drops,
        r.late_drops == m.late_drops,
        r.lost_packets == m.lost_packets,
        r.underruns == m.underruns,
        r.output_queue_len == m.output_queue_len,
        r.jitter_buffer_len == m.jitter_buffer_len,
        r.sample_rate == m.sample_rate,
        r.channels == m.channels,
        r.output_channels == m.output_channels,
        r.clock_offset_ms == m.clock_offset,
        r.clock_target_offset_ms == m.clock_target,
        r.last_offset_ms == m.last_offset,
        r.last_rtt_ms == m.last_rtt,
        r.rtt_ms == m.rtt,
        r.sync_samples == m.sync_samples,
        s.sampled(now_ms).t == now_ms,
        s.sampled(now_ms).packets_sent == s.packets_sent,
        s.sampled(now_ms).frames_sent == s.frames_sent,
        s.sampled(now_ms).reanchors == s.reanchors,
        s.sampled(now_ms).pending_len == s.pending_len,
{
}

/// Each event moves its own counters by what it counts, and no others.
pub proof fn events_are_counted_once(
    m: ServerMetrics,
    frames: u64,
    d: DeviceMetrics,
    samples: usize,
)
    requires
        m.packets_sent < u64::MAX,
        m.frames_sent + frames <= u64::MAX,
        m.reanchors < u64::MAX,
        d.blocks_appended < u64::MAX,
        d.samples_appended + samples <= u64::MAX,
    ensures
        m.packet_sent(frames).packets_sent == m.packets_sent + 1,
        m.packet_sent(frames).frames_sent == m.frames_sent + frames,
        m.packet_sent(frames).reanchors == m.reanchors,
        m.copy_sent().packets_sent == m.packets_sent + 1,
        m.copy_sent().frames_sent == m.frames_sent,
        m.reanchored().reanchors == m.reanchors + 1,
        m.reanchored().packets_sent == m.packets_sent,
        m.reanchored().frames_sent == m.frames_sent,
        d.appended(samples).blocks_appended == d.blocks_appended + 1,
        d.appended(samples).samples_appended == d.samples_appended + samples,
        d.appended(samples).packets_received == d.packets_received,
        d.appended(samples).underruns == d.underruns,
        d.appended(samples).late_drops == d.late_drops,
{
}

/// What is shown of a client is what is known of it; it counts as connected for five
/// seconds from its last report.
pub proof fn clients_are_shown_as_known(c: ClientSummary, h: HistoryView, now_ms: u64)
    requires
        summarises(c, h, now_ms),
    ensures
        c.connected <==> now_ms < h.last_report_ms + 5000,
        now_ms >= h.last_report_ms ==> c.ms_ago == now_ms - h.last_report_ms,
        now_ms < h.last_report_ms ==> c.ms_ago == 0,
        c.ip == h.ip,
        c.hostname@ == h.hostname,
        c.volume == h.volume,
        c.delay_ms == h.delay_ms,
        c.selected_source_id == h.selected_source_id,
        c.output_channels == h.output_channels,
        c.channel_map@ == h.channel_map,
{
}

/// A device is remembered for a minute from its last report, and no longer.
pub proof fn devices_are_remembered_for_a_minute(
    m: Map<Seq<char>, HistoryView>,
    now_ms: u64,
    id: Seq<char>,
)
    ensures
        assoc::fresh_part::<Seq<char>, ClientHistory>(m, now_ms, STALE_MS).contains_key(id)
            <==> m.contains_key(id) && now_ms < m[id].last_report_ms + 60_000,
{
}

/// What is shown of a device and of a source is their own.
pub proof fn stats_are_shown_as_kept(
    c: ClientStats,
    h: HistoryView,
    now_ms: u64,
    s: ServerSourceStats,
    m: SourceMeta,
    hist: Map<u64, Seq<ServerSample>>,
)
    requires
        shows_history(c, h, now_ms),
        shows_source(s, m, hist),
    ensures
        c.samples@ == h.samples,
        c.sample_rate == h.sample_rate,
        c.channels == h.channels,
        now_ms >= h.last_report_ms ==> c.ms_ago == now_ms - h.last_report_ms,
        s.source_id@ == text::decimal(m.id as nat),
        s.name@ == m.name@,
        s.sample_rate == m.sample_rate,
        s.channels == m.channels,
        s.lead_ms == m.lead_ms,
        s.redundancy == m.redundancy,
        s.last_lead_ms == m.last_lead_ms,
        s.unicast == m.unicast,
        s.remote == m.remote,
        hist.contains_key(m.id) ==> s.samples@ == hist[m.id],
        !hist.contains_key(m.id) ==> s.samples@.len() == 0,
{
}

/// The sources are shown by name, each once.
pub proof fn sources_are_shown_by_name(
    server: Seq<ServerSourceStats>,
    sources: Seq<SourceMeta>,
    hist: Map<u64, Seq<ServerSample>>,
    i: int,
    j: int,
)
    requires
        sources_by_name(server, sources, hist),
        0 <= i < j < server.len(),
    ensures
        server.len() == sources.len(),
        !order::text_before(server[j].name@, server[i].name@),
{
    let p = choose|p: Seq<int>|
        {
            &&& #[trigger] order::ranked(meta_keys(sources), p)
            &&& server.len() == p.len()
            &&& forall|i: int|
                0 <= i < server.len() ==> shows_source(#[trigger] server[i], sources[p[i]], hist)
        };
    order::ranking_sorts(meta_keys(sources), p, i, j);
    assert(shows_source(server[i], sources[p[i]], hist));
    assert(shows_source(server[j], sources[p[j]], hist));
    assert(0 <= p[i] < sources.len() && 0 <= p[j] < sources.len());
}

/// A length is sent most significant byte first, and a head is junk exactly if it
/// announces nothing or more than 65536 bytes.
pub proof fn lengths_come_most_significant_first(n: u32, head: Seq<u8>)
    requires
        head.len() == 4,
    ensures
        length_prefix(n).len() == 4,
        n == length_prefix(n)[3] + 0x100 * (length_prefix(n)[2] + 0x100 * (length_prefix(n)[1]
            + 0x100 * length_prefix(n)[0])),
        announced_len(head) is Some ==> 0 < announced_len(head)->0 <= 65536,
        head == length_prefix(n) && 0 < n <= 65536 ==> announced_len(head) == Some(n as int),
        head == length_prefix(n) && (n == 0 || n > 65536) ==> announced_len(head) is None,
{
    let n1 = n / 0x100;
    let n2 = n1 / 0x100;
    assert(n2 == n / 0x1_0000);
    assert(n2 / 0x100 == n / 0x100_0000);
    let b = length_prefix(n);
    assert(b[3] == n % 0x100 && b[2] == n1 % 0x100 && b[1] == n2 % 0x100 && b[0] == n2 / 0x100);
}

/// Stats add a sample, of their own values at the time of receipt, to the history of
/// each source that they name, and to no other.
pub proof fn stats_add_a_sample_each(
    hist: Map<u64, Seq<ServerSample>>,
    stats: Seq<SourceStat>,
    n: int,
    t: u64,
    id: u64,
)
    requires
        0 <= n <= stats.len(),
    ensures
        (forall|k: int| 0 <= k < n ==> (#[trigger] stats[k]).source_id != id) ==> with_stats(
            hist,
            stats,
            n,
            t,
        ).contains_key(id) == hist.contains_key(id) && (hist.contains_key(id) ==> with_stats(
            hist,
            stats,
            n,
            t,
        )[id] == hist[id]),
        n > 0 ==> {
            let before = with_stats(hist, stats, n - 1, t);
            let after = with_stats(hist, stats, n, t);
            let st = stats[n - 1];
            &&& after.contains_key(st.source_id)
            &&& after[st.source_id].len() > 0
            &&& after[st.source_id].last().t == t
            &&& after[st.source_id].last().packets_sent == st.packets_sent
            &&& after[st.source_id].last().frames_sent == st.frames_sent
            &&& after[st.source_id].last().reanchors == st.reanchors
            &&& after[st.source_id].last().pending_len == st.pending_len
            &&& before.contains_key(st.source_id) && before[st.source_id].len() < 600
                ==> after[st.source_id].drop_last() == before[st.source_id]
            &&& !before.contains_key(st.source_id) ==> after[st.source_id].len() == 1
        },
    decreases n,
{
    if n > 0 {
        stats_add_a_sample_each(hist, stats, n - 1, t, id);
        let before = with_stats(hist, stats, n - 1, t);
        let after = with_stats(hist, stats, n, t);
        let st = stats[n - 1];
        if before.contains_key(st.source_id) && before[st.source_id].len() < 600 {
            assert(after[st.source_id].drop_last() =~= before[st.source_id]);
        }
        if forall|k: int| 0 <= k < n ==> (#[trigger] stats[k]).source_id != id {
            assert(stats[n - 1].source_id != id);
        }
    }
}

/// Sampling adds a sample, of the values at that time, to the history of each source
/// that is sampled, and to no other.
pub proof fn sampling_adds_a_sample_each(
    hist: Map<u64, Seq<ServerSample>>,
    sources: Seq<(u64, ServerMetrics)>,
    n: int,
    now_ms: u64,
    id: u64,
)
    requires
        0 <= n <= sources.len(),
    ensures
        (forall|k: int| 0 <= k < n ==> (#[trigger] sources[k]).0 != id) ==> with_samples(
            hist,
            sources,
            n,
            now_ms,
        ).contains_key(id) == hist.contains_key(id) && (hist.contains_key(id) ==> with_samples(
            hist,
            sources,
            n,
            now_ms,
        )[id] == hist[id]),
        n > 0 ==> {
            let before = with_samples(hist, sources, n - 1, now_ms);
            let after = with_samples(hist, sources, n, now_ms);
            let (at, m) = sources[n - 1];
            &&& after.contains_key(at)
            &&& after[at].len() > 0
            &&& after[at].last().t == now_ms
            &&& after[at].last().packets_sent == m.packets_sent
            &&& after[at].last().frames_sent == m.frames_sent
            &&& after[at].last().reanchors == m.reanchors
            &&& after[at].last().pending_len == m.pending_len
            &&& before.contains_key(at) && before[at].len() < 600 ==> after[at].drop_last()
                == before[at]
            &&& !before.contains_key(at) ==> after[at].len() == 1
        },
    decreases n,
{
    if n > 0 {
        sampling_adds_a_sample_each(hist, sources, n - 1, now_ms, id);
        let before = with_samples(hist, sources, n - 1, now_ms);
        let after = with_samples(hist, sources, n, now_ms);
        let at = sources[n - 1].0;
        if before.contains_key(at) && before[at].len() < 600 {
            assert(after[at].drop_last() =~= before[at]);
        }
        if forall|k: int| 0 <= k < n ==> (#[trigger] sources[k]).0 != id {
            assert(sources[n - 1].0 != id);
        }
    }
}

/// What has just started has counted nothing.
pub proof fn new_metrics_have_counted_nothing()
    ensures
        ({
            let d = DeviceMetrics::spec_new();
            &&& d.blocks_appended == 0 && d.samples_appended == 0 && d.packets_received == 0
            &&& d.overrun_drops == 0 && d.late_drops == 0 && d.lost_packets == 0
            &&& d.underruns == 0 && d.output_queue_len == 0 && d.jitter_buffer_len == 0
            &&& d.sample_rate == 0 && d.channels == 0 && d.output_channels == 0
            &&& d.packet_ms.flicks == 0 && d.source_delay_ms.flicks == 0
            &&& d.clock_offset.flicks == 0 && d.clock_target.flicks == 0
            &&& d.last_offset.flicks == 0 && d.last_rtt.flicks == 0 && d.rtt.flicks == 0
            &&& d.sync_samples == 0
        }),
        ({
            let s = ServerMetrics::spec_new();
            &&& s.packets_sent == 0 && s.frames_sent == 0 && s.reanchors == 0
            &&& s.pending_len == 0 && s.sample_rate == 0 && s.channels == 0 && s.lead_ms == 0
            &&& !s.has_audio
        }),
{
}

} // verus!
