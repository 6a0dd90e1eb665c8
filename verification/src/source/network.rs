//! Client-side playback source: takes [`AudioPacket`]s for the currently-selected
//! source into a time-ordered jitter buffer, and hands them out with their
//! absolute `play_at` timestamp, which the player loop holds against a
//! [`SyncedClock`] estimate of the owning server's clock.
//!
//! The client owns its selection (in [`ClientSettings`]); a *watcher* reacts to
//! selection changes and to the catalog, joining/leaving the right multicast
//! group and re-pointing the clock sync at the owning server. There is no "server
//! offline" concept: if nothing is selected, or the selected source is silent,
//! playback simply produces nothing and waits.
use vstd::arithmetic::div_mod;
use vstd::prelude::*;

use crate::catalog::ResolvedSource;
use crate::metrics::DeviceMetrics;
use crate::sync::{ClientSettings, SyncTarget, SyncedClock};
use crate::units::{Millis, FLICKS_PER_SEC};
use crate::wire;
use crate::wire::{ip_from, AudioPacket, WireFormat};

verus! {

/// Cap on buffered packets, so a stalled consumer can't grow memory without
/// bound. At realtime pacing the buffer holds only about the server's lead.
pub const MAX_BUFFERED: usize = 2000;

/// How often the selection watcher re-checks the catalog, so a source selected
/// before its server was heard gets joined once it appears.
pub const SELECTION_POLL_MS: u64 = 500;

/// A block of decoded samples plus the format they're in: sources can differ,
/// so the format travels with each block (the mixer resamples to the device).
#[derive(Debug, Clone)]
pub struct PlayChunk<T> {
    pub samples: Vec<T>,
    pub channels: u16,
    pub sample_rate: u32,
    /// Absolute play-at time (epoch ms, server clock) of this chunk's first
    /// sample, carried through so the player loop can estimate playback delay.
    pub play_at_ms: u64,
    /// Source-channel index of each channel present in `samples` (empty = the
    /// full contiguous stream). Lets the client route a subset packet, sent in
    /// unicast mode, back to output channels by original source index.
    pub channel_ids: Vec<u16>,
}

impl<T> PlayChunk<T> {
    /// The duration of a chunk, to the nearest millisecond (halves up). A chunk
    /// whose format says nothing of time lasts forever, unless it is empty.
    pub open spec fn spec_duration_ms(&self) -> int {
        let n = self.samples@.len() as int;
        let per_sec = self.channels * self.sample_rate;
        if n == 0 {
            0
        } else if per_sec == 0 {
            u64::MAX as int
        } else {
            (2000 * n + per_sec) / (2 * per_sec)
        }
    }

    pub fn duration_ms(&self) -> (ms: u64)
        ensures
            self.spec_duration_ms() <= u64::MAX ==> ms == self.spec_duration_ms(),
            self.spec_duration_ms() > u64::MAX ==> ms == u64::MAX,
    {
        let n: u128 = self.samples.len() as u128;
        if n == 0 {
            return 0;
        }
        proof {
            assert(0 <= self.channels * self.sample_rate <= 0xffff * 0xffff_ffff)
                by (nonlinear_arith)
                requires
                    self.channels <= 0xffff,
                    self.sample_rate <= 0xffff_ffff,
            ;
        }
        let per_sec: u128 = self.channels as u128 * self.sample_rate as u128;
        if per_sec == 0 {
            return u64::MAX;
        }
        let ms: u128 = (2000 * n + per_sec) / (2 * per_sec);
        if ms > u64::MAX as u128 {
            u64::MAX
        } else {
            ms as u64
        }
    }
}

/// Whether packets stand in the order of their play times, each time once.
pub open spec fn by_play_time(packets: Seq<AudioPacket>) -> bool {
    forall|i: int, j: int|
        0 <= i < j < packets.len() ==> (#[trigger] packets[i]).play_at_ms < (
        #[trigger] packets[j]).play_at_ms
}

/// The packets that play before `t`.
pub open spec fn playing_before(packets: Seq<AudioPacket>, t: u64) -> Seq<AudioPacket> {
    packets.filter(|p: AudioPacket| p.play_at_ms < t)
}

/// The packets that play after `t`.
pub open spec fn playing_after(packets: Seq<AudioPacket>, t: u64) -> Seq<AudioPacket> {
    packets.filter(|p: AudioPacket| p.play_at_ms > t)
}

/// The packets that remain of too many: the earliest goes.
pub open spec fn within_cap(packets: Seq<AudioPacket>) -> Seq<AudioPacket> {
    if packets.len() > MAX_BUFFERED {
        packets.drop_first()
    } else {
        packets
    }
}

proof fn lemma_before_is_prefix(packets: Seq<AudioPacket>, i: int, t: u64)
    requires
        0 <= i <= packets.len(),
        forall|j: int| 0 <= j < i ==> (#[trigger] packets[j]).play_at_ms < t,
        forall|j: int| i <= j < packets.len() ==> (#[trigger] packets[j]).play_at_ms >= t,
    ensures
        playing_before(packets, t) == packets.take(i),
    decreases packets.len(),
{
    reveal(Seq::filter);
    if packets.len() == 0 {
        assert(playing_before(packets, t) =~= packets.take(i));
    } else {
        let init = packets.drop_last();
        if i == packets.len() {
            lemma_before_is_prefix(init, i - 1, t);
            assert(packets.take(i) =~= init.take(i - 1).push(packets.last()));
        } else {
            lemma_before_is_prefix(init, i, t);
            assert(packets.take(i) =~= init.take(i));
        }
    }
}

proof fn lemma_after_is_suffix(packets: Seq<AudioPacket>, i: int, t: u64)
    requires
        0 <= i <= packets.len(),
        forall|j: int| 0 <= j < i ==> (#[trigger] packets[j]).play_at_ms <= t,
        forall|j: int| i <= j < packets.len() ==> (#[trigger] packets[j]).play_at_ms > t,
    ensures
        playing_after(packets, t) == packets.skip(i),
    decreases packets.len(),
{
    reveal(Seq::filter);
    if packets.len() == 0 {
        assert(playing_after(packets, t) =~= packets.skip(i));
    } else {
        let init = packets.drop_last();
        if i == packets.len() {
            lemma_after_is_suffix(init, i - 1, t);
            assert(init.skip(i - 1) =~= Seq::<AudioPacket>::empty());
            assert(packets.skip(i) =~= Seq::<AudioPacket>::empty());
        } else {
            lemma_after_is_suffix(init, i, t);
            assert(packets.skip(i) =~= init.skip(i).push(packets.last()));
        }
    }
}

/// The jitter buffer of the active source.
pub struct BufState {
    /// Buffered packets, ordered by `play_at_ms`. Keeping one per play time (not
    /// per seq) dedups the server's redundant copies for free: they share a play
    /// time.
    pub packets: Vec<AudioPacket>,
    /// The (seq, play_at_ms) of the newest packet seen for the active source.
    /// Used only to detect a timeline shift: a newer seq scheduled *earlier* than
    /// this means the source re-anchored (or its lead shrank), so the buffered
    /// packets from the old timeline can be dropped. `None` until the first
    /// packet after a (re)selection.
    pub newest: Option<(u64, u64)>,
    /// Highest sequence number already pulled from the buffer. The server sends
    /// each packet several times for redundancy (same seq); once we've taken one
    /// copy, later-arriving copies are ignored silently rather than re-buffered
    /// and counted late. `None` until the first pull after a (re)selection.
    pub consumed_seq: Option<u64>,
}

impl BufState {
    /// The packets stand in the order of their play times, are not too many, and
    /// none is newer than the newest.
    pub open spec fn wf(&self) -> bool {
        &&& by_play_time(self.packets@)
        &&& self.packets@.len() <= MAX_BUFFERED
        &&& forall|i: int|
            0 <= i < self.packets@.len() ==> self.newest is Some && (
            #[trigger] self.packets@[i]).seq <= (self.newest->0).0
    }

    pub open spec fn is_blank(&self) -> bool {
        self.packets@.len() == 0 && self.newest is None && self.consumed_seq is None
    }

    pub fn new() -> (r: Self)
        ensures
            r.wf(),
            r.is_blank(),
    {
        BufState { packets: Vec::new(), newest: None, consumed_seq: None }
    }

    /// Forget everything, for a fresh start with another source.
    pub fn clear(&mut self)
        ensures
            final(self).wf(),
            final(self).is_blank(),
    {
        self.packets = Vec::new();
        self.newest = None;
        self.consumed_seq = None;
    }

    /// Whether the packet is a redundant copy (or straggler) of one that was
    /// already taken.
    pub open spec fn spent(&self, pkt: AudioPacket) -> bool {
        self.consumed_seq matches Some(cs) && pkt.seq <= cs
    }

    /// Whether the packet shows that the timeline has shifted: it is newer than
    /// the newest so far, but plays earlier.
    pub open spec fn shifts(&self, pkt: AudioPacket) -> bool {
        self.newest matches Some(n) && pkt.seq > n.0 && pkt.play_at_ms < n.1
    }

    /// The buffered packets with one more, in its place in time. Where it shows a
    /// timeline shift, every packet scheduled at or after it belongs to the
    /// abandoned timeline and goes; else it takes the place of one with the same
    /// play time.
    pub open spec fn with_packet(&self, pkt: AudioPacket) -> Seq<AudioPacket> {
        let t = pkt.play_at_ms;
        within_cap(
            playing_before(self.packets@, t).push(pkt) + if self.shifts(pkt) {
                Seq::empty()
            } else {
                playing_after(self.packets@, t)
            },
        )
    }

    /// The newest packet so far, once this one has come.
    pub open spec fn newest_with(&self, pkt: AudioPacket) -> Option<(u64, u64)> {
        if self.newest is None || pkt.seq >= (self.newest->0).0 {
            Some((pkt.seq, pkt.play_at_ms))
        } else {
            self.newest
        }
    }

    /// Whether the earliest packet was taken out of `before`: it is gone, and
    /// remembered as taken.
    pub open spec fn taken_from(&self, before: BufState) -> bool {
        &&& before.packets@.len() > 0
        &&& self.packets@ == before.packets@.drop_first()
        &&& self.newest == before.newest
        &&& self.consumed_seq == Some(
            if before.consumed_seq is Some && before.consumed_seq->0 > before.packets@[0].seq {
                before.consumed_seq->0
            } else {
                before.packets@[0].seq
            },
        )
    }

    /// Put a received packet into the buffer, unless it was already taken.
    /// Returns whether it was new.
    pub fn accept(&mut self, pkt: AudioPacket) -> (taken: bool)
        requires
            old(self).wf(),
        ensures
            final(self).wf(),
            taken == !old(self).spent(pkt),
            !taken ==> *final(self) == *old(self),
            taken ==> {
                &&& final(self).packets@ == old(self).with_packet(pkt)
                &&& final(self).consumed_seq == old(self).consumed_seq
                &&& final(self).newest == old(self).newest_with(pkt)
            },
    {
        if let Some(cs) = self.consumed_seq {
            if pkt.seq <= cs {
                return false;
            }
        }
        let t: u64 = pkt.play_at_ms;
        let ghost all = self.packets@;
        let ghost shifted = self.shifts(pkt);
        // Where the packet goes: after everything that plays before it.
        let mut at: usize = self.packets.len();
        while at > 0 && self.packets[at - 1].play_at_ms >= t
            invariant
                at <= self.packets@.len(),
                by_play_time(self.packets@),
                forall|j: int|
                    at <= j < self.packets@.len() ==> (#[trigger] self.packets@[j]).play_at_ms >= t,
            decreases at,
        {
            at = at - 1;
        }
        proof {
            assert forall|j: int| 0 <= j < at implies (#[trigger] all[j]).play_at_ms < t by {
                if j < at - 1 {
                    assert(all[j].play_at_ms < all[at - 1].play_at_ms);
                }
            }
            lemma_before_is_prefix(all, at as int, t);
        }
        let shift: bool = match self.newest {
            Some(n) => pkt.seq > n.0 && t < n.1,
            None => false,
        };
        let fresh: bool = match self.newest {
            Some(n) => pkt.seq >= n.0,
            None => true,
        };
        if fresh {
            self.newest = Some((pkt.seq, t));
        }
        let ghost p = pkt;
        if shift {
            self.packets.truncate(at);
            self.packets.push(pkt);
            proof {
                assert(self.packets@ =~= all.take(at as int).push(p) + Seq::<AudioPacket>::empty());
            }
        } else if at < self.packets.len() && self.packets[at].play_at_ms == t {
            self.packets.set(at, pkt);
            proof {
                assert forall|j: int| at < j < all.len() implies (#[trigger] all[j]).play_at_ms
                    > t by {
                    assert(all[at as int].play_at_ms < all[j].play_at_ms);
                }
                lemma_after_is_suffix(all, at + 1, t);
                assert(self.packets@ =~= all.take(at as int).push(p) + all.skip(at + 1));
            }
        } else {
            self.packets.insert(at, pkt);
            proof {
                assert forall|j: int| at <= j < all.len() implies (#[trigger] all[j]).play_at_ms
                    > t by {
                    if j > at {
                        assert(all[at as int].play_at_ms < all[j].play_at_ms);
                    }
                }
                lemma_after_is_suffix(all, at as int, t);
                assert(self.packets@ =~= all.take(at as int).push(p) + all.skip(at as int));
            }
        }
        let ghost full = self.packets@;
        proof {
            assert(by_play_time(full));
        }
        if self.packets.len() > MAX_BUFFERED {
            let _ = self.packets.remove(0);
            proof {
                assert(self.packets@ =~= full.drop_first());
            }
        }
        proof {
            assert(self.packets@ == within_cap(full));
        }
        true
    }

    /// Take the earliest packet out, and remember its seq, so its redundant copies
    /// arriving later are ignored instead of re-buffered and counted late.
    pub fn pull(&mut self) -> (r: Option<AudioPacket>)
        requires
            old(self).wf(),
        ensures
            final(self).wf(),
            match r {
                None => old(self).packets@.len() == 0 && *final(self) == *old(self),
                Some(p) => p == old(self).packets@[0] && final(self).taken_from(*old(self)),
            },
    {
        if self.packets.len() == 0 {
            return None;
        }
        let ghost all = self.packets@;
        let p: AudioPacket = self.packets.remove(0);
        proof {
            assert(self.packets@ =~= all.drop_first());
        }
        let seq: u64 = match self.consumed_seq {
            Some(c) => if c > p.seq {
                c
            } else {
                p.seq
            },
            None => p.seq,
        };
        self.consumed_seq = Some(seq);
        Some(p)
    }
}

/// What plays before and after a buffered packet stands before and after it.
proof fn lemma_own_place(all: Seq<AudioPacket>, i: int)
    requires
        by_play_time(all),
        0 <= i < all.len(),
    ensures
        playing_before(all, all[i].play_at_ms) == all.take(i),
        playing_after(all, all[i].play_at_ms) == all.skip(i + 1),
{
    let t = all[i].play_at_ms;
    assert forall|j: int| 0 <= j < i implies (#[trigger] all[j]).play_at_ms < t by {
        assert(all[j].play_at_ms < all[i].play_at_ms);
    }
    assert forall|j: int| i < j < all.len() implies (#[trigger] all[j]).play_at_ms > t by {
        assert(all[i].play_at_ms < all[j].play_at_ms);
    }
    lemma_before_is_prefix(all, i, t);
    lemma_after_is_suffix(all, i + 1, t);
}

/// An item between what stands before and after it makes the whole.
proof fn lemma_put_back<T>(all: Seq<T>, i: int)
    requires
        0 <= i < all.len(),
    ensures
        all.take(i).push(all[i]) + all.skip(i + 1) == all,
{
    assert(all.take(i).push(all[i]) + all.skip(i + 1) =~= all);
}

/// A copy of a packet that is still buffered changes nothing: it takes the
/// packet's own place, it shifts no timeline, and the newest seq stays the newest,
/// at its play time unless two packets have that seq at different times.
pub proof fn repeated_packets_change_nothing(b: BufState, pkt: AudioPacket)
    requires
        b.wf(),
        b.packets@.contains(pkt),
    ensures
        b.with_packet(pkt) == b.packets@,
        !b.shifts(pkt),
        (b.newest_with(pkt)->0).0 == (b.newest->0).0,
        pkt.seq < (b.newest->0).0 || pkt.play_at_ms == (b.newest->0).1 ==> b.newest_with(pkt)
            == b.newest,
{
    let all = b.packets@;
    let i = choose|i: int| 0 <= i < all.len() && all[i] == pkt;
    assert(all[i].seq <= (b.newest->0).0);
    assert(!b.shifts(pkt));
    assert(b.with_packet(pkt) == all) by {
        lemma_own_place(all, i);
        lemma_put_back(all, i);
    }
}

/// Once a packet has been taken, every copy of it that comes later is ignored, and
/// so is every copy of those taken before it.
pub proof fn taken_packets_never_return(before: BufState, after: BufState, copy: AudioPacket)
    requires
        after.taken_from(before),
    ensures
        copy.seq == before.packets@[0].seq ==> after.spent(copy),
        before.spent(copy) ==> after.spent(copy),
{
}

/// After a timeline shift nothing of the old timeline is left that would play
/// after the new packet: it is the last of all.
pub proof fn shift_drops_old_timeline(b: BufState, pkt: AudioPacket)
    requires
        b.wf(),
        b.shifts(pkt),
    ensures
        b.with_packet(pkt).len() > 0,
        b.with_packet(pkt).last() == pkt,
        forall|i: int|
            0 <= i < b.with_packet(pkt).len() - 1 ==> (#[trigger] b.with_packet(pkt)[i]).play_at_ms
                < pkt.play_at_ms,
{
    broadcast use Seq::lemma_filter_pred;

    let w = b.with_packet(pkt);
    let early = playing_before(b.packets@, pkt.play_at_ms);
    assert forall|i: int| 0 <= i < w.len() - 1 implies (#[trigger] w[i]).play_at_ms
        < pkt.play_at_ms by {
        let j = i + (early.len() + 1 - w.len());
        assert(w[i] == early[j]);
    }
}

/// Duration of a packet's audio, computed from its encoded size without decoding
/// it (bytes / bytes-per-frame / rate).
pub open spec fn packet_flicks(pkt: AudioPacket) -> int {
    let ch = if pkt.channels < 1 {
        1
    } else {
        pkt.channels as int
    };
    let rate = if pkt.sample_rate < 1 {
        1
    } else {
        pkt.sample_rate as int
    };
    (pkt.data@.len() as int / (pkt.format.width() * ch)) * FLICKS_PER_SEC / rate
}

/// Flicks that a number of frames take, rounded down.
pub fn frames_to_millis(frames: usize, sample_rate: u32) -> (r: Millis)
    requires
        sample_rate > 0,
    ensures
        r.flicks == frames * FLICKS_PER_SEC / (sample_rate as int),
        0 <= r.flicks,
        r.modest(),
{
    let total: i128 = frames as i128 * FLICKS_PER_SEC;
    let rate: i128 = sample_rate as i128;
    proof {
        div_mod::lemma_div_pos_is_pos(total as int, rate as int);
        div_mod::lemma_div_is_ordered_by_denominator(total as int, 1, rate as int);
        div_mod::lemma_div_basics(total as int);
    }
    Millis { flicks: total / rate }
}

pub fn packet_duration_ms(pkt: &AudioPacket) -> (r: Millis)
    ensures
        r.flicks == packet_flicks(*pkt),
        0 <= r.flicks,
        r.modest(),
{
    let ch: usize = if pkt.channels < 1 {
        1
    } else {
        pkt.channels as usize
    };
    let rate: u32 = if pkt.sample_rate < 1 {
        1
    } else {
        pkt.sample_rate
    };
    let w: usize = pkt.format.bytes_per_sample();
    proof {
        assert(0 < w * ch <= 0x4_0000) by (nonlinear_arith)
            requires
                0 < w <= 4,
                0 < ch <= 0xffff,
        ;
    }
    let frames: usize = pkt.data.len() / (w * ch);
    frames_to_millis(frames, rate)
}

/// Whether a packet lies wholly in the past: its last sample should have played
/// before `now` (server clock).
pub open spec fn wholly_past(pkt: AudioPacket, delay_ms: u32, now: Millis) -> bool {
    Millis::spec_whole(pkt.play_at_ms as int) - Millis::spec_whole(delay_ms as int) + packet_flicks(
        pkt,
    ) < now.flicks
}

/// What there is to play.
#[derive(Debug)]
pub enum Pulled {
    /// Nothing buffered for the active source.
    Nothing,
    /// A packet was dropped as wholly late; there may be more.
    Late,
    /// The next chunk, its samples as words of the format.
    Ready(PlayChunk<u32>, WireFormat),
}

/// Whether the chunk holds the packet's samples.
pub open spec fn decoded_from(chunk: PlayChunk<u32>, pkt: AudioPacket) -> bool {
    &&& chunk.samples@ == pkt.format.decoded(pkt.data@)
    &&& chunk.channels == pkt.channels
    &&& chunk.sample_rate == pkt.sample_rate
    &&& chunk.play_at_ms == pkt.play_at_ms
    &&& chunk.channel_ids == pkt.channel_ids
}

/// The receiving end: the jitter buffer and whose packets go into it.
pub struct NetworkSource {
    pub buf: BufState,
    /// Source id whose packets we currently accept; 0 = none. Set by the selection
    /// watcher.
    pub active_source_id: u64,
}

impl NetworkSource {
    pub open spec fn wf(&self) -> bool {
        self.buf.wf()
    }

    /// Nothing plays until a source is selected.
    pub fn new() -> (r: Self)
        ensures
            r.wf(),
            r.buf.is_blank(),
            r.active_source_id == 0,
    {
        NetworkSource { buf: BufState::new(), active_source_id: 0 }
    }

    /// Whether a packet is for us: something is selected, the clock has warmed up,
    /// and the packet belongs to the selected source.
    pub open spec fn wants(&self, pkt: AudioPacket, clock_ready: bool) -> bool {
        self.active_source_id != 0 && clock_ready && pkt.source_id == self.active_source_id
    }

    /// Take in a received packet. Returns whether it was put in the buffer (and
    /// the player should be woken).
    ///
    /// Nothing is buffered until the clock warmup is complete: with no trustworthy
    /// play-at reference yet, packets would only pile up and be dropped/late once
    /// playback starts. Packets from a source we aren't currently playing (e.g.
    /// lingering datagrams from a group we just left) are rejected.
    pub fn receive(
        &mut self,
        pkt: AudioPacket,
        clock_ready: bool,
        metrics: &mut DeviceMetrics,
    ) -> (stored: bool)
        requires
            old(self).wf(),
        ensures
            final(self).wf(),
            final(self).active_source_id == old(self).active_source_id,
            stored == (old(self).wants(pkt, clock_ready) && !old(self).buf.spent(pkt)),
            !stored ==> final(self).buf == old(self).buf,
            stored ==> {
                &&& final(self).buf.packets@ == old(self).buf.with_packet(pkt)
                &&& final(self).buf.consumed_seq == old(self).buf.consumed_seq
                &&& final(self).buf.newest == old(self).buf.newest_with(pkt)
            },
            ({
                let counted = DeviceMetrics {
                    packets_received: old(metrics).packets_received.wrapping_add(1),
                    ..*old(metrics)
                };
                *final(metrics) == if !old(self).wants(pkt, clock_ready) {
                    *old(metrics)
                } else if stored {
                    DeviceMetrics {
                        jitter_buffer_len: final(self).buf.packets@.len() as u32,
                        ..counted
                    }
                } else {
                    counted
                }
            }),
    {
        if self.active_source_id == 0 || !clock_ready || pkt.source_id != self.active_source_id {
            return false;
        }
        metrics.record_packet_received();
        if !self.buf.accept(pkt) {
            return false;
        }
        metrics.set_jitter_buffer_len(self.buf.packets.len());
        true
    }

    /// Pull the earliest buffered packet for the active source, if there is one.
    pub fn pull_next(&mut self, metrics: &mut DeviceMetrics) -> (r: Option<AudioPacket>)
        requires
            old(self).wf(),
        ensures
            final(self).wf(),
            final(self).active_source_id == old(self).active_source_id,
            r is Some <==> old(self).active_source_id != 0 && old(self).buf.packets@.len() > 0,
            match r {
                None => final(self).buf == old(self).buf && *final(metrics) == *old(metrics),
                Some(p) => {
                    &&& p == old(self).buf.packets@[0]
                    &&& final(self).buf.taken_from(old(self).buf)
                    &&& *final(metrics) == (DeviceMetrics {
                        jitter_buffer_len: final(self).buf.packets@.len() as u32,
                        ..*old(metrics)
                    })
                },
            },
    {
        if self.active_source_id == 0 {
            return None;
        }
        let r: Option<AudioPacket> = self.buf.pull();
        if r.is_some() {
            metrics.set_jitter_buffer_len(self.buf.packets.len());
        }
        r
    }

    /// Whether the earliest packet was pulled from `before`, if there is one: dropped
    /// if it is wholly late, else decoded.
    pub open spec fn pulls(
        &self,
        before: NetworkSource,
        delay_ms: u32,
        now: Millis,
        metrics: DeviceMetrics,
        counted: DeviceMetrics,
        r: Pulled,
    ) -> bool {
        let first = before.buf.packets@[0];
        let some = before.active_source_id != 0 && before.buf.packets@.len() > 0;
        let pulled = DeviceMetrics {
            jitter_buffer_len: self.buf.packets@.len() as u32,
            ..metrics
        };
        &&& self.active_source_id == before.active_source_id
        &&& some ==> self.buf.taken_from(before.buf)
        &&& !some ==> self.buf == before.buf
        &&& match r {
            Pulled::Nothing => !some && counted == metrics,
            Pulled::Late => some && wholly_past(first, delay_ms, now) && counted == (
            DeviceMetrics { late_drops: metrics.late_drops.wrapping_add(1), ..pulled }),
            Pulled::Ready(chunk, format) => some && !wholly_past(first, delay_ms, now)
                && decoded_from(chunk, first) && format == first.format && counted == pulled,
        }
    }

    /// The next block of samples, once the clock has a full warmup estimate. Until
    /// then nothing starts (or resumes after a server switch): playing against a
    /// not-yet-settled offset would jump.
    pub fn next_when_ready(
        &mut self,
        clock_ready: bool,
        delay_ms: u32,
        now: Millis,
        metrics: &mut DeviceMetrics,
    ) -> (r: Pulled)
        requires
            old(self).wf(),
        ensures
            final(self).wf(),
            if clock_ready {
                final(self).pulls(*old(self), delay_ms, now, *old(metrics), *final(metrics), r)
            } else {
                r is Nothing && *final(self) == *old(self) && *final(metrics) == *old(metrics)
            },
    {
        if !clock_ready {
            return Pulled::Nothing;
        }
        self.next_samples(delay_ms, now, metrics)
    }

    /// The next block of samples for the active source: the earliest buffered
    /// packet, decoded, tagged with its `play_at`. This is a plain jitter buffer:
    /// it does no play-time regulation; the player loop decides when (and whether)
    /// to append each chunk against the real output-queue depth.
    ///
    /// A packet already wholly in the past (e.g. a backlog after a stall) is
    /// dropped without decoding it. Partial-late handling, cropping the
    /// still-on-time tail, is done by the player loop.
    pub fn next_samples(
        &mut self,
        delay_ms: u32,
        now: Millis,
        metrics: &mut DeviceMetrics,
    ) -> (r: Pulled)
        requires
            old(self).wf(),
        ensures
            final(self).wf(),
            final(self).pulls(*old(self), delay_ms, now, *old(metrics), *final(metrics), r),
    {
        match self.pull_next(metrics) {
            None => Pulled::Nothing,
            Some(pkt) => {
                let end: i128 = Millis::whole(pkt.play_at_ms).flicks - Millis::whole(
                    delay_ms as u64,
                ).flicks + packet_duration_ms(&pkt).flicks;
                if end < now.flicks {
                    metrics.record_late_drop();
                    return Pulled::Late;
                }
                let format: WireFormat = pkt.format;
                Pulled::Ready(
                    PlayChunk {
                        samples: format.decode(&pkt.data),
                        channels: pkt.channels,
                        sample_rate: pkt.sample_rate,
                        play_at_ms: pkt.play_at_ms,
                        channel_ids: pkt.channel_ids,
                    },
                    format,
                )
            },
        }
    }
}

/// What the selection watcher has set up.
pub struct SelectionWatcher {
    pub epoch: u64,
    pub joined_group: Option<u32>,
    pub active_id: u64,
    /// The server whose clock the current selection is timed against. When it
    /// changes, the clock offset is unrelated, so it is reset immediately (rather
    /// than waiting for the sync thread to notice) to avoid a stale-offset pile-up.
    pub active_server: Option<u32>,
}

impl SelectionWatcher {
    pub fn new() -> (r: Self)
        ensures
            r.epoch == 0,
            r.joined_group is None,
            r.active_id == 0,
            r.active_server is None,
    {
        SelectionWatcher { epoch: 0, joined_group: None, active_id: 0, active_server: None }
    }

    /// A group is joined exactly while a source plays, and the receiver accepts
    /// that source's packets.
    pub open spec fn wf(&self, net: NetworkSource) -> bool {
        &&& net.wf()
        &&& net.active_source_id == self.active_id
        &&& self.joined_group is Some <==> self.active_id != 0
        &&& self.active_server is Some <==> self.active_id != 0
    }

    /// Whether exactly this source already plays.
    pub open spec fn plays(&self, selected: u64, rs: ResolvedSource) -> bool {
        self.active_id == selected && self.joined_group is Some && self.joined_group->0
            == wire::ip_of(rs.entry.group@)
    }

    /// The group to join before the switch, so its start isn't missed.
    pub fn group_to_join(&self, resolved: &Option<ResolvedSource>) -> (r: Option<u32>)
        ensures
            match *resolved {
                None => r is None,
                Some(rs) => if self.joined_group is Some && self.joined_group->0 == wire::ip_of(
                    rs.entry.group@,
                ) {
                    r is None
                } else {
                    r is Some && r->0 == wire::ip_of(rs.entry.group@)
                },
            },
    {
        match resolved {
            None => None,
            Some(rs) => {
                let group: u32 = ip_from(&rs.entry.group);
                match self.joined_group {
                    Some(g) if g == group => None,
                    _ => Some(group),
                }
            },
        }
    }

    /// React to the selection and to what the catalog says of it: reset the jitter
    /// buffer, re-point the clock sync at the owning server, and say which group to
    /// leave. `resolved` is how to reach the selected source, if something is
    /// selected and it is in the catalog (yet).
    pub fn step(
        &mut self,
        selected: u64,
        resolved: &Option<ResolvedSource>,
        net: &mut NetworkSource,
        settings: &mut ClientSettings,
        target: &mut SyncTarget,
        clock: &mut SyncedClock,
        metrics: &mut DeviceMetrics,
        now_ms: u64,
    ) -> (leave: Option<u32>)
        requires
            old(self).wf(*old(net)),
            old(clock).wf(),
            resolved is Some ==> selected != 0,
        ensures
            final(self).wf(*final(net)),
            final(clock).wf(),
            final(self).epoch == old(self).epoch,
            match *resolved {
                Some(rs) => {
                    let group = wire::ip_of(rs.entry.group@);
                    &&& final(target).inner == Some((rs.server_ip, rs.sync_port))
                    &&& final(settings)@ == old(settings)@.with_lead(rs.entry.lead_ms)
                    &&& final(self).active_id == selected
                    &&& final(self).joined_group is Some
                    &&& final(self).joined_group->0 == group
                    &&& if old(self).plays(selected, rs) {
                        &&& leave is None
                        &&& final(self).active_server == old(self).active_server
                        &&& *final(net) == *old(net)
                        &&& *final(clock) == *old(clock)
                        &&& *final(metrics) == *old(metrics)
                    } else {
                        &&& leave == if old(self).joined_group is Some
                            && old(self).joined_group->0 != group {
                            old(self).joined_group
                        } else {
                            None
                        }
                        &&& final(self).active_server == Some(rs.server_ip)
                        &&& final(net).buf.is_blank()
                        &&& if old(self).active_server == Some(rs.server_ip) {
                            *final(clock) == *old(clock)
                        } else {
                            final(clock).blank() && final(clock).last_local_ms == now_ms
                        }
                        &&& *final(metrics) == (DeviceMetrics {
                            jitter_buffer_len: 0,
                            sample_rate: rs.entry.sample_rate,
                            channels: rs.entry.channels,
                            ..*old(metrics)
                        })
                    }
                },
                None => {
                    &&& *final(clock) == *old(clock)
                    &&& final(settings)@ == old(settings)@
                    &&& final(self).active_id == 0
                    &&& leave == old(self).joined_group
                    &&& if old(self).active_id != 0 {
                        &&& final(net).buf.is_blank()
                        &&& final(target).inner is None
                        &&& *final(metrics) == (DeviceMetrics {
                            jitter_buffer_len: 0,
                            ..*old(metrics)
                        })
                    } else {
                        &&& *final(net) == *old(net)
                        &&& *final(target) == *old(target)
                        &&& *final(metrics) == *old(metrics)
                    }
                },
            },
    {
        match resolved {
            Some(rs) => {
                let group: u32 = ip_from(&rs.entry.group);
                let same_group: bool = match self.joined_group {
                    Some(g) => g == group,
                    None => false,
                };
                // Already playing this exact source: just refresh the sync target
                // and the delay cap (the source's lead may have changed live).
                if self.active_id == selected && same_group {
                    target.set(rs.server_ip, rs.sync_port);
                    settings.set_active_lead(rs.entry.lead_ms);
                    return None;
                }
                // Switching to a different server: its clock offset differs, so
                // drop the old estimate now.
                let same_server: bool = match self.active_server {
                    Some(s) => s == rs.server_ip,
                    None => false,
                };
                if !same_server {
                    clock.reset(now_ms);
                    self.active_server = Some(rs.server_ip);
                }
                net.active_source_id = selected;
                net.buf.clear();
                metrics.set_jitter_buffer_len(0);
                let leave: Option<u32> = if same_group {
                    None
                } else {
                    self.joined_group
                };
                self.joined_group = Some(group);
                self.active_id = selected;
                target.set(rs.server_ip, rs.sync_port);
                settings.set_active_lead(rs.entry.lead_ms);
                metrics.set_format(rs.entry.sample_rate, rs.entry.channels);
                leave
            },
            None => {
                // Off, or the selected id isn't in the catalog (yet). Go silent.
                let leave: Option<u32> = self.joined_group;
                if self.active_id != 0 || self.joined_group.is_some() {
                    net.active_source_id = 0;
                    net.buf.clear();
                    metrics.set_jitter_buffer_len(0);
                    self.joined_group = None;
                    self.active_id = 0;
                    self.active_server = None;
                    target.clear();
                }
                leave
            },
        }
    }
}

/// Only what was already taken, or comes no later in the stream than something that
/// was, is refused: every packet with a higher seq than all that were taken is new.
pub proof fn unheard_packets_are_new(b: BufState, pkt: AudioPacket)
    ensures
        b.consumed_seq is None ==> !b.spent(pkt),
        b.consumed_seq matches Some(c) ==> (pkt.seq > c ==> !b.spent(pkt)) && (pkt.seq <= c
            ==> b.spent(pkt)),
{
}

/// Where the packets that play at `t` stand among those in order.
proof fn lemma_split(packets: Seq<AudioPacket>, t: u64) -> (r: (int, int))
    requires
        by_play_time(packets),
    ensures
        0 <= r.0 <= r.1 <= packets.len(),
        forall|j: int| 0 <= j < r.0 ==> (#[trigger] packets[j]).play_at_ms < t,
        forall|j: int| r.0 <= j < r.1 ==> (#[trigger] packets[j]).play_at_ms == t,
        forall|j: int| r.1 <= j < packets.len() ==> (#[trigger] packets[j]).play_at_ms > t,
        playing_before(packets, t) == packets.take(r.0),
        playing_after(packets, t) == packets.skip(r.1),
{
    let (i, j) = lemma_split_of(packets, t);
    lemma_before_is_prefix(packets, i, t);
    lemma_after_is_suffix(packets, j, t);
    (i, j)
}

proof fn lemma_split_of(packets: Seq<AudioPacket>, t: u64) -> (r: (int, int))
    requires
        by_play_time(packets),
    ensures
        0 <= r.0 <= r.1 <= packets.len(),
        forall|j: int| 0 <= j < r.0 ==> (#[trigger] packets[j]).play_at_ms < t,
        forall|j: int| r.0 <= j < r.1 ==> (#[trigger] packets[j]).play_at_ms == t,
        forall|j: int| r.1 <= j < packets.len() ==> (#[trigger] packets[j]).play_at_ms > t,
    decreases packets.len(),
{
    if packets.len() == 0 {
        (0, 0)
    } else {
        let init = packets.drop_last();
        assert(by_play_time(init)) by {
            assert forall|i: int, j: int| 0 <= i < j < init.len() implies (
            #[trigger] init[i]).play_at_ms < (#[trigger] init[j]).play_at_ms by {
                assert(packets[i].play_at_ms < packets[j].play_at_ms);
            }
        }
        let n = init.len() as int;
        let before = lemma_split_of(init, t);
        assert forall|j: int| 0 <= j < n implies #[trigger] packets[j] == init[j] by {}
        assert forall|j: int| 0 <= j < n implies (#[trigger] packets[j]).play_at_ms
            < packets[n].play_at_ms by {}
        if packets[n].play_at_ms < t {
            assert(before.0 == n) by {
                if before.0 < n {
                    assert(packets[before.0] == init[before.0]);
                    assert(packets[before.0].play_at_ms >= t);
                }
            }
            (n + 1, n + 1)
        } else if packets[n].play_at_ms == t {
            assert(before.0 == n) by {
                if before.0 < n {
                    assert(packets[before.0] == init[before.0]);
                    assert(packets[before.0].play_at_ms >= t);
                }
            }
            (n, n + 1)
        } else {
            before
        }
    }
}

/// Where the packets of a buffer stand once one more has come: those before it, the
/// packet, and those after it, less the earliest of all if they are too many.
proof fn lemma_placed(b: BufState, pkt: AudioPacket) -> (r: (int, int, int))
    requires
        b.wf(),
    ensures
        ({
            let all = b.packets@;
            let w = b.with_packet(pkt);
            let (lo, hi, drop) = r;
            &&& 0 <= lo <= hi <= all.len() <= 2000
            &&& forall|j: int| 0 <= j < lo ==> (#[trigger] all[j]).play_at_ms < pkt.play_at_ms
            &&& forall|j: int| lo <= j < hi ==> (#[trigger] all[j]).play_at_ms == pkt.play_at_ms
            &&& forall|j: int|
                hi <= j < all.len() ==> (#[trigger] all[j]).play_at_ms > pkt.play_at_ms
            &&& drop == 0 || (drop == 1 && all.len() == 2000 && lo == hi)
            &&& 0 < w.len() <= 2000
            &&& w.len() == lo + 1 - drop + if b.shifts(pkt) {
                0
            } else {
                all.len() - hi
            }
            &&& forall|i: int| 0 <= i < lo - drop ==> #[trigger] w[i] == all[i + drop]
            &&& drop <= lo ==> w[lo - drop] == pkt
            &&& forall|i: int|
                lo - drop < i < w.len() ==> #[trigger] w[i] == all[hi + i + drop - lo - 1]
        }),
{
    let all = b.packets@;
    let (lo, hi) = lemma_split(all, pkt.play_at_ms);
    let after = if b.shifts(pkt) {
        Seq::<AudioPacket>::empty()
    } else {
        all.skip(hi)
    };
    let whole = all.take(lo).push(pkt) + after;
    let w = b.with_packet(pkt);
    if whole.len() > 2000 {
        assert(w == whole.drop_first());
        (lo, hi, 1)
    } else {
        assert(w == whole);
        (lo, hi, 0)
    }
}

/// The packet that comes in is in the buffer, and nothing else is that was not there
/// before. Only the earliest of all may have to go, and only once there are two
/// thousand. What plays before the packet stays.
pub proof fn new_packets_are_buffered(b: BufState, pkt: AudioPacket, q: AudioPacket)
    requires
        b.wf(),
        b.packets@.contains(q),
    ensures
        ({
            let w = b.with_packet(pkt);
            let full = b.packets@.len() >= 2000;
            &&& 0 < w.len() <= 2000
            &&& w.contains(pkt) || (full && pkt.play_at_ms < b.packets@[0].play_at_ms)
            &&& q.play_at_ms < pkt.play_at_ms ==> w.contains(q) || (full && q == b.packets@[0])
            &&& forall|i: int|
                0 <= i < w.len() && #[trigger] w[i] != pkt ==> b.packets@.contains(w[i])
        }),
{
    let all = b.packets@;
    let w = b.with_packet(pkt);
    let (lo, hi, drop) = lemma_placed(b, pkt);
    if drop <= lo {
        assert(w[lo - drop] == pkt);
    } else {
        assert(all[0].play_at_ms > pkt.play_at_ms);
    }
    let k = choose|k: int| 0 <= k < all.len() && all[k] == q;
    if q.play_at_ms < pkt.play_at_ms {
        assert(k < lo);
        if k >= drop {
            assert(w[k - drop] == q);
        }
    }
    assert forall|i: int| 0 <= i < w.len() && #[trigger] w[i] != pkt implies all.contains(
        w[i],
    ) by {
        if i < lo - drop {
            assert(w[i] == all[i + drop]);
        } else {
            assert(w[i] == all[hi + i + drop - lo - 1]);
        }
    }
}

/// What plays after the packet that comes in stays, unless that packet is newer than
/// the newest and yet plays earlier than that one: all that plays later then goes.
/// One of the same play time is replaced.
pub proof fn later_packets_stay_unless_the_timeline_shifts(
    b: BufState,
    pkt: AudioPacket,
    q: AudioPacket,
)
    requires
        b.wf(),
        b.packets@.contains(q),
    ensures
        ({
            let w = b.with_packet(pkt);
            let shifted = b.newest is Some && pkt.seq > (b.newest->0).0 && pkt.play_at_ms < (
            b.newest->0).1;
            &&& q.play_at_ms > pkt.play_at_ms ==> (w.contains(q) <==> !shifted)
            &&& q.play_at_ms == pkt.play_at_ms && q != pkt ==> !w.contains(q)
        }),
{
    let all = b.packets@;
    let w = b.with_packet(pkt);
    let t = pkt.play_at_ms;
    let (lo, hi, drop) = lemma_placed(b, pkt);
    let k = choose|k: int| 0 <= k < all.len() && all[k] == q;
    if q.play_at_ms > t && !b.shifts(pkt) {
        assert(k >= hi);
        let at = lo + 1 + k - hi - drop;
        assert(w[at] == q);
    } else if q.play_at_ms >= t && q != pkt {
        assert forall|i: int| 0 <= i < w.len() implies #[trigger] w[i] != q by {
            if i < lo - drop {
                assert(w[i] == all[i + drop]);
            } else if i > lo - drop {
                assert(w[i] == all[hi + i + drop - lo - 1]);
                assert(w[i].play_at_ms > t);
            }
        }
    }
}

/// The packets stay in the order of their play times, each time once.
pub proof fn packets_stay_in_order(b: BufState, pkt: AudioPacket, i: int, j: int)
    requires
        b.wf(),
        0 <= i < j < b.with_packet(pkt).len(),
    ensures
        b.with_packet(pkt)[i].play_at_ms < b.with_packet(pkt)[j].play_at_ms,
{
    let all = b.packets@;
    let w = b.with_packet(pkt);
    let (lo, hi, drop) = lemma_placed(b, pkt);
    if i < lo - drop {
        assert(w[i] == all[i + drop]);
    } else if i > lo - drop {
        assert(w[i] == all[hi + i + drop - lo - 1]);
    }
    if j < lo - drop {
        assert(w[j] == all[j + drop]);
    } else if j > lo - drop {
        assert(w[j] == all[hi + j + drop - lo - 1]);
    }
}

/// The first packet of all is buffered alone.
pub proof fn first_packet_is_buffered(b: BufState, pkt: AudioPacket)
    requires
        b.packets@.len() == 0,
    ensures
        b.with_packet(pkt) == seq![pkt],
{
    lemma_before_is_prefix(b.packets@, 0, pkt.play_at_ms);
    lemma_after_is_suffix(b.packets@, 0, pkt.play_at_ms);
    assert(b.with_packet(pkt) =~= seq![pkt]);
}

/// The newest packet is the one with the highest seq of all that came, with its own
/// play time.
pub proof fn newest_has_the_highest_seq(b: BufState, pkt: AudioPacket)
    ensures
        b.newest_with(pkt) is Some,
        (b.newest_with(pkt)->0).0 >= pkt.seq,
        b.newest matches Some(n) ==> (b.newest_with(pkt)->0).0 >= n.0,
        b.newest_with(pkt) == Some((pkt.seq, pkt.play_at_ms)) || b.newest_with(pkt) == b.newest,
        b.newest matches Some(n) ==> pkt.seq == n.0 ==> b.newest_with(pkt) == Some(
            (pkt.seq, pkt.play_at_ms),
        ),
{
}

/// Packets are taken in the order of their play times, one at a time, and what is
/// remembered as taken only grows.
pub proof fn packets_are_taken_in_order(before: BufState, after: BufState)
    requires
        before.wf(),
        after.taken_from(before),
    ensures
        after.packets@.len() == before.packets@.len() - 1,
        forall|i: int|
            0 <= i < after.packets@.len() ==> #[trigger] after.packets@[i] == before.packets@[i + 1]
                && after.packets@[i].play_at_ms > before.packets@[0].play_at_ms,
        after.newest == before.newest,
        after.consumed_seq is Some,
        after.consumed_seq->0 >= before.packets@[0].seq,
        before.consumed_seq matches Some(c) ==> after.consumed_seq->0 >= c,
        after.consumed_seq->0 == before.packets@[0].seq || after.consumed_seq
            == before.consumed_seq,
{
}

/// A buffer holds each play time once, in order, and at most two thousand packets.
pub proof fn buffers_are_ordered(b: BufState, i: int, j: int)
    requires
        b.wf(),
        0 <= i < j < b.packets@.len(),
    ensures
        b.packets@[i].play_at_ms < b.packets@[j].play_at_ms,
        b.packets@.len() <= 2000,
        b.newest is Some,
        b.packets@[i].seq <= (b.newest->0).0,
{
}

/// Nothing is taken in while nothing is selected, before the clock is ready, or of
/// another source; all else is.
pub proof fn only_the_selected_source_is_wanted(
    n: NetworkSource,
    pkt: AudioPacket,
    clock_ready: bool,
)
    ensures
        n.active_source_id == 0 ==> !n.wants(pkt, clock_ready),
        !clock_ready ==> !n.wants(pkt, clock_ready),
        pkt.source_id != n.active_source_id ==> !n.wants(pkt, clock_ready),
        pkt.source_id != 0 && pkt.source_id == n.active_source_id ==> n.wants(pkt, true),
{
}

/// A packet of whole frames lasts as long as its frames do at its rate, short of a
/// flick.
pub proof fn packet_lasts_its_frames(pkt: AudioPacket, frames: int)
    requires
        pkt.channels > 0,
        pkt.sample_rate > 0,
        0 <= frames,
        pkt.data@.len() == frames * (pkt.format.width() * pkt.channels),
    ensures
        packet_flicks(pkt) * pkt.sample_rate <= frames * 705_600_000 < (packet_flicks(pkt) + 1)
            * pkt.sample_rate,
{
    let w = pkt.format.width() * pkt.channels;
    let rate = pkt.sample_rate as int;
    assert(w > 0) by (nonlinear_arith)
        requires
            w == pkt.format.width() * pkt.channels,
            pkt.format.width() > 0,
            pkt.channels > 0,
    ;
    assert(frames * w == w * frames) by (nonlinear_arith);
    div_mod::lemma_div_multiples_vanish(frames, w);
    let x = frames * 705_600_000;
    let q = x / rate;
    div_mod::lemma_fundamental_div_mod(x, rate);
    assert(q * rate <= x < (q + 1) * rate) by (nonlinear_arith)
        requires
            x == rate * q + x % rate,
            0 <= x % rate < rate,
    ;
}

/// A packet is wholly past exactly when its last sample should have played: one that
/// has yet to begin never is, one that is over is, and a delay that a client adds for
/// its own hardware brings that time forward by as much.
pub proof fn packets_pass_when_they_end(pkt: AudioPacket, delay_ms: u32, now: Millis)
    requires
        packet_flicks(pkt) >= 0,
    ensures
        ({
            let start = 705_600 * (pkt.play_at_ms - delay_ms);
            &&& now.flicks <= start ==> !wholly_past(pkt, delay_ms, now)
            &&& now.flicks <= start + packet_flicks(pkt) ==> !wholly_past(pkt, delay_ms, now)
            &&& now.flicks > start + packet_flicks(pkt) ==> wholly_past(pkt, delay_ms, now)
        }),
{
}

/// The earliest packet of the selected source is what comes out, whole and unchanged;
/// it is dropped only when its end is past, and counted. Where there is none, nothing
/// happens.
pub proof fn pulled_chunks_are_the_packets(
    before: NetworkSource,
    after: NetworkSource,
    delay_ms: u32,
    now: Millis,
    metrics: DeviceMetrics,
    counted: DeviceMetrics,
    r: Pulled,
)
    requires
        before.wf(),
        after.pulls(before, delay_ms, now, metrics, counted, r),
        metrics.late_drops < u64::MAX,
    ensures
        r is Nothing <==> before.active_source_id == 0 || before.buf.packets@.len() == 0,
        r is Nothing ==> after == before && counted == metrics,
        r !is Nothing ==> {
            let p = before.buf.packets@[0];
            let end = 705_600 * (p.play_at_ms - delay_ms) + packet_flicks(p);
            &&& after.buf.packets@.len() == before.buf.packets@.len() - 1
            &&& !after.buf.packets@.contains(p)
            &&& after.active_source_id == before.active_source_id
            &&& r is Late <==> end < now.flicks
            &&& r is Late ==> counted.late_drops == metrics.late_drops + 1
            &&& r matches Pulled::Ready(chunk, format) ==> {
                &&& counted.late_drops == metrics.late_drops
                &&& format == p.format
                &&& chunk.samples@ == p.format.decoded(p.data@)
                &&& chunk.channels == p.channels
                &&& chunk.sample_rate == p.sample_rate
                &&& chunk.play_at_ms == p.play_at_ms
                &&& chunk.channel_ids == p.channel_ids
            }
            &&& counted.underruns == metrics.underruns
            &&& counted.packets_received == metrics.packets_received
        },
{
    if r !is Nothing {
        let p = before.buf.packets@[0];
        assert forall|i: int| 0 <= i < after.buf.packets@.len() implies #[trigger] after.buf
            .packets@[i] != p by {
            assert(after.buf.packets@[i] == before.buf.packets@[i + 1]);
            assert(before.buf.packets@[0].play_at_ms < before.buf.packets@[i + 1].play_at_ms);
        }
    }
}

/// A chunk lasts as long as its samples do, to within half a millisecond.
pub proof fn chunk_duration_is_nearest<T>(c: PlayChunk<T>)
    requires
        c.channels > 0,
        c.sample_rate > 0,
    ensures
        ({
            let per_sec = c.channels * c.sample_rate;
            let n = c.samples@.len() as int;
            -per_sec <= 2 * (c.spec_duration_ms() * per_sec - 1000 * n) <= per_sec
        }),
{
    let per_sec = c.channels * c.sample_rate;
    let n = c.samples@.len() as int;
    assert(per_sec > 0) by (nonlinear_arith)
        requires
            per_sec == c.channels * c.sample_rate,
            c.channels > 0,
            c.sample_rate > 0,
    ;
    if n == 0 {
        assert(0 * per_sec == 0) by (nonlinear_arith);
    } else {
        let x = 2000 * n + per_sec;
        let d = 2 * per_sec;
        let q = x / d;
        div_mod::lemma_fundamental_div_mod(x, d);
        assert(-per_sec <= 2 * (q * per_sec - 1000 * n) <= per_sec) by (nonlinear_arith)
            requires
                x == d * q + x % d,
                0 <= x % d < d,
                x == 2000 * n + per_sec,
                d == 2 * per_sec,
        ;
    }
}

/// A blank buffer holds no packet and refuses none.
pub proof fn blank_buffers_refuse_nothing(b: BufState, pkt: AudioPacket)
    requires
        b.is_blank(),
    ensures
        b.packets@.len() == 0,
        b.newest is None,
        !b.spent(pkt),
        !b.shifts(pkt),
{
}

/// A group is joined exactly while a source plays, and what is received is that
/// source's; a source plays only from the group that it is announced under.
pub proof fn watcher_joins_what_it_plays(
    w: SelectionWatcher,
    net: NetworkSource,
    selected: u64,
    rs: ResolvedSource,
)
    requires
        w.wf(net),
    ensures
        w.joined_group is Some <==> w.active_id != 0,
        w.active_server is Some <==> w.active_id != 0,
        net.active_source_id == w.active_id,
        w.plays(selected, rs) ==> w.active_id == selected && w.joined_group is Some
            && w.joined_group->0 == wire::ip_of(rs.entry.group@),
        w.active_id == selected && (w.joined_group matches Some(g) && g == wire::ip_of(
            rs.entry.group@,
        )) ==> w.plays(selected, rs),
{
}

} // verus!
