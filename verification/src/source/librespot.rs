//! Pacing of a Spotify Connect receiver.
//!
//! The decoder writes packets as fast as it decodes and relies on the output
//! blocking to pace playback (a real audio backend blocks on the device). There is
//! no such device here, so packets are paced to realtime; otherwise an entire track
//! would be decoded instantly. Times are a monotonic clock's nanoseconds.
use vstd::prelude::*;

use crate::source::Format;

verus! {

/// The receiver always decodes stereo.
pub const NUM_CHANNELS: u16 = 2;

/// The receiver always decodes at this rate.
pub const SAMPLE_RATE: u32 = 44_100;

/// How long so many samples play, in nanoseconds, to the nearest.
pub open spec fn play_time(samples: int) -> int {
    let frames = samples / 2;
    (2 * frames * 1_000_000_000 + 44_100) / 88_200
}

/// A sum of times, cut at the end of the clock.
pub open spec fn later(t: int, span: int) -> int {
    if t + span > u64::MAX {
        u64::MAX as int
    } else {
        t + span
    }
}

/// The format of what the receiver decodes.
pub fn receiver_format() -> (r: Format)
    ensures
        r == (Format { channels: NUM_CHANNELS, sample_rate: SAMPLE_RATE }),
{
    Format { channels: NUM_CHANNELS, sample_rate: SAMPLE_RATE }
}

/// Paces packets to realtime.
#[derive(Debug, Clone, Copy, PartialEq, Eq, Structural)]
pub struct Pacer {
    /// The time by which the next packet should have been emitted. `None` before
    /// the first packet and after a stop, so pacing restarts cleanly across
    /// pauses/seeks rather than trying to "catch up".
    pub next_deadline: Option<u64>,
}

impl Pacer {
    pub fn new() -> (r: Self)
        ensures
            r.next_deadline is None,
    {
        Pacer { next_deadline: None }
    }

    /// Forget the pacing clock, so a resume/seek doesn't try to catch up.
    pub fn reset(&mut self)
        ensures
            final(self).next_deadline is None,
    {
        self.next_deadline = None;
    }

    /// When a packet that is ready at `now` is emitted: no sooner than the
    /// deadline. The first one, and one that has fallen behind, goes out at once.
    pub open spec fn emitted(self, now: u64) -> int {
        match self.next_deadline {
            Some(d) if d > now => d as int,
            _ => now as int,
        }
    }

    /// How long to sleep before emitting a packet of so many samples; the deadline
    /// moves on by the packet's own duration. An empty packet is not paced.
    pub fn pace(&mut self, now: u64, samples: usize) -> (sleep: u64)
        ensures
            samples == 0 ==> sleep == 0 && *final(self) == *old(self),
            samples > 0 ==> {
                &&& sleep == old(self).emitted(now) - now
                &&& final(self).next_deadline is Some
                &&& final(self).next_deadline->0 == later(
                    old(self).emitted(now),
                    play_time(samples as int),
                )
            },
    {
        if samples == 0 {
            return 0;
        }
        let at: u64 = match self.next_deadline {
            Some(d) if d > now => d,
            _ => now,
        };
        let frames: u128 = (samples / 2) as u128;
        let span: u128 = (2 * frames * 1_000_000_000 + 44_100) / 88_200;
        let next: u128 = at as u128 + span;
        self.next_deadline =
        Some(
            if next > u64::MAX as u128 {
                u64::MAX
            } else {
                next as u64
            },
        );
        at - now
    }
}

/// Packets never run ahead of realtime: the one after a packet is emitted no
/// sooner than that packet has played, while the clock lasts.
pub proof fn packets_keep_realtime(p: Pacer, q: Pacer, now: u64, samples: int, after: u64)
    requires
        q.next_deadline is Some,
        q.next_deadline->0 == later(p.emitted(now), play_time(samples)),
        p.emitted(now) + play_time(samples) <= u64::MAX,
    ensures
        q.emitted(after) >= p.emitted(now) + play_time(samples),
{
}

/// Samples play for as long as their frames (two samples each, 44100 a second) do, to
/// within half a nanosecond.
pub proof fn play_time_is_nearest(frames: int)
    requires
        frames >= 0,
    ensures
        -44_100 <= 2 * (play_time(2 * frames) * 44_100 - frames * 1_000_000_000) <= 44_100,
{
}

/// A packet is emitted neither before it is ready nor before its deadline, and no later
/// than it must be.
pub proof fn packets_wait_for_their_deadline(p: Pacer, now: u64)
    ensures
        p.emitted(now) >= now,
        p.next_deadline matches Some(d) ==> p.emitted(now) >= d && (p.emitted(now) == now
            || p.emitted(now) == d),
        p.next_deadline is None ==> p.emitted(now) == now,
{
}

/// Times add up, as far as the clock goes.
pub proof fn times_add_up(t: int, span: int)
    ensures
        t + span <= u64::MAX ==> later(t, span) == t + span,
        t + span > u64::MAX ==> later(t, span) == u64::MAX,
{
}

} // verus!
