//! The client playback stack.
//!
//! A client plays the source selected for it from the web UI aligned to each
//! packet's play-at timestamp, and routes source channels to the output
//! device's channels per the client-owned channel map. This module decides:
//! where a chunk goes in the output queue, which samples feed which output
//! channel, and which identity the device has.
use vstd::arithmetic::div_mod;
use vstd::prelude::*;

use crate::catalog;
use crate::catalog::{fnv1a, to_le};
use crate::clients;
use crate::clients::{mac_hex, parse_mac_hex};
use crate::metrics::DeviceMetrics;
use crate::order;
use crate::order::order_named;
use crate::source::network::{frames_to_millis, PlayChunk};
use crate::sync::ClientSettings;
use crate::text;
use crate::text::{chars_of, same_text, text_of, trim_chars};
use crate::units::{Millis, FLICKS_PER_MS, FLICKS_PER_SEC};
use crate::wire;
use crate::wire::{ip_from, ControlCommand};

verus! {

/// How often each client sends its telemetry + settings to the servers (~10 Hz).
pub const TELEMETRY_INTERVAL_MS: u64 = 100;

/// Target depth of the realtime player queue, in flicks (60 ms). This is the
/// *only* thing the cushion controls: how much decoded audio sits in the output
/// queue (for jitter absorption on the output side). The rest of the delay
/// budget stays in the network jitter buffer. The total latency is fixed by the
/// delay setting, not by this value.
pub const TARGET_PLAY_QUEUE: i128 = 60 * FLICKS_PER_MS;

/// A chunk within this long of its target play time is treated as on time (3 ms).
pub const LATE_LEEWAY: i128 = 3 * FLICKS_PER_MS;

/// Cap on a single scheduling sleep (2 s), so a bad clock estimate can't wedge
/// the player loop for long.
pub const MAX_SLEEP: i128 = 2000 * FLICKS_PER_MS;

/// How to place a decoded chunk into the realtime player queue.
#[derive(Debug, Clone, Copy, PartialEq, Eq, Structural)]
pub struct Placement {
    /// Sleep this long before appending (pace the queue / wait for the target).
    pub wait_ms: Millis,
    /// Crop this much off the chunk's front (already-past audio); `0` = none.
    pub crop_ms: Millis,
    /// Drop the chunk entirely: it's wholly behind the queue's play position.
    pub drop: bool,
    /// Server-clock time the (surviving) first sample will actually play at.
    pub start_ms: Millis,
    /// Server-clock time the queue ends after appending (unused when `drop`).
    pub new_queue_end: Millis,
}

/// A sleep brought into 0 to [`MAX_SLEEP`].
pub open spec fn bounded_sleep(flicks: int) -> int {
    if flicks < 0 {
        0
    } else if flicks > MAX_SLEEP {
        MAX_SLEEP as int
    } else {
        flicks
    }
}

/// Whether the queue still holds audio, and holds it up to the chunk's target:
/// the chunk then plays right after it.
pub open spec fn follows_queue(now: int, target: int, queue_end: Option<Millis>) -> bool {
    queue_end is Some && queue_end->0.flicks > now + LATE_LEEWAY && queue_end->0.flicks >= target
        - LATE_LEEWAY
}

/// How long to sleep before appending a chunk.
pub open spec fn wait_before(now: int, target: int, queue_end: Option<Millis>) -> int {
    if follows_queue(now, target, queue_end) {
        bounded_sleep(queue_end->0.flicks - TARGET_PLAY_QUEUE - now)
    } else {
        bounded_sleep(target - now)
    }
}

/// When the chunk's place in the queue begins to play.
pub open spec fn play_start(now: int, target: int, queue_end: Option<Millis>) -> int {
    if follows_queue(now, target, queue_end) {
        queue_end->0.flicks as int
    } else {
        now + wait_before(now, target, queue_end)
    }
}

/// How much of a chunk of length `dur` that would start `lateness` after its
/// target is cropped off its front.
pub open spec fn crop_of(lateness: int, dur: int) -> int {
    if LATE_LEEWAY < lateness < dur {
        lateness
    } else {
        0
    }
}

fn bound_sleep(flicks: i128) -> (r: i128)
    ensures
        r == bounded_sleep(flicks as int),
{
    if flicks < 0 {
        0
    } else if flicks > MAX_SLEEP {
        MAX_SLEEP
    } else {
        flicks
    }
}

/// Decide how to place a chunk of length `dur` whose first sample should play at
/// `target` (server clock) into a realtime player queue that currently ends at
/// `queue_end` (`None` = empty), keeping the queue about [`TARGET_PLAY_QUEUE`]
/// deep.
///
/// The queue plays FIFO at realtime, so an appended chunk plays right after the
/// audio already queued: at `queue_end` if the queue is non-empty, else whenever
/// we append. That fixes the play time regardless of *when* we append, so the
/// only ways to change latency are to wait (let the queue drain / delay the start)
/// or to crop/drop (shed audio when the queue runs later than the target). `now`
/// is the current server clock; sleeps are capped at [`MAX_SLEEP`].
pub fn schedule_chunk(now: Millis, target: Millis, dur: Millis, queue_end: Option<Millis>) -> (p:
    Placement)
    requires
        now.sane(),
        target.sane(),
        dur.sane(),
        queue_end matches Some(q) ==> q.sane(),
    ensures
        p.wait_ms.flicks == wait_before(now.flicks as int, target.flicks as int, queue_end),
        p.start_ms.flicks == play_start(now.flicks as int, target.flicks as int, queue_end),
        ({
            let lateness = p.start_ms.flicks - target.flicks;
            &&& p.drop <==> lateness > LATE_LEEWAY && lateness >= dur.flicks
            &&& p.crop_ms.flicks == crop_of(lateness, dur.flicks as int)
            &&& p.new_queue_end.flicks == if p.drop {
                p.start_ms.flicks as int
            } else {
                p.start_ms.flicks + dur.flicks - p.crop_ms.flicks
            }
        }),
        p.drop ==> p.start_ms.flicks >= target.flicks + dur.flicks && p.start_ms.flicks
            > target.flicks + 3 * 705_600,
        !p.drop ==> p.start_ms.flicks <= target.flicks + p.crop_ms.flicks + 3 * 705_600,
        !p.drop ==> p.new_queue_end.flicks <= target.flicks + dur.flicks + 3 * 705_600,
{
    let gap: (i128, i128) = match queue_end {
        // Queue still has audio, and it ends at/after this chunk's target: append
        // right after it, paced so the queue drains toward the cushion first.
        // Appending later doesn't change the play time, so waiting only bounds
        // the queue depth.
        Some(qe) if qe.flicks > now.flicks + LATE_LEEWAY && qe.flicks >= target.flicks
            - LATE_LEEWAY => {
            (bound_sleep(qe.flicks - TARGET_PLAY_QUEUE - now.flicks), qe.flicks)
        },
        // Empty queue, or a gap (queued audio ends before the target): (re)start
        // playback exactly at the target. Wait until that time (the queue drains
        // to silence meanwhile); if we're already late, `start` runs past `target`.
        _ => {
            let w: i128 = bound_sleep(target.flicks - now.flicks);
            (w, now.flicks + w)
        },
    };
    let wait: i128 = gap.0;
    let start: i128 = gap.1;
    let lateness: i128 = start - target.flicks;
    if lateness > LATE_LEEWAY {
        if lateness >= dur.flicks {
            // The whole chunk is behind the queue's play position: drop it.
            return Placement {
                wait_ms: Millis { flicks: wait },
                crop_ms: Millis { flicks: 0 },
                drop: true,
                start_ms: Millis { flicks: start },
                new_queue_end: Millis { flicks: start },
            };
        }
        // Crop the already-past front; the survivor plays on time at `start`.
        return Placement {
            wait_ms: Millis { flicks: wait },
            crop_ms: Millis { flicks: lateness },
            drop: false,
            start_ms: Millis { flicks: start },
            new_queue_end: Millis { flicks: start + (dur.flicks - lateness) },
        };
    }
    Placement {
        wait_ms: Millis { flicks: wait },
        crop_ms: Millis { flicks: 0 },
        drop: false,
        start_ms: Millis { flicks: start },
        new_queue_end: Millis { flicks: start + dur.flicks },
    }
}

/// A chunk that is kept plays on time: its first surviving sample is never later
/// than the leeway, and, unless the sleep was cut short by its cap, never
/// earlier; a cropped chunk plays exactly on time and ends where it would have.
pub proof fn kept_chunk_plays_on_time(now: int, target: int, dur: int, queue_end: Option<Millis>)
    ensures
        ({
            let start = play_start(now, target, queue_end);
            let lateness = start - target;
            let crop = crop_of(lateness, dur);
            let kept = !(lateness > LATE_LEEWAY && lateness >= dur);
            &&& kept ==> start - (target + crop) <= LATE_LEEWAY
            &&& wait_before(now, target, queue_end) < MAX_SLEEP ==> start - (target + crop)
                >= -LATE_LEEWAY
            &&& crop > 0 ==> start == target + crop && start + dur - crop == target + dur
        }),
{
}

/// Clients play in step: however their queues stand, two that both keep a chunk and
/// have the same delay set play each of its samples within twice the leeway of one
/// another, as the server's clock goes (unless a sleep was cut short by its cap).
/// `offset` is how far into the chunk the sample lies.
pub proof fn clients_play_in_step(
    target: int,
    dur: int,
    offset: int,
    now_a: int,
    queue_a: Option<Millis>,
    now_b: int,
    queue_b: Option<Millis>,
)
    requires
        ({
            let late_a = play_start(now_a, target, queue_a) - target;
            let late_b = play_start(now_b, target, queue_b) - target;
            &&& !(late_a > LATE_LEEWAY && late_a >= dur)
            &&& !(late_b > LATE_LEEWAY && late_b >= dur)
            &&& crop_of(late_a, dur) <= offset
            &&& crop_of(late_b, dur) <= offset
        }),
        wait_before(now_a, target, queue_a) < MAX_SLEEP,
        wait_before(now_b, target, queue_b) < MAX_SLEEP,
    ensures
        ({
            let start_a = play_start(now_a, target, queue_a);
            let start_b = play_start(now_b, target, queue_b);
            let at_a = start_a + offset - crop_of(start_a - target, dur);
            let at_b = start_b + offset - crop_of(start_b - target, dur);
            -2 * LATE_LEEWAY <= at_a - at_b <= 2 * LATE_LEEWAY
        }),
{
    kept_chunk_plays_on_time(now_a, target, dur, queue_a);
    kept_chunk_plays_on_time(now_b, target, dur, queue_b);
}

/// The steady state is stable: where the queue ends exactly at a chunk's target,
/// the chunk plays exactly then, uncropped, and the queue ends exactly at the
/// target of the chunk after it.
pub proof fn steady_state_keeps_time(now: int, target: int, dur: int, queue_end: Millis)
    requires
        queue_end.flicks == target,
        target > now + LATE_LEEWAY,
        dur > 0,
    ensures
        play_start(now, target, Some(queue_end)) == target,
        crop_of(0, dur) == 0,
        play_start(now, target, Some(queue_end)) + dur == target + dur,
        wait_before(now, target, Some(queue_end)) <= target - now,
{
}

/// Waiting never lets the queue run below its target depth: when the sleep is
/// over, a queue that reached the chunk still holds what it held or at least
/// [`TARGET_PLAY_QUEUE`].
pub proof fn wait_keeps_cushion(now: int, target: int, queue_end: Millis)
    requires
        follows_queue(now, target, Some(queue_end)),
    ensures
        ({
            let left = queue_end.flicks - (now + wait_before(now, target, Some(queue_end)));
            left >= TARGET_PLAY_QUEUE || left == queue_end.flicks - now
        }),
{
}

// Channel routing.

/// The source channel that feeds output channel `o`; negative is silence. An
/// empty map is the identity.
pub open spec fn wanted_channel(map: Seq<i16>, o: int) -> int {
    if map.len() == 0 {
        o
    } else if o < map.len() {
        map[o] as int
    } else {
        -1
    }
}

/// Whether `i` is the first place at which source channel `want` is present.
pub open spec fn is_place(ids: Seq<u16>, want: int, i: int) -> bool {
    &&& 0 <= i < ids.len()
    &&& ids[i] == want
    &&& forall|j: int| 0 <= j < i ==> ids[j] != want
}

/// Where source channel `want` stands among the channels that are present;
/// negative where it is absent. Empty `ids` stands for the whole stream.
pub open spec fn present_at(ids: Seq<u16>, src_ch: int, want: int) -> int {
    if want < 0 {
        -1
    } else if ids.len() == 0 {
        if want < src_ch {
            want
        } else {
            -1
        }
    } else if exists|i: int| is_place(ids, want, i) && i < src_ch {
        choose|i: int| is_place(ids, want, i) && i < src_ch
    } else {
        -1
    }
}

/// The routed samples: frame by frame, each output channel's source sample, or
/// silence.
pub open spec fn routed<T>(
    samples: Seq<T>,
    src_ch: int,
    out_ch: int,
    map: Seq<i16>,
    ids: Seq<u16>,
    silence: T,
) -> Seq<T> {
    if src_ch <= 0 || out_ch <= 0 {
        Seq::empty()
    } else {
        Seq::new(
            (samples.len() as int / src_ch * out_ch) as nat,
            |k: int|
                routed_sample(samples, src_ch, map, ids, silence, k / out_ch, k % out_ch),
        )
    }
}

/// The sample that output channel `o` plays in frame `f`.
pub open spec fn routed_sample<T>(
    samples: Seq<T>,
    src_ch: int,
    map: Seq<i16>,
    ids: Seq<u16>,
    silence: T,
    f: int,
    o: int,
) -> T {
    let p = present_at(ids, src_ch, wanted_channel(map, o));
    if p < 0 {
        silence
    } else {
        samples[f * src_ch + p]
    }
}

/// Where the sample of output channel `o` stands within a frame, if anywhere.
fn find_channel(map: &[i16], ids: &[u16], src_ch: usize, o: usize) -> (p: Option<usize>)
    ensures
        match p {
            Some(i) => i < src_ch && i == present_at(
                ids@,
                src_ch as int,
                wanted_channel(map@, o as int),
            ),
            None => present_at(ids@, src_ch as int, wanted_channel(map@, o as int)) < 0,
        },
{
    let want: i128 = if map.len() == 0 {
        o as i128
    } else if o < map.len() {
        map[o] as i128
    } else {
        -1
    };
    if want < 0 {
        return None;
    }
    if ids.len() == 0 {
        if want < src_ch as i128 {
            return Some(want as usize);
        }
        return None;
    }
    let mut i: usize = 0;
    while i < ids.len()
        invariant
            i <= ids@.len(),
            forall|j: int| 0 <= j < i ==> ids@[j] != want,
        ensures
            (i < ids@.len() && is_place(ids@, want as int, i as int)) || (i == ids@.len() && forall|
                j: int,
            |
                0 <= j < ids@.len() ==> ids@[j] != want),
        decreases ids@.len() - i,
    {
        if ids[i] as i128 == want {
            break;
        }
        i = i + 1;
    }
    if i < ids.len() {
        proof {
            assert(is_place(ids@, want as int, i as int));
            assert forall|k: int| is_place(ids@, want as int, k) implies k == i by {}
        }
        if i < src_ch {
            return Some(i);
        }
    }
    None
}

/// Route interleaved `samples` (`src_ch` channels physically present) into a new
/// interleaved buffer of `out_ch` channels. `map` holds one *source*-channel index
/// per output channel (`-1`, or out of range, = silence); an empty `map` is the
/// default identity mapping (output channel i plays source channel i).
///
/// `channel_ids` gives the source-channel index of each channel present in
/// `samples`, in order; empty means the full contiguous stream (present channel i
/// is source channel i). In unicast mode the server may send only the subset of
/// source channels a client plays, so a requested source channel is looked up
/// through `channel_ids` to its physical position (not present = silence).
pub fn remap_channels<T: Copy>(
    samples: &[T],
    src_ch: usize,
    out_ch: usize,
    map: &[i16],
    channel_ids: &[u16],
    silence: T,
) -> (out: Vec<T>)
    requires
        src_ch > 0 ==> samples@.len() as int / (src_ch as int) * out_ch <= usize::MAX,
    ensures
        out@ == routed(samples@, src_ch as int, out_ch as int, map@, channel_ids@, silence),
{
    let mut out: Vec<T> = Vec::new();
    if src_ch == 0 || out_ch == 0 {
        return out;
    }
    let frames: usize = samples.len() / src_ch;
    // Which position within a frame feeds each output channel.
    let mut feeds: Vec<Option<usize>> = Vec::new();
    let mut o: usize = 0;
    while o < out_ch
        invariant
            o <= out_ch,
            feeds@.len() == o,
            forall|k: int|
                0 <= k < o ==> match #[trigger] feeds@[k] {
                    Some(i) => i < src_ch && i == present_at(
                        channel_ids@,
                        src_ch as int,
                        wanted_channel(map@, k),
                    ),
                    None => present_at(channel_ids@, src_ch as int, wanted_channel(map@, k)) < 0,
                },
        decreases out_ch - o,
    {
        feeds.push(find_channel(map, channel_ids, src_ch, o));
        o = o + 1;
    }
    let ghost full = routed(
        samples@,
        src_ch as int,
        out_ch as int,
        map@,
        channel_ids@,
        silence,
    );
    let mut f: usize = 0;
    proof {
        assert(0int * out_ch == 0) by (nonlinear_arith);
        div_mod::lemma_fundamental_div_mod(samples@.len() as int, src_ch as int);
        assert(frames * src_ch <= samples@.len()) by (nonlinear_arith)
            requires
                samples@.len() == src_ch * frames + samples@.len() as int % (src_ch as int),
                0 <= samples@.len() as int % (src_ch as int),
        ;
    }
    while f < frames
        invariant
            out_ch > 0,
            src_ch > 0,
            f <= frames,
            frames == samples@.len() as int / (src_ch as int),
            frames * src_ch <= samples@.len() <= usize::MAX,
            frames * out_ch <= usize::MAX,
            feeds@.len() == out_ch,
            forall|k: int|
                0 <= k < out_ch ==> match #[trigger] feeds@[k] {
                    Some(i) => i < src_ch && i == present_at(
                        channel_ids@,
                        src_ch as int,
                        wanted_channel(map@, k),
                    ),
                    None => present_at(channel_ids@, src_ch as int, wanted_channel(map@, k)) < 0,
                },
            full == routed(
                samples@,
                src_ch as int,
                out_ch as int,
                map@,
                channel_ids@,
                silence,
            ),
            out@.len() == f * out_ch,
            forall|k: int| 0 <= k < out@.len() ==> #[trigger] out@[k] == full[k],
        decreases frames - f,
    {
        proof {
            assert(f * src_ch + src_ch <= frames * src_ch && f * out_ch + out_ch <= frames
                * out_ch) by (nonlinear_arith)
                requires
                    f + 1 <= frames,
            ;
        }
        let base: usize = f * src_ch;
        let mut c: usize = 0;
        while c < out_ch
            invariant
                c <= out_ch,
                out_ch > 0,
                f < frames,
                base == f * src_ch,
                base + src_ch <= samples@.len() <= usize::MAX,
                f * out_ch + out_ch <= frames * out_ch,
                frames == samples@.len() as int / (src_ch as int),
                feeds@.len() == out_ch,
                forall|k: int|
                    0 <= k < out_ch ==> match #[trigger] feeds@[k] {
                        Some(i) => i < src_ch && i == present_at(
                            channel_ids@,
                            src_ch as int,
                            wanted_channel(map@, k),
                        ),
                        None => present_at(channel_ids@, src_ch as int, wanted_channel(map@, k))
                            < 0,
                    },
                full == routed(
                    samples@,
                    src_ch as int,
                    out_ch as int,
                    map@,
                    channel_ids@,
                    silence,
                ),
                src_ch > 0,
                out@.len() == f * out_ch + c,
                forall|k: int| 0 <= k < out@.len() ==> #[trigger] out@[k] == full[k],
            decreases out_ch - c,
        {
            let s: T = match feeds[c] {
                Some(i) => samples[base + i],
                None => silence,
            };
            proof {
                div_mod::lemma_fundamental_div_mod_converse(
                    f * out_ch + c,
                    out_ch as int,
                    f as int,
                    c as int,
                );
                assert(full[f * out_ch + c] == routed_sample(
                    samples@,
                    src_ch as int,
                    map@,
                    channel_ids@,
                    silence,
                    f as int,
                    c as int,
                ));
            }
            out.push(s);
            c = c + 1;
        }
        proof {
            assert(f * out_ch + out_ch == (f + 1) * out_ch) by (nonlinear_arith);
        }
        f = f + 1;
    }
    proof {
        assert(out@ =~= full);
    }
    out
}

/// With the default map and as many outputs as the source has channels, whole
/// frames pass through unchanged.
pub proof fn identity_map_is_transparent<T>(samples: Seq<T>, ch: int, silence: T)
    requires
        ch > 0,
    ensures
        routed(samples, ch, ch, Seq::empty(), Seq::empty(), silence) == samples.take(
            samples.len() as int / ch * ch,
        ),
{
    let out = routed(samples, ch, ch, Seq::empty(), Seq::empty(), silence);
    let n = samples.len() as int / ch * ch;
    div_mod::lemma_fundamental_div_mod(samples.len() as int, ch);
    div_mod::lemma_div_pos_is_pos(samples.len() as int, ch);
    assert(n <= samples.len() && 0 <= n) by (nonlinear_arith)
        requires
            n == samples.len() as int / ch * ch,
            samples.len() == ch * (samples.len() as int / ch) + samples.len() as int % ch,
            0 <= samples.len() as int % ch,
            0 <= samples.len() as int / ch,
            ch > 0,
    ;
    assert forall|k: int| 0 <= k < n implies out[k] == samples[k] by {
        div_mod::lemma_fundamental_div_mod(k, ch);
        assert(k / ch * ch + k % ch == k) by (nonlinear_arith)
            requires
                k == ch * (k / ch) + k % ch,
        ;
        assert(0 <= k % ch < ch);
    }
    assert(out =~= samples.take(n));
}

// The playback loop.

/// What to do with a chunk.
#[derive(Debug)]
pub enum PlayStep<T> {
    /// Nothing to play in it, or a malformed format.
    Skip,
    /// Sleep; the chunk is wholly late and shed.
    Late { sleep_ms: u64 },
    /// Sleep; nothing is left of the chunk once its past front is cropped off.
    Spent { sleep_ms: u64 },
    /// Sleep, and append these samples to the player queue.
    Append { sleep_ms: u64, samples: Vec<T> },
}

/// The playback loop's model of the output queue.
pub struct Player {
    /// Whether anything was fed, so a never-yet-fed empty queue isn't miscounted as
    /// an underrun.
    pub started: bool,
    /// Server-clock time at which the audio currently in the player queue will
    /// finish playing, i.e. when a freshly appended chunk would begin. `None` when
    /// the queue is (or has drained) empty.
    pub queue_end: Option<Millis>,
}

/// The channels of a chunk, at least one.
pub open spec fn width_of(channels: u16) -> int {
    if channels < 1 {
        1
    } else {
        channels as int
    }
}

/// How long `samples` interleaved samples play, in flicks.
pub open spec fn chunk_flicks(samples: int, channels: u16, sample_rate: u32) -> int {
    (samples / width_of(channels)) * FLICKS_PER_SEC / (sample_rate as int)
}

/// The sleep that a wait asks for: whole milliseconds, and none up to one.
pub open spec fn sleep_of(wait: int) -> int {
    if wait > FLICKS_PER_MS {
        Millis::spec_floor_ms(wait)
    } else {
        0
    }
}

/// How many frames a span to crop covers, to the nearest (halves up).
pub open spec fn cropped_frames(crop: int, sample_rate: u32) -> int {
    (2 * crop * sample_rate + FLICKS_PER_SEC) / (2 * FLICKS_PER_SEC)
}

/// What is left of a chunk when its past front is cropped off.
pub open spec fn uncropped<T>(
    samples: Seq<T>,
    crop: int,
    channels: u16,
    sample_rate: u32,
) -> Seq<T> {
    let n = cropped_frames(crop, sample_rate) * width_of(channels);
    samples.skip(
        if n < samples.len() {
            n
        } else {
            samples.len() as int
        },
    )
}

/// The metrics once a chunk has come: the queue's depth, whether it ran dry, and
/// how long a packet is.
pub open spec fn noted(m: DeviceMetrics, started: bool, queued: usize, chunk: int) -> DeviceMetrics {
    DeviceMetrics {
        output_queue_len: queued as u32,
        underruns: if started && queued == 0 {
            m.underruns.wrapping_add(1)
        } else {
            m.underruns
        },
        packet_ms: Millis {
            flicks: if chunk < FLICKS_PER_MS {
                FLICKS_PER_MS
            } else {
                chunk as i128
            },
        },
        ..m
    }
}

/// The metrics with one more late chunk.
pub open spec fn counted_late(m: DeviceMetrics) -> DeviceMetrics {
    DeviceMetrics { late_drops: m.late_drops.wrapping_add(1), ..m }
}

impl Player {
    pub open spec fn wf(&self) -> bool {
        self.queue_end matches Some(q) ==> q.sane()
    }

    pub fn new() -> (r: Self)
        ensures
            r.wf(),
            !r.started,
            r.queue_end is None,
    {
        Player { started: false, queue_end: None }
    }

    /// Nothing came in time: whatever was queued has been or will be played.
    pub fn idle(&mut self, metrics: &mut DeviceMetrics)
        ensures
            final(self).wf(),
            *final(self) == (Player { queue_end: None, ..*old(self) }),
            *final(metrics) == (DeviceMetrics { output_queue_len: 0, ..*old(metrics) }),
    {
        metrics.set_output_queue_len(0);
        self.queue_end = None;
    }

    /// Decide when (and whether) to append a chunk so its first sample plays at
    /// exactly `play_at - delay`, keeping the player queue about
    /// [`TARGET_PLAY_QUEUE`] deep, and route its channels to the output's.
    ///
    /// `queued` is the real depth of the player queue: it is the ground truth, so
    /// when it has fully drained the model of its end is stale, and the next chunk
    /// (re)anchors playback.
    pub fn place<T: Copy>(
        &mut self,
        chunk: PlayChunk<T>,
        queued: usize,
        now: Millis,
        delay_ms: u32,
        out_channels: u16,
        map: &Vec<i16>,
        silence: T,
        metrics: &mut DeviceMetrics,
    ) -> (r: PlayStep<T>)
        requires
            old(self).wf(),
            now.sane(),
            chunk.samples@.len() * 0x1_0000 <= usize::MAX,
        ensures
            final(self).wf(),
            r is Append || r is Spent ==> final(self).queue_end is Some
                && final(self).queue_end->0.flicks <= 705_600 * (chunk.play_at_ms - delay_ms)
                + chunk_flicks(
                chunk.samples@.len() as int,
                chunk.channels,
                chunk.sample_rate,
            ) + 3 * 705_600,
            r is Skip <==> chunk.samples@.len() == 0 || chunk.sample_rate == 0 || out_channels == 0,
            ({
                let len = chunk.samples@.len() as int;
                let ignored = len == 0 || chunk.sample_rate == 0 || out_channels == 0;
                let dur = chunk_flicks(len, chunk.channels, chunk.sample_rate);
                let target = Millis::spec_whole(chunk.play_at_ms as int) - Millis::spec_whole(
                    delay_ms as int,
                );
                let queue_end = if queued == 0 {
                    None
                } else {
                    old(self).queue_end
                };
                let sleep = sleep_of(wait_before(now.flicks as int, target, queue_end));
                let start = play_start(now.flicks as int, target, queue_end);
                let lateness = start - target;
                let crop = crop_of(lateness, dur);
                let rest = uncropped(
                    chunk.samples@,
                    crop,
                    chunk.channels,
                    chunk.sample_rate,
                );
                let seen = noted(*old(metrics), old(self).started, queued, dur);
                let told = if crop > 0 {
                    counted_late(seen)
                } else {
                    seen
                };
                if ignored {
                    r is Skip && *final(self) == *old(self) && *final(metrics) == *old(metrics)
                } else if lateness > LATE_LEEWAY && lateness >= dur {
                    &&& r is Late
                    &&& r->Late_sleep_ms == sleep
                    &&& *final(self) == (Player { queue_end, ..*old(self) })
                    &&& *final(metrics) == counted_late(seen)
                } else {
                    &&& final(self).queue_end is Some
                    &&& final(self).queue_end->0.flicks == start + dur - crop
                    &&& if rest.len() == 0 {
                        &&& r is Spent
                        &&& r->Spent_sleep_ms == sleep
                        &&& final(self).started == old(self).started
                        &&& *final(metrics) == told
                    } else {
                        let routed_samples = routed(
                            rest,
                            chunk.channels as int,
                            out_channels as int,
                            map@,
                            chunk.channel_ids@,
                            silence,
                        );
                        &&& r is Append
                        &&& r->Append_sleep_ms == sleep
                        &&& r->samples@ == routed_samples
                        &&& final(self).started
                        &&& *final(metrics) == (DeviceMetrics {
                            source_delay_ms: Millis {
                                flicks: (Millis::spec_whole(chunk.play_at_ms as int)
                                    - start) as i128,
                            },
                            ..told
                        }).appended(routed_samples.len() as usize)
                    }
                }
            }),
    {
        let len: usize = chunk.samples.len();
        if len == 0 || chunk.sample_rate == 0 || out_channels == 0 {
            return PlayStep::Skip;
        }
        metrics.set_output_queue_len(queued);
        if self.started && queued == 0 {
            metrics.record_underrun();
        }
        if queued == 0 {
            self.queue_end = None;
        }
        let src_channels: usize = if chunk.channels < 1 {
            1
        } else {
            chunk.channels as usize
        };
        let frames: usize = len / src_channels;
        let dur: Millis = frames_to_millis(frames, chunk.sample_rate);
        metrics.set_packet_ms(
            if dur.flicks < FLICKS_PER_MS {
                Millis { flicks: FLICKS_PER_MS }
            } else {
                dur
            },
        );
        let play_at: Millis = Millis::whole(chunk.play_at_ms);
        let target: Millis = Millis {
            flicks: play_at.flicks - Millis::whole(delay_ms as u64).flicks,
        };
        let sched: Placement = schedule_chunk(now, target, dur, self.queue_end);
        let sleep_ms: u64 = if sched.wait_ms.flicks > FLICKS_PER_MS {
            sched.wait_ms.floor_ms()
        } else {
            0
        };
        if sched.drop {
            // Wholly late (e.g. delay was lowered, or a slow arrival): shed it and
            // let the queue drain toward the new, shorter target. The
            // already-queued audio is untouched.
            metrics.record_late_drop();
            return PlayStep::Late { sleep_ms };
        }
        let ghost rest = uncropped(
            chunk.samples@,
            sched.crop_ms.flicks as int,
            chunk.channels,
            chunk.sample_rate,
        );
        let mut samples: Vec<T> = chunk.samples;
        if sched.crop_ms.flicks > 0 {
            // Partially late: crop the already-past frames off the front and play
            // the rest, which still lands on time. Record it as a late event.
            metrics.record_late_drop();
            let n: usize = crop_samples(
                sched.crop_ms.flicks,
                frames,
                src_channels,
                len,
                chunk.sample_rate,
                dur.flicks,
            );
            samples = samples.split_off(n);
        } else {
            proof {
                assert(cropped_frames(0, chunk.sample_rate) == 0) by {
                    assert(2 * 0int * chunk.sample_rate == 0) by (nonlinear_arith);
                }
                let w = width_of(chunk.channels);
                assert(0int * w == 0) by (nonlinear_arith);
                assert(rest =~= samples@);
            }
        }
        proof {
            assert(samples@ == rest);
        }
        self.queue_end = Some(sched.new_queue_end);
        if samples.len() == 0 {
            return PlayStep::Spent { sleep_ms };
        }
        // Actual delay from the source: how far this chunk's first sample plays
        // behind its origin timestamp. In steady state this sits at the delay
        // setting.
        metrics.set_source_delay(Millis { flicks: play_at.flicks - sched.start_ms.flicks });
        proof {
            let n = samples@.len() as int;
            let c = chunk.channels as int;
            if c > 0 {
                div_mod::lemma_div_pos_is_pos(n, c);
                div_mod::lemma_div_is_ordered_by_denominator(n, 1, c);
                div_mod::lemma_div_basics(n);
                assert(n / c * out_channels <= n * 0x1_0000) by (nonlinear_arith)
                    requires
                        0 <= n / c <= n,
                        0 <= out_channels <= 0xffff,
                ;
                assert(n * 0x1_0000 <= chunk.samples@.len() * 0x1_0000);
            }
        }
        let out: Vec<T> = remap_channels(
            samples.as_slice(),
            chunk.channels as usize,
            out_channels as usize,
            map.as_slice(),
            chunk.channel_ids.as_slice(),
            silence,
        );
        metrics.record_append(out.len());
        self.started = true;
        PlayStep::Append { sleep_ms, samples: out }
    }
}

/// How many samples of a chunk lie in the span to crop.
fn crop_samples(
    crop: i128,
    frames: usize,
    src_channels: usize,
    len: usize,
    sample_rate: u32,
    dur: i128,
) -> (n: usize)
    requires
        0 < crop < dur,
        sample_rate > 0,
        0 < src_channels <= 0xffff,
        frames == len as int / (src_channels as int),
        dur == frames * FLICKS_PER_SEC / (sample_rate as int),
        dur <= 0x1_0000_0000_0000_0000_0000_0000,
    ensures
        ({
            let k = cropped_frames(crop as int, sample_rate) * src_channels;
            n == if k < len {
                k
            } else {
                len as int
            }
        }),
        n <= len,
{
    let rate: i128 = sample_rate as i128;
    proof {
        let total = frames * FLICKS_PER_SEC;
        div_mod::lemma_fundamental_div_mod(total, rate as int);
        assert(dur * rate <= total) by (nonlinear_arith)
            requires
                total == rate * (total / (rate as int)) + total % (rate as int),
                0 <= total % (rate as int),
                dur == total / (rate as int),
        ;
        assert(0 <= crop * rate < dur * rate) by (nonlinear_arith)
            requires
                0 < crop < dur,
                0 < rate,
        ;
        assert(2 * crop * rate == 2 * (crop * rate)) by (nonlinear_arith);
    }
    let span: i128 = crop * rate;
    let k: i128 = (2 * span + FLICKS_PER_SEC) / (2 * FLICKS_PER_SEC);
    proof {
        assert(k == cropped_frames(crop as int, sample_rate));
        assert(0 <= k <= frames);
        div_mod::lemma_fundamental_div_mod(len as int, src_channels as int);
        assert(k * src_channels <= len && 0 <= k * src_channels) by (nonlinear_arith)
            requires
                0 <= k <= frames,
                0 < src_channels,
                len == src_channels * frames + len as int % (src_channels as int),
                0 <= len as int % (src_channels as int),
        ;
    }
    (k as usize) * src_channels
}

// Identity.

/// Whether an interface's address can identify the device, and which it is: a
/// real MAC of anything but the loopback.
pub open spec fn usable_mac(name: Seq<char>, address: Seq<char>) -> Option<Seq<u8>> {
    if name == "lo"@ {
        None
    } else {
        match clients::mac_of(text::trimmed(address)) {
            Some(m) => if m == seq![0u8, 0, 0, 0, 0, 0] {
                None
            } else {
                Some(m)
            },
            None => None,
        }
    }
}

/// A stable pseudo-MAC derived from the hostname, marked as locally administered.
pub open spec fn pseudo_mac(hostname: Seq<char>) -> Seq<u8> {
    let h = catalog::le_bytes(catalog::fnv(vstd::utf8::encode_utf8(hostname)));
    seq![(h[0] & 0xfe) | 0x02, h[1], h[2], h[3], h[4], h[5]]
}

/// A pseudo-MAC has the locally-administered bit set and is no group address, so
/// it is no manufacturer's, and it is never all zeros.
pub proof fn pseudo_macs_are_local(hostname: Seq<char>)
    ensures
        pseudo_mac(hostname).len() == 6,
        pseudo_mac(hostname)[0] & 0x02 == 0x02,
        pseudo_mac(hostname)[0] & 0x01 == 0,
        pseudo_mac(hostname)[0] != 0,
{
    let b = catalog::le_bytes(catalog::fnv(vstd::utf8::encode_utf8(hostname)))[0];
    let x = (b & 0xfe) | 0x02;
    assert(x & 0x02 == 0x02 && x & 0x01 == 0 && x != 0) by (bit_vector)
        requires
            x == (b & 0xfe) | 0x02u8,
    ;
}

/// The names of the interfaces, as ordering keys.
pub open spec fn iface_keys(ifaces: Seq<(String, String)>) -> Seq<(Seq<char>, u64)> {
    ifaces.map_values(|f: (String, String)| (f.0@, 0u64))
}

/// Whether `mac` identifies the device: the first usable address in the order `p`
/// of the interfaces, or else the pseudo-MAC.
pub open spec fn identifies(
    mac: Seq<u8>,
    ifaces: Seq<(String, String)>,
    p: Seq<int>,
    hostname: Seq<char>,
) -> bool {
    ||| exists|i: int|
        {
            &&& 0 <= i < p.len()
            &&& usable_mac(ifaces[#[trigger] p[i]].0@, ifaces[p[i]].1@) == Some(mac)
            &&& forall|j: int|
                0 <= j < i ==> usable_mac(ifaces[#[trigger] p[j]].0@, ifaces[p[j]].1@) is None
        }
    ||| mac == pseudo_mac(hostname) && forall|j: int|
        0 <= j < p.len() ==> usable_mac(ifaces[#[trigger] p[j]].0@, ifaces[p[j]].1@) is None
}

pub fn parse_mac(s: &str) -> (r: Option<[u8; 6]>)
    ensures
        match r {
            Some(mac) => clients::mac_of(s@) == Some(mac@),
            None => clients::mac_of(s@) is None,
        },
{
    parse_mac_hex(s)
}

fn is_zero(mac: &[u8; 6]) -> (r: bool)
    ensures
        r == (mac@ == seq![0u8, 0, 0, 0, 0, 0]),
{
    let r: bool = mac[0] == 0 && mac[1] == 0 && mac[2] == 0 && mac[3] == 0 && mac[4] == 0 && mac[5]
        == 0;
    proof {
        if r {
            assert(mac@ =~= seq![0u8, 0, 0, 0, 0, 0]);
        }
    }
    r
}

/// The device's MAC from its network interfaces, given as (name, address text):
/// that of the first non-loopback interface with a real one, by name. Falls back
/// to a stable hostname-derived pseudo-MAC (locally-administered bit set) if none
/// is found, so distinct hosts still get distinct identities.
pub fn primary_mac(ifaces: &Vec<(String, String)>, hostname: &str) -> (mac: [u8; 6])
    ensures
        exists|p: Seq<int>|
            #[trigger] order::ranked(iface_keys(ifaces@), p) && identifies(
                mac@,
                ifaces@,
                p,
                hostname@,
            ),
{
    let mut keys: Vec<(String, u64)> = Vec::new();
    let mut k: usize = 0;
    while k < ifaces.len()
        invariant
            k <= ifaces@.len(),
            keys@.len() == k,
            forall|j: int|
                0 <= j < k ==> (#[trigger] keys@[j]).0@ == ifaces@[j].0@ && keys@[j].1 == 0,
        decreases ifaces@.len() - k,
    {
        keys.push((ifaces[k].0.clone(), 0));
        k = k + 1;
    }
    let p: Vec<usize> = order_named(&keys);
    let ghost q = p@.map_values(|i: usize| i as int);
    proof {
        assert(order::rank_keys(keys@) =~= iface_keys(ifaces@));
    }
    let mut i: usize = 0;
    while i < p.len()
        invariant
            i <= p@.len(),
            q == p@.map_values(|i: usize| i as int),
            order::ranked(iface_keys(ifaces@), q),
            forall|j: int|
                0 <= j < i ==> usable_mac(ifaces@[#[trigger] q[j]].0@, ifaces@[q[j]].1@) is None,
        decreases p@.len() - i,
    {
        proof {
            assert(q[i as int] == p@[i as int]);
        }
        let f: &(String, String) = &ifaces[p[i]];
        if !same_text(f.0.as_str(), "lo") {
            let t: String = text_of(&trim_chars(&chars_of(f.1.as_str())));
            if let Some(mac) = parse_mac(t.as_str()) {
                if !is_zero(&mac) {
                    proof {
                        assert(usable_mac(ifaces@[q[i as int]].0@, ifaces@[q[i as int]].1@) == Some(
                            mac@,
                        ));
                        assert(identifies(mac@, ifaces@, q, hostname@));
                    }
                    return mac;
                }
            }
        }
        i = i + 1;
    }
    let h: Vec<u8> = to_le(fnv1a(hostname.as_bytes()));
    let mac: [u8; 6] = [(h[0] & 0xfe) | 0x02, h[1], h[2], h[3], h[4], h[5]];
    proof {
        assert(mac@ =~= pseudo_mac(hostname@));
        assert(identifies(mac@, ifaces@, q, hostname@));
    }
    mac
}

/// The id that a client reports: the given one, or else its MAC in hex.
pub fn device_identity(id: Option<String>, mac: [u8; 6]) -> (r: String)
    ensures
        r@ == match id {
            Some(s) => s@,
            None => clients::mac_text(mac@),
        },
{
    match id {
        Some(s) => s,
        None => mac_hex(mac),
    }
}

/// The id of the in-process client of a server, distinct from a standalone client
/// on the same host.
pub fn local_device_id(hostname: &str) -> (r: String)
    ensures
        r@ == hostname@ + "-local"@,
{
    let mut r: String = hostname.to_owned();
    r.append("-local");
    r
}

/// Apply a control command if it is addressed to this client. Returns whether it
/// was.
pub fn handle_control(settings: &mut ClientSettings, cmd: &ControlCommand, my_ip: u32) -> (mine:
    bool)
    ensures
        mine == (wire::ip_of(cmd.target_ip@) == my_ip),
        final(settings)@ == if mine {
            old(settings)@.after(cmd@)
        } else {
            old(settings)@
        },
        old(settings)@.wf() ==> final(settings)@.wf(),
{
    if ip_from(&cmd.target_ip) != my_ip {
        return false;
    }
    settings.apply_command(cmd);
    true
}

/// With nothing queued a chunk starts exactly at its target, as long as that is not
/// past and at most 2 s away; one whose target is past starts at once.
pub proof fn empty_queue_starts_at_the_target(now: int, target: int)
    ensures
        now <= target <= now + Millis::spec_whole(2000) ==> play_start(now, target, None) == target
            && wait_before(now, target, None) == target - now,
        target < now ==> play_start(now, target, None) == now && wait_before(now, target, None)
            == 0,
        target > now + Millis::spec_whole(2000) ==> wait_before(now, target, None)
            == Millis::spec_whole(2000),
{
}

/// A queue that reaches a chunk (to within 3 ms) is followed: the chunk plays right
/// where the queue ends. One that has run dry, or ends before the chunk, makes no
/// difference: the chunk starts as on an empty queue.
pub proof fn chunks_follow_the_queue(now: int, target: int, queue_end: Millis)
    ensures
        ({
            let leeway = Millis::spec_whole(3);
            let end = queue_end.flicks as int;
            if end > now + leeway && end >= target - leeway {
                play_start(now, target, Some(queue_end)) == end
            } else {
                &&& play_start(now, target, Some(queue_end)) == play_start(now, target, None)
                &&& wait_before(now, target, Some(queue_end)) == wait_before(now, target, None)
            }
        }),
{
}

/// The queue is let drain to 60 ms and no further: a queue deeper than that is
/// waited for until it is that deep, and a shallower one is appended to at once.
pub proof fn queue_drains_to_the_cushion(now: int, target: int, queue_end: Millis)
    requires
        queue_end.flicks > now + Millis::spec_whole(3),
        queue_end.flicks >= target - Millis::spec_whole(3),
    ensures
        ({
            let depth = queue_end.flicks - now;
            let wait = wait_before(now, target, Some(queue_end));
            &&& Millis::spec_whole(60) <= depth <= Millis::spec_whole(2060) ==> depth - wait
                == Millis::spec_whole(60)
            &&& depth < Millis::spec_whole(60) ==> wait == 0
            &&& depth > Millis::spec_whole(2060) ==> wait == Millis::spec_whole(2000)
        }),
{
}

/// A chunk is cropped by as much as it is late, if that is more than 3 ms and less
/// than all of it, and otherwise not at all.
pub proof fn crop_is_the_lateness(lateness: int, dur: int)
    ensures
        lateness <= Millis::spec_whole(3) ==> crop_of(lateness, dur) == 0,
        Millis::spec_whole(3) < lateness < dur ==> crop_of(lateness, dur) == lateness,
        crop_of(lateness, dur) >= 0,
        0 < dur ==> crop_of(lateness, dur) < dur,
{
}

/// Rounding to a whole number of frames is off by half a frame at most, and never
/// goes past a whole number.
proof fn lemma_nearest_frame(x: int, all: int)
    requires
        0 <= x,
        0 <= all,
    ensures
        ({
            let k = (2 * x + 705_600_000) / 1_411_200_000;
            &&& -705_600_000 <= 2 * (k * 705_600_000 - x) <= 705_600_000
            &&& x <= all * 705_600_000 ==> k <= all
            &&& x > all * 705_600_000 ==> k >= all
        }),
{
}

/// Cropping takes whole frames off the front that last as long as the crop, to
/// within half a frame: what is left of a chunk of whole frames is the chunk's own
/// end, begins with the first channel, and lasts the rest of the time.
pub proof fn crop_removes_whole_frames<T>(
    samples: Seq<T>,
    crop: int,
    channels: u16,
    sample_rate: u32,
)
    requires
        channels > 0,
        sample_rate > 0,
        samples.len() as int % (channels as int) == 0,
        0 <= crop,
    ensures
        ({
            let rest = uncropped(samples, crop, channels, sample_rate);
            let gone = samples.len() - rest.len();
            let frames = gone / (channels as int);
            let all = samples.len() as int / (channels as int);
            &&& 0 <= gone <= samples.len()
            &&& gone == frames * channels
            &&& rest.len() as int % (channels as int) == 0
            &&& rest == samples.skip(gone)
            &&& crop * sample_rate <= all * 705_600_000 ==> -705_600_000 <= 2 * (frames
                * 705_600_000 - crop * sample_rate) <= 705_600_000
            &&& crop * sample_rate > all * 705_600_000 ==> rest.len() == 0
            &&& forall|f: int, c: int|
                #![trigger rest[f * channels + c]]
                0 <= f && 0 <= c < channels && f * channels + c < rest.len() ==> rest[f * channels
                    + c] == samples[(frames + f) * channels + c]
        }),
{
    let ch = channels as int;
    let len = samples.len() as int;
    let rest = uncropped(samples, crop, channels, sample_rate);
    let all = len / ch;
    let k = cropped_frames(crop, sample_rate);
    let x = crop * sample_rate;
    div_mod::lemma_fundamental_div_mod(len, ch);
    assert(len == all * ch) by (nonlinear_arith)
        requires
            len == ch * all + len % ch,
            len % ch == 0,
    ;
    assert(0 <= x) by (nonlinear_arith)
        requires
            0 <= crop,
            sample_rate > 0,
            x == crop * sample_rate,
    ;
    assert(2 * crop * sample_rate == 2 * x) by (nonlinear_arith)
        requires
            x == crop * sample_rate,
    ;
    assert(k == (2 * x + 705_600_000) / 1_411_200_000);
    assert(k >= 0);
    let n = k * ch;
    let frames = if k < all {
        k
    } else {
        all
    };
    assert(n >= 0 && (k < all ==> n < len) && (k >= all ==> n >= len)) by (nonlinear_arith)
        requires
            n == k * ch,
            len == all * ch,
            k >= 0,
            ch > 0,
    ;
    let gone = len - rest.len();
    assert(gone == frames * ch) by (nonlinear_arith)
        requires
            n == k * ch,
            len == all * ch,
            gone == if n < len {
                n
            } else {
                len
            },
            frames == if k < all {
                k
            } else {
                all
            },
            (k < all ==> n < len) && (k >= all ==> n >= len),
    ;
    div_mod::lemma_div_multiples_vanish(frames, ch);
    assert(ch * frames == frames * ch) by (nonlinear_arith);
    let left = all - frames;
    assert(rest.len() == left * ch) by (nonlinear_arith)
        requires
            rest.len() == len - gone,
            len == all * ch,
            gone == frames * ch,
            left == all - frames,
    ;
    div_mod::lemma_mod_multiples_basic(left, ch);
    assert(rest =~= samples.skip(gone));
    assert(gone / ch == frames);
    lemma_nearest_frame(x, all);
    assert forall|f: int, c: int|
        #![trigger rest[f * channels + c]]
        0 <= f && 0 <= c < channels && f * channels + c < rest.len() implies rest[f * channels + c]
        == samples[(frames + f) * channels + c] by {
        let at = f * ch + c;
        assert(at >= 0) by (nonlinear_arith)
            requires
                at == f * ch + c,
                f >= 0,
                c >= 0,
                ch > 0,
        ;
        assert((frames + f) * ch + c == gone + at) by (nonlinear_arith)
            requires
                gone == frames * ch,
                at == f * ch + c,
        ;
        assert(rest[at] == samples[gone + at]);
    }
}

/// A chunk lasts as long as its frames do at its rate, short of a flick.
pub proof fn chunk_lasts_its_frames(frames: int, channels: u16, sample_rate: u32)
    requires
        channels > 0,
        sample_rate > 0,
        frames >= 0,
    ensures
        ({
            let flicks = chunk_flicks(frames * channels, channels, sample_rate);
            flicks * sample_rate <= frames * 705_600_000 < (flicks + 1) * sample_rate
        }),
{
    let ch = channels as int;
    let rate = sample_rate as int;
    assert(ch * frames == frames * ch) by (nonlinear_arith);
    div_mod::lemma_div_multiples_vanish(frames, ch);
    let x = frames * 705_600_000;
    let q = x / rate;
    div_mod::lemma_fundamental_div_mod(x, rate);
    assert(q * rate <= x < (q + 1) * rate) by (nonlinear_arith)
        requires
            x == rate * q + x % rate,
            0 <= x % rate < rate,
    ;
}

/// A sleep never overshoots the wait, and falls short of it by a millisecond at most.
pub proof fn sleep_covers_the_wait(wait: int)
    ensures
        sleep_of(wait) >= 0,
        wait >= 0 ==> 0 <= wait - Millis::spec_whole(sleep_of(wait)) <= Millis::spec_whole(1),
        wait < 0 ==> sleep_of(wait) == 0,
{
}

/// Every output channel plays, frame by frame, exactly the source channel that the
/// map names for it, wherever among the channels that are present that one stands;
/// where it names none, or one that is absent, it is silent. An empty map names for
/// each output channel the source channel of the same number.
pub proof fn outputs_play_their_channels<T>(
    samples: Seq<T>,
    src_ch: int,
    out_ch: int,
    map: Seq<i16>,
    ids: Seq<u16>,
    silence: T,
    f: int,
    o: int,
    p: int,
)
    requires
        src_ch > 0,
        out_ch > 0,
        0 <= f < samples.len() as int / src_ch,
        0 <= o < out_ch,
        0 <= p < src_ch,
        forall|i: int, j: int| 0 <= i < j < ids.len() ==> ids[i] != ids[j],
    ensures
        ({
            let out = routed(samples, src_ch, out_ch, map, ids, silence);
            let played = out[f * out_ch + o];
            // The source channel that stands at `p` of a frame.
            let here = if ids.len() == 0 {
                p
            } else {
                ids[p] as int
            };
            let there = ids.len() == 0 || p < ids.len();
            &&& out.len() == samples.len() as int / src_ch * out_ch
            &&& map.len() == 0 && there && here == o ==> played == samples[f * src_ch + p]
            &&& o < map.len() && there && here == map[o] ==> played == samples[f * src_ch + p]
            &&& 0 < map.len() <= o ==> played == silence
            &&& o < map.len() && map[o] < 0 ==> played == silence
            &&& o < map.len() && ids.len() > 0 && (forall|i: int|
                0 <= i < ids.len() ==> ids[i] != map[o]) ==> played == silence
            &&& o < map.len() && ids.len() == 0 && map[o] >= src_ch ==> played == silence
            &&& map.len() == 0 && ids.len() == 0 && o >= src_ch ==> played == silence
        }),
{
    let k = f * out_ch + o;
    let frames = samples.len() as int / src_ch;
    let out = routed(samples, src_ch, out_ch, map, ids, silence);
    div_mod::lemma_fundamental_div_mod_converse(k, out_ch, f, o);
    assert(0 <= k < frames * out_ch) by (nonlinear_arith)
        requires
            k == f * out_ch + o,
            0 <= f < frames,
            0 <= o < out_ch,
    ;
    let want = wanted_channel(map, o);
    assert(out[k] == routed_sample(samples, src_ch, map, ids, silence, f, o));
    if ids.len() > 0 && p < ids.len() && ids[p] == want {
        assert(is_place(ids, want, p) && p < src_ch);
        assert forall|i: int| is_place(ids, want, i) implies i == p by {}
    }
    if ids.len() > 0 && want >= 0 && forall|i: int| 0 <= i < ids.len() ==> ids[i] != want {
        assert forall|i: int| !is_place(ids, want, i) by {}
    }
}

/// The output queue is said to have run dry exactly when it is empty though something
/// was played before, and its depth is the real one.
pub proof fn running_dry_is_noticed(m: DeviceMetrics, started: bool, queued: usize, chunk: int)
    requires
        0 <= chunk <= i128::MAX,
        queued <= u32::MAX,
        m.underruns < u64::MAX,
    ensures
        ({
            let n = noted(m, started, queued, chunk);
            &&& n.underruns == m.underruns + 1 <==> started && queued == 0
            &&& n.underruns == m.underruns <==> !started || queued > 0
            &&& n.output_queue_len == queued
            &&& chunk >= Millis::spec_whole(1) ==> n.packet_ms.flicks == chunk
            &&& chunk < Millis::spec_whole(1) ==> n.packet_ms.flicks == Millis::spec_whole(1)
            &&& n.late_drops == m.late_drops
            &&& n.samples_appended == m.samples_appended
            &&& n.source_delay_ms == m.source_delay_ms
            &&& m.late_drops < u64::MAX ==> counted_late(m).late_drops == m.late_drops + 1
            &&& counted_late(m).underruns == m.underruns
        }),
{
}

/// The MAC of a real interface identifies the device: never the loopback's, never
/// all zeros, and only where there is none the pseudo-MAC.
pub proof fn identity_is_a_real_mac(
    mac: Seq<u8>,
    ifaces: Seq<(String, String)>,
    p: Seq<int>,
    hostname: Seq<char>,
    j: int,
)
    requires
        order::ranked(iface_keys(ifaces), p),
        identifies(mac, ifaces, p, hostname),
        0 <= j < ifaces.len(),
        ifaces[j].0@ != "lo"@,
        clients::mac_of(text::trimmed(ifaces[j].1@)) is Some,
        clients::mac_of(text::trimmed(ifaces[j].1@)) != Some(seq![0u8, 0, 0, 0, 0, 0]),
    ensures
        exists|i: int|
            {
                &&& 0 <= i < ifaces.len()
                &&& (#[trigger] ifaces[i]).0@ != "lo"@
                &&& clients::mac_of(text::trimmed(ifaces[i].1@)) == Some(mac)
                &&& mac != seq![0u8, 0, 0, 0, 0, 0]
                &&& !order::text_before(ifaces[j].0@, ifaces[i].0@)
            },
{
    let keys = iface_keys(ifaces);
    order::ranked_lists_all(keys, p, j);
    let y = choose|y: int| 0 <= y < p.len() && #[trigger] p[y] == j;
    assert(usable_mac(ifaces[p[y]].0@, ifaces[p[y]].1@) is Some);
    let x = choose|x: int|
        {
            &&& 0 <= x < p.len()
            &&& usable_mac(ifaces[#[trigger] p[x]].0@, ifaces[p[x]].1@) == Some(mac)
            &&& forall|z: int|
                0 <= z < x ==> usable_mac(ifaces[#[trigger] p[z]].0@, ifaces[p[z]].1@) is None
        };
    let i = p[x];
    assert(0 <= i < keys.len());
    assert(x <= y);
    assert(keys[i].0 == ifaces[i].0@ && keys[j].0 == ifaces[j].0@);
    if x < y {
        order::ranking_sorts(keys, p, x, y);
    } else {
        order::lemma_no_text_before_itself(ifaces[j].0@);
    }
    assert(ifaces[i].0@ != "lo"@);
}

} // verus!
