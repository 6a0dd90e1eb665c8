//! One source's server-side send path: read, packetize, and multicast to that
//! source's group on the shared [`AUDIO_PORT`]. Each source runs this with its
//! own timeline anchor and seq counter, so sources are independent.
use vstd::arithmetic::div_mod;
use vstd::arithmetic::power2;
use vstd::prelude::*;

use crate::client;
use crate::lists::same_items;
use crate::metrics;
use crate::metrics::ServerMetrics;
use crate::pcm;
use crate::sync;
use crate::sync::{Listeners, ListenerView};
use crate::wire::{AudioPacket, WireFormat, AUDIO_PORT, MAX_LEAD_MS, TARGET_PCM_BYTES};

verus! {

/// Default send lead (client jitter-buffer depth) in ms; the per-source value is
/// runtime-adjustable via [`SendParams`].
pub const SEND_LEAD_MS: u64 = 200;

/// Cap on redundant copies per packet.
pub const MAX_COPIES: u32 = 8;

/// Multicast TTL. 1 keeps traffic on the local subnet; raise to route further.
pub const MULTICAST_TTL: u32 = 1;

/// If the timeline falls this far behind real time, re-anchor it.
pub const REANCHOR_TOLERANCE_MS: u64 = 60;

/// After this much continuous silence, treat the source as producing no audio
/// and stop sending (matters most for a sink monitor, which streams digital
/// zeros while idle).
pub const SILENCE_HOLD_MS: u64 = 1000;

/// Max time a source read blocks before the loop re-checks its stop flag, so a
/// hot-removed source is torn down promptly.
pub const READ_POLL_MS: u64 = 100;

/// How long the retransmit loop waits for a copy when none is scheduled.
pub const IDLE_WAIT_MS: u64 = 1000;

/// Live, runtime-adjustable send timing for one source, shared between the send
/// loop, the catalog announcer (reads `lead`), and the HTTP API (writes).
#[derive(Debug, Clone, Copy, PartialEq, Eq, Structural)]
pub struct SendParams {
    pub lead_ms: u64,
    pub redundancy: u32,
    pub last_lead_ms: u64,
    /// When true, stream to each listening client's IP by unicast instead of the
    /// multicast group.
    pub unicast: bool,
    /// Set to request a manual timeline re-anchor; the send loop consumes it on
    /// its next packet and clears it.
    pub reanchor: bool,
}

/// A lead brought into 1 to [`MAX_LEAD_MS`].
pub open spec fn bounded_lead(ms: u64) -> u64 {
    if ms < 1 {
        1
    } else if ms > MAX_LEAD_MS {
        MAX_LEAD_MS
    } else {
        ms
    }
}

/// A number of copies brought into 1 to [`MAX_COPIES`].
pub open spec fn bounded_copies(n: u32) -> u32 {
    if n < 1 {
        1
    } else if n > MAX_COPIES {
        MAX_COPIES
    } else {
        n
    }
}

/// A last-copy lead brought up to [`MAX_LEAD_MS`].
pub open spec fn bounded_last_lead(ms: u64) -> u64 {
    if ms > MAX_LEAD_MS {
        MAX_LEAD_MS
    } else {
        ms
    }
}

impl SendParams {
    pub open spec fn wf(self) -> bool {
        &&& 1 <= self.lead_ms <= MAX_LEAD_MS
        &&& 1 <= self.redundancy <= MAX_COPIES
        &&& self.last_lead_ms <= MAX_LEAD_MS
    }

    pub open spec fn spec_new(
        lead_ms: u64,
        redundancy: u32,
        last_lead_ms: u64,
        unicast: bool,
    ) -> SendParams {
        SendParams {
            lead_ms: bounded_lead(lead_ms),
            redundancy: bounded_copies(redundancy),
            last_lead_ms: bounded_last_lead(last_lead_ms),
            unicast,
            reanchor: false,
        }
    }

    pub fn new(lead_ms: u64, redundancy: u32, last_lead_ms: u64, unicast: bool) -> (r: Self)
        ensures
            r.wf(),
            r == Self::spec_new(lead_ms, redundancy, last_lead_ms, unicast),
    {
        let mut p: SendParams = SendParams {
            lead_ms: SEND_LEAD_MS,
            redundancy: 1,
            last_lead_ms: 0,
            unicast,
            reanchor: false,
        };
        p.set_lead(lead_ms);
        p.set_redundancy(redundancy);
        p.set_last_lead(last_lead_ms);
        p
    }

    pub fn lead(&self) -> (r: u64)
        ensures
            r == self.lead_ms,
    {
        self.lead_ms
    }

    pub fn redundancy(&self) -> (r: u32)
        ensures
            r == self.redundancy,
    {
        self.redundancy
    }

    pub fn last_lead(&self) -> (r: u64)
        ensures
            r == self.last_lead_ms,
    {
        self.last_lead_ms
    }

    pub fn unicast(&self) -> (r: bool)
        ensures
            r == self.unicast,
    {
        self.unicast
    }

    pub fn set_lead(&mut self, ms: u64)
        ensures
            *final(self) == (SendParams { lead_ms: bounded_lead(ms), ..*old(self) }),
    {
        self.lead_ms =
        if ms < 1 {
            1
        } else if ms > MAX_LEAD_MS {
            MAX_LEAD_MS
        } else {
            ms
        };
    }

    pub fn set_redundancy(&mut self, n: u32)
        ensures
            *final(self) == (SendParams { redundancy: bounded_copies(n), ..*old(self) }),
    {
        self.redundancy =
        if n < 1 {
            1
        } else if n > MAX_COPIES {
            MAX_COPIES
        } else {
            n
        };
    }

    pub fn set_last_lead(&mut self, ms: u64)
        ensures
            *final(self) == (SendParams { last_lead_ms: bounded_last_lead(ms), ..*old(self) }),
    {
        self.last_lead_ms =
        if ms > MAX_LEAD_MS {
            MAX_LEAD_MS
        } else {
            ms
        };
    }

    pub fn set_unicast(&mut self, on: bool)
        ensures
            *final(self) == (SendParams { unicast: on, ..*old(self) }),
    {
        self.unicast = on;
    }

    /// Request a manual timeline re-anchor on the next emitted packet.
    pub fn request_reanchor(&mut self)
        ensures
            *final(self) == (SendParams { reanchor: true, ..*old(self) }),
    {
        self.reanchor = true;
    }

    /// Consume a pending re-anchor request, returning whether one was set.
    pub fn take_reanchor(&mut self) -> (r: bool)
        ensures
            r == old(self).reanchor,
            *final(self) == (SendParams { reanchor: false, ..*old(self) }),
    {
        let was: bool = self.reanchor;
        self.reanchor = false;
        was
    }
}

/// Whatever values are asked for, the send timing stays within its bounds.
pub proof fn params_stay_bounded(p: SendParams, lead_ms: u64, copies: u32, last_ms: u64)
    requires
        p.wf(),
    ensures
        (SendParams { lead_ms: bounded_lead(lead_ms), ..p }).wf(),
        (SendParams { redundancy: bounded_copies(copies), ..p }).wf(),
        (SendParams { last_lead_ms: bounded_last_lead(last_ms), ..p }).wf(),
        1 <= lead_ms <= MAX_LEAD_MS ==> bounded_lead(lead_ms) == lead_ms,
        1 <= copies <= MAX_COPIES ==> bounded_copies(copies) == copies,
        last_ms <= MAX_LEAD_MS ==> bounded_last_lead(last_ms) == last_ms,
{
}

// Channel subsets.

/// Whether a client with the output map plays source channel `c` of a source
/// with `src_ch` channels.
pub open spec fn plays(map: Seq<i16>, src_ch: int, c: int) -> bool {
    0 <= c < src_ch && exists|j: int| 0 <= j < map.len() && #[trigger] map[j] == c
}

/// Whether the full stream is to be sent: the map is the identity (empty), plays
/// nothing, or already covers every source channel.
pub open spec fn wants_all(map: Seq<i16>, src_ch: int) -> bool {
    ||| map.len() == 0
    ||| src_ch == 0
    ||| forall|c: int| !#[trigger] plays(map, src_ch, c)
    ||| forall|c: int| 0 <= c < src_ch ==> #[trigger] plays(map, src_ch, c)
}

/// Whether `ids` are the source channels that the map plays, ascending.
pub open spec fn are_played(map: Seq<i16>, src_ch: int, ids: Seq<u16>) -> bool {
    &&& forall|i: int, j: int| 0 <= i < j < ids.len() ==> #[trigger] ids[i] < #[trigger] ids[j]
    &&& forall|i: int| 0 <= i < ids.len() ==> plays(map, src_ch, #[trigger] ids[i] as int)
    &&& forall|c: int| #[trigger] plays(map, src_ch, c) ==> ids.contains(c as u16)
}

/// Whether `subset` is what to send to a client with the map: `None` is the full
/// stream.
pub open spec fn is_needed(map: Seq<i16>, src_ch: int, subset: Option<Seq<u16>>) -> bool {
    match subset {
        None => wants_all(map, src_ch),
        Some(ids) => !wants_all(map, src_ch) && are_played(map, src_ch, ids) && ids.len() > 0,
    }
}

fn map_plays(map: &[i16], c: i16) -> (r: bool)
    ensures
        r == exists|j: int| 0 <= j < map@.len() && #[trigger] map@[j] == c,
{
    let mut j: usize = 0;
    while j < map.len()
        invariant
            j <= map@.len(),
            forall|k: int| 0 <= k < j ==> map@[k] != c,
        decreases map@.len() - j,
    {
        if map[j] == c {
            return true;
        }
        j = j + 1;
    }
    false
}

/// The distinct source channels a client with output `map` plays, on a source with
/// `src_channels` channels, or `None` to send the full stream.
///
/// `None` when the map is identity (empty) or already covers every source channel:
/// the full contiguous stream is wanted, so those clients (and multicast) share one
/// serialized packet. `None` too when the map plays no source channel at all: there
/// is no subset to send, so such a client is sent the whole stream. Otherwise
/// `Some(sorted, distinct, in-range indices)`.
pub fn needed_channels(map: &[i16], src_channels: usize) -> (r: Option<Vec<u16>>)
    ensures
        match r {
            None => is_needed(map@, src_channels as int, None),
            Some(v) => is_needed(map@, src_channels as int, Some(v@)) && v@.len() <= 0x8000,
        },
{
    if map.len() == 0 || src_channels == 0 {
        return None;
    }
    let mut set: Vec<u16> = Vec::new();
    let mut full: bool = true;
    let mut c: u16 = 0;
    while c < 0x8000 && (c as usize) < src_channels
        invariant
            c <= 0x8000,
            c <= src_channels,
            set@.len() <= c,
            full == forall|k: int| 0 <= k < c ==> #[trigger] plays(map@, src_channels as int, k),
            forall|i: int, j: int|
                0 <= i < j < set@.len() ==> #[trigger] set@[i] < #[trigger] set@[j],
            forall|i: int| 0 <= i < set@.len() ==> #[trigger] set@[i] < c,
            forall|i: int|
                0 <= i < set@.len() ==> plays(
                    map@,
                    src_channels as int,
                    #[trigger] set@[i] as int,
                ),
            forall|k: int|
                0 <= k < c && #[trigger] plays(map@, src_channels as int, k) ==> set@.contains(
                    k as u16,
                ),
        decreases 0x8000 - c,
    {
        let ghost before = set@;
        if map_plays(map, c as i16) {
            set.push(c);
            proof {
                assert(plays(map@, src_channels as int, c as int));
                assert(set@[before.len() as int] == c);
                assert forall|k: int|
                    0 <= k < c && #[trigger] plays(
                        map@,
                        src_channels as int,
                        k,
                    ) implies set@.contains(k as u16) by {
                    let p = before.index_of(k as u16);
                    assert(before.contains(k as u16));
                    assert(set@[p] == k as u16);
                }
            }
        } else {
            full = false;
            proof {
                assert(!plays(map@, src_channels as int, c as int));
            }
        }
        c = c + 1;
    }
    proof {
        assert forall|k: int| #[trigger] plays(map@, src_channels as int, k) implies k < c by {
            if k >= c {
                let j = choose|j: int| 0 <= j < map@.len() && #[trigger] map@[j] == k;
                assert(map@[j] == k);
            }
        }
    }
    if (c as usize) < src_channels {
        full = false;
        proof {
            assert(!plays(map@, src_channels as int, c as int));
        }
    }
    // All-silence (empty) or full coverage: just send the whole stream.
    if set.len() == 0 || full {
        proof {
            if set@.len() == 0 {
                assert forall|k: int| !#[trigger] plays(map@, src_channels as int, k) by {
                    if plays(map@, src_channels as int, k) {
                        assert(set@.contains(k as u16));
                    }
                }
            }
        }
        return None;
    }
    proof {
        assert(plays(map@, src_channels as int, set@[0] as int));
    }
    Some(set)
}

/// The samples of the channels in `subset` alone, in that order.
pub open spec fn selected<T>(full: Seq<T>, src_ch: int, subset: Seq<u16>, silence: T) -> Seq<T> {
    if src_ch <= 0 {
        Seq::empty()
    } else {
        Seq::new(
            (full.len() as int / src_ch * subset.len()) as nat,
            |k: int|
                selected_sample(
                    full,
                    src_ch,
                    subset,
                    silence,
                    k / (subset.len() as int),
                    k % (subset.len() as int),
                ),
        )
    }
}

/// The sample of the `o`-th channel of `subset` in frame `f`.
pub open spec fn selected_sample<T>(
    full: Seq<T>,
    src_ch: int,
    subset: Seq<u16>,
    silence: T,
    f: int,
    o: int,
) -> T {
    if subset[o] < src_ch {
        full[f * src_ch + subset[o]]
    } else {
        silence
    }
}

/// Extract `subset` source channels from interleaved `full` (`src_channels` wide)
/// into a new interleaved buffer `subset.len()` channels wide, in `subset` order.
pub fn select_channels<T: Copy>(
    full: &[T],
    src_channels: usize,
    subset: &[u16],
    silence: T,
) -> (out: Vec<T>)
    requires
        src_channels > 0 ==> full@.len() as int / (src_channels as int) * subset@.len()
            <= usize::MAX,
    ensures
        out@ == selected(full@, src_channels as int, subset@, silence),
{
    let mut out: Vec<T> = Vec::new();
    if src_channels == 0 {
        return out;
    }
    let frames: usize = full.len() / src_channels;
    let width: usize = subset.len();
    let ghost want = selected(full@, src_channels as int, subset@, silence);
    let mut f: usize = 0;
    proof {
        assert(0int * width == 0) by (nonlinear_arith);
        div_mod::lemma_fundamental_div_mod(full@.len() as int, src_channels as int);
        assert(frames * src_channels <= full@.len()) by (nonlinear_arith)
            requires
                full@.len() == src_channels * frames + full@.len() as int % (src_channels as int),
                0 <= full@.len() as int % (src_channels as int),
        ;
    }
    while f < frames
        invariant
            src_channels > 0,
            f <= frames,
            width == subset@.len(),
            frames == full@.len() as int / (src_channels as int),
            frames * src_channels <= full@.len() <= usize::MAX,
            frames * width <= usize::MAX,
            want == selected(full@, src_channels as int, subset@, silence),
            out@.len() == f * width,
            forall|k: int| 0 <= k < out@.len() ==> #[trigger] out@[k] == want[k],
        decreases frames - f,
    {
        proof {
            assert(f * src_channels + src_channels <= frames * src_channels && f * width + width
                <= frames * width) by (nonlinear_arith)
                requires
                    f + 1 <= frames,
            ;
        }
        let base: usize = f * src_channels;
        let mut o: usize = 0;
        while o < width
            invariant
                o <= width,
                width == subset@.len(),
                f < frames,
                src_channels > 0,
                base == f * src_channels,
                base + src_channels <= full@.len() <= usize::MAX,
                f * width + width <= frames * width,
                frames == full@.len() as int / (src_channels as int),
                want == selected(full@, src_channels as int, subset@, silence),
                out@.len() == f * width + o,
                forall|k: int| 0 <= k < out@.len() ==> #[trigger] out@[k] == want[k],
            decreases width - o,
        {
            let c: usize = subset[o] as usize;
            let s: T = if c < src_channels {
                full[base + c]
            } else {
                silence
            };
            proof {
                div_mod::lemma_fundamental_div_mod_converse(
                    f * width + o,
                    width as int,
                    f as int,
                    o as int,
                );
                assert(want[f * width + o] == selected_sample(
                    full@,
                    src_channels as int,
                    subset@,
                    silence,
                    f as int,
                    o as int,
                ));
            }
            out.push(s);
            o = o + 1;
        }
        proof {
            assert(f * width + width == (f + 1) * width) by (nonlinear_arith);
        }
        f = f + 1;
    }
    proof {
        assert(out@ =~= want);
    }
    out
}

/// A client that is sent only the channels it needs plays exactly what it would
/// play from the full stream.
pub proof fn subset_plays_like_full<T>(
    full: Seq<T>,
    src_ch: int,
    out_ch: int,
    map: Seq<i16>,
    ids: Seq<u16>,
    silence: T,
)
    requires
        src_ch > 0,
        is_needed(map, src_ch, Some(ids)),
    ensures
        client::routed(
            selected(full, src_ch, ids, silence),
            ids.len() as int,
            out_ch,
            map,
            ids,
            silence,
        ) == client::routed(full, src_ch, out_ch, map, Seq::empty(), silence),
{
    let part = selected(full, src_ch, ids, silence);
    let w = ids.len() as int;
    let frames = full.len() as int / src_ch;
    let a = client::routed(part, w, out_ch, map, ids, silence);
    let b = client::routed(full, src_ch, out_ch, map, Seq::empty(), silence);
    if out_ch > 0 {
        div_mod::lemma_div_pos_is_pos(full.len() as int, src_ch);
        assert(0 <= frames * w) by (nonlinear_arith)
            requires
                0 <= frames,
                0 < w,
        ;
        assert(part.len() == frames * w);
        assert(part.len() as int / w == frames) by {
            div_mod::lemma_div_multiples_vanish(frames, w);
            assert(frames * w == w * frames) by (nonlinear_arith);
        }
        assert(0 <= frames * out_ch) by (nonlinear_arith)
            requires
                0 <= frames,
                0 < out_ch,
        ;
        assert(a.len() == b.len());
        assert forall|k: int| 0 <= k < a.len() implies a[k] == b[k] by {
            let f = k / out_ch;
            let o = k % out_ch;
            assert(0 <= f < frames && 0 <= o < out_ch) by {
                div_mod::lemma_fundamental_div_mod(k, out_ch);
                div_mod::lemma_div_pos_is_pos(k, out_ch);
                assert(f < frames) by (nonlinear_arith)
                    requires
                        k == out_ch * f + o,
                        0 <= o,
                        k < frames * out_ch,
                        0 < out_ch,
                ;
            }
            lemma_subset_sample(full, src_ch, map, ids, silence, f, o, frames);
            assert(a[k] == client::routed_sample(part, w, map, ids, silence, f, o));
            assert(b[k] == client::routed_sample(full, src_ch, map, Seq::empty(), silence, f, o));
        }
    }
    assert(a =~= b);
}

proof fn lemma_subset_sample<T>(
    full: Seq<T>,
    src_ch: int,
    map: Seq<i16>,
    ids: Seq<u16>,
    silence: T,
    f: int,
    o: int,
    frames: int,
)
    requires
        src_ch > 0,
        is_needed(map, src_ch, Some(ids)),
        0 <= f < frames,
        0 <= o,
        frames == full.len() as int / src_ch,
    ensures
        client::routed_sample(
            selected(full, src_ch, ids, silence),
            ids.len() as int,
            map,
            ids,
            silence,
            f,
            o,
        ) == client::routed_sample(full, src_ch, map, Seq::empty(), silence, f, o),
{
    let part = selected(full, src_ch, ids, silence);
    let w = ids.len() as int;
    let want = client::wanted_channel(map, o);
    let p = client::present_at(ids, w, want);
    if plays(map, src_ch, want) {
        assert(ids.contains(want as u16));
        let i = ids.index_of(want as u16);
        assert(0 <= i < w && ids[i] == want);
        assert(client::is_place(ids, want, i)) by {
            assert forall|j: int| 0 <= j < i implies ids[j] != want by {
                assert(ids[j] < ids[i]);
            }
        }
        assert forall|x: int| client::is_place(ids, want, x) implies x == i by {
            if x < i {
                assert(ids[x] < ids[i]);
            } else if i < x {
                assert(ids[i] < ids[x]);
            }
        }
        assert(p == i);
        assert(0 <= f * w + i < frames * w) by (nonlinear_arith)
            requires
                0 <= f < frames,
                0 <= i < w,
        ;
        div_mod::lemma_fundamental_div_mod_converse(f * w + i, w, f, i);
        assert(part[f * w + i] == selected_sample(full, src_ch, ids, silence, f, i));
        assert(want < src_ch);
    } else {
        assert(forall|x: int| 0 <= x < ids.len() ==> ids[x] != want) by {
            assert forall|x: int| 0 <= x < ids.len() implies ids[x] != want by {
                assert(plays(map, src_ch, ids[x] as int));
            }
        }
        assert(p < 0);
        if 0 <= want < src_ch {
            assert(o < map.len());
            assert(map[o] == want);
            assert(plays(map, src_ch, want));
        }
    }
}

// Destinations.

/// Where packets of a source go.
#[derive(Debug, Clone)]
pub struct Dest {
    pub ip: u32,
    pub port: u16,
    /// The source channels to send; `None` is the full stream.
    pub subset: Option<Vec<u16>>,
}

impl Dest {
    /// The channels that are sent; empty is the full stream.
    pub open spec fn ids(self) -> Seq<u16> {
        match self.subset {
            Some(v) => v@,
            None => Seq::empty(),
        }
    }
}

/// Whether the destination is the listener's own, with what it needs.
pub open spec fn serves(d: Dest, l: ListenerView, src_ch: int) -> bool {
    &&& d.ip == l.ip
    &&& d.port == AUDIO_PORT
    &&& match d.subset {
        Some(v) => is_needed(l.channel_map, src_ch, Some(v@)) && v@.len() <= 0x8000,
        None => is_needed(l.channel_map, src_ch, None),
    }
}

/// Whether the packets of a source go to the right places: nowhere when nobody
/// listens, by unicast to each listener with what it needs, or else to the group,
/// in full.
pub open spec fn are_dests(
    out: Seq<Dest>,
    params: SendParams,
    group: u32,
    heard: Seq<ListenerView>,
    src_ch: int,
) -> bool {
    if heard.len() == 0 {
        out.len() == 0
    } else if params.unicast {
        out.len() == heard.len() && forall|i: int|
            0 <= i < out.len() ==> serves(#[trigger] out[i], heard[i], src_ch)
    } else {
        out.len() == 1 && out[0].ip == group && out[0].port == AUDIO_PORT && out[0].subset is None
    }
}

/// Where a source's packets go, each with the channel subset to send (`None` =
/// full stream). Multicast: the group, full stream. Unicast: each listening
/// client with only the channels its output map plays. Empty: nobody listening.
pub fn dests(
    params: &SendParams,
    group: u32,
    source_id: u64,
    listeners: &mut Listeners,
    src_channels: usize,
    now: u64,
) -> (out: Vec<Dest>)
    requires
        old(listeners).wf(),
    ensures
        final(listeners).wf(),
        final(listeners)@ == sync::pruned(old(listeners)@, source_id, now),
        are_dests(
            out@,
            *params,
            group,
            sync::hearing(old(listeners)@, source_id, now),
            src_channels as int,
        ),
{
    let targets: Vec<(u32, Vec<i16>)> = listeners.targets(source_id, now);
    let ghost heard = sync::hearing(old(listeners)@, source_id, now);
    let ghost a = targets@.map_values(|t: (u32, Vec<i16>)| (t.0, t.1@));
    let ghost b = heard.map_values(|l: ListenerView| (l.ip, l.channel_map));
    proof {
        assert(a.len() == b.len());
    }
    let mut out: Vec<Dest> = Vec::new();
    if targets.len() == 0 {
        return out;
    }
    if params.unicast() {
        let mut i: usize = 0;
        while i < targets.len()
            invariant
                i <= targets@.len(),
                a == targets@.map_values(|t: (u32, Vec<i16>)| (t.0, t.1@)),
                b == heard.map_values(|l: ListenerView| (l.ip, l.channel_map)),
                a == b,
                targets@.len() == heard.len(),
                out@.len() == i,
                forall|j: int|
                    0 <= j < i ==> serves(#[trigger] out@[j], heard[j], src_channels as int),
            decreases targets@.len() - i,
        {
            proof {
                assert(a[i as int] == (targets@[i as int].0, targets@[i as int].1@));
                assert(b[i as int] == (heard[i as int].ip, heard[i as int].channel_map));
            }
            let subset: Option<Vec<u16>> = needed_channels(targets[i].1.as_slice(), src_channels);
            out.push(Dest { ip: targets[i].0, port: AUDIO_PORT, subset });
            i = i + 1;
        }
    } else {
        out.push(Dest { ip: group, port: AUDIO_PORT, subset: None });
    }
    out
}

// The timeline.

/// What is fixed about a source's stream.
#[derive(Debug, Clone, Copy, PartialEq, Eq, Structural)]
pub struct StreamShape {
    pub source_id: u64,
    pub group: u32,
    pub format: WireFormat,
    pub channels: u16,
    pub sample_rate: u32,
}

impl StreamShape {
    pub open spec fn wf(self) -> bool {
        self.channels > 0 && self.sample_rate > 0
    }

    pub open spec fn spec_frames(self) -> int {
        let n = TARGET_PCM_BYTES as int / (self.channels * self.format.width());
        if n < 1 {
            1
        } else {
            n
        }
    }

    /// Frames per datagram, sized to keep the PCM payload under
    /// [`TARGET_PCM_BYTES`].
    pub fn frames_per_packet(&self) -> (n: usize)
        requires
            self.wf(),
        ensures
            n == self.spec_frames(),
            1 <= n <= TARGET_PCM_BYTES,
    {
        let w: usize = self.format.bytes_per_sample();
        proof {
            assert(0 < self.channels * w <= 0x4_0000) by (nonlinear_arith)
                requires
                    0 < self.channels <= 0xffff,
                    0 < w <= 4,
            ;
        }
        let per_frame: usize = self.channels as usize * w;
        let n: usize = TARGET_PCM_BYTES / per_frame;
        proof {
            div_mod::lemma_div_is_ordered_by_denominator(
                TARGET_PCM_BYTES as int,
                1,
                per_frame as int,
            );
            div_mod::lemma_div_basics(TARGET_PCM_BYTES as int);
        }
        if n < 1 {
            1
        } else {
            n
        }
    }

    /// Interleaved samples per datagram.
    pub fn samples_per_packet(&self) -> (n: usize)
        requires
            self.wf(),
        ensures
            n == self.spec_frames() * self.channels,
            0 < n <= 0x1_0000,
    {
        let f: usize = self.frames_per_packet();
        proof {
            if f > 1 {
                payload_stays_small(*self);
                let w = self.format.width();
                assert(f * self.channels <= 1024) by (nonlinear_arith)
                    requires
                        f * (self.channels * w) <= 1024,
                        w >= 1,
                        f >= 0,
                        self.channels >= 0,
                ;
            }
            assert(0 < f * self.channels) by (nonlinear_arith)
                requires
                    0 < f,
                    0 < self.channels,
            ;
        }
        f * self.channels as usize
    }
}

/// A packet of more than one frame keeps its PCM payload within the target.
pub proof fn payload_stays_small(shape: StreamShape)
    requires
        shape.wf(),
        shape.spec_frames() > 1,
    ensures
        shape.spec_frames() * (shape.channels * shape.format.width()) <= TARGET_PCM_BYTES,
{
    let per = shape.channels * shape.format.width();
    assert(per > 0) by (nonlinear_arith)
        requires
            per == shape.channels * shape.format.width(),
            shape.channels > 0,
            shape.format.width() > 0,
    ;
    div_mod::lemma_fundamental_div_mod(TARGET_PCM_BYTES as int, per);
    assert(shape.spec_frames() * per == per * shape.spec_frames()) by (nonlinear_arith);
}

/// Samples that wait until they fill a packet.
pub struct Packetizer<T> {
    pub pending: Vec<T>,
}

impl<T: Copy> Packetizer<T> {
    pub fn new() -> (r: Self)
        ensures
            r.pending@ == Seq::<T>::empty(),
    {
        Packetizer { pending: Vec::new() }
    }

    pub fn push(&mut self, samples: &Vec<T>)
        ensures
            final(self).pending@ == old(self).pending@ + samples@,
    {
        let ghost before = self.pending@;
        let mut i: usize = 0;
        while i < samples.len()
            invariant
                i <= samples@.len(),
                self.pending@ == before + samples@.take(i as int),
            decreases samples@.len() - i,
        {
            self.pending.push(samples[i]);
            i = i + 1;
            proof {
                assert(self.pending@ =~= before + samples@.take(i as int));
            }
        }
        proof {
            assert(samples@.take(i as int) =~= samples@);
        }
    }

    /// The next whole packet's samples; a sub-packet remainder is kept for the
    /// next read.
    pub fn next_packet(&mut self, n: usize) -> (r: Option<Vec<T>>)
        requires
            n > 0,
        ensures
            r is Some <==> old(self).pending@.len() >= n,
            match r {
                Some(chunk) => chunk@.len() == n && old(self).pending@ == chunk@ + final(self).pending@,
                None => final(self).pending@ == old(self).pending@,
            },
    {
        if self.pending.len() < n {
            return None;
        }
        let ghost before = self.pending@;
        let rest: Vec<T> = self.pending.split_off(n);
        let mut chunk: Vec<T> = rest;
        std::mem::swap(&mut chunk, &mut self.pending);
        proof {
            assert(chunk@ + self.pending@ =~= before);
        }
        Some(chunk)
    }
}

/// A sample (the bits of an IEEE-754 single) of at most 1/32768 in magnitude,
/// about one 16-bit step, counts as silence.
pub open spec fn is_quiet(bits: u32) -> bool {
    bits & 0x7fff_ffff <= 0x3800_0000
}

/// Whether all samples count as silence.
pub open spec fn are_quiet(bits: Seq<u32>) -> bool {
    forall|i: int| 0 <= i < bits.len() ==> is_quiet(#[trigger] bits[i])
}

pub fn all_quiet(bits: &Vec<u32>) -> (r: bool)
    ensures
        r == are_quiet(bits@),
{
    let mut i: usize = 0;
    while i < bits.len()
        invariant
            i <= bits@.len(),
            forall|j: int| 0 <= j < i ==> is_quiet(#[trigger] bits@[j]),
        decreases bits@.len() - i,
    {
        if bits[i] & 0x7fff_ffff > 0x3800_0000 {
            proof {
                assert(!is_quiet(bits@[i as int]));
            }
            return false;
        }
        i = i + 1;
    }
    true
}

/// When one packet goes out and plays.
#[derive(Debug, Clone, Copy, PartialEq, Eq, Structural)]
pub struct Slot {
    /// When the first sample should start playing.
    pub play_at_ms: u64,
    /// When the first copy goes on the wire, `lead` earlier.
    pub send_at_ms: u64,
    /// How long to sleep until that time.
    pub sleep_ms: u64,
    /// Live send timing: the first copy goes `lead` before play time, the last
    /// of `copies` goes `last_lead` before it.
    pub lead: u64,
    pub copies: u32,
    pub last_lead: u64,
}

/// One datagram's destination, and which packet it gets.
#[derive(Debug, Clone, Copy, PartialEq, Eq, Structural)]
pub struct Outgoing {
    pub ip: u32,
    pub port: u16,
    pub packet: usize,
}

/// What one packet's worth of audio puts on the wire: each distinct packet once,
/// who gets which, and when the redundant copies go.
pub struct Emission {
    pub packets: Vec<AudioPacket>,
    pub sends: Vec<Outgoing>,
    pub copies_at: Vec<u64>,
}

/// Milliseconds that `frames` frames take, rounded down.
pub open spec fn offset_of(frames: int, sample_rate: int) -> int {
    frames * 1000 / sample_rate
}

/// When copy `k` of `copies` goes: spaced evenly from the first send time to
/// `last_lead` before play time, to the nearest millisecond (halves up).
pub open spec fn copy_time(slot: Slot, k: int) -> int {
    let n = slot.copies - 1;
    slot.send_at_ms + (2 * k * (slot.lead - slot.last_lead) + n) / (2 * n)
}

/// The copies of a packet go in order, none before the packet itself, each
/// within half a millisecond of even spacing, and the last exactly `last_lead`
/// before play time.
pub proof fn copies_are_evenly_spaced(slot: Slot, k: int)
    requires
        slot.copies >= 2,
        slot.last_lead <= slot.lead,
        1 <= k < slot.copies,
    ensures
        slot.send_at_ms <= copy_time(slot, k) <= slot.send_at_ms + slot.lead - slot.last_lead,
        copy_time(slot, k - 1) <= copy_time(slot, k),
        copy_time(slot, slot.copies - 1) == slot.send_at_ms + slot.lead - slot.last_lead,
        ({
            let n = slot.copies - 1;
            let d = slot.lead - slot.last_lead;
            let shift = copy_time(slot, k) - slot.send_at_ms;
            -n <= 2 * n * shift - 2 * k * d <= n
        }),
{
    let n = slot.copies - 1;
    let d = slot.lead - slot.last_lead;
    let x = 2 * k * d + n;
    let y = 2 * (k - 1) * d + n;
    assert(0 <= y <= x <= 2 * n * d + n) by (nonlinear_arith)
        requires
            x == 2 * k * d + n,
            y == 2 * (k - 1) * d + n,
            1 <= k <= n,
            0 <= d,
    ;
    div_mod::lemma_div_is_ordered(y, x, 2 * n);
    div_mod::lemma_fundamental_div_mod(x, 2 * n);
    let z = 2 * n * d + n;
    div_mod::lemma_fundamental_div_mod_converse(z, 2 * n, d, n);
    assert(2 * (n) * d + n == z);
    div_mod::lemma_div_is_ordered(x, z, 2 * n);
    div_mod::lemma_div_pos_is_pos(x, 2 * n);
}

/// Whether a packet carries the words of the channels `ids` (empty is all).
pub open spec fn carries(
    pkt: AudioPacket,
    shape: StreamShape,
    seq: u64,
    play_at_ms: u64,
    words: Seq<u32>,
    ids: Seq<u16>,
) -> bool {
    &&& pkt.source_id == shape.source_id
    &&& pkt.seq == seq
    &&& pkt.play_at_ms == play_at_ms
    &&& pkt.sample_rate == shape.sample_rate
    &&& pkt.format == shape.format
    &&& pkt.channel_ids@ == ids
    &&& pkt.channels == if ids.len() == 0 {
        shape.channels as int
    } else {
        ids.len() as int
    }
    &&& pkt.data@ == shape.format.encoded(
        if ids.len() == 0 {
            words
        } else {
            selected(words, shape.channels as int, ids, 0)
        },
    )
}

/// Whether a packet goes to some destination.
pub open spec fn is_sent(sends: Seq<Outgoing>, packet: int) -> bool {
    exists|i: int| 0 <= i < sends.len() && (#[trigger] sends[i]).packet == packet
}

/// Whether the sends are those of the destinations: each gets a packet with the
/// channels that it needs, and destinations with the same channels share one.
pub open spec fn sends_to(
    e: Emission,
    dests: Seq<Dest>,
    shape: StreamShape,
    seq: u64,
    play_at_ms: u64,
    words: Seq<u32>,
) -> bool {
    &&& e.sends@.len() == dests.len()
    &&& forall|i: int|
        0 <= i < dests.len() ==> {
            &&& (#[trigger] e.sends@[i]).ip == dests[i].ip
            &&& e.sends@[i].port == dests[i].port
            &&& e.sends@[i].packet < e.packets@.len()
            &&& carries(
                e.packets@[e.sends@[i].packet as int],
                shape,
                seq,
                play_at_ms,
                words,
                dests[i].ids(),
            )
        }
    &&& distinct_subsets(e.packets@)
    &&& forall|p: int| 0 <= p < e.packets@.len() ==> #[trigger] is_sent(e.sends@, p)
}

/// Whether no two packets carry the same channels.
pub open spec fn distinct_subsets(packets: Seq<AudioPacket>) -> bool {
    forall|a: int, b: int|
        0 <= a < b < packets.len() ==> (#[trigger] packets[a]).channel_ids@ != (
        #[trigger] packets[b]).channel_ids@
}

fn copy_ids(ids: &Option<Vec<u16>>) -> (r: Vec<u16>)
    ensures
        r@ == match *ids {
            Some(v) => v@,
            None => Seq::empty(),
        },
{
    match ids {
        Some(v) => {
            let r: Vec<u16> = v.clone();
            proof {
                assert(r@ =~= v@);
            }
            r
        },
        None => Vec::new(),
    }
}

/// What one packet's words put on the wire for the destinations: one packet per
/// distinct channel subset, shared by the destinations that need it.
fn build_emission(
    shape: &StreamShape,
    slot: &Slot,
    seq: u64,
    words: &Vec<u32>,
    targets: &Vec<Dest>,
) -> (e: Emission)
    requires
        shape.wf(),
        1 <= slot.copies <= MAX_COPIES,
        slot.last_lead <= slot.lead <= MAX_LEAD_MS,
        slot.send_at_ms + slot.lead <= u64::MAX,
        words@.len() <= 0x1_0000,
        forall|i: int|
            0 <= i < targets@.len() ==> ((#[trigger] targets@[i]).subset matches Some(v) ==> 0
                < v@.len() <= 0x8000),
    ensures
        sends_to(e, targets@, *shape, seq, slot.play_at_ms, words@),
        e.copies_at@.len() == slot.copies - 1,
        forall|k: int|
            0 <= k < e.copies_at@.len() ==> #[trigger] e.copies_at@[k] == copy_time(*slot, k + 1),
{
    let mut packets: Vec<AudioPacket> = Vec::new();
    let mut sends: Vec<Outgoing> = Vec::new();
    let mut i: usize = 0;
    while i < targets.len()
        invariant
            shape.wf(),
            i <= targets@.len(),
            words@.len() <= 0x1_0000,
            forall|j: int|
                0 <= j < targets@.len() ==> ((#[trigger] targets@[j]).subset matches Some(v) ==> 0
                    < v@.len() <= 0x8000),
            sends@.len() == i,
            forall|a: int|
                0 <= a < packets@.len() ==> carries(
                    #[trigger] packets@[a],
                    *shape,
                    seq,
                    slot.play_at_ms,
                    words@,
                    packets@[a].channel_ids@,
                ),
            distinct_subsets(packets@),
            forall|p: int| 0 <= p < packets@.len() ==> #[trigger] is_sent(sends@, p),
            forall|j: int|
                0 <= j < i ==> {
                    &&& (#[trigger] sends@[j]).ip == targets@[j].ip
                    &&& sends@[j].port == targets@[j].port
                    &&& sends@[j].packet < packets@.len()
                    &&& packets@[sends@[j].packet as int].channel_ids@ == targets@[j].ids()
                },
        decreases targets@.len() - i,
    {
        let ids: Vec<u16> = copy_ids(&targets[i].subset);
        let mut at: usize = 0;
        while at < packets.len() && !same_items(&packets[at].channel_ids, &ids)
            invariant
                at <= packets@.len(),
                forall|a: int| 0 <= a < at ==> (#[trigger] packets@[a]).channel_ids@ != ids@,
            decreases packets@.len() - at,
        {
            at = at + 1;
        }
        if at == packets.len() {
            let ghost before = packets@;
            let ghost idv = ids@;
            let pkt: AudioPacket = build_packet(shape, seq, slot.play_at_ms, words, ids);
            packets.push(pkt);
            proof {
                assert(packets@ =~= before.push(pkt));
                assert forall|a: int, b: int| 0 <= a < b < packets@.len() implies (
                #[trigger] packets@[a]).channel_ids@ != (#[trigger] packets@[b]).channel_ids@ by {
                    assert(packets@[a] == before[a]);
                    if b < before.len() {
                        assert(packets@[b] == before[b]);
                    }
                }
                assert forall|j: int| 0 <= j < i implies packets@[(#[trigger] sends@[j]).packet as int].channel_ids@
                    == targets@[j].ids() by {
                    assert(packets@[sends@[j].packet as int] == before[sends@[j].packet as int]);
                }
            }
        }
        let ghost sent = sends@;
        sends.push(Outgoing { ip: targets[i].ip, port: targets[i].port, packet: at });
        proof {
            assert forall|p: int| 0 <= p < packets@.len() implies #[trigger] is_sent(
                sends@,
                p,
            ) by {
                if p == at {
                    assert(sends@[i as int].packet == p);
                } else {
                    assert(is_sent(sent, p));
                    let j = choose|j: int|
                        0 <= j < sent.len() && (#[trigger] sent[j]).packet == p;
                    assert(sends@[j].packet == p);
                }
            }
        }
        i = i + 1;
    }
    let mut copies_at: Vec<u64> = Vec::new();
    let n: u64 = slot.copies as u64 - 1;
    let d: u64 = slot.lead - slot.last_lead;
    let mut k: u64 = 1;
    while k <= n
        invariant
            n == slot.copies - 1,
            n <= 7,
            1 <= k <= n + 1,
            d == slot.lead - slot.last_lead,
            slot.last_lead <= slot.lead <= MAX_LEAD_MS,
            slot.send_at_ms + slot.lead <= u64::MAX,
            copies_at@.len() == k - 1,
            forall|j: int|
                0 <= j < copies_at@.len() ==> #[trigger] copies_at@[j] == copy_time(*slot, j + 1),
        decreases n + 1 - k,
    {
        proof {
            copies_are_evenly_spaced(*slot, k as int);
            assert(2 * k * d + n <= 0x1_0000 && 2 * k * d == 2 * k * (slot.lead - slot.last_lead))
                by (nonlinear_arith)
                requires
                    k <= 7,
                    d <= 2000,
                    n <= 7,
                    d == slot.lead - slot.last_lead,
            ;
            assert(k * d <= 14000) by (nonlinear_arith)
                requires
                    k <= 7,
                    d <= 2000,
            ;
        }
        let shift: u64 = (2 * k * d + n) / (2 * n);
        copies_at.push(slot.send_at_ms + shift);
        k = k + 1;
    }
    Emission { packets, sends, copies_at }
}

/// The packet with the channels `ids` (empty is all).
fn build_packet(
    shape: &StreamShape,
    seq: u64,
    play_at_ms: u64,
    words: &Vec<u32>,
    ids: Vec<u16>,
) -> (pkt: AudioPacket)
    requires
        shape.wf(),
        words@.len() <= 0x1_0000,
        ids@.len() <= 0x8000,
    ensures
        carries(pkt, *shape, seq, play_at_ms, words@, ids@),
{
    let data: Vec<u8> = if ids.len() == 0 {
        shape.format.encode(words)
    } else {
        proof {
            let f = words@.len() as int / (shape.channels as int);
            div_mod::lemma_div_is_ordered_by_denominator(
                words@.len() as int,
                1,
                shape.channels as int,
            );
            div_mod::lemma_div_basics(words@.len() as int);
            div_mod::lemma_div_pos_is_pos(words@.len() as int, shape.channels as int);
            assert(f * ids@.len() <= 0x8000_0000) by (nonlinear_arith)
                requires
                    0 <= f <= 0x1_0000,
                    ids@.len() <= 0x8000,
            ;
        }
        let part: Vec<u32> = select_channels(
            words.as_slice(),
            shape.channels as usize,
            ids.as_slice(),
            0,
        );
        shape.format.encode(&part)
    };
    let channels: u16 = if ids.len() == 0 {
        shape.channels
    } else {
        ids.len() as u16
    };
    AudioPacket {
        source_id: shape.source_id,
        seq,
        play_at_ms,
        sample_rate: shape.sample_rate,
        channels,
        format: shape.format,
        data,
        channel_ids: ids,
    }
}

/// The position of one source's stream in time.
///
/// A packet plays at `start_ms + lead + frames/rate`. `start_ms` is re-anchored to
/// real time whenever the source falls behind (late start, pause, or gap), so
/// play times stay about `lead` in the future instead of drifting into the past.
#[derive(Debug, Clone, Copy, PartialEq, Eq, Structural)]
pub struct SendState {
    pub start_ms: u64,
    pub seq: u64,
    pub total_frames: u64,
    /// Consecutive silent frames seen; drives the silence gate.
    pub silent_frames: u64,
}

impl SendState {
    pub fn new(now_ms: u64) -> (r: Self)
        ensures
            r == (SendState { start_ms: now_ms, seq: 0, total_frames: 0, silent_frames: 0 }),
    {
        SendState { start_ms: now_ms, seq: 0, total_frames: 0, silent_frames: 0 }
    }

    /// Whether the next packet's times and counts fit the machine.
    pub open spec fn fits(self, sample_rate: u32, now_ms: u64) -> bool {
        &&& self.total_frames * 1000 <= u64::MAX
        &&& self.total_frames + TARGET_PCM_BYTES <= u64::MAX
        &&& self.seq < u64::MAX
        &&& self.start_ms + offset_of(self.total_frames as int, sample_rate as int) + MAX_LEAD_MS
            + REANCHOR_TOLERANCE_MS <= u64::MAX
        &&& now_ms + MAX_LEAD_MS + REANCHOR_TOLERANCE_MS <= u64::MAX
    }

    pub fn has_room(&self, sample_rate: u32, now_ms: u64) -> (r: bool)
        requires
            sample_rate > 0,
        ensures
            r == self.fits(sample_rate, now_ms),
    {
        let limit: u128 = u64::MAX as u128;
        let spare: u128 = MAX_LEAD_MS as u128 + REANCHOR_TOLERANCE_MS as u128;
        let scaled: u128 = self.total_frames as u128 * 1000;
        let offset: u128 = scaled / sample_rate as u128;
        proof {
            div_mod::lemma_div_is_ordered_by_denominator(scaled as int, 1, sample_rate as int);
            div_mod::lemma_div_basics(scaled as int);
        }
        scaled <= limit && self.total_frames as u128 + TARGET_PCM_BYTES as u128 <= limit
            && self.seq < u64::MAX && self.start_ms as u128 + offset + spare <= limit && now_ms
            as u128 + spare <= limit
    }

    /// Whether the timeline starts anew: on request, or when it has fallen behind
    /// real time.
    pub open spec fn falls_behind(self, sample_rate: u32, asked: bool, now_ms: u64) -> bool {
        asked || self.start_ms + offset_of(self.total_frames as int, sample_rate as int)
            + REANCHOR_TOLERANCE_MS < now_ms
    }

    /// Place the next packet on the timeline. Sending is paced to realtime so a
    /// bursty source can't outrun the timeline and bloat client buffers.
    pub fn begin(
        &mut self,
        shape: &StreamShape,
        params: &mut SendParams,
        metrics: &mut ServerMetrics,
        now_ms: u64,
    ) -> (slot: Slot)
        requires
            shape.wf(),
            old(params).wf(),
            old(self).fits(shape.sample_rate, now_ms),
        ensures
            final(params).wf(),
            *final(params) == (SendParams { reanchor: false, ..*old(params) }),
            final(self).fits(shape.sample_rate, now_ms),
            slot.lead == old(params).lead_ms,
            slot.copies == old(params).redundancy,
            slot.last_lead == if old(params).last_lead_ms < old(params).lead_ms {
                old(params).last_lead_ms as int
            } else {
                old(params).lead_ms - 1
            },
            ({
                let anew = old(self).falls_behind(shape.sample_rate, old(params).reanchor, now_ms);
                let told = ServerMetrics {
                    sample_rate: shape.sample_rate,
                    channels: shape.channels,
                    lead_ms: slot.lead as u32,
                    ..*old(metrics)
                };
                &&& *final(self) == if anew {
                    SendState { start_ms: now_ms, total_frames: 0, ..*old(self) }
                } else {
                    *old(self)
                }
                &&& *final(metrics) == if anew {
                    told.reanchored()
                } else {
                    told
                }
            }),
            slot.last_lead < slot.lead,
            slot.last_lead <= old(params).last_lead_ms,
            slot.last_lead == old(params).last_lead_ms || slot.last_lead + 1 == slot.lead,
            !old(params).reanchor && now_ms <= old(self).start_ms + offset_of(
                old(self).total_frames as int,
                shape.sample_rate as int,
            ) + 60 ==> slot.send_at_ms == old(self).start_ms + offset_of(
                old(self).total_frames as int,
                shape.sample_rate as int,
            ) && final(self).start_ms == old(self).start_ms,
            now_ms <= slot.send_at_ms + 60,
            old(params).reanchor ==> slot.send_at_ms == now_ms,
            slot.send_at_ms == final(self).start_ms + offset_of(
                final(self).total_frames as int,
                shape.sample_rate as int,
            ),
            slot.play_at_ms == slot.send_at_ms + slot.lead,
            slot.sleep_ms == if slot.send_at_ms > now_ms {
                slot.send_at_ms - now_ms
            } else {
                0
            },
    {
        let rate: u64 = shape.sample_rate as u64;
        let lead: u64 = params.lead();
        let copies: u32 = params.redundancy();
        let last: u64 = params.last_lead();
        let last_lead: u64 = if last < lead {
            last
        } else {
            lead - 1
        };
        metrics.set_static(shape.sample_rate, shape.channels, lead as u32);
        proof {
            div_mod::lemma_div_pos_is_pos(self.total_frames * 1000, rate as int);
            div_mod::lemma_div_basics(rate as int);
        }
        let mut offset_ms: u64 = self.total_frames * 1000 / rate;
        let asked: bool = params.take_reanchor();
        if asked || self.start_ms + offset_ms + REANCHOR_TOLERANCE_MS < now_ms {
            self.start_ms = now_ms;
            self.total_frames = 0;
            offset_ms = 0;
            metrics.record_reanchor();
        }
        let send_at_ms: u64 = self.start_ms + offset_ms;
        Slot {
            play_at_ms: send_at_ms + lead,
            send_at_ms,
            sleep_ms: if send_at_ms > now_ms {
                send_at_ms - now_ms
            } else {
                0
            },
            lead,
            copies,
            last_lead,
        }
    }

    /// The silence run after one more packet.
    pub open spec fn silent_after(self, quiet: bool, frames: int) -> int {
        if !quiet {
            0
        } else if self.silent_frames + frames > u64::MAX {
            u64::MAX as int
        } else {
            self.silent_frames + frames
        }
    }

    /// Whether the source counts as producing audio with one more packet.
    pub open spec fn has_audio(self, shape: StreamShape, quiet: bool) -> bool {
        self.silent_after(quiet, shape.spec_frames()) < shape.sample_rate
    }

    /// Whether the packet is sent: there is audio, and someone listens.
    pub open spec fn sends(
        self,
        shape: StreamShape,
        quiet: bool,
        heard: Seq<ListenerView>,
    ) -> bool {
        self.has_audio(shape, quiet) && heard.len() > 0
    }

    /// The timeline after the packet.
    pub open spec fn moved_on(
        self,
        shape: StreamShape,
        quiet: bool,
        heard: Seq<ListenerView>,
    ) -> SendState {
        let frames = shape.spec_frames();
        SendState {
            start_ms: self.start_ms,
            seq: if self.sends(shape, quiet, heard) {
                (self.seq + 1) as u64
            } else {
                self.seq
            },
            total_frames: (self.total_frames + frames) as u64,
            silent_frames: self.silent_after(quiet, frames) as u64,
        }
    }

    /// The metrics after the packet.
    pub open spec fn counted(
        self,
        before: ServerMetrics,
        shape: StreamShape,
        slot: Slot,
        quiet: bool,
        heard: Seq<ListenerView>,
        pending_len: usize,
        e: Emission,
    ) -> ServerMetrics {
        let told = ServerMetrics {
            has_audio: self.has_audio(shape, quiet),
            pending_len: pending_len as u32,
            ..before
        };
        if self.sends(shape, quiet, heard) {
            told.copies_sent(e.sends@.len() * (slot.copies - 1)).packet_sent(
                shape.spec_frames() as u64,
            )
        } else {
            told
        }
    }

    /// Whether this is what goes on the wire for the packet: nothing, or the words
    /// to everyone who is to get them, and when the copies go.
    pub open spec fn emits(
        self,
        e: Emission,
        shape: StreamShape,
        slot: Slot,
        words: Seq<u32>,
        quiet: bool,
        params: SendParams,
        heard: Seq<ListenerView>,
    ) -> bool {
        if self.sends(shape, quiet, heard) {
            &&& exists|d: Seq<Dest>|
                {
                    &&& #[trigger] are_dests(d, params, shape.group, heard, shape.channels as int)
                    &&& sends_to(e, d, shape, self.seq, slot.play_at_ms, words)
                }
            &&& e.copies_at@.len() == slot.copies - 1
            &&& forall|k: int|
                0 <= k < e.copies_at@.len() ==> #[trigger] e.copies_at@[k] == copy_time(slot, k + 1)
        } else {
            e.sends@.len() == 0 && e.packets@.len() == 0 && e.copies_at@.len() == 0
        }
    }

    /// Build what goes on the wire for one packet's samples, and move the timeline
    /// on (see [`SendState::finish`]): the samples give both the words that are
    /// sent and whether they are silence.
    pub fn emit(
        &mut self,
        shape: &StreamShape,
        slot: &Slot,
        samples: &Vec<u32>,
        params: &SendParams,
        listeners: &mut Listeners,
        now: u64,
        metrics: &mut ServerMetrics,
        pending_len: usize,
    ) -> (e: Emission)
        requires
            shape.wf(),
            old(listeners).wf(),
            old(self).seq < u64::MAX,
            old(self).total_frames + TARGET_PCM_BYTES <= u64::MAX,
            slot.copies >= 1,
            slot.last_lead <= slot.lead <= MAX_LEAD_MS,
            slot.copies <= MAX_COPIES,
            slot.send_at_ms + slot.lead <= u64::MAX,
            samples@.len() <= 0x1_0000,
        ensures
            final(listeners).wf(),
            ({
                let quiet = are_quiet(samples@);
                let words = shape.format.words_of(samples@);
                let heard = sync::hearing(old(listeners)@, shape.source_id, now);
                &&& *final(self) == old(self).moved_on(*shape, quiet, heard)
                &&& final(listeners)@ == if old(self).has_audio(*shape, quiet) {
                    sync::pruned(old(listeners)@, shape.source_id, now)
                } else {
                    old(listeners)@
                }
                &&& *final(metrics) == old(self).counted(
                    *old(metrics),
                    *shape,
                    *slot,
                    quiet,
                    heard,
                    pending_len,
                    e,
                )
                &&& old(self).emits(e, *shape, *slot, words, quiet, *params, heard)
            }),
    {
        let quiet: bool = all_quiet(samples);
        let words: Vec<u32> = shape.format.words(samples);
        self.finish(shape, slot, &words, quiet, params, listeners, now, metrics, pending_len)
    }

    /// Build what goes on the wire for one packet's samples (`words` in the wire
    /// format; `quiet` when they are all silence), and move the timeline on.
    ///
    /// Silence gate: after a sustained run of silent samples the source counts as
    /// producing no audio and nothing is sent; that ends the instant real audio
    /// returns. Nothing is sent either while nobody listens. `seq` advances per
    /// emitted packet so a held-back stream resumes gap-free.
    pub fn finish(
        &mut self,
        shape: &StreamShape,
        slot: &Slot,
        words: &Vec<u32>,
        quiet: bool,
        params: &SendParams,
        listeners: &mut Listeners,
        now: u64,
        metrics: &mut ServerMetrics,
        pending_len: usize,
    ) -> (e: Emission)
        requires
            shape.wf(),
            old(listeners).wf(),
            old(self).seq < u64::MAX,
            old(self).total_frames + TARGET_PCM_BYTES <= u64::MAX,
            slot.copies >= 1,
            slot.last_lead <= slot.lead <= MAX_LEAD_MS,
            slot.copies <= MAX_COPIES,
            slot.send_at_ms + slot.lead <= u64::MAX,
            words@.len() <= 0x1_0000,
        ensures
            final(listeners).wf(),
            ({
                let heard = sync::hearing(old(listeners)@, shape.source_id, now);
                let has_audio = old(self).has_audio(*shape, quiet);
                &&& *final(self) == old(self).moved_on(*shape, quiet, heard)
                &&& final(listeners)@ == if has_audio {
                    sync::pruned(old(listeners)@, shape.source_id, now)
                } else {
                    old(listeners)@
                }
                &&& *final(metrics) == old(self).counted(
                    *old(metrics),
                    *shape,
                    *slot,
                    quiet,
                    heard,
                    pending_len,
                    e,
                )
                &&& old(self).emits(e, *shape, *slot, words@, quiet, *params, heard)
            }),
    {
        let frames: u64 = shape.frames_per_packet() as u64;
        self.silent_frames =
        if quiet {
            self.silent_frames.saturating_add(frames)
        } else {
            0
        };
        let has_audio: bool = self.silent_frames < shape.sample_rate as u64 * SILENCE_HOLD_MS
            / 1000;
        metrics.set_has_audio(has_audio);
        metrics.set_pending_len(pending_len);
        let ghost heard = sync::hearing(old(listeners)@, shape.source_id, now);
        let targets: Vec<Dest> = if has_audio {
            dests(
                params,
                shape.group,
                shape.source_id,
                listeners,
                shape.channels as usize,
                now,
            )
        } else {
            Vec::new()
        };
        let mut e: Emission = Emission {
            packets: Vec::new(),
            sends: Vec::new(),
            copies_at: Vec::new(),
        };
        if targets.len() > 0 {
            e = build_emission(shape, slot, self.seq, words, &targets);
            self.seq = self.seq + 1;
            metrics.record_copies_sent(e.sends.len(), e.copies_at.len());
            metrics.record_packet_sent(frames);
        }
        self.total_frames = self.total_frames + frames;
        e
    }
}

/// Play times never drift off the sample clock, and no packet plays before the
/// one ahead of it: where a packet falls is the number of frames before it, to
/// the millisecond.
pub proof fn timeline_follows_sample_clock(frames: int, more: int, sample_rate: int)
    requires
        0 <= frames,
        0 <= more,
        0 < sample_rate,
    ensures
        offset_of(frames, sample_rate) * sample_rate <= frames * 1000 < (offset_of(
            frames,
            sample_rate,
        ) + 1) * sample_rate,
        offset_of(frames, sample_rate) <= offset_of(frames + more, sample_rate),
{
    let q = frames * 1000 / sample_rate;
    div_mod::lemma_fundamental_div_mod(frames * 1000, sample_rate);
    assert(q * sample_rate <= frames * 1000 < (q + 1) * sample_rate) by (nonlinear_arith)
        requires
            frames * 1000 == sample_rate * q + (frames * 1000) % sample_rate,
            0 <= (frames * 1000) % sample_rate < sample_rate,
    ;
    div_mod::lemma_div_is_ordered(frames * 1000, (frames + more) * 1000, sample_rate);
}

/// A packet is never placed further behind real time than the tolerance, so it
/// always plays at least `lead` less the tolerance from now.
pub proof fn packets_stay_ahead(s: SendState, sample_rate: u32, asked: bool, now_ms: u64, lead: u64)
    requires
        sample_rate > 0,
    ensures
        ({
            let anew = s.falls_behind(sample_rate, asked, now_ms);
            let send_at = if anew {
                now_ms as int
            } else {
                s.start_ms + offset_of(s.total_frames as int, sample_rate as int)
            };
            send_at + lead + REANCHOR_TOLERANCE_MS >= now_ms + lead
        }),
{
}

/// Audio that is not silent is sent at once, however long the silence before it.
pub proof fn sound_ends_silence(s: SendState, frames: int, sample_rate: u32)
    requires
        sample_rate > 0,
    ensures
        s.silent_after(false, frames) < sample_rate,
{
}

/// What a client decodes from the packet that it was sent, and routes by its own
/// map, is what it would have routed from all of the source's samples.
pub proof fn packet_plays_like_source(
    pkt: AudioPacket,
    shape: StreamShape,
    seq: u64,
    play_at_ms: u64,
    words: Seq<u32>,
    d: Dest,
    l: ListenerView,
    out_ch: int,
)
    requires
        shape.wf(),
        serves(d, l, shape.channels as int),
        carries(pkt, shape, seq, play_at_ms, words, d.ids()),
        forall|i: int| 0 <= i < words.len() ==> shape.format.holds(#[trigger] words[i]),
    ensures
        client::routed(
            shape.format.decoded(pkt.data@),
            pkt.channels as int,
            out_ch,
            l.channel_map,
            pkt.channel_ids@,
            0u32,
        ) == client::routed(
            words,
            shape.channels as int,
            out_ch,
            l.channel_map,
            Seq::empty(),
            0u32,
        ),
{
    let ch = shape.channels as int;
    match d.subset {
        None => {
            crate::wire::decode_undoes_encode(shape.format, words);
            assert(pkt.channel_ids@ =~= Seq::<u16>::empty());
        },
        Some(v) => {
            let part = selected(words, ch, v@, 0u32);
            assert forall|i: int| 0 <= i < part.len() implies shape.format.holds(
                #[trigger] part[i],
            ) by {
                lemma_selected_from(words, ch, v@, 0u32, i);
            }
            crate::wire::decode_undoes_encode(shape.format, part);
            subset_plays_like_full(words, ch, out_ch, l.channel_map, v@, 0u32);
        },
    }
}

/// A selected sample is one of the source's, or silence.
proof fn lemma_selected_from<T>(full: Seq<T>, src_ch: int, subset: Seq<u16>, silence: T, k: int)
    requires
        src_ch > 0,
        0 <= k < selected(full, src_ch, subset, silence).len(),
    ensures
        selected(full, src_ch, subset, silence)[k] == silence || exists|i: int|
            0 <= i < full.len() && selected(full, src_ch, subset, silence)[k] == #[trigger] full[i],
{
    let w = subset.len() as int;
    let frames = full.len() as int / src_ch;
    if w == 0 {
        assert(frames * w == 0) by (nonlinear_arith)
            requires
                w == 0,
        ;
    } else {
        let f = k / w;
        let o = k % w;
        div_mod::lemma_fundamental_div_mod(k, w);
        div_mod::lemma_div_pos_is_pos(k, w);
        div_mod::lemma_fundamental_div_mod(full.len() as int, src_ch);
        if subset[o] < src_ch {
            let c = subset[o] as int;
            assert(0 <= f * src_ch + c < full.len()) by (nonlinear_arith)
                requires
                    k == w * f + o,
                    0 <= o < w,
                    0 <= f,
                    k < frames * w,
                    0 <= c < src_ch,
                    full.len() == src_ch * frames + full.len() as int % src_ch,
                    0 <= full.len() as int % src_ch,
            ;
            assert(selected(full, src_ch, subset, silence)[k] == full[f * src_ch + c]);
        }
    }
}

// Redundant copies.

/// A scheduled redundant copy: send `payload` (a serialized packet) to its
/// destination at wall-clock `at` (epoch ms). Pre-addressed at enqueue time since
/// a client's channel subset makes the payload per-destination.
pub struct ScheduledCopy<P> {
    pub at: u64,
    pub ip: u32,
    pub port: u16,
    pub payload: P,
}

/// The copies that wait for their time, the earliest first.
pub struct RetransmitQueue<P> {
    pub items: Vec<ScheduledCopy<P>>,
}

/// What a listener decodes from the packet that it was sent of a source's samples,
/// and routes by its own map, is what it would have routed from the words of all of
/// them.
pub proof fn samples_reach_listeners(
    pkt: AudioPacket,
    shape: StreamShape,
    seq: u64,
    play_at_ms: u64,
    samples: Seq<u32>,
    d: Dest,
    l: ListenerView,
    out_ch: int,
)
    requires
        shape.wf(),
        serves(d, l, shape.channels as int),
        carries(pkt, shape, seq, play_at_ms, shape.format.words_of(samples), d.ids()),
    ensures
        client::routed(
            shape.format.decoded(pkt.data@),
            pkt.channels as int,
            out_ch,
            l.channel_map,
            pkt.channel_ids@,
            0u32,
        ) == client::routed(
            shape.format.words_of(samples),
            shape.channels as int,
            out_ch,
            l.channel_map,
            Seq::empty(),
            0u32,
        ),
{
    let words = shape.format.words_of(samples);
    pcm::lemma_words_held(shape.format, samples);
    packet_plays_like_source(pkt, shape, seq, play_at_ms, words, d, l, out_ch);
}

/// Whether the copies stand in the order of their times.
pub open spec fn in_time_order<P>(items: Seq<ScheduledCopy<P>>) -> bool {
    forall|i: int, j: int|
        0 <= i < j < items.len() ==> (#[trigger] items[i]).at <= (#[trigger] items[j]).at
}

impl<P> RetransmitQueue<P> {
    pub open spec fn wf(&self) -> bool {
        in_time_order(self.items@)
    }

    pub fn new() -> (r: Self)
        ensures
            r.wf(),
            r.items@.len() == 0,
    {
        RetransmitQueue { items: Vec::new() }
    }

    /// Schedule a copy.
    pub fn push(&mut self, c: ScheduledCopy<P>)
        requires
            old(self).wf(),
        ensures
            final(self).wf(),
            exists|i: int|
                0 <= i <= old(self).items@.len() && final(self).items@ == #[trigger] old(self).items@.insert(i, c),
    {
        let mut i: usize = self.items.len();
        while i > 0 && self.items[i - 1].at > c.at
            invariant
                i <= self.items@.len(),
                in_time_order(self.items@),
                forall|j: int| i <= j < self.items@.len() ==> (#[trigger] self.items@[j]).at > c.at,
            decreases i,
        {
            i = i - 1;
        }
        let ghost before = self.items@;
        self.items.insert(i, c);
        proof {
            assert forall|a: int, b: int| 0 <= a < b < self.items@.len() implies (
            #[trigger] self.items@[a]).at <= (#[trigger] self.items@[b]).at by {
                if a < i && i > 0 {
                    assert(before[a].at <= before[i - 1].at);
                }
            }
        }
    }

    /// The next copy that is due, if any.
    pub fn pop_due(&mut self, now_ms: u64) -> (r: Option<ScheduledCopy<P>>)
        requires
            old(self).wf(),
        ensures
            final(self).wf(),
            match r {
                Some(c) => {
                    &&& c.at <= now_ms
                    &&& old(self).items@.len() > 0
                    &&& c == old(self).items@[0]
                    &&& final(self).items@ == old(self).items@.drop_first()
                },
                None => {
                    &&& final(self).items@ == old(self).items@
                    &&& forall|i: int|
                        0 <= i < old(self).items@.len() ==> (#[trigger] old(self).items@[i]).at
                            > now_ms
                },
            },
    {
        if self.items.len() == 0 || self.items[0].at > now_ms {
            return None;
        }
        let ghost before = self.items@;
        let c: ScheduledCopy<P> = self.items.remove(0);
        proof {
            assert(self.items@ =~= before.drop_first());
        }
        Some(c)
    }

    /// How long to wait for a new copy before one is due.
    pub fn wait_ms(&self, now_ms: u64) -> (ms: u64)
        ensures
            ms == if self.items@.len() == 0 {
                IDLE_WAIT_MS as int
            } else if self.items@[0].at > now_ms {
                self.items@[0].at - now_ms
            } else {
                0
            },
            self.items@.len() == 0 ==> ms == 1000,
            self.items@.len() > 0 ==> now_ms + ms >= self.items@[0].at,
            self.items@.len() > 0 && ms > 0 ==> now_ms + ms == self.items@[0].at,
    {
        if self.items.len() == 0 {
            IDLE_WAIT_MS
        } else {
            self.items[0].at.saturating_sub(now_ms)
        }
    }
}

/// Of the values that are allowed, the nearest to the one asked for is taken: leads
/// from 1 to 2000 ms, 1 to 8 copies, last leads up to 2000 ms.
pub proof fn nearest_allowed_is_taken(lead_ms: u64, copies: u32, last_ms: u64, x: int)
    ensures
        ({
            let b = bounded_lead(lead_ms);
            &&& 1 <= b <= 2000
            &&& 1 <= x <= lead_ms && x <= 2000 ==> x <= b <= lead_ms
            &&& lead_ms <= x <= 2000 && 1 <= x ==> lead_ms <= b <= x
        }),
        ({
            let b = bounded_copies(copies);
            &&& 1 <= b <= 8
            &&& 1 <= x <= copies && x <= 8 ==> x <= b <= copies
            &&& copies <= x <= 8 && 1 <= x ==> copies <= b <= x
        }),
        ({
            let b = bounded_last_lead(last_ms);
            &&& 0 <= b <= 2000
            &&& 0 <= x <= last_ms && x <= 2000 ==> x <= b <= last_ms
            &&& last_ms <= x <= 2000 ==> last_ms <= b <= x
        }),
{
}

/// New parameters hold what was asked for, each as near as is allowed, and no pending
/// request.
pub proof fn params_hold_what_was_asked(lead_ms: u64, copies: u32, last_ms: u64, unicast: bool)
    ensures
        ({
            let p = SendParams::spec_new(lead_ms, copies, last_ms, unicast);
            &&& 1 <= lead_ms <= 2000 ==> p.lead_ms == lead_ms
            &&& 1 <= copies <= 8 ==> p.redundancy == copies
            &&& last_ms <= 2000 ==> p.last_lead_ms == last_ms
            &&& p.unicast == unicast
            &&& !p.reanchor
        }),
{
}

/// The channels that a client is sent are all those that its map plays and no others,
/// in ascending order; at least one of the source's is not among them.
pub proof fn needed_channels_are_those_played(map: Seq<i16>, src_ch: int, ids: Seq<u16>) -> (
    unplayed: int)
    requires
        src_ch > 0,
        is_needed(map, src_ch, Some(ids)),
    ensures
        map.len() > 0,
        ids.len() > 0,
        forall|i: int, j: int| 0 <= i < j < ids.len() ==> #[trigger] ids[i] < #[trigger] ids[j],
        forall|i: int|
            0 <= i < ids.len() ==> (#[trigger] ids[i]) < src_ch && exists|j: int|
                0 <= j < map.len() && #[trigger] map[j] == ids[i],
        forall|j: int|
            0 <= j < map.len() && 0 <= #[trigger] map[j] < src_ch ==> ids.contains(map[j] as u16),
        0 <= unplayed < src_ch,
        forall|j: int| 0 <= j < map.len() ==> #[trigger] map[j] != unplayed,
        !is_needed(map, src_ch, None),
{
    assert forall|j: int| 0 <= j < map.len() && 0 <= #[trigger] map[j] < src_ch implies ids.contains(
        map[j] as u16,
    ) by {
        assert(plays(map, src_ch, map[j] as int));
    }
    assert forall|i: int| 0 <= i < ids.len() implies (#[trigger] ids[i]) < src_ch && exists|j: int|
        0 <= j < map.len() && #[trigger] map[j] == ids[i] by {
        assert(plays(map, src_ch, ids[i] as int));
    }
    let c = choose|c: int| 0 <= c < src_ch && !#[trigger] plays(map, src_ch, c);
    assert forall|j: int| 0 <= j < map.len() implies #[trigger] map[j] != c by {
        if map[j] == c {
            assert(plays(map, src_ch, c));
        }
    }
    c
}

/// A client is sent the full stream only when its map is empty, plays nothing, or
/// plays all of it.
pub proof fn full_stream_is_for_those_who_play_it(map: Seq<i16>, src_ch: int, c: int, d: int)
    requires
        is_needed(map, src_ch, None),
        map.len() > 0,
        0 <= c < src_ch,
        0 <= d < src_ch,
        exists|j: int| 0 <= j < map.len() && #[trigger] map[j] == c,
    ensures
        exists|j: int| 0 <= j < map.len() && #[trigger] map[j] == d,
{
    assert(plays(map, src_ch, c));
    assert(plays(map, src_ch, d));
}

/// Selecting channels keeps every frame, and in it the samples of those channels, in
/// the order in which they were named.
pub proof fn selected_samples_stay_in_their_frames<T>(
    full: Seq<T>,
    src_ch: int,
    subset: Seq<u16>,
    silence: T,
    f: int,
    o: int,
)
    requires
        src_ch > 0,
        0 <= f < full.len() as int / src_ch,
        0 <= o < subset.len(),
    ensures
        selected(full, src_ch, subset, silence).len() == full.len() as int / src_ch * subset.len(),
        subset[o] < src_ch ==> selected(full, src_ch, subset, silence)[f * subset.len() + o]
            == full[f * src_ch + subset[o]],
        subset[o] >= src_ch ==> selected(full, src_ch, subset, silence)[f * subset.len() + o]
            == silence,
{
    let w = subset.len() as int;
    let frames = full.len() as int / src_ch;
    let k = f * w + o;
    div_mod::lemma_fundamental_div_mod_converse(k, w, f, o);
    assert(0 <= k < frames * w) by (nonlinear_arith)
        requires
            k == f * w + o,
            0 <= f < frames,
            0 <= o < w,
    ;
}

/// While nobody listens, packets go nowhere. A unicast source reaches every listener
/// once, at its own address, on port 5004; a multicast source reaches its group alone,
/// in full.
pub proof fn packets_go_to_those_who_listen(
    out: Seq<Dest>,
    params: SendParams,
    group: u32,
    heard: Seq<ListenerView>,
    src_ch: int,
    i: int,
)
    requires
        are_dests(out, params, group, heard, src_ch),
    ensures
        heard.len() == 0 ==> out.len() == 0,
        heard.len() > 0 && params.unicast ==> out.len() == heard.len(),
        heard.len() > 0 && params.unicast && 0 <= i < heard.len() ==> {
            &&& out[i].ip == heard[i].ip
            &&& out[i].port == 5004
            &&& out[i].subset matches Some(v) ==> is_needed(heard[i].channel_map, src_ch, Some(v@))
            &&& out[i].subset is None ==> is_needed(heard[i].channel_map, src_ch, None)
        },
        heard.len() > 0 && !params.unicast ==> out.len() == 1 && out[0].ip == group && out[0].port
            == 5004 && out[0].subset is None,
{
    if heard.len() > 0 && params.unicast && 0 <= i < heard.len() {
        assert(serves(out[i], heard[i], src_ch));
    }
}

/// A packet holds as many whole frames as fit 1024 bytes, and at least one.
pub proof fn packets_are_as_full_as_they_can_be(shape: StreamShape)
    requires
        shape.wf(),
    ensures
        ({
            let frame = shape.channels * shape.format.width();
            &&& shape.spec_frames() >= 1
            &&& shape.spec_frames() > 1 ==> shape.spec_frames() * frame <= 1024
            &&& (shape.spec_frames() + 1) * frame > 1024
        }),
{
    let frame = shape.channels * shape.format.width();
    assert(frame >= 1) by (nonlinear_arith)
        requires
            frame == shape.channels * shape.format.width(),
            shape.channels >= 1,
            shape.format.width() >= 1,
    ;
    let q = 1024int / frame;
    div_mod::lemma_fundamental_div_mod(1024, frame);
    assert(q * frame <= 1024 < (q + 1) * frame && q >= 0) by (nonlinear_arith)
        requires
            1024 == frame * q + 1024int % frame,
            0 <= 1024int % frame < frame,
            frame >= 1,
    ;
    if q < 1 {
        assert((1 + 1) * frame > 1024) by (nonlinear_arith)
            requires
                1024 < (q + 1) * frame,
                q < 1,
                frame >= 1,
        ;
    }
}

/// A sample that is a number counts as silence exactly if it is at most one 32768th of
/// full scale, of either sign.
pub proof fn quiet_samples_are_within_a_step(bits: u32)
    requires
        pcm::is_finite(bits),
    ensures
        is_quiet(bits) <==> -power2::pow2(134) <= pcm::value(bits) <= power2::pow2(134),
{
    let u = pcm::unsigned(bits);
    assert(bits & 0x7fff_ffff == if bits >= 0x8000_0000 {
        (bits - 0x8000_0000) as u32
    } else {
        bits
    }) by (bit_vector);
    let e = pcm::exponent(bits);
    let s = pcm::significand(bits);
    let w = pcm::weight(bits);
    let size = s * w;
    power2::lemma_pow2_adds(23, 111);
    assert(power2::pow2(23) == 0x80_0000) by {
        power2::lemma2_to64();
    }
    assert(power2::pow2(24) == 0x100_0000) by {
        power2::lemma2_to64();
    }
    power2::lemma_pow2_adds(24, 110);
    power2::lemma_pow2_pos(111);
    power2::lemma_pow2_pos(110);
    power2::lemma_pow2_pos(134);
    if e == 0 {
        power2::lemma2_to64();
        power2::lemma_pow2_strictly_increases(23, 134);
        assert(size == s) by (nonlinear_arith)
            requires
                size == s * w,
                w == 1,
        ;
        assert(0 <= size < power2::pow2(134));
    } else if e < 112 {
        power2::lemma_pow2_pos((e - 1) as nat);
        if e < 111 {
            power2::lemma_pow2_strictly_increases((e - 1) as nat, 110);
        }
        assert(0 <= size < power2::pow2(134)) by (nonlinear_arith)
            requires
                size == s * w,
                0 <= s < 0x100_0000,
                0 <= w <= power2::pow2(110),
                power2::pow2(110) > 0,
                power2::pow2(134) == 0x100_0000 * power2::pow2(110),
        ;
    } else if e == 112 {
        let top = power2::pow2(111) as int;
        assert(size == 0x80_0000 * top + (s - 0x80_0000) * top) by (nonlinear_arith)
            requires
                size == s * w,
                w == top,
        ;
        assert((s - 0x80_0000) * top >= (s - 0x80_0000)) by (nonlinear_arith)
            requires
                s >= 0x80_0000,
                top >= 1,
        ;
        if s == 0x80_0000 {
            assert(0 * top == 0) by (nonlinear_arith);
        }
    } else {
        power2::lemma_pow2_strictly_increases(111, (e - 1) as nat);
        assert(size > power2::pow2(134)) by (nonlinear_arith)
            requires
                size == s * w,
                s >= 0x80_0000,
                w > power2::pow2(111),
                power2::pow2(111) > 0,
                power2::pow2(134) == 0x80_0000 * power2::pow2(111),
        ;
    }
}

/// The timeline is kept as long as it is no more than 60 ms behind real time and
/// nobody asks for a new one; it starts anew as soon as it is further behind.
pub proof fn timeline_is_kept_within_tolerance(
    s: SendState,
    sample_rate: u32,
    asked: bool,
    now_ms: u64,
)
    ensures
        ({
            let due = s.start_ms + offset_of(s.total_frames as int, sample_rate as int);
            &&& !asked && now_ms <= due + 60 ==> !s.falls_behind(sample_rate, asked, now_ms)
            &&& now_ms > due + 60 ==> s.falls_behind(sample_rate, asked, now_ms)
            &&& asked ==> s.falls_behind(sample_rate, asked, now_ms)
        }),
{
}

/// Two packets in a row whose source keeps up, each within 60 ms, are sent (and so
/// played) exactly as far apart as the sample clock says: by as many milliseconds as
/// the frames of the first make, however early or late they come.
pub proof fn packets_in_a_row_follow_the_sample_clock(
    s: SendState,
    shape: StreamShape,
    quiet: bool,
    heard: Seq<ListenerView>,
    now_ms: u64,
    later_ms: u64,
)
    requires
        shape.wf(),
        s.total_frames + shape.spec_frames() <= u64::MAX,
        now_ms <= s.start_ms + offset_of(s.total_frames as int, shape.sample_rate as int) + 60,
        later_ms <= s.start_ms + offset_of(
            s.total_frames + shape.spec_frames(),
            shape.sample_rate as int,
        ) + 60,
    ensures
        ({
            let rate = shape.sample_rate;
            let one = if s.falls_behind(rate, false, now_ms) {
                SendState { start_ms: now_ms, total_frames: 0, ..s }
            } else {
                s
            };
            let next = one.moved_on(shape, quiet, heard);
            let two = if next.falls_behind(rate, false, later_ms) {
                SendState { start_ms: later_ms, total_frames: 0, ..next }
            } else {
                next
            };
            let first_at = one.start_ms + offset_of(one.total_frames as int, rate as int);
            let second_at = two.start_ms + offset_of(two.total_frames as int, rate as int);
            &&& two.start_ms == s.start_ms
            &&& second_at - first_at == offset_of(
                s.total_frames + shape.spec_frames(),
                rate as int,
            ) - offset_of(s.total_frames as int, rate as int)
        }),
{
}

/// A source counts as silent once it has been quiet for a whole second, and as
/// producing audio before that and from the first sample on that is not quiet. The
/// quiet frames add up from packet to packet.
pub proof fn silence_takes_a_second(
    s: SendState,
    shape: StreamShape,
    heard: Seq<ListenerView>,
)
    requires
        shape.wf(),
        s.silent_frames + shape.spec_frames() <= u64::MAX,
    ensures
        s.has_audio(shape, false),
        ({
            let run = s.silent_frames + shape.spec_frames();
            &&& run * 1000 >= 1000 * shape.sample_rate ==> !s.has_audio(shape, true)
            &&& run * 1000 < 1000 * shape.sample_rate ==> s.has_audio(shape, true)
            &&& s.moved_on(shape, true, heard).silent_frames == run
            &&& s.moved_on(shape, false, heard).silent_frames == 0
        }),
{
}

/// A packet is sent exactly when there is audio and someone listens; each one that is
/// sent takes the next seq, and each one moves the timeline on by its frames, sent or
/// not.
pub proof fn timeline_moves_with_every_packet(
    s: SendState,
    shape: StreamShape,
    quiet: bool,
    heard: Seq<ListenerView>,
)
    requires
        shape.wf(),
        s.seq < u64::MAX,
        s.total_frames + shape.spec_frames() <= u64::MAX,
    ensures
        ({
            let m = s.moved_on(shape, quiet, heard);
            &&& heard.len() == 0 || !s.has_audio(shape, quiet) ==> m.seq == s.seq && !s.sends(
                shape,
                quiet,
                heard,
            )
            &&& heard.len() > 0 && s.has_audio(shape, quiet) ==> m.seq == s.seq + 1 && s.sends(
                shape,
                quiet,
                heard,
            )
            &&& m.total_frames == s.total_frames + shape.spec_frames()
            &&& m.start_ms == s.start_ms
        }),
{
}

/// What is emitted of a packet: to every listener of a unicast source one send to its
/// own address, or to a multicast source's group one send, with the packet's seq and
/// play time; and one time for each further copy, the last of them `last_lead` before
/// the play time.
pub proof fn every_listener_is_sent_the_packet(
    s: SendState,
    e: Emission,
    shape: StreamShape,
    slot: Slot,
    words: Seq<u32>,
    quiet: bool,
    params: SendParams,
    heard: Seq<ListenerView>,
    i: int,
)
    requires
        shape.wf(),
        s.emits(e, shape, slot, words, quiet, params, heard),
        heard.len() > 0,
        s.has_audio(shape, quiet),
        slot.copies >= 1,
        slot.last_lead <= slot.lead,
        slot.play_at_ms == slot.send_at_ms + slot.lead,
        0 <= i < e.sends@.len(),
    ensures
        e.sends@.len() == if params.unicast {
            heard.len() as int
        } else {
            1
        },
        e.sends@[i].port == 5004,
        e.sends@[i].ip == if params.unicast {
            heard[i].ip
        } else {
            shape.group
        },
        ({
            let p = e.packets@[e.sends@[i].packet as int];
            &&& e.sends@[i].packet < e.packets@.len()
            &&& p.source_id == shape.source_id
            &&& p.seq == s.seq
            &&& p.play_at_ms == slot.play_at_ms
            &&& p.sample_rate == shape.sample_rate
            &&& p.format == shape.format
            &&& p.channel_ids@.len() == 0 ==> p.channels == shape.channels && p.data@
                == shape.format.encoded(words)
            &&& p.channel_ids@.len() > 0 ==> p.channels == p.channel_ids@.len() && params.unicast
                && is_needed(
                heard[i].channel_map,
                shape.channels as int,
                Some(p.channel_ids@),
            ) && p.data@ == shape.format.encoded(
                selected(words, shape.channels as int, p.channel_ids@, 0),
            )
        }),
        e.copies_at@.len() == slot.copies - 1,
        slot.copies > 1 ==> e.copies_at@.last() == slot.play_at_ms - slot.last_lead,
        forall|k: int|
            0 <= k < e.copies_at@.len() ==> slot.send_at_ms <= #[trigger] e.copies_at@[k]
                <= slot.play_at_ms - slot.last_lead,
{
    assert(s.sends(shape, quiet, heard));
    let d = choose|d: Seq<Dest>|
        {
            &&& #[trigger] are_dests(d, params, shape.group, heard, shape.channels as int)
            &&& sends_to(e, d, shape, s.seq, slot.play_at_ms, words)
        };
    packets_go_to_those_who_listen(d, params, shape.group, heard, shape.channels as int, i);
    assert(e.sends@[i].ip == d[i].ip);
    if slot.copies > 1 {
        let n = slot.copies - 1;
        copies_are_evenly_spaced(slot, n);
        assert(e.copies_at@[n - 1] == copy_time(slot, n));
        assert forall|k: int| 0 <= k < e.copies_at@.len() implies slot.send_at_ms
            <= #[trigger] e.copies_at@[k] <= slot.play_at_ms - slot.last_lead by {
            copies_are_evenly_spaced(slot, k + 1);
        }
    }
}

/// Nothing is emitted of a packet while the source is silent or nobody listens.
pub proof fn nothing_is_sent_to_nobody(
    s: SendState,
    e: Emission,
    shape: StreamShape,
    slot: Slot,
    words: Seq<u32>,
    quiet: bool,
    params: SendParams,
    heard: Seq<ListenerView>,
)
    requires
        s.emits(e, shape, slot, words, quiet, params, heard),
        heard.len() == 0 || !s.has_audio(shape, quiet),
    ensures
        e.sends@.len() == 0,
        e.packets@.len() == 0,
        e.copies_at@.len() == 0,
{
}

/// The counters grow by what goes on the wire: one packet of its frames, and every
/// further copy to every destination; nothing while nothing is sent.
pub proof fn counters_count_what_is_sent(
    s: SendState,
    before: ServerMetrics,
    shape: StreamShape,
    slot: Slot,
    quiet: bool,
    heard: Seq<ListenerView>,
    pending_len: usize,
    e: Emission,
)
    requires
        shape.wf(),
        slot.copies >= 1,
        pending_len <= u32::MAX,
        before.packets_sent + 1 + e.sends@.len() * (slot.copies - 1) <= u64::MAX,
        before.frames_sent + shape.spec_frames() <= u64::MAX,
    ensures
        ({
            let m = s.counted(before, shape, slot, quiet, heard, pending_len, e);
            let sent = heard.len() > 0 && s.has_audio(shape, quiet);
            &&& m.has_audio == s.has_audio(shape, quiet)
            &&& m.pending_len == pending_len
            &&& m.packets_sent == before.packets_sent + if sent {
                1 + e.sends@.len() * (slot.copies - 1)
            } else {
                0
            }
            &&& m.frames_sent == before.frames_sent + if sent {
                shape.spec_frames()
            } else {
                0
            }
            &&& m.reanchors == before.reanchors
            &&& m.sample_rate == before.sample_rate
            &&& m.lead_ms == before.lead_ms
        }),
{
    let told = ServerMetrics {
        has_audio: s.has_audio(shape, quiet),
        pending_len: pending_len as u32,
        ..before
    };
    let n = e.sends@.len() * (slot.copies - 1);
    assert(n >= 0) by (nonlinear_arith)
        requires
            n == e.sends@.len() * (slot.copies - 1),
            slot.copies >= 1,
    ;
    metrics::copies_count_one_by_one(told, n);
}

/// Destinations that need the same channels share one packet, and every packet goes to
/// some destination.
pub proof fn packets_are_shared(
    s: SendState,
    e: Emission,
    shape: StreamShape,
    slot: Slot,
    words: Seq<u32>,
    quiet: bool,
    params: SendParams,
    heard: Seq<ListenerView>,
    a: int,
    b: int,
) -> (i: int)
    requires
        s.emits(e, shape, slot, words, quiet, params, heard),
        0 <= a < e.packets@.len(),
        0 <= b < e.packets@.len(),
    ensures
        a != b ==> e.packets@[a].channel_ids@ != e.packets@[b].channel_ids@,
        0 <= i < e.sends@.len(),
        e.sends@[i].packet == a,
{
    let d = choose|d: Seq<Dest>|
        {
            &&& #[trigger] are_dests(d, params, shape.group, heard, shape.channels as int)
            &&& sends_to(e, d, shape, s.seq, slot.play_at_ms, words)
        };
    assert(is_sent(e.sends@, a));
    if a < b {
        assert(e.packets@[a].channel_ids@ != e.packets@[b].channel_ids@);
    } else if b < a {
        assert(e.packets@[b].channel_ids@ != e.packets@[a].channel_ids@);
    }
    choose|i: int| 0 <= i < e.sends@.len() && (#[trigger] e.sends@[i]).packet == a
}

/// The copy at the front is due no later than any other.
pub proof fn earliest_copy_stands_first<P>(items: Seq<ScheduledCopy<P>>, i: int)
    requires
        in_time_order(items),
        0 <= i < items.len(),
    ensures
        items[0].at <= items[i].at,
{
    if i > 0 {
        assert(items[0].at <= items[i].at);
    }
}

} // verus!
