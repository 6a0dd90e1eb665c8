//! The multicast wire protocol.
//!
//! There are four multicast planes plus the unicast ones:
//! - **Audio** (server to clients): one [`AudioPacket`] per datagram, sent to a
//!   per-source group on the shared [`AUDIO_PORT`]. Each packet carries the
//!   absolute wall-clock time at which its samples should begin playing, so
//!   every client renders the same sample at the same instant.
//! - **Catalog** (server to everyone, [`ANNOUNCE_GROUP`]): each server
//!   periodically multicasts its [`CatalogAnnounce`], so clients and other
//!   servers learn the full set of available sources across the LAN.
//! - **Telemetry** (clients to servers, on [`TELEMETRY_PORT`]): length-prefixed
//!   [`TelemetryReport`]s.
//! - **Control** (server to clients, [`CONTROL_GROUP`]): the web UI changes a
//!   client's settings by multicasting a [`ControlCommand`]; the client applies
//!   it and reflects the new value in its next telemetry report.
//! - **Time-sync** (unicast, [`DEFAULT_SYNC_PORT`]): the NTP-style exchange each
//!   client runs against the server that owns its currently selected source.
//!
//! An IPv4 address is the number whose most significant byte is its first
//! octet.
use std::time::{SystemTime, UNIX_EPOCH};
use vstd::prelude::*;

use crate::text;
use crate::text::{push_decimal, same_text, to_lower_ascii, u64_text};
use crate::units::{Millis, Volume};

verus! {

/// Shared UDP port every source's audio stream is sent to. Sources differ by
/// *group address*, not port, so a client can receive whichever source it
/// selected on a single bound socket.
pub const AUDIO_PORT: u16 = 5004;

/// Unicast port on each server that answers time-sync requests.
pub const DEFAULT_SYNC_PORT: u16 = 5005;

/// Catalog announcements (server to everyone): 239.255.42.100.
pub const ANNOUNCE_GROUP: u32 = 0xefff_2a64;

pub const ANNOUNCE_PORT: u16 = 5008;

/// Control commands (server to clients): 239.255.42.101.
pub const CONTROL_GROUP: u32 = 0xefff_2a65;

pub const CONTROL_PORT: u16 = 5009;

/// Unicast port on each server that answers catalog requests.
pub const CATALOG_REQ_PORT: u16 = 5010;

/// Port a client sends its telemetry reports to.
pub const TELEMETRY_PORT: u16 = 5006;

/// Telemetry requests (server to clients): 239.255.42.104.
pub const TELEMETRY_REQ_GROUP: u32 = 0xefff_2a68;

pub const TELEMETRY_REQ_PORT: u16 = 5012;

/// Server send-path stats (server to servers), so any UI can graph every
/// server's streams, not just its own: 239.255.42.103.
pub const STATS_GROUP: u32 = 0xefff_2a67;

pub const STATS_PORT: u16 = 5011;

/// Max playback advance (ms) before a source is selected. A client can only skip
/// forward into audio it has already buffered, so this must stay comfortably
/// below the server's send lead.
pub const MAX_DELAY_MS: u32 = 150;

/// Ceiling on a source's send lead (ms).
pub const MAX_LEAD_MS: u64 = 2000;

/// Target PCM payload per datagram. Kept well under a 1500-byte MTU (with room
/// for the packet header and the IP/UDP headers) to avoid IP fragmentation.
pub const TARGET_PCM_BYTES: usize = 1024;

/// The address with the octets `o`.
pub open spec fn ip_of(o: Seq<u8>) -> int {
    o[0] * 0x100_0000 + o[1] * 0x1_0000 + o[2] * 0x100 + o[3]
}

/// The octets of an address, most significant first.
pub fn octets(ip: u32) -> (o: [u8; 4])
    ensures
        ip_of(o@) == ip,
{
    [
        (ip / 0x100_0000) as u8,
        (ip / 0x1_0000 % 0x100) as u8,
        (ip / 0x100 % 0x100) as u8,
        (ip % 0x100) as u8,
    ]
}

/// The address with the octets `o`.
pub fn ip_from(o: &[u8; 4]) -> (ip: u32)
    ensures
        ip == ip_of(o@),
{
    o[0] as u32 * 0x100_0000 + o[1] as u32 * 0x1_0000 + o[2] as u32 * 0x100 + o[3] as u32
}

/// An address in dotted notation.
pub open spec fn dotted(ip: u32) -> Seq<char> {
    text::decimal((ip / 0x100_0000) as nat).push('.') + text::decimal(
        (ip / 0x1_0000 % 0x100) as nat,
    ).push('.') + text::decimal((ip / 0x100 % 0x100) as nat).push('.') + text::decimal(
        (ip % 0x100) as nat,
    )
}

pub fn ip_text(ip: u32) -> (r: String)
    ensures
        r@ == dotted(ip),
{
    let mut r: String = u64_text((ip / 0x100_0000) as u64);
    r.push('.');
    push_decimal(&mut r, (ip / 0x1_0000 % 0x100) as u64);
    r.push('.');
    push_decimal(&mut r, (ip / 0x100 % 0x100) as u64);
    r.push('.');
    push_decimal(&mut r, (ip % 0x100) as u64);
    proof {
        assert(r@ =~= dotted(ip));
    }
    r
}

/// Different octets make different addresses.
pub proof fn ip_octets_unique(a: Seq<u8>, b: Seq<u8>)
    requires
        a.len() == 4,
        b.len() == 4,
        ip_of(a) == ip_of(b),
    ensures
        a == b,
{
    octets_come_most_significant_first(a);
    octets_come_most_significant_first(b);
    assert(a[0] == b[0] && a[1] == b[1] && a[2] == b[2] && a[3] == b[3]);
    assert(a =~= b);
}

/// PCM encoding used on the wire. The server picks this per source; the client
/// learns it from each packet, so it needs no matching flag.
#[derive(Debug, Clone, Copy, PartialEq, Eq, Structural)]
pub enum WireFormat {
    S16Le,
    F32Le,
}

impl WireFormat {
    /// The format that a name stands for, whatever the case of its letters.
    pub open spec fn spec_parse(s: Seq<char>) -> Option<WireFormat> {
        let l = text::lower_ascii(s);
        if l == "s16"@ || l == "s16le"@ {
            Some(WireFormat::S16Le)
        } else if l == "f32"@ || l == "f32le"@ {
            Some(WireFormat::F32Le)
        } else {
            None
        }
    }

    pub fn parse(s: &str) -> (r: Option<Self>)
        ensures
            r == Self::spec_parse(s@),
    {
        let l: String = to_lower_ascii(s);
        let t: &str = l.as_str();
        if same_text(t, "s16") || same_text(t, "s16le") {
            Some(WireFormat::S16Le)
        } else if same_text(t, "f32") || same_text(t, "f32le") {
            Some(WireFormat::F32Le)
        } else {
            None
        }
    }

    pub open spec fn width(self) -> int {
        match self {
            WireFormat::S16Le => 2,
            WireFormat::F32Le => 4,
        }
    }

    pub fn bytes_per_sample(self) -> (n: usize)
        ensures
            n == self.width(),
    {
        match self {
            WireFormat::S16Le => 2,
            WireFormat::F32Le => 4,
        }
    }

    /// Whether a word can be a sample: an IEEE-754 single's bits, or a 16-bit
    /// two's complement number in the low half.
    pub open spec fn holds(self, word: u32) -> bool {
        match self {
            WireFormat::S16Le => word < 0x1_0000,
            WireFormat::F32Le => true,
        }
    }

    /// The sample that the `i`-th byte belongs to; of `n` bytes, how many samples
    /// are whole.
    pub open spec fn sample_of(self, i: int) -> int {
        match self {
            WireFormat::S16Le => i / 2,
            WireFormat::F32Le => i / 4,
        }
    }

    /// Where the `i`-th byte stands in its sample.
    pub open spec fn place_in_sample(self, i: int) -> int {
        match self {
            WireFormat::S16Le => i % 2,
            WireFormat::F32Le => i % 4,
        }
    }

    /// The bytes of the samples, each least significant byte first.
    pub open spec fn encoded(self, words: Seq<u32>) -> Seq<u8> {
        Seq::new(
            (words.len() * self.width()) as nat,
            |i: int| word_byte(words[self.sample_of(i)], self.place_in_sample(i)),
        )
    }

    /// The samples of the bytes; bytes that make no whole sample are left off.
    pub open spec fn decoded(self, data: Seq<u8>) -> Seq<u32> {
        Seq::new(
            self.sample_of(data.len() as int) as nat,
            |i: int| self.sample_at(data, i),
        )
    }

    pub open spec fn sample_at(self, data: Seq<u8>, i: int) -> u32 {
        match self {
            WireFormat::S16Le => (data[2 * i] + data[2 * i + 1] * 0x100) as u32,
            WireFormat::F32Le => (data[4 * i] + data[4 * i + 1] * 0x100 + data[4 * i + 2] * 0x1_0000
                + data[4 * i + 3] * 0x100_0000) as u32,
        }
    }

    /// Encode interleaved samples. A sample is a word (see [`WireFormat::words`]):
    /// for `F32Le` the bits of an IEEE-754 single, for `S16Le` a 16-bit two's
    /// complement number.
    pub fn encode(self, words: &Vec<u32>) -> (out: Vec<u8>)
        ensures
            out@ == self.encoded(words@),
    {
        let mut out: Vec<u8> = Vec::new();
        let mut i: usize = 0;
        proof {
            assert(self.encoded(words@.take(0)) =~= Seq::<u8>::empty());
        }
        while i < words.len()
            invariant
                i <= words@.len(),
                out@ == self.encoded(words@.take(i as int)),
            decreases words@.len() - i,
        {
            let w: u32 = words[i];
            let ghost before = out@;
            out.push((w % 0x100) as u8);
            out.push((w / 0x100 % 0x100) as u8);
            match self {
                WireFormat::S16Le => {},
                WireFormat::F32Le => {
                    out.push((w / 0x1_0000 % 0x100) as u8);
                    out.push((w / 0x100_0000) as u8);
                },
            }
            i = i + 1;
            proof {
                let pre = words@.take(i as int);
                assert(pre.len() == i);
                match self {
                    WireFormat::S16Le => {
                        assert(before.len() == 2 * (i - 1));
                        assert(out@ =~= self.encoded(pre));
                    },
                    WireFormat::F32Le => {
                        assert(before.len() == 4 * (i - 1));
                        assert(out@ =~= self.encoded(pre));
                    },
                }
            }
        }
        proof {
            assert(words@.take(i as int) =~= words@);
        }
        out
    }

    /// Decode wire bytes back to the words of samples (see [`WireFormat::samples`]).
    pub fn decode(self, data: &Vec<u8>) -> (out: Vec<u32>)
        ensures
            out@ == self.decoded(data@),
    {
        let mut out: Vec<u32> = Vec::new();
        let n: usize = match self {
            WireFormat::S16Le => data.len() / 2,
            WireFormat::F32Le => data.len() / 4,
        };
        let mut i: usize = 0;
        while i < n
            invariant
                n == self.sample_of(data@.len() as int),
                data@.len() <= usize::MAX,
                i <= n,
                out@ == self.decoded(data@).take(i as int),
            decreases n - i,
        {
            let w: u32 = match self {
                WireFormat::S16Le => data[2 * i] as u32 + data[2 * i + 1] as u32 * 0x100,
                WireFormat::F32Le => data[4 * i] as u32 + data[4 * i + 1] as u32 * 0x100
                    + data[4 * i + 2] as u32 * 0x1_0000 + data[4 * i + 3] as u32 * 0x100_0000,
            };
            out.push(w);
            i = i + 1;
            proof {
                assert(out@ =~= self.decoded(data@).take(i as int));
            }
        }
        proof {
            assert(out@ =~= self.decoded(data@));
        }
        out
    }
}

/// The `k`-th byte of a word, counted from the least significant.
pub open spec fn word_byte(w: u32, k: int) -> u8 {
    if k == 0 {
        (w % 0x100) as u8
    } else if k == 1 {
        (w / 0x100 % 0x100) as u8
    } else if k == 2 {
        (w / 0x1_0000 % 0x100) as u8
    } else {
        (w / 0x100_0000) as u8
    }
}

/// A word is what its bytes make.
proof fn lemma_bytes_of_word(w: u32)
    ensures
        word_byte(w, 0) + word_byte(w, 1) * 0x100 + word_byte(w, 2) * 0x1_0000 + word_byte(w, 3)
            * 0x100_0000 == w,
        w < 0x1_0000 ==> word_byte(w, 0) + word_byte(w, 1) * 0x100 == w,
{
    assert(word_byte(w, 0) == w % 0x100);
    assert(word_byte(w, 1) == w / 0x100 % 0x100);
    assert(word_byte(w, 2) == w / 0x1_0000 % 0x100);
    assert(word_byte(w, 3) == w / 0x100_0000);
}

/// The bytes that make up a word of four.
proof fn lemma_word_of_bytes(a: u8, b: u8, c: u8, d: u8)
    ensures
        ({
            let w = (a + b * 0x100 + c * 0x1_0000 + d * 0x100_0000) as u32;
            &&& word_byte(w, 0) == a
            &&& word_byte(w, 1) == b
            &&& word_byte(w, 2) == c
            &&& word_byte(w, 3) == d
        }),
{
    let w: int = a + b * 0x100 + c * 0x1_0000 + d * 0x100_0000;
    assert(0 <= w <= u32::MAX);
    assert(w / 0x100 == b + c * 0x100 + d * 0x1_0000);
    assert(w / 0x1_0000 == c + d * 0x100);
    assert(w / 0x100_0000 == d);
}

/// Decoding gives back the samples that were encoded.
pub proof fn decode_undoes_encode(f: WireFormat, words: Seq<u32>)
    requires
        forall|i: int| 0 <= i < words.len() ==> f.holds(#[trigger] words[i]),
    ensures
        f.decoded(f.encoded(words)) == words,
{
    let e = f.encoded(words);
    let d = f.decoded(e);
    match f {
        WireFormat::S16Le => {
            assert(f.width() == 2);
            assert(e.len() == words.len() * 2);
            assert(d.len() == words.len());
            assert forall|i: int| 0 <= i < words.len() implies d[i] == words[i] by {
                assert(f.holds(words[i]));
                lemma_bytes_of_word(words[i]);
                assert((2 * i) / 2 == i && (2 * i) % 2 == 0);
                assert((2 * i + 1) / 2 == i && (2 * i + 1) % 2 == 1);
                assert(e[2 * i] == word_byte(words[i], 0));
                assert(e[2 * i + 1] == word_byte(words[i], 1));
                assert(d[i] == f.sample_at(e, i));
            }
            assert(d =~= words);
        },
        WireFormat::F32Le => {
            assert(f.width() == 4);
            assert(e.len() == words.len() * 4);
            assert(d.len() == words.len());
            assert forall|i: int| 0 <= i < words.len() implies d[i] == words[i] by {
                lemma_bytes_of_word(words[i]);
                assert((4 * i) / 4 == i && (4 * i) % 4 == 0);
                assert((4 * i + 1) / 4 == i && (4 * i + 1) % 4 == 1);
                assert((4 * i + 2) / 4 == i && (4 * i + 2) % 4 == 2);
                assert((4 * i + 3) / 4 == i && (4 * i + 3) % 4 == 3);
                assert(e[4 * i] == word_byte(words[i], 0));
                assert(e[4 * i + 1] == word_byte(words[i], 1));
                assert(e[4 * i + 2] == word_byte(words[i], 2));
                assert(e[4 * i + 3] == word_byte(words[i], 3));
                assert(d[i] == f.sample_at(e, i));
            }
            assert(d =~= words);
        },
    }
}

/// Encoding gives back the whole samples that were decoded.
pub proof fn encode_undoes_decode(f: WireFormat, data: Seq<u8>)
    ensures
        f.encoded(f.decoded(data)) == data.take(f.sample_of(data.len() as int) * f.width()),
{
    let d = f.decoded(data);
    let e = f.encoded(d);
    match f {
        WireFormat::S16Le => {
            assert(f.width() == 2);
            let n = data.len() as int / 2;
            assert(d.len() == n);
            assert(e.len() == n * 2);
            assert forall|i: int| 0 <= i < n * 2 implies e[i] == data[i] by {
                let k = i / 2;
                assert(i == 2 * k + i % 2);
                lemma_word_of_bytes(data[2 * k], data[2 * k + 1], 0, 0);
                assert(d[k] == f.sample_at(data, k));
                assert(e[i] == word_byte(d[k], i % 2));
            }
            assert(e =~= data.take(n * 2));
        },
        WireFormat::F32Le => {
            assert(f.width() == 4);
            let n = data.len() as int / 4;
            assert(d.len() == n);
            assert(e.len() == n * 4);
            assert forall|i: int| 0 <= i < n * 4 implies e[i] == data[i] by {
                let k = i / 4;
                assert(i == 4 * k + i % 4);
                lemma_word_of_bytes(
                    data[4 * k],
                    data[4 * k + 1],
                    data[4 * k + 2],
                    data[4 * k + 3],
                );
                assert(d[k] == f.sample_at(data, k));
                assert(e[i] == word_byte(d[k], i % 4));
            }
            assert(e =~= data.take(n * 4));
        },
    }
}

/// One datagram's worth of audio.
#[derive(Debug, Clone)]
pub struct AudioPacket {
    /// Which source this belongs to. Lets a client that briefly straddles two
    /// groups (during a source switch) reject packets from the source it left.
    pub source_id: u64,
    /// Monotonic per-stream sequence number, for ordering and loss detection.
    pub seq: u64,
    /// Absolute UNIX-epoch time (milliseconds) at which to start playing this
    /// packet's first sample.
    pub play_at_ms: u64,
    pub sample_rate: u32,
    pub channels: u16,
    pub format: WireFormat,
    /// PCM samples encoded per `format`, interleaved across channels.
    pub data: Vec<u8>,
    /// Source-channel index of each channel present in `data`; empty for the
    /// full stream.
    pub channel_ids: Vec<u16>,
}

/// NTP-style time-sync request sent by a client to the server (unicast).
#[derive(Debug, Clone)]
pub struct TimeRequest {
    /// Client's local clock (epoch ms) at send time (T1).
    pub client_send_ms: u64,
    /// Correlates a response with its request.
    pub nonce: u64,
    /// The source the client is playing (0 = none).
    pub selected_source_id: u64,
    /// The client's output channel map (empty = identity).
    pub channel_map: Vec<i16>,
}

/// The server's reply to a [`TimeRequest`].
#[derive(Debug, Clone, Copy, PartialEq, Eq, Structural)]
pub struct TimeResponse {
    /// Echoed T1 from the request.
    pub client_send_ms: u64,
    /// Server's local clock (epoch ms) when it answered.
    pub server_ms: u64,
    pub nonce: u64,
}

/// One available source, as advertised in a [`CatalogAnnounce`]. The client
/// resolves its selected `source_id` to this to find the group to join and the
/// server to time-sync against.
#[derive(Debug)]
pub struct CatalogEntry {
    /// Globally-unique, stable id (hash of server id + source name). Never 0.
    pub source_id: u64,
    /// Human display name for the UI dropdown.
    pub name: String,
    /// The kind of source, for UI grouping.
    pub source_type: String,
    /// Multicast group this source streams to (octets; audio port is [`AUDIO_PORT`]).
    pub group: [u8; 4],
    pub sample_rate: u32,
    pub channels: u16,
    pub format: WireFormat,
    /// Server's send lead in ms (jitter-buffer depth), for the UI.
    pub lead_ms: u32,
}

impl Clone for CatalogEntry {
    fn clone(&self) -> (r: Self)
        ensures
            r == *self,
    {
        CatalogEntry {
            source_id: self.source_id,
            name: self.name.clone(),
            source_type: self.source_type.clone(),
            group: self.group,
            sample_rate: self.sample_rate,
            channels: self.channels,
            format: self.format,
            lead_ms: self.lead_ms,
        }
    }
}

/// A server's periodic advertisement of the sources it hosts. Multicast on
/// [`ANNOUNCE_GROUP`]; received by clients (to resolve sources) and by other
/// servers (so any web UI can render the full global catalog).
#[derive(Debug, Clone)]
pub struct CatalogAnnounce {
    /// Per-process random id, so two servers with identical configs don't merge.
    pub server_id: u64,
    /// Server's unicast IP for time-sync (octets). The catalog receiver overrides
    /// this with the datagram's actual source address, so the sender may leave it 0.
    pub server_ip: [u8; 4],
    pub sync_port: u16,
    pub sent_ms: u64,
    pub sources: Vec<CatalogEntry>,
}

/// A unicast request for a server's catalog.
#[derive(Debug, Clone, Copy, PartialEq, Eq, Structural)]
pub struct CatalogRequest {
    pub nonce: u64,
}

/// One source's cumulative send-path counters, as broadcast between servers.
#[derive(Debug, Clone, Copy, PartialEq, Eq, Structural)]
pub struct SourceStat {
    pub source_id: u64,
    pub packets_sent: u64,
    pub frames_sent: u64,
    pub reanchors: u64,
    pub pending_len: u32,
}

/// A server's periodic broadcast of its sources' send-path stats on
/// [`STATS_GROUP`], so every server can graph every server's streams.
#[derive(Debug, Clone)]
pub struct StatsBroadcast {
    pub server_id: u64,
    pub sent_ms: u64,
    pub sources: Vec<SourceStat>,
}

/// A settings change targeting one client, multicast by a server's web UI on
/// [`CONTROL_GROUP`]. The client is the source of truth: it applies the command
/// and reflects the new value in its next [`TelemetryReport`], which is how every
/// server's UI converges without server-to-server state sync.
#[derive(Debug, Clone)]
pub struct ControlCommand {
    /// Which client this targets (octets). Others ignore it.
    pub target_ip: [u8; 4],
    /// Monotonic per-server id; lets clients tell the redundant re-sends apart.
    pub cmd_id: u64,
    /// `None` = leave unchanged; `Some(0)` = Off (play nothing); `Some(id)` = select.
    pub set_source_id: Option<u64>,
    pub set_volume: Option<Volume>,
    pub set_delay_ms: Option<u32>,
    pub set_channel_map: Option<Vec<i16>>,
}

/// Server to clients ping asking for telemetry.
#[derive(Debug, Clone, Copy, PartialEq, Eq, Structural)]
pub struct TelemetryRequest {
    /// The requesting server's id; the client replies to the datagram's source
    /// address regardless.
    pub server_id: u64,
}

/// A telemetry snapshot a client sends to the servers (~10 Hz) so the web UI can
/// graph each device's buffers and sample flow live. Counters are cumulative
/// since the client started; gauges are the instantaneous value at report time.
/// Also carries the client's self-owned settings, since with many servers no
/// single server owns them.
#[derive(Debug, Clone)]
pub struct TelemetryReport {
    /// Client's local clock (epoch ms) at report time.
    pub sent_ms: u64,
    /// Stable device identity.
    pub device_id: String,
    /// Primary NIC MAC (or a hostname-derived fallback).
    pub mac: [u8; 6],
    /// The device's hostname, the default display name until overridden.
    pub hostname: String,
    /// Stream format, so the UI can convert buffer depths to milliseconds.
    pub sample_rate: u32,
    pub channels: u16,
    /// Channels on the output device.
    pub output_channels: u16,
    /// Currently-selected source id (0 = off / playing nothing).
    pub selected_source_id: u64,
    /// Assigned playback volume.
    pub volume: Volume,
    /// Playback advance in milliseconds (played this much earlier than play_at).
    pub delay_ms: u32,
    /// Output channel map (empty = identity).
    pub channel_map: Vec<i16>,
    /// Sample blocks handed to the player.
    pub blocks_appended: u64,
    /// Individual interleaved samples handed to the player.
    pub samples_appended: u64,
    /// Packets received from the stream.
    pub packets_received: u64,
    /// Blocks dropped because the output queue was already too deep (overrun).
    pub overrun_drops: u64,
    /// Packets dropped for arriving past their play-at time (late).
    pub late_drops: u64,
    /// Packets skipped as lost (never arrived within the jitter window).
    pub lost_packets: u64,
    /// Times the output queue was observed empty while streaming.
    pub underruns: u64,
    /// Output (device) queue depth in buffers.
    pub output_queue_len: u32,
    /// Jitter-buffer depth in packets.
    pub jitter_buffer_len: u32,
    /// Applied clock offset (server_clock - client_clock); what playback uses.
    pub clock_offset_ms: Millis,
    /// Best clock-offset estimate (lowest-RTT sample in the window).
    pub clock_target_offset_ms: Millis,
    /// Raw offset from the most recent exchange.
    pub last_offset_ms: Millis,
    /// RTT of the most recent exchange.
    pub last_rtt_ms: Millis,
    /// Best round-trip time in the sync window.
    pub rtt_ms: Millis,
    /// Number of sync samples currently held.
    pub sync_samples: u32,
}

/// Current local wall-clock time as UNIX-epoch milliseconds, from
/// `SystemTime::now`. Nothing is promised of the value: it is whatever the
/// machine's clock says.
#[verifier::external_body]
pub fn now_epoch_ms() -> u64 {
    SystemTime::now().duration_since(UNIX_EPOCH).unwrap_or_default().as_millis() as u64
}

/// The first octet of an address is its most significant byte, the last its least.
pub proof fn octets_come_most_significant_first(o: Seq<u8>)
    requires
        o.len() == 4,
    ensures
        ip_of(o) / 0x100_0000 == o[0],
        ip_of(o) / 0x1_0000 % 0x100 == o[1],
        ip_of(o) / 0x100 % 0x100 == o[2],
        ip_of(o) % 0x100 == o[3],
        0 <= ip_of(o) <= u32::MAX,
{
    let upper = o[0] * 0x100 + o[1];
    let three = upper * 0x100 + o[2];
    assert(ip_of(o) == three * 0x100 + o[3]);
    assert(ip_of(o) / 0x100 == three);
    assert(ip_of(o) / 0x1_0000 == upper);
}

/// An address in dotted notation is its four octets in decimal, in order, with a dot
/// between each two.
pub proof fn dotted_names_the_octets(ip: u32, o: Seq<u8>)
    requires
        o.len() == 4,
        ip_of(o) == ip,
    ensures
        text::split(dotted(ip), '.').len() == 4,
        forall|k: int|
            0 <= k < 4 ==> #[trigger] text::split(dotted(ip), '.')[k] == text::decimal(
                o[k] as nat,
            ),
{
    octets_come_most_significant_first(o);
    let parts = o.map_values(|b: u8| text::decimal(b as nat));
    assert forall|i: int| 0 <= i < parts.len() implies !(#[trigger] parts[i]).contains('.') by {
        assert forall|k: int| 0 <= k < parts[i].len() implies parts[i][k] != '.' by {
            text::decimals_are_digits(o[i] as nat, k);
        }
    }
    let p3 = parts.drop_last();
    let p2 = p3.drop_last();
    let p1 = p2.drop_last();
    assert(p1.len() == 1 && p1[0] == parts[0]);
    assert(p2.last() == parts[1] && p3.last() == parts[2] && parts.last() == parts[3]);
    assert(text::join(p1, '.') == parts[0]);
    assert(text::join(p2, '.') == parts[0].push('.') + parts[1]);
    assert(text::join(p3, '.') == (parts[0].push('.') + parts[1]).push('.') + parts[2]);
    assert(text::join(parts, '.') =~= dotted(ip));
    text::split_undoes_join(parts, '.');
}

/// A sample takes two bytes or four, by the format, and its least significant byte
/// comes first.
pub proof fn bytes_come_least_significant_first(f: WireFormat, words: Seq<u32>, i: int)
    requires
        0 <= i < words.len(),
        f.holds(words[i]),
    ensures
        f == WireFormat::S16Le ==> {
            let b = f.encoded(words);
            b.len() == 2 * words.len() && words[i] == b[2 * i] + 0x100 * b[2 * i + 1]
        },
        f == WireFormat::F32Le ==> {
            let b = f.encoded(words);
            b.len() == 4 * words.len() && words[i] == b[4 * i] + 0x100 * b[4 * i + 1] + 0x1_0000
                * b[4 * i + 2] + 0x100_0000 * b[4 * i + 3]
        },
{
    lemma_bytes_of_word(words[i]);
}

/// The name of a format is read whatever the case of its letters, and each name stands
/// for the format that has as many bits as it says.
pub proof fn format_names_are_read_in_any_case(s: Seq<char>)
    ensures
        WireFormat::spec_parse(s) == WireFormat::spec_parse(text::lower_ascii(s)),
        WireFormat::spec_parse(s) matches Some(f) ==> {
            let l = text::lower_ascii(s);
            &&& s.len() == 3 || (s.len() == 5 && l[3] == 'l' && l[4] == 'e')
            &&& f == WireFormat::S16Le <==> l[0] == 's' && l[1] == '1' && l[2] == '6'
            &&& f == WireFormat::F32Le <==> l[0] == 'f' && l[1] == '3' && l[2] == '2'
            &&& f.width() == if f == WireFormat::S16Le {
                16int / 8
            } else {
                32int / 8
            }
        },
        ({
            let l = text::lower_ascii(s);
            let known = s.len() == 3 || (s.len() == 5 && l[3] == 'l' && l[4] == 'e');
            &&& known && l[0] == 's' && l[1] == '1' && l[2] == '6' ==> WireFormat::spec_parse(s)
                == Some(WireFormat::S16Le)
            &&& known && l[0] == 'f' && l[1] == '3' && l[2] == '2' ==> WireFormat::spec_parse(s)
                == Some(WireFormat::F32Le)
        }),
{
    let l = text::lower_ascii(s);
    reveal_strlit("s16");
    reveal_strlit("s16le");
    reveal_strlit("f32");
    reveal_strlit("f32le");
    assert(text::lower_ascii(l) =~= l) by {
        assert forall|i: int| 0 <= i < s.len() implies text::lower_char(
            text::lower_char(#[trigger] s[i]),
        ) == text::lower_char(s[i]) by {}
    }
    if s.len() == 3 {
        if l[0] == 's' && l[1] == '1' && l[2] == '6' {
            assert(l =~= "s16"@);
        }
        if l[0] == 'f' && l[1] == '3' && l[2] == '2' {
            assert(l =~= "f32"@);
        }
    }
    if s.len() == 5 && l[3] == 'l' && l[4] == 'e' {
        if l[0] == 's' && l[1] == '1' && l[2] == '6' {
            assert(l =~= "s16le"@);
        }
        if l[0] == 'f' && l[1] == '3' && l[2] == '2' {
            assert(l =~= "f32le"@);
        }
    }
}

} // verus!
