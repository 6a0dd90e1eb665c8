//! Server configuration.
//!
//! A server hosts a list of sources, each with a type and its own settings.
use vstd::prelude::*;

use crate::supervisor;
use crate::supervisor::nominal_format;
use crate::text::copy_opt;
use crate::wire::WireFormat;

verus! {

/// What a server runs.
#[derive(Debug)]
pub struct Config {
    /// Optional multicast egress interface IP. `None` lets the kernel choose, which
    /// is fine on a single-homed host.
    pub interface: Option<u32>,
    pub sources: Vec<SourceConfig>,
    /// Run a playback client inside the server process, so the server machine can
    /// also play a source. It appears as a normal client in the UI. Absent = off.
    pub local_client: Option<LocalClientConfig>,
}

/// Settings for the in-process local client (see [`Config::local_client`]).
#[derive(Debug)]
pub struct LocalClientConfig {
    /// Device id (defaults to a hostname-derived id, distinct from a standalone
    /// client on the same host).
    pub id: Option<String>,
    /// Display name (defaults to the hostname).
    pub name: Option<String>,
}

impl Clone for LocalClientConfig {
    fn clone(&self) -> (r: Self)
        ensures
            r == *self,
    {
        LocalClientConfig { id: copy_opt(&self.id), name: copy_opt(&self.name) }
    }
}

/// One source and how it is sent.
#[derive(Debug)]
pub struct SourceConfig {
    /// Human display name, shown in the UI dropdown.
    pub name: String,
    /// Explicit multicast group override; auto-derived from the source id if absent.
    pub group: Option<u32>,
    /// Send lead in ms: how far ahead of play time the first packet copy is sent
    /// (the client's jitter-buffer depth). Adjustable live from the UI.
    pub lead_ms: u64,
    /// Number of identical copies of each packet to send (repetition FEC).
    pub redundancy: u32,
    /// How long before play time the *last* copy is sent; copies are spaced
    /// evenly between `lead_ms` (first) and this (last).
    pub last_lead_ms: u64,
    /// Stream by unicast to each listening client instead of the multicast group.
    pub unicast: bool,
    pub kind: SourceKind,
}

impl Clone for SourceConfig {
    fn clone(&self) -> (r: Self)
        ensures
            r == *self,
    {
        SourceConfig {
            name: self.name.clone(),
            group: self.group,
            lead_ms: self.lead_ms,
            redundancy: self.redundancy,
            last_lead_ms: self.last_lead_ms,
            unicast: self.unicast,
            kind: self.kind.clone(),
        }
    }
}

/// What a source reads.
#[derive(Debug)]
pub enum SourceKind {
    /// A FIFO carrying raw PCM.
    Pipe { path: String, format: String, channels: u16, sample_rate: u32 },
    /// A Spotify Connect receiver.
    Spotify { device_name: String, format: String },
    /// A virtual playback device (null sink) registered with the audio server:
    /// apps can select it as an output, and everything routed to it is streamed.
    /// The name is what apps see (keep it simple: no spaces).
    Sink { device_name: String, format: String, channels: u16, sample_rate: u32 },
    /// A capture device (microphone / line-in) whose audio is streamed; the default
    /// input if none is named.
    Mic { device: Option<String>, format: String, channels: u16, sample_rate: u32 },
}

impl Clone for SourceKind {
    fn clone(&self) -> (r: Self)
        ensures
            r == *self,
    {
        match self {
            SourceKind::Pipe { path, format, channels, sample_rate } => SourceKind::Pipe {
                path: path.clone(),
                format: format.clone(),
                channels: *channels,
                sample_rate: *sample_rate,
            },
            SourceKind::Spotify { device_name, format } => SourceKind::Spotify {
                device_name: device_name.clone(),
                format: format.clone(),
            },
            SourceKind::Sink { device_name, format, channels, sample_rate } => SourceKind::Sink {
                device_name: device_name.clone(),
                format: format.clone(),
                channels: *channels,
                sample_rate: *sample_rate,
            },
            SourceKind::Mic { device, format, channels, sample_rate } => SourceKind::Mic {
                device: copy_opt(device),
                format: format.clone(),
                channels: *channels,
                sample_rate: *sample_rate,
            },
        }
    }
}

impl SourceKind {
    pub open spec fn spec_kind_name(self) -> Seq<char> {
        match self {
            SourceKind::Pipe { .. } => "pipe"@,
            SourceKind::Spotify { .. } => "spotify"@,
            SourceKind::Sink { .. } => "sink"@,
            SourceKind::Mic { .. } => "mic"@,
        }
    }

    /// The `type` label, used for the wire catalog and UI grouping.
    pub fn kind_name(&self) -> (r: &'static str)
        ensures
            r@ == self.spec_kind_name(),
    {
        match self {
            SourceKind::Pipe { .. } => "pipe",
            SourceKind::Spotify { .. } => "spotify",
            SourceKind::Sink { .. } => "sink",
            SourceKind::Mic { .. } => "mic",
        }
    }

    pub open spec fn spec_format(self) -> Seq<char> {
        match self {
            SourceKind::Pipe { format, .. } => format@,
            SourceKind::Spotify { format, .. } => format@,
            SourceKind::Sink { format, .. } => format@,
            SourceKind::Mic { format, .. } => format@,
        }
    }

    /// The configured wire-format string for this source.
    pub fn format_str(&self) -> (r: &str)
        ensures
            r@ == self.spec_format(),
    {
        match self {
            SourceKind::Pipe { format, .. } => format.as_str(),
            SourceKind::Spotify { format, .. } => format.as_str(),
            SourceKind::Sink { format, .. } => format.as_str(),
            SourceKind::Mic { format, .. } => format.as_str(),
        }
    }
}

/// Whether the source's wire format is one that there is.
pub open spec fn runnable(s: SourceConfig) -> bool {
    WireFormat::spec_parse(s.kind.spec_format()) is Some
}

/// What is said of a source with an unknown format.
pub open spec fn format_error(s: SourceConfig) -> Seq<char> {
    "source '"@ + s.name@ + "': unknown format '"@ + s.kind.spec_format()
        + "' (expected s16 or f32)"@
}

/// Whether a source can be streamed: its wire format is known, and there are
/// channels and a sample rate to stream at.
pub open spec fn streamable(s: SourceConfig) -> bool {
    &&& runnable(s)
    &&& supervisor::nominal_of(s.kind).0 > 0
    &&& supervisor::nominal_of(s.kind).1 > 0
}

/// What is said of a source that can't be streamed.
pub open spec fn source_error(s: SourceConfig) -> Seq<char> {
    if !runnable(s) {
        format_error(s)
    } else if supervisor::nominal_of(s.kind).0 == 0 {
        "source '"@ + s.name@ + "': channels must be > 0"@
    } else {
        "source '"@ + s.name@ + "': sample_rate must be > 0"@
    }
}

impl SourceConfig {
    /// What keeps the source from being streamed, if anything.
    pub fn fault(&self) -> (r: Option<String>)
        ensures
            match r {
                None => streamable(*self),
                Some(e) => !streamable(*self) && e@ == source_error(*self),
            },
    {
        let (channels, sample_rate) = nominal_format(&self.kind);
        let mut e: String = "source '".to_owned();
        e.append(self.name.as_str());
        if WireFormat::parse(self.kind.format_str()).is_none() {
            e.append("': unknown format '");
            e.append(self.kind.format_str());
            e.append("' (expected s16 or f32)");
        } else if channels == 0 {
            e.append("': channels must be > 0");
        } else if sample_rate == 0 {
            e.append("': sample_rate must be > 0");
        } else {
            return None;
        }
        proof {
            assert(e@ =~= source_error(*self));
        }
        Some(e)
    }
}

impl Config {
    /// Reject configs that can't be run, with a clear message (better than a
    /// panic deep inside a source thread later).
    pub fn validate(&self) -> (r: Result<(), String>)
        ensures
            match r {
                Ok(_) => self.sources@.len() > 0 && forall|i: int|
                    0 <= i < self.sources@.len() ==> streamable(#[trigger] self.sources@[i]),
                Err(e) => {
                    ||| self.sources@.len() == 0 && e@ == "config has no sources"@
                    ||| exists|i: int|
                        {
                            &&& 0 <= i < self.sources@.len()
                            &&& !streamable(#[trigger] self.sources@[i])
                            &&& e@ == source_error(self.sources@[i])
                            &&& forall|j: int|
                                0 <= j < i ==> streamable(#[trigger] self.sources@[j])
                        }
                },
            },
    {
        if self.sources.len() == 0 {
            return Err("config has no sources".to_owned());
        }
        let mut i: usize = 0;
        while i < self.sources.len()
            invariant
                i <= self.sources@.len(),
                forall|j: int| 0 <= j < i ==> streamable(#[trigger] self.sources@[j]),
            decreases self.sources@.len() - i,
        {
            if let Some(e) = self.sources[i].fault() {
                proof {
                    assert(!streamable(self.sources@[i as int]));
                }
                return Err(e);
            }
            i = i + 1;
        }
        Ok(())
    }
}

pub fn default_format() -> (r: String)
    ensures
        r@ == "s16"@,
{
    "s16".to_owned()
}

pub fn default_spotify_format() -> (r: String)
    ensures
        r@ == "f32"@,
{
    "f32".to_owned()
}

pub fn default_channels() -> (r: u16)
    ensures
        r == 2,
{
    2
}

pub fn default_sample_rate() -> (r: u32)
    ensures
        r == 44_100,
{
    44_100
}

pub fn default_device_name() -> (r: String)
    ensures
        r@ == "RustCast"@,
{
    "RustCast".to_owned()
}

pub fn default_sink_name() -> (r: String)
    ensures
        r@ == "RustCast"@,
{
    "RustCast".to_owned()
}

pub fn default_lead_ms() -> (r: u64)
    ensures
        r == 200,
{
    200
}

pub fn default_redundancy() -> (r: u32)
    ensures
        r == 1,
{
    1
}

pub fn default_last_lead_ms() -> (r: u64)
    ensures
        r == 60,
{
    60
}

/// The default formats are known ones.
pub proof fn default_formats_are_known()
    ensures
        WireFormat::spec_parse("s16"@) == Some(WireFormat::S16Le),
        WireFormat::spec_parse("f32"@) == Some(WireFormat::F32Le),
{
    reveal_strlit("s16");
    reveal_strlit("f32");
    reveal_strlit("s16le");
    assert(crate::text::lower_ascii("s16"@) =~= "s16"@);
    assert(crate::text::lower_ascii("f32"@) =~= "f32"@);
    assert("f32"@[0] == 'f');
    assert("s16"@[0] == 's');
    assert("s16le"@[0] == 's');
}

/// A source can be streamed exactly if its format is one that there is and it has
/// channels and a rate; what is said of one that cannot be names the source.
pub proof fn streamable_sources_have_a_format(s: SourceConfig)
    ensures
        streamable(s) <==> {
            &&& WireFormat::spec_parse(s.kind.spec_format()) is Some
            &&& supervisor::nominal_of(s.kind).0 != 0
            &&& supervisor::nominal_of(s.kind).1 != 0
        },
        s.kind matches SourceKind::Pipe { channels, sample_rate, .. } ==> channels == 0
            || sample_rate == 0 ==> !streamable(s),
        s.kind matches SourceKind::Sink { channels, sample_rate, .. } ==> channels == 0
            || sample_rate == 0 ==> !streamable(s),
        s.kind matches SourceKind::Mic { channels, sample_rate, .. } ==> channels == 0
            || sample_rate == 0 ==> !streamable(s),
        s.kind is Spotify && runnable(s) ==> streamable(s),
        ({
            let e = source_error(s);
            let head = "source '"@ + s.name@ + "': "@;
            e.len() > head.len() && e.take(head.len() as int) == head
        }),
{
    let head = "source '"@ + s.name@ + "': "@;
    reveal_strlit("source '");
    reveal_strlit("': ");
    reveal_strlit("': unknown format '");
    reveal_strlit("' (expected s16 or f32)");
    reveal_strlit("': channels must be > 0");
    reveal_strlit("': sample_rate must be > 0");
    assert(source_error(s).take(head.len() as int) =~= head);
}

} // verus!
