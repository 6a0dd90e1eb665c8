//! Capture from the system audio server (PulseAudio or PipeWire) via its command
//! line tools: which endpoint to capture, and how to ask for it.
use vstd::prelude::*;

use crate::source::Format;
use crate::text;
use crate::text::{chars_of, push_decimal, same_text, split_chars, text_of, trim_chars};

verus! {

/// Which audio-server endpoint to capture.
#[derive(Debug)]
pub enum PulseKind {
    /// A virtual playback device (null sink) we create; `sink_name` is what apps
    /// see. We capture its `.monitor`.
    Sink { sink_name: String },
    /// An existing capture source; `None` = the server's default input.
    Source { device: Option<String> },
}

/// The device to capture; empty is the default input.
pub open spec fn device_of(kind: PulseKind) -> Seq<char> {
    match kind {
        PulseKind::Sink { sink_name } => sink_name@ + ".monitor"@,
        PulseKind::Source { device } => match device {
            Some(d) => d@,
            None => Seq::empty(),
        },
    }
}

/// The device to capture.
pub fn capture_device(kind: &PulseKind) -> (r: String)
    ensures
        r@ == device_of(*kind),
{
    match kind {
        PulseKind::Sink { sink_name } => {
            let mut r: String = sink_name.clone();
            r.append(".monitor");
            r
        },
        PulseKind::Source { device } => match device {
            Some(d) => d.clone(),
            None => {
                let r: String = String::new();
                proof {
                    assert(r@ =~= Seq::<char>::empty());
                }
                r
            },
        },
    }
}

/// The arguments that ask the recorder for a device's audio.
pub open spec fn record_args_of(device: Seq<char>, format: Format) -> Seq<Seq<char>> {
    let base = seq![
        "--format=s16le"@,
        "--rate="@ + text::decimal(format.sample_rate as nat),
        "--channels="@ + text::decimal(format.channels as nat),
    ];
    if device.len() == 0 {
        base
    } else {
        base.push("--device="@ + device)
    }
}

/// The arguments that ask the recorder for the device's audio as signed 16-bit
/// samples; the default input is asked for by naming none.
pub fn record_args(kind: &PulseKind, format: Format) -> (out: Vec<String>)
    ensures
        out@.map_values(|s: String| s@) == record_args_of(device_of(*kind), format),
{
    let device: String = capture_device(kind);
    let mut out: Vec<String> = Vec::new();
    out.push("--format=s16le".to_owned());
    let mut rate: String = "--rate=".to_owned();
    push_decimal(&mut rate, format.sample_rate as u64);
    out.push(rate);
    let mut channels: String = "--channels=".to_owned();
    push_decimal(&mut channels, format.channels as u64);
    out.push(channels);
    let chars: Vec<char> = chars_of(device.as_str());
    if chars.len() > 0 {
        let mut dev: String = "--device=".to_owned();
        dev.append(device.as_str());
        out.push(dev);
    }
    proof {
        assert(out@.map_values(|s: String| s@) =~= record_args_of(device_of(*kind), format));
    }
    out
}

/// The lines of a text: split at each newline, with a carriage return before it
/// left off, and nothing after a last newline.
pub open spec fn lines_of(s: Seq<char>) -> Seq<Seq<char>> {
    let parts = text::split(s, '\n');
    let last = parts.last();
    let rows = if last.len() == 0 {
        parts.drop_last()
    } else {
        parts
    };
    Seq::new(
        rows.len(),
        |i: int|
            if i < parts.len() - 1 && rows[i].len() > 0 && rows[i].last() == '\r' {
                rows[i].drop_last()
            } else {
                rows[i]
            },
    )
}

/// The field of a line at `n`, counted from 0, where tabs part the fields.
pub open spec fn has_field(line: Seq<char>, n: int, name: Seq<char>) -> bool {
    let f = text::split(line, '\t');
    n < f.len() && f[n] == name
}

/// Whether a list of sinks (one per line; the name is the second field) has one
/// of this name.
pub open spec fn lists_sink(listing: Seq<char>, name: Seq<char>) -> bool {
    exists|i: int|
        0 <= i < lines_of(listing).len() && has_field(#[trigger] lines_of(listing)[i], 1, name)
}

/// Whether a sink with this name is already registered, going by the audio
/// server's list.
pub fn sink_listed(listing: &str, name: &str) -> (r: bool)
    ensures
        r == lists_sink(listing@, name@),
{
    let all: Vec<char> = chars_of(listing);
    let parts: Vec<Vec<char>> = split_chars(&all, '\n');
    let ghost views = text::split(listing@, '\n');
    let ghost lines = lines_of(listing@);
    proof {
        text::lemma_split_nonempty(listing@, '\n');
        assert(parts@.map_values(|v: Vec<char>| v@) == views);
        assert(parts@.len() == views.len());
    }
    let n: usize = parts.len();
    let rows: usize = if parts[n - 1].len() == 0 {
        n - 1
    } else {
        n
    };
    proof {
        assert(parts@[n - 1]@ == views[n - 1]);
    }
    let mut i: usize = 0;
    while i < rows
        invariant
            i <= rows <= n,
            n == parts@.len(),
            n == views.len(),
            n > 0,
            parts@.map_values(|v: Vec<char>| v@) == views,
            views == text::split(listing@, '\n'),
            lines == lines_of(listing@),
            rows == lines.len(),
            forall|k: int| 0 <= k < i ==> !has_field(#[trigger] lines[k], 1, name@),
        decreases rows - i,
    {
        let mut line: Vec<char> = parts[i].clone();
        proof {
            assert(line@ =~= parts@[i as int]@);
            assert(parts@.map_values(|v: Vec<char>| v@)[i as int] == parts@[i as int]@);
        }
        if i < n - 1 && line.len() > 0 && line[line.len() - 1] == '\r' {
            let _ = line.pop();
            proof {
                assert(line@ =~= views[i as int].drop_last());
            }
        }
        proof {
            assert(line@ == lines[i as int]);
        }
        let fields: Vec<Vec<char>> = split_chars(&line, '\t');
        let ghost f = text::split(line@, '\t');
        proof {
            assert(fields@.map_values(|v: Vec<char>| v@) == f);
            assert(fields@.len() == f.len());
        }
        if fields.len() > 1 {
            proof {
                assert(fields@.map_values(|v: Vec<char>| v@)[1] == fields@[1]@);
            }
            if same_text(text_of(&fields[1]).as_str(), name) {
                proof {
                    assert(has_field(lines[i as int], 1, name@));
                }
                return true;
            }
        }
        i = i + 1;
    }
    false
}

/// The arguments that have the audio server load a null sink.
pub open spec fn null_sink_args(name: Seq<char>) -> Seq<Seq<char>> {
    seq![
        "load-module"@,
        "module-null-sink"@,
        "sink_name="@ + name,
        "sink_properties=device.description="@ + name,
    ]
}

/// What to ask of the audio server so that a null sink of this name exists: nothing
/// if its list already has one (so that someone else's is not unloaded later, and
/// one left over from before is used again, not duplicated).
pub fn sink_to_load(listing: &str, name: &str) -> (r: Option<Vec<String>>)
    ensures
        match r {
            None => lists_sink(listing@, name@),
            Some(args) => {
                &&& !lists_sink(listing@, name@)
                &&& args@.map_values(|s: String| s@) == null_sink_args(name@)
            },
        },
{
    if sink_listed(listing, name) {
        return None;
    }
    let mut out: Vec<String> = Vec::new();
    out.push("load-module".to_owned());
    out.push("module-null-sink".to_owned());
    let mut sink: String = "sink_name=".to_owned();
    sink.append(name);
    out.push(sink);
    let mut properties: String = "sink_properties=device.description=".to_owned();
    properties.append(name);
    out.push(properties);
    proof {
        assert(out@.map_values(|s: String| s@) =~= null_sink_args(name@));
    }
    Some(out)
}

/// The id of the module that the audio server loaded, from what it printed; an
/// empty answer is none.
pub fn module_id(printed: &str) -> (r: Option<String>)
    ensures
        match r {
            Some(id) => id@ == text::trimmed(printed@) && id@.len() > 0,
            None => text::trimmed(printed@).len() == 0,
        },
{
    let t: Vec<char> = trim_chars(&chars_of(printed));
    if t.len() == 0 {
        None
    } else {
        Some(text_of(&t))
    }
}

/// A sink is captured through its monitor, an input by its own name.
pub proof fn sinks_are_captured_through_their_monitor(kind: PulseKind)
    ensures
        kind matches PulseKind::Sink { sink_name } ==> {
            &&& device_of(kind).len() == sink_name@.len() + 8
            &&& device_of(kind).take(sink_name@.len() as int) == sink_name@
            &&& device_of(kind).skip(sink_name@.len() as int) == ".monitor"@
        },
        kind matches PulseKind::Source { device: Some(d) } ==> device_of(kind) == d@,
        kind matches PulseKind::Source { device: None } ==> device_of(kind).len() == 0,
{
    reveal_strlit(".monitor");
    if kind is Sink {
        let name = kind->sink_name@;
        assert(device_of(kind).take(name.len() as int) =~= name);
        assert(device_of(kind).skip(name.len() as int) =~= ".monitor"@);
    }
}

/// The recorder is asked for 16-bit samples at the format's rate and channels; a device
/// is named only where there is one, and last.
pub proof fn recorder_is_asked_for_the_format(device: Seq<char>, format: Format)
    ensures
        ({
            let a = record_args_of(device, format);
            &&& a.len() == 3 + if device.len() > 0 {
                1int
            } else {
                0
            }
            &&& a.contains("--format=s16le"@)
            &&& a.contains("--rate="@ + text::decimal(format.sample_rate as nat))
            &&& a.contains("--channels="@ + text::decimal(format.channels as nat))
            &&& device.len() > 0 ==> a.last() == "--device="@ + device
        }),
{
    let a = record_args_of(device, format);
    assert(a[0] == "--format=s16le"@);
    assert(a[1] == "--rate="@ + text::decimal(format.sample_rate as nat));
    assert(a[2] == "--channels="@ + text::decimal(format.channels as nat));
}

/// A list of lines, each ended by a newline, reads as those lines; a carriage return
/// at the end of one is not part of it.
pub proof fn lines_end_at_newlines(rows: Seq<Seq<char>>, i: int)
    requires
        rows.len() > 0,
        forall|k: int| 0 <= k < rows.len() ==> !(#[trigger] rows[k]).contains('\n'),
        0 <= i < rows.len(),
    ensures
        ({
            let s = text::join(rows, '\n').push('\n');
            &&& lines_of(s).len() == rows.len()
            &&& lines_of(s)[i] == if rows[i].len() > 0 && rows[i].last() == '\r' {
                rows[i].drop_last()
            } else {
                rows[i]
            }
        }),
{
    let s = text::join(rows, '\n').push('\n');
    text::split_undoes_join(rows, '\n');
    assert(s.drop_last() =~= text::join(rows, '\n'));
    assert(text::split(s, '\n') == rows.push(Seq::empty()));
    let parts = text::split(s, '\n');
    assert(parts.last() == Seq::<char>::empty());
    assert(parts.drop_last() =~= rows);
}

/// A sink is listed exactly if it is the second of the fields of some line, which tabs
/// part.
pub proof fn sinks_are_listed_by_their_second_field(
    listing: Seq<char>,
    fields: Seq<Seq<char>>,
    i: int,
)
    requires
        0 <= i < lines_of(listing).len(),
        fields.len() > 1,
        forall|k: int| 0 <= k < fields.len() ==> !(#[trigger] fields[k]).contains('\t'),
        lines_of(listing)[i] == text::join(fields, '\t'),
    ensures
        lists_sink(listing, fields[1]),
        forall|name: Seq<char>|
            has_field(lines_of(listing)[i], 1, name) <==> name == fields[1],
{
    text::split_undoes_join(fields, '\t');
    assert(has_field(lines_of(listing)[i], 1, fields[1]));
}

/// A null sink is loaded under its name.
pub proof fn null_sinks_are_loaded_by_name(name: Seq<char>)
    ensures
        null_sink_args(name).len() == 4,
        null_sink_args(name)[0] == "load-module"@,
        null_sink_args(name)[1] == "module-null-sink"@,
        null_sink_args(name)[2] == "sink_name="@ + name,
        null_sink_args(name)[3] == "sink_properties=device.description="@ + name,
{
}

/// A last line that no newline ends is a line too, just as it stands.
pub proof fn unended_last_line_counts(rows: Seq<Seq<char>>)
    requires
        rows.len() > 0,
        forall|k: int| 0 <= k < rows.len() ==> !(#[trigger] rows[k]).contains('\n'),
        rows.last().len() > 0,
    ensures
        lines_of(text::join(rows, '\n')).len() == rows.len(),
        lines_of(text::join(rows, '\n')).last() == rows.last(),
{
    text::split_undoes_join(rows, '\n');
}

} // verus!
