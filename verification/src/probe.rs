//! What an ffprobe report says about a media file: its JSON output (from
//! `-print_format json -show_format -show_streams`) read into plain fields,
//! and the choice of the streams the editor uses. Running ffprobe and
//! turning durations and frame rates into seconds is the caller's part.

use vstd::prelude::*;
use crate::text::str_eq;
use serde_json::Value;

verus! {

/// One entry of the report's `streams` array; a field is `None` where the
/// entry has no such key or the value has another JSON type.
#[derive(Clone, Debug)]
pub struct ProbeStream {
    pub codec_type: Option<String>,
    pub codec_name: Option<String>,
    pub width: Option<u64>,
    pub height: Option<u64>,
    pub avg_frame_rate: Option<String>,
    pub duration: Option<String>,
    pub sample_rate: Option<String>,
    pub channels: Option<u64>,
}

/// The report: `format.duration`, `format.size` and the streams (empty when
/// there is no `streams` array).
#[derive(Clone, Debug)]
pub struct ProbeDoc {
    pub format_duration: Option<String>,
    pub format_size: Option<String>,
    pub streams: Vec<ProbeStream>,
}

/// `format.duration` and `format.size` of the report serde_json reads from
/// ffprobe's output bytes, or `None` when they are not JSON.
pub uninterp spec fn probe_format(stdout: Seq<u8>) -> Option<(Option<String>, Option<String>)>;

/// The `streams` entries of the report serde_json reads from ffprobe's
/// output bytes (empty without a `streams` array), or `None` when they are
/// not JSON.
pub uninterp spec fn probe_stream_list(stdout: Seq<u8>) -> Option<Seq<ProbeStream>>;

/// serde_json's `from_slice` into a `Value`, then `format.duration` and
/// `format.size` picked with `get` and `as_str`. The result is the named
/// `probe_format` of the bytes; what JSON parsing accepts is not stated.
#[verifier::external_body]
fn parse_probe_format(stdout: &[u8]) -> (r: Option<(Option<String>, Option<String>)>)
    ensures
        r == probe_format(stdout@),
{
    let v: Value = serde_json::from_slice(stdout).ok()?;
    let s = |k: &str| v.get("format").and_then(|f| f.get(k)).and_then(|y| y.as_str()).map(String::from);
    Some((s("duration"), s("size")))
}

/// serde_json's `from_slice` into a `Value`, then each entry of `streams`
/// read into a `ProbeStream` with `get`, `as_str` and `as_u64`. The result
/// is the named `probe_stream_list` of the bytes.
#[verifier::external_body]
fn parse_probe_streams(stdout: &[u8]) -> (r: Option<Vec<ProbeStream>>)
    ensures
        match r {
            Some(v) => probe_stream_list(stdout@) == Some(v@),
            None => probe_stream_list(stdout@) is None,
        },
{
    let v: Value = serde_json::from_slice(stdout).ok()?;
    let s = |x: &Value, k| x.get(k).and_then(|y| y.as_str()).map(String::from);
    let n = |x: &Value, k| x.get(k).and_then(|y| y.as_u64());
    Some(v.get("streams").and_then(|a| a.as_array()).map(|a| a.iter().map(|x| ProbeStream {
        codec_type: s(x, "codec_type"), codec_name: s(x, "codec_name"), width: n(x, "width"),
        height: n(x, "height"), avg_frame_rate: s(x, "avg_frame_rate"), duration: s(x, "duration"),
        sample_rate: s(x, "sample_rate"), channels: n(x, "channels") }).collect()).unwrap_or_default())
}

/// `d` is the report read from `stdout`: format fields and streams.
pub open spec fn is_doc_of(stdout: Seq<u8>, d: ProbeDoc) -> bool {
    probe_format(stdout) == Some((d.format_duration, d.format_size))
        && probe_stream_list(stdout) == Some(d.streams@)
}

/// ffprobe's JSON report read into its format fields and streams; `None`
/// when the bytes are not a JSON report.
pub fn parse_probe_json(stdout: &[u8]) -> (r: Option<ProbeDoc>)
    ensures
        match r {
            Some(d) => is_doc_of(stdout@, d),
            None => probe_format(stdout@) is None || probe_stream_list(stdout@) is None,
        },
{
    match (parse_probe_format(stdout), parse_probe_streams(stdout)) {
        (Some((format_duration, format_size)), Some(streams)) => Some(
            ProbeDoc { format_duration, format_size, streams },
        ),
        _ => None,
    }
}

/// The stream's `codec_type` is `kind`.
pub open spec fn is_type(st: ProbeStream, kind: Seq<char>) -> bool {
    st.codec_type matches Some(t) && t@ == kind
}

pub open spec fn video() -> Seq<char> {
    seq!['v', 'i', 'd', 'e', 'o']
}

pub open spec fn audio() -> Seq<char> {
    seq!['a', 'u', 'd', 'i', 'o']
}

/// `k` is the first stream of type `kind`.
pub open spec fn first_of(s: Seq<ProbeStream>, kind: Seq<char>, k: int) -> bool {
    0 <= k < s.len() && is_type(s[k], kind) && forall|j: int| 0 <= j < k ==> !is_type(#[trigger] s[j], kind)
}

/// Index of the first stream of type `kind`, if there is one.
pub open spec fn spec_first(s: Seq<ProbeStream>, kind: Seq<char>) -> Option<usize> {
    if exists|k: int| first_of(s, kind, k) {
        Some((choose|k: int| first_of(s, kind, k)) as usize)
    } else {
        None
    }
}

proof fn lemma_first_unique(s: Seq<ProbeStream>, kind: Seq<char>, k: int)
    requires
        first_of(s, kind, k),
    ensures
        spec_first(s, kind) == Some(k as usize),
{
    let c = choose|k: int| first_of(s, kind, k);
    if c < k {
        assert(!is_type(s[c], kind));
    } else if k < c {
        assert(!is_type(s[k], kind));
    }
}

/// Index of the first stream whose `codec_type` is `kind`.
fn first_stream(streams: &Vec<ProbeStream>, kind: &str) -> (r: Option<usize>)
    ensures
        r == spec_first(streams@, kind@),
{
    let mut k: usize = 0;
    while k < streams.len()
        invariant
            k <= streams.len(),
            forall|j: int| 0 <= j < k ==> !is_type(#[trigger] streams@[j], kind@),
        decreases streams.len() - k,
    {
        let hit = match &streams[k].codec_type {
            Some(t) => str_eq(t.as_str(), kind),
            None => false,
        };
        if hit {
            proof {
                lemma_first_unique(streams@, kind@, k as int);
            }
            return Some(k);
        }
        k = k + 1;
    }
    proof {
        if exists|k: int| first_of(streams@, kind@, k) {
            let c = choose|k: int| first_of(streams@, kind@, k);
            assert(!is_type(streams@[c], kind@));
        }
    }
    None
}

/// The streams the editor uses: the first video stream and the first audio
/// stream; `None` when there is neither.
pub open spec fn spec_pick_streams(streams: Seq<ProbeStream>) -> Option<(Option<usize>, Option<usize>)> {
    let v = spec_first(streams, video());
    let a = spec_first(streams, audio());
    if v is None && a is None {
        None
    } else {
        Some((v, a))
    }
}

/// The first video stream and the first audio stream of the report, or
/// `None` when it has neither.
pub fn pick_streams(doc: &ProbeDoc) -> (r: Option<(Option<usize>, Option<usize>)>)
    ensures
        r == spec_pick_streams(doc.streams@),
{
    let v = first_stream(&doc.streams, "video");
    let a = first_stream(&doc.streams, "audio");
    proof {
        reveal_strlit("video");
        reveal_strlit("audio");
        assert("video"@ =~= video());
        assert("audio"@ =~= audio());
    }
    if v.is_none() && a.is_none() {
        None
    } else {
        Some((v, a))
    }
}

/// Why a report gives no media.
#[derive(Clone, Copy, PartialEq, Eq, Structural, Debug)]
pub enum ProbeError {
    /// ffprobe's output is not a JSON report.
    Unreadable,
    /// The report has neither a video nor an audio stream.
    NoStreams,
}

impl ProbeError {
    /// The message shown for the error.
    pub fn message(&self) -> (r: &'static str)
        ensures
            r@ == (match self {
                ProbeError::Unreadable => "ffprobe failed"@,
                ProbeError::NoStreams => "no streams found"@,
            }),
    {
        match self {
            ProbeError::Unreadable => "ffprobe failed",
            ProbeError::NoStreams => "no streams found",
        }
    }
}

/// Reads ffprobe's JSON output and picks its streams: the report with the
/// index of its first video stream and of its first audio stream.
pub fn probe_streams(stdout: &[u8]) -> (r: Result<(ProbeDoc, Option<usize>, Option<usize>), ProbeError>)
    ensures
        match r {
            Ok((d, v, a)) => is_doc_of(stdout@, d) && spec_pick_streams(d.streams@) == Some((v, a)),
            Err(ProbeError::NoStreams) => {
                &&& probe_format(stdout@) is Some
                &&& probe_stream_list(stdout@) matches Some(ss)
                &&& spec_pick_streams(ss) is None
            },
            Err(ProbeError::Unreadable) => probe_format(stdout@) is None || probe_stream_list(stdout@) is None,
        },
{
    match parse_probe_json(stdout) {
        None => Err(ProbeError::Unreadable),
        Some(d) => match pick_streams(&d) {
            None => Err(ProbeError::NoStreams),
            Some((v, a)) => Ok((d, v, a)),
        },
    }
}

} // verus!
