//! Media engine decisions: which FFmpeg binaries to use, which encoders a
//! build offers, how a file is classified, and how paths are escaped inside
//! filter graphs. The process and file-system work around these lives with
//! the caller.

use vstd::prelude::*;
use crate::model::AssetKind;
use crate::text::{chars_of, owned, push_char, push_chars, push_str, slice_chars, str_eq, string_of, trim, trim_chars};

verus! {

// ------------------------------------------------------------------ binaries

/// Where the resolved ffmpeg binary came from.
#[derive(Clone, Copy, PartialEq, Eq, Structural, Debug)]
pub enum FfmpegSource {
    EnvOverride,
    Bundled,
    SystemPath,
}

impl FfmpegSource {
    pub open spec fn spec_label(self) -> Seq<char> {
        match self {
            FfmpegSource::EnvOverride => "env override"@,
            FfmpegSource::Bundled => "bundled with KestrelCut"@,
            FfmpegSource::SystemPath => "system PATH"@,
        }
    }

    pub fn label(&self) -> (r: &'static str)
        ensures
            r@ == self.spec_label(),
    {
        match self {
            FfmpegSource::EnvOverride => "env override",
            FfmpegSource::Bundled => "bundled with KestrelCut",
            FfmpegSource::SystemPath => "system PATH",
        }
    }
}

/// Resolution order for ffmpeg (offline first, nothing is downloaded): the
/// `KESTRELCUT_FFMPEG` override, then the copy bundled with the app, then the
/// system `PATH`. Each argument is the candidate found there, if any.
pub fn pick_ffmpeg(env_override: Option<String>, bundled: Option<String>, on_path: Option<String>) -> (r:
    Option<(String, FfmpegSource)>)
    ensures
        env_override is Some ==> r == Some((env_override.unwrap(), FfmpegSource::EnvOverride)),
        env_override is None && bundled is Some ==> r == Some(
            (bundled.unwrap(), FfmpegSource::Bundled),
        ),
        env_override is None && bundled is None && on_path is Some ==> r == Some(
            (on_path.unwrap(), FfmpegSource::SystemPath),
        ),
        env_override is None && bundled is None && on_path is None ==> r is None,
{
    match env_override {
        Some(p) => Some((p, FfmpegSource::EnvOverride)),
        None => match bundled {
            Some(p) => Some((p, FfmpegSource::Bundled)),
            None => match on_path {
                Some(p) => Some((p, FfmpegSource::SystemPath)),
                None => None,
            },
        },
    }
}

/// Resolution order for ffprobe: the `KESTRELCUT_FFPROBE` override, the
/// bundled copy, the system `PATH`, then an ffprobe next to the resolved
/// ffmpeg (static builds ship both).
pub fn pick_ffprobe(
    env_override: Option<String>,
    bundled: Option<String>,
    on_path: Option<String>,
    beside_ffmpeg: Option<String>,
) -> (r: Option<String>)
    ensures
        r == (if env_override is Some {
            env_override
        } else if bundled is Some {
            bundled
        } else if on_path is Some {
            on_path
        } else {
            beside_ffmpeg
        }),
{
    if env_override.is_some() {
        env_override
    } else if bundled.is_some() {
        bundled
    } else if on_path.is_some() {
        on_path
    } else {
        beside_ffmpeg
    }
}

/// Where the resolved binaries came from (for About / diagnostics).
pub fn ffmpeg_source(resolved: Option<FfmpegSource>) -> (r: &'static str)
    ensures
        r@ == (match resolved {
            Some(s) => s.spec_label(),
            None => "not found"@,
        }),
{
    match resolved {
        Some(s) => s.label(),
        None => "not found",
    }
}

/// Whether an ffmpeg binary was resolved at all.
pub fn ffmpeg_ok(resolved: &Option<(String, FfmpegSource)>) -> (r: bool)
    ensures
        r == resolved is Some,
{
    resolved.is_some()
}

/// A resolved path, or `NOT FOUND`.
pub open spec fn path_or_missing(p: Option<Seq<char>>) -> Seq<char> {
    match p {
        Some(s) => s,
        None => "NOT FOUND"@,
    }
}

pub open spec fn spec_where_report(ffmpeg: Option<Seq<char>>, ffprobe: Option<Seq<char>>, source: Seq<char>) -> Seq<char> {
    "ffmpeg : "@ + path_or_missing(ffmpeg) + "\nffprobe: "@ + path_or_missing(ffprobe)
        + "\nsource : "@ + source
}

/// Diagnostic printout used by `kestrelcut --where`.
pub fn where_report(ffmpeg: Option<&str>, ffprobe: Option<&str>, source: &str) -> (r: String)
    ensures
        r@ == spec_where_report(
            match ffmpeg {
                Some(s) => Some(s@),
                None => None,
            },
            match ffprobe {
                Some(s) => Some(s@),
                None => None,
            },
            source@,
        ),
{
    let mut out = owned("ffmpeg : ");
    match ffmpeg {
        Some(p) => push_str(&mut out, p),
        None => push_str(&mut out, "NOT FOUND"),
    }
    push_str(&mut out, "\nffprobe: ");
    match ffprobe {
        Some(p) => push_str(&mut out, p),
        None => push_str(&mut out, "NOT FOUND"),
    }
    push_str(&mut out, "\nsource : ");
    push_str(&mut out, source);
    out
}

// ------------------------------------------------------------------ classification

pub open spec fn ascii_lower(c: char) -> char {
    if 'A' <= c <= 'Z' {
        ((c as u32) + 32) as char
    } else {
        c
    }
}

/// std's `str::to_ascii_lowercase`: ASCII capitals mapped to lower case.
pub open spec fn ascii_lowercase(s: Seq<char>) -> Seq<char> {
    s.map_values(|c: char| ascii_lower(c))
}

pub open spec fn audio_extensions() -> Seq<Seq<char>> {
    seq!["mp3"@, "wav"@, "aac"@, "flac"@, "ogg"@, "m4a"@, "opus"@, "wma"@]
}

pub open spec fn image_extensions() -> Seq<Seq<char>> {
    seq!["png"@, "jpg"@, "jpeg"@, "bmp"@, "gif"@, "webp"@, "tiff"@]
}

/// Asset kind for a file extension (compared without case): known audio and
/// image extensions, everything else is video.
pub open spec fn spec_classify_kind(ext: Seq<char>) -> AssetKind {
    let e = ascii_lowercase(ext);
    if audio_extensions().contains(e) {
        AssetKind::Audio
    } else if image_extensions().contains(e) {
        AssetKind::Image
    } else {
        AssetKind::Video
    }
}

fn lowercase_exec(s: &str) -> (r: String)
    ensures
        r@ == ascii_lowercase(s@),
{
    let cs = chars_of(s);
    let mut out = String::new();
    let mut i: usize = 0;
    while i < cs.len()
        invariant
            i <= cs.len(),
            cs@ == s@,
            out@ == ascii_lowercase(cs@.take(i as int)),
        decreases cs.len() - i,
    {
        let c = cs[i];
        let l = if 'A' <= c && c <= 'Z' {
            ((c as u8) + 32) as char
        } else {
            c
        };
        push_char(&mut out, l);
        assert(ascii_lowercase(cs@.take(i + 1)) =~= ascii_lowercase(cs@.take(i as int)).push(l));
        i += 1;
    }
    assert(cs@.take(cs.len() as int) =~= cs@);
    out
}

/// Whether `e` is one of `list`.
fn one_of(e: &str, list: &Vec<&'static str>) -> (r: bool)
    ensures
        r == list@.map_values(|x: &str| x@).contains(e@),
{
    let ghost lv = list@.map_values(|x: &str| x@);
    let mut i: usize = 0;
    while i < list.len()
        invariant
            i <= list.len(),
            lv == list@.map_values(|x: &str| x@),
            forall|k: int| 0 <= k < i ==> lv[k] != e@,
        decreases list.len() - i,
    {
        if str_eq(e, list[i]) {
            assert(lv[i as int] == e@);
            return true;
        }
        i += 1;
    }
    false
}

/// Classify a file by its extension into an asset kind.
pub fn classify_kind(ext: &str) -> (r: AssetKind)
    ensures
        r == spec_classify_kind(ext@),
{
    let e = lowercase_exec(ext);
    let audio = vec!["mp3", "wav", "aac", "flac", "ogg", "m4a", "opus", "wma"];
    let image = vec!["png", "jpg", "jpeg", "bmp", "gif", "webp", "tiff"];
    assert(audio@.map_values(|x: &str| x@) =~= audio_extensions());
    assert(image@.map_values(|x: &str| x@) =~= image_extensions());
    if one_of(e.as_str(), &audio) {
        AssetKind::Audio
    } else if one_of(e.as_str(), &image) {
        AssetKind::Image
    } else {
        AssetKind::Video
    }
}

// ------------------------------------------------------------------ filter paths

/// How one character of a path is written inside an ffmpeg filter argument:
/// `\` becomes `/`, `'` becomes `\\'`, `:` becomes `\:`.
pub open spec fn esc_char(c: char) -> Seq<char> {
    if c == '\\' {
        seq!['/']
    } else if c == '\'' {
        seq!['\\', '\\', '\'']
    } else if c == ':' {
        seq!['\\', ':']
    } else {
        seq![c]
    }
}

pub open spec fn spec_esc_filter_path(p: Seq<char>) -> Seq<char>
    decreases p.len(),
{
    if p.len() == 0 {
        Seq::empty()
    } else {
        spec_esc_filter_path(p.drop_last()) + esc_char(p.last())
    }
}

/// Escape a path for use inside a filter graph (e.g. `lut3d='...'`).
pub fn esc_filter_path(p: &str) -> (r: String)
    ensures
        r@ == spec_esc_filter_path(p@),
{
    let cs = chars_of(p);
    let mut out = String::new();
    let mut i: usize = 0;
    while i < cs.len()
        invariant
            i <= cs.len(),
            cs@ == p@,
            out@ == spec_esc_filter_path(cs@.take(i as int)),
        decreases cs.len() - i,
    {
        let c = cs[i];
        let ghost before = out@;
        assert(cs@.take(i + 1).drop_last() =~= cs@.take(i as int));
        if c == '\\' {
            push_char(&mut out, '/');
        } else if c == '\'' {
            push_char(&mut out, '\\');
            push_char(&mut out, '\\');
            push_char(&mut out, '\'');
        } else if c == ':' {
            push_char(&mut out, '\\');
            push_char(&mut out, ':');
        } else {
            push_char(&mut out, c);
        }
        assert(out@ =~= before + esc_char(c));
        i += 1;
    }
    assert(cs@.take(cs.len() as int) =~= cs@);
    out
}

// ------------------------------------------------------------------ encoders

/// The words of `s`: maximal runs of non-white-space characters.
pub open spec fn words_scan(s: Seq<char>) -> (Seq<Seq<char>>, Seq<char>)
    decreases s.len(),
{
    if s.len() == 0 {
        (Seq::empty(), Seq::empty())
    } else {
        let (done, cur) = words_scan(s.drop_last());
        if crate::text::is_white_space(s.last()) {
            if cur.len() > 0 {
                (done.push(cur), Seq::empty())
            } else {
                (done, cur)
            }
        } else {
            (done, cur.push(s.last()))
        }
    }
}

/// std's `str::split_whitespace`.
pub open spec fn words(s: Seq<char>) -> Seq<Seq<char>> {
    let (done, cur) = words_scan(s);
    if cur.len() > 0 {
        done.push(cur)
    } else {
        done
    }
}

/// The encoder name on one line of `ffmpeg -encoders`: its second word.
pub open spec fn encoder_of_line(l: Seq<char>) -> Option<Seq<char>> {
    if words(l).len() >= 2 {
        Some(words(l)[1])
    } else {
        None
    }
}

/// Encoder names listed by `ffmpeg -hide_banner -encoders`.
pub open spec fn spec_encoders(listing: Seq<char>) -> Seq<Seq<char>> {
    crate::subs::split_on(listing, '\n').filter_map(|l: Seq<char>| encoder_of_line(l))
}

/// Second word of `l`, if it has two.
fn second_word(l: &Vec<char>) -> (r: Option<Vec<char>>)
    ensures
        match r {
            Some(w) => encoder_of_line(l@) == Some(w@),
            None => encoder_of_line(l@) is None,
        },
{
    let mut done: Vec<Vec<char>> = Vec::new();
    let mut cur: Vec<char> = Vec::new();
    let mut i: usize = 0;
    while i < l.len()
        invariant
            i <= l.len(),
            words_scan(l@.take(i as int)) == (crate::subs::lines_view(done@), cur@),
        decreases l.len() - i,
    {
        let c = l[i];
        let ghost od = crate::subs::lines_view(done@);
        assert(l@.take(i + 1).drop_last() =~= l@.take(i as int));
        if crate::text::is_whitespace(c) {
            if cur.len() > 0 {
                let w = cur;
                cur = Vec::new();
                done.push(w);
                assert(crate::subs::lines_view(done@) =~= od.push(w@));
            }
        } else {
            cur.push(c);
        }
        i += 1;
    }
    assert(l@.take(l.len() as int) =~= l@);
    if cur.len() > 0 {
        let ghost od = crate::subs::lines_view(done@);
        done.push(cur);
        assert(crate::subs::lines_view(done@) =~= od.push(cur@));
    }
    if done.len() >= 2 {
        let w = done[1].clone();
        assert(crate::subs::lines_view(done@)[1] == done@[1]@);
        Some(w)
    } else {
        None
    }
}

/// Encoder names from the text `ffmpeg -hide_banner -encoders` prints.
pub fn encoders_from_listing(listing: &str) -> (r: Vec<String>)
    ensures
        r@.map_values(|s: String| s@) == spec_encoders(listing@),
{
    let cs = chars_of(listing);
    let lines = crate::subs::split_chars(&cs, '\n');
    let ghost lv = crate::subs::lines_view(lines@);
    let mut out: Vec<String> = Vec::new();
    let mut i: usize = 0;
    while i < lines.len()
        invariant
            i <= lines.len(),
            lv == crate::subs::lines_view(lines@),
            out@.map_values(|s: String| s@) == lv.take(i as int).filter_map(
                |l: Seq<char>| encoder_of_line(l),
            ),
        decreases lines.len() - i,
    {
        assert(lv.take(i + 1).drop_last() =~= lv.take(i as int));
        assert(lv.take(i + 1).last() == lines@[i as int]@);
        let ghost before = out@.map_values(|s: String| s@);
        match second_word(&lines[i]) {
            Some(w) => {
                let s = crate::text::string_of(&w);
                out.push(s);
                assert(out@.map_values(|s: String| s@) =~= before + seq![w@]);
            },
            None => {},
        }
        i += 1;
    }
    assert(lv.take(lines.len() as int) =~= lv);
    out
}

/// Whether `name` is among the `available` encoders.
pub fn has_encoder(available: &Vec<String>, name: &str) -> (r: bool)
    ensures
        r == available@.map_values(|s: String| s@).contains(name@),
{
    let ghost av = available@.map_values(|s: String| s@);
    let mut i: usize = 0;
    while i < available.len()
        invariant
            i <= available.len(),
            av == available@.map_values(|s: String| s@),
            forall|k: int| 0 <= k < i ==> av[k] != name@,
        decreases available.len() - i,
    {
        if str_eq(available[i].as_str(), name) {
            assert(av[i as int] == name@);
            return true;
        }
        i += 1;
    }
    false
}

// ------------------------------------------------------------------ progress

/// Key and value of one line of ffmpeg's `-progress` output: the trimmed
/// line split at its first `=` (a line without one has an empty value).
pub open spec fn progress_kv(line: Seq<char>) -> (Seq<char>, Seq<char>) {
    let t = trim(line);
    let i = crate::subs::index_of(t, '=');
    if i < 0 {
        (t, Seq::<char>::empty())
    } else {
        (t.take(i), t.skip(i + 1))
    }
}

/// The value of `line` when its key is `key`.
pub fn progress_value(line: &str, key: &str) -> (r: Option<String>)
    ensures
        match r {
            Some(v) => progress_kv(line@).0 == key@ && v@ == progress_kv(line@).1,
            None => progress_kv(line@).0 != key@,
        },
{
    let cs = chars_of(line);
    let t = trim_chars(&cs);
    let n = t.len();
    proof {
        crate::subs::lemma_index_of(t@, '=');
    }
    let (k, v) = match crate::subs::find_char(&t, '=') {
        Some(i) => (slice_chars(&t, 0, i), slice_chars(&t, i + 1, n)),
        None => (slice_chars(&t, 0, n), Vec::new()),
    };
    proof {
        assert(t@.subrange(0, n as int) =~= t@);
        let i = crate::subs::index_of(t@, '=');
        if i >= 0 {
            assert(t@.subrange(0, i) =~= t@.take(i));
            assert(t@.subrange(i + 1, n as int) =~= t@.skip(i + 1));
        }
    }
    let ks = string_of(&k);
    if str_eq(ks.as_str(), key) {
        Some(string_of(&v))
    } else {
        None
    }
}

/// The output time carried by a progress line: the value of an
/// `out_time_ms` or `out_time_us` line.
pub open spec fn spec_progress_time(line: Seq<char>) -> Option<Seq<char>> {
    let (k, v) = progress_kv(line);
    if k == "out_time_ms"@ || k == "out_time_us"@ {
        Some(v)
    } else {
        None
    }
}

/// The output-time value carried by one progress line, if it carries one.
pub fn progress_time(line: &str) -> (r: Option<String>)
    ensures
        match r {
            Some(v) => spec_progress_time(line@) == Some(v@),
            None => spec_progress_time(line@) is None,
        },
{
    match progress_value(line, "out_time_ms") {
        Some(v) => Some(v),
        None => progress_value(line, "out_time_us"),
    }
}

// ------------------------------------------------------------------ waveforms

/// The `j`-th signed 16-bit little-endian sample of `c`.
pub open spec fn sample_at(c: Seq<u8>, j: int) -> int {
    let lo = c[2 * j] as int;
    let hi = c[2 * j + 1] as int;
    lo + 256 * hi - (if hi >= 128 {
        65536int
    } else {
        0int
    })
}

/// Smallest of the first `k` samples of `c`, starting from `i16::MAX`.
pub open spec fn samples_min(c: Seq<u8>, k: nat) -> int
    decreases k,
{
    if k == 0 {
        32767
    } else {
        let m = samples_min(c, (k - 1) as nat);
        let v = sample_at(c, k - 1);
        if v < m {
            v
        } else {
            m
        }
    }
}

/// Largest of the first `k` samples of `c`, starting from `i16::MIN`.
pub open spec fn samples_max(c: Seq<u8>, k: nat) -> int
    decreases k,
{
    if k == 0 {
        -32768
    } else {
        let m = samples_max(c, (k - 1) as nat);
        let v = sample_at(c, k - 1);
        if v > m {
            v
        } else {
            m
        }
    }
}

/// Peak pair of one bucket: its lowest and highest complete samples (an odd
/// trailing byte is ignored), each kept as its high byte (`>> 8`); a bucket
/// without samples, or whose extreme is `i16::MAX` / `i16::MIN` itself,
/// gives 0 there.
pub open spec fn bucket_peak(c: Seq<u8>) -> (i8, i8) {
    let k = c.len() / 2;
    let mn = samples_min(c, k);
    let mx = samples_max(c, k);
    let mn0 = if mn == 32767 {
        0
    } else {
        mn
    };
    let mx0 = if mx == -32768 {
        0
    } else {
        mx
    };
    ((mn0 / 256) as i8, (mx0 / 256) as i8)
}

/// The `i`-th bucket of a PCM byte stream: 160 samples (20 ms of 8 kHz
/// mono) in 320 bytes, the last one shorter.
pub open spec fn wave_bucket(pcm: Seq<u8>, i: int) -> Seq<u8> {
    let a = 320 * i;
    let b = if a + 320 <= pcm.len() {
        a + 320
    } else {
        pcm.len() as int
    };
    pcm.subrange(a, b)
}

/// Number of buckets: every started one, at most 60000 (20 minutes), which
/// bounds memory.
pub open spec fn wave_len(n: nat) -> nat {
    let k = (n + 319) / 320;
    if k <= 60000 {
        k
    } else {
        60000
    }
}

/// Waveform overview of mono signed 16-bit little-endian PCM.
pub open spec fn spec_wave_peaks(pcm: Seq<u8>) -> Seq<(i8, i8)> {
    Seq::new(wave_len(pcm.len()), |i: int| bucket_peak(wave_bucket(pcm, i)))
}

proof fn lemma_sample_range(c: Seq<u8>, j: int)
    requires
        0 <= 2 * j,
        2 * j + 1 < c.len(),
    ensures
        -32768 <= sample_at(c, j) <= 32767,
{
}

proof fn lemma_min_max_range(c: Seq<u8>, k: nat)
    requires
        2 * k <= c.len(),
    ensures
        -32768 <= samples_min(c, k) <= 32767,
        -32768 <= samples_max(c, k) <= 32767,
    decreases k,
{
    if k > 0 {
        lemma_min_max_range(c, (k - 1) as nat);
        lemma_sample_range(c, k - 1);
    }
}

proof fn lemma_min_le_max(c: Seq<u8>, k: nat)
    requires
        1 <= k,
        2 * k <= c.len(),
    ensures
        samples_min(c, k) <= samples_max(c, k),
    decreases k,
{
    lemma_sample_range(c, k - 1);
    if k > 1 {
        lemma_min_le_max(c, (k - 1) as nat);
    }
}

/// Within every bucket the low peak never lies above the high peak.
pub proof fn lemma_bucket_peak_ordered(c: Seq<u8>)
    ensures
        bucket_peak(c).0 <= bucket_peak(c).1,
{
    let k = c.len() / 2;
    lemma_min_max_range(c, k);
    let mn = samples_min(c, k);
    let mx = samples_max(c, k);
    let mn0 = if mn == 32767 {
        0
    } else {
        mn
    };
    let mx0 = if mx == -32768 {
        0
    } else {
        mx
    };
    if k >= 1 {
        lemma_min_le_max(c, k);
    }
    assert(mn0 <= mx0);
    assert(mn0 / 256 <= mx0 / 256) by (nonlinear_arith)
        requires
            mn0 <= mx0,
    ;
    assert(-128 <= mn0 / 256 <= 127) by (nonlinear_arith)
        requires
            -32768 <= mn0 <= 32767,
    ;
    assert(-128 <= mx0 / 256 <= 127) by (nonlinear_arith)
        requires
            -32768 <= mx0 <= 32767,
    ;
}

/// Peak pair of `pcm[a..b]`.
fn bucket_peak_of(pcm: &[u8], a: usize, b: usize) -> (r: (i8, i8))
    requires
        a <= b <= pcm@.len(),
    ensures
        r == bucket_peak(pcm@.subrange(a as int, b as int)),
{
    let ghost c = pcm@.subrange(a as int, b as int);
    let k = (b - a) / 2;
    let mut mn: i32 = 32767;
    let mut mx: i32 = -32768;
    let mut j: usize = 0;
    while j < k
        invariant
            c == pcm@.subrange(a as int, b as int),
            a <= b <= pcm@.len(),
            k == c.len() / 2,
            j <= k,
            mn == samples_min(c, j as nat),
            mx == samples_max(c, j as nat),
        decreases k - j,
    {
        let lo = pcm[a + 2 * j] as i32;
        let hi = pcm[a + 2 * j + 1] as i32;
        let v: i32 = if hi >= 128 {
            lo + 256 * hi - 65536
        } else {
            lo + 256 * hi
        };
        assert(v == sample_at(c, j as int));
        if v < mn {
            mn = v;
        }
        if v > mx {
            mx = v;
        }
        j += 1;
    }
    proof {
        lemma_min_max_range(c, k as nat);
    }
    let mn0: i32 = if mn == 32767 {
        0
    } else {
        mn
    };
    let mx0: i32 = if mx == -32768 {
        0
    } else {
        mx
    };
    let ql = ((mn0 + 32768) as u32) / 256;
    let qh = ((mx0 + 32768) as u32) / 256;
    proof {
        assert((ql as int) - 128 == mn0 / 256) by (nonlinear_arith)
            requires
                ql == (mn0 + 32768) / 256,
                -32768 <= mn0 <= 32767,
        ;
        assert((qh as int) - 128 == mx0 / 256) by (nonlinear_arith)
            requires
                qh == (mx0 + 32768) / 256,
                -32768 <= mx0 <= 32767,
        ;
    }
    ((ql as i32 - 128) as i8, (qh as i32 - 128) as i8)
}

/// Peak pairs of successive 20 ms buckets of mono signed 16-bit
/// little-endian PCM, as drawn under audio clips.
pub fn wave_peaks(pcm: &[u8]) -> (r: Vec<(i8, i8)>)
    ensures
        r@ == spec_wave_peaks(pcm@),
        r@.len() <= 60000,
        forall|i: int| 0 <= i < r@.len() ==> r@[i].0 <= r@[i].1,
{
    let n = pcm.len();
    let started = n / 320 + if n % 320 != 0 {
        1
    } else {
        0
    };
    let nb = if started <= 60000 {
        started
    } else {
        60000
    };
    assert(nb == wave_len(n as nat)) by (nonlinear_arith)
        requires
            started == n / 320 + (if n % 320 != 0 {
                1int
            } else {
                0int
            }),
            nb == (if started <= 60000 {
                started
            } else {
                60000
            }),
    ;
    let mut out: Vec<(i8, i8)> = Vec::new();
    while out.len() < nb
        invariant
            n == pcm@.len(),
            nb == wave_len(n as nat),
            out.len() <= nb,
            forall|i: int| 0 <= i < out.len() ==> out@[i] == bucket_peak(wave_bucket(pcm@, i)),
        decreases nb - out.len(),
    {
        let i = out.len();
        assert(320 * i < n) by (nonlinear_arith)
            requires
                i < nb,
                nb <= (n + 319) / 320,
        ;
        let a = 320 * i;
        let b = if n - a >= 320 {
            a + 320
        } else {
            n
        };
        let p = bucket_peak_of(pcm, a, b);
        proof {
            assert(pcm@.subrange(a as int, b as int) == wave_bucket(pcm@, i as int));
        }
        out.push(p);
    }
    assert(out@ =~= spec_wave_peaks(pcm@));
    assert forall|i: int| 0 <= i < out@.len() implies out@[i].0 <= out@[i].1 by {
        lemma_bucket_peak_ordered(wave_bucket(pcm@, i));
    }
    out
}

// ------------------------------------------------------------------ image files

/// The extension, compared without ASCII case, is one of the still-image
/// formats the importer reads: png, jpg, jpeg, bmp, gif, webp, tiff.
pub open spec fn is_image_name(ext: Seq<char>) -> bool {
    let e = ascii_lowercase(ext);
    e == "png"@ || e == "jpg"@ || e == "jpeg"@ || e == "bmp"@ || e == "gif"@ || e == "webp"@ || e == "tiff"@
}

/// None of the image format names is an audio format name.
proof fn lemma_image_names_not_audio()
    ensures
        forall|e: Seq<char>| (e == "png"@ || e == "jpg"@ || e == "jpeg"@ || e == "bmp"@ || e == "gif"@ || e == "webp"@ || e == "tiff"@) ==> !audio_extensions().contains(e),
{
    reveal_strlit("png");
    reveal_strlit("jpg");
    reveal_strlit("jpeg");
    reveal_strlit("bmp");
    reveal_strlit("gif");
    reveal_strlit("webp");
    reveal_strlit("tiff");
    reveal_strlit("mp3");
    reveal_strlit("wav");
    reveal_strlit("aac");
    reveal_strlit("flac");
    reveal_strlit("ogg");
    reveal_strlit("m4a");
    reveal_strlit("opus");
    reveal_strlit("wma");
    assert("png"@[0] != "mp3"@[0]);
    assert("png"@[0] != "wav"@[0]);
    assert("png"@[0] != "aac"@[0]);
    assert("png"@.len() != "flac"@.len());
    assert("png"@[0] != "ogg"@[0]);
    assert("png"@[0] != "m4a"@[0]);
    assert("png"@.len() != "opus"@.len());
    assert("png"@[0] != "wma"@[0]);
    assert("jpg"@[0] != "mp3"@[0]);
    assert("jpg"@[0] != "wav"@[0]);
    assert("jpg"@[0] != "aac"@[0]);
    assert("jpg"@.len() != "flac"@.len());
    assert("jpg"@[0] != "ogg"@[0]);
    assert("jpg"@[0] != "m4a"@[0]);
    assert("jpg"@.len() != "opus"@.len());
    assert("jpg"@[0] != "wma"@[0]);
    assert("jpeg"@.len() != "mp3"@.len());
    assert("jpeg"@.len() != "wav"@.len());
    assert("jpeg"@.len() != "aac"@.len());
    assert("jpeg"@[0] != "flac"@[0]);
    assert("jpeg"@.len() != "ogg"@.len());
    assert("jpeg"@.len() != "m4a"@.len());
    assert("jpeg"@[0] != "opus"@[0]);
    assert("jpeg"@.len() != "wma"@.len());
    assert("bmp"@[0] != "mp3"@[0]);
    assert("bmp"@[0] != "wav"@[0]);
    assert("bmp"@[0] != "aac"@[0]);
    assert("bmp"@.len() != "flac"@.len());
    assert("bmp"@[0] != "ogg"@[0]);
    assert("bmp"@[0] != "m4a"@[0]);
    assert("bmp"@.len() != "opus"@.len());
    assert("bmp"@[0] != "wma"@[0]);
    assert("gif"@[0] != "mp3"@[0]);
    assert("gif"@[0] != "wav"@[0]);
    assert("gif"@[0] != "aac"@[0]);
    assert("gif"@.len() != "flac"@.len());
    assert("gif"@[0] != "ogg"@[0]);
    assert("gif"@[0] != "m4a"@[0]);
    assert("gif"@.len() != "opus"@.len());
    assert("gif"@[0] != "wma"@[0]);
    assert("webp"@.len() != "mp3"@.len());
    assert("webp"@.len() != "wav"@.len());
    assert("webp"@.len() != "aac"@.len());
    assert("webp"@[0] != "flac"@[0]);
    assert("webp"@.len() != "ogg"@.len());
    assert("webp"@.len() != "m4a"@.len());
    assert("webp"@[0] != "opus"@[0]);
    assert("webp"@.len() != "wma"@.len());
    assert("tiff"@.len() != "mp3"@.len());
    assert("tiff"@.len() != "wav"@.len());
    assert("tiff"@.len() != "aac"@.len());
    assert("tiff"@[0] != "flac"@[0]);
    assert("tiff"@.len() != "ogg"@.len());
    assert("tiff"@.len() != "m4a"@.len());
    assert("tiff"@[0] != "opus"@[0]);
    assert("tiff"@.len() != "wma"@.len());
    assert forall|e: Seq<char>| (e == "png"@ || e == "jpg"@ || e == "jpeg"@ || e == "bmp"@ || e == "gif"@ || e == "webp"@ || e == "tiff"@) implies !audio_extensions().contains(e) by {
        if audio_extensions().contains(e) {
            let i = choose|i: int| 0 <= i < audio_extensions().len() && audio_extensions()[i] == e;
        }
    }
}

/// An extension is classified as an image exactly when it names one of the
/// still-image formats, in any ASCII case (`PNG`, `Jpg`, ...).
pub proof fn lemma_image_kind(ext: Seq<char>)
    ensures
        spec_classify_kind(ext) == AssetKind::Image <==> is_image_name(ext),
{
    lemma_image_names_not_audio();
    let e = ascii_lowercase(ext);
    if image_extensions().contains(e) {
        let i = choose|i: int| 0 <= i < image_extensions().len() && image_extensions()[i] == e;
    }
    if is_image_name(ext) {
        assert(image_extensions()[0] == "png"@);
        assert(image_extensions()[1] == "jpg"@);
        assert(image_extensions()[2] == "jpeg"@);
        assert(image_extensions()[3] == "bmp"@);
        assert(image_extensions()[4] == "gif"@);
        assert(image_extensions()[5] == "webp"@);
        assert(image_extensions()[6] == "tiff"@);
    }
}

/// The extension, compared without ASCII case, is one of the audio
/// formats the importer reads: mp3, wav, aac, flac, ogg, m4a, opus, wma.
pub open spec fn is_audio_name(ext: Seq<char>) -> bool {
    let e = ascii_lowercase(ext);
    e == "mp3"@ || e == "wav"@ || e == "aac"@ || e == "flac"@ || e == "ogg"@ || e == "m4a"@ || e == "opus"@ || e == "wma"@
}

/// An extension is classified as audio exactly when it names one of the
/// audio formats, in any ASCII case; everything that is neither audio nor a
/// still image is imported as video.
pub proof fn lemma_audio_kind(ext: Seq<char>)
    ensures
        spec_classify_kind(ext) == AssetKind::Audio <==> is_audio_name(ext),
        !is_audio_name(ext) && !is_image_name(ext) ==> spec_classify_kind(ext) == AssetKind::Video,
{
    lemma_image_kind(ext);
    let e = ascii_lowercase(ext);
    if audio_extensions().contains(e) {
        let i = choose|i: int| 0 <= i < audio_extensions().len() && audio_extensions()[i] == e;
    }
    if is_audio_name(ext) {
        assert(audio_extensions()[0] == "mp3"@);
        assert(audio_extensions()[1] == "wav"@);
        assert(audio_extensions()[2] == "aac"@);
        assert(audio_extensions()[3] == "flac"@);
        assert(audio_extensions()[4] == "ogg"@);
        assert(audio_extensions()[5] == "m4a"@);
        assert(audio_extensions()[6] == "opus"@);
        assert(audio_extensions()[7] == "wma"@);
    }
}

} // verus!
