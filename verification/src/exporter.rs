//! Export command pieces: encoder choices and their quality arguments, blend
//! mode names, and the splitting of pre-joined input arguments.

use vstd::prelude::*;
use crate::media::has_encoder;
use crate::model::BlendMode;
use crate::text::{chars_of, dec, dec_chars, owned, str_eq, string_of};

verus! {

// ------------------------------------------------------------------ encoders

/// The characters of each string.
pub open spec fn strings(v: Seq<String>) -> Seq<Seq<char>> {
    v.map_values(|x: String| x@)
}

/// Quality arguments for an encoder at quality `q` (CRF-like scale).
pub open spec fn spec_quality_args(vcodec: Seq<char>, q: nat) -> Seq<Seq<char>> {
    if vcodec == "libx264"@ || vcodec == "libx265"@ {
        seq!["-crf"@, dec(q), "-preset"@, "veryfast"@]
    } else if vcodec == "h264_nvenc"@ || vcodec == "hevc_nvenc"@ || vcodec == "av1_nvenc"@ {
        seq!["-preset"@, "p3"@, "-rc"@, "vbr"@, "-cq"@, dec(q), "-b:v"@, "0"@]
    } else if vcodec == "h264_qsv"@ || vcodec == "hevc_qsv"@ || vcodec == "av1_qsv"@ {
        seq!["-global_quality"@, dec(q), "-preset"@, "veryfast"@]
    } else if vcodec == "h264_amf"@ || vcodec == "hevc_amf"@ {
        seq!["-quality"@, "balanced"@, "-rc"@, "cqp"@, "-qp_i"@, dec(q), "-qp_p"@, dec(q)]
    } else if vcodec == "libsvtav1"@ {
        seq!["-crf"@, dec(q), "-preset"@, "8"@]
    } else {
        seq!["-crf"@, dec(q)]
    }
}

fn push_owned(v: &mut Vec<String>, s: &str)
    ensures
        strings(final(v)@) == strings(old(v)@).push(s@),
{
    let o = owned(s);
    v.push(o);
    assert(strings(v@) =~= strings(old(v)@).push(s@));
}

fn push_dec(v: &mut Vec<String>, q: u32)
    ensures
        strings(final(v)@) == strings(old(v)@).push(dec(q as nat)),
{
    let d = dec_chars(q as u64);
    let o = string_of(&d);
    v.push(o);
    assert(strings(v@) =~= strings(old(v)@).push(dec(q as nat)));
}

/// Encoder-specific rate-control arguments for quality `q`.
pub fn encoder_quality_args(vcodec: &str, q: u32) -> (r: Vec<String>)
    ensures
        strings(r@) == spec_quality_args(vcodec@, q as nat),
{
    let mut v: Vec<String> = Vec::new();
    if str_eq(vcodec, "libx264") || str_eq(vcodec, "libx265") {
        push_owned(&mut v, "-crf");
        push_dec(&mut v, q);
        push_owned(&mut v, "-preset");
        push_owned(&mut v, "veryfast");
    } else if str_eq(vcodec, "h264_nvenc") || str_eq(vcodec, "hevc_nvenc") || str_eq(
        vcodec,
        "av1_nvenc",
    ) {
        push_owned(&mut v, "-preset");
        push_owned(&mut v, "p3");
        push_owned(&mut v, "-rc");
        push_owned(&mut v, "vbr");
        push_owned(&mut v, "-cq");
        push_dec(&mut v, q);
        push_owned(&mut v, "-b:v");
        push_owned(&mut v, "0");
    } else if str_eq(vcodec, "h264_qsv") || str_eq(vcodec, "hevc_qsv") || str_eq(
        vcodec,
        "av1_qsv",
    ) {
        push_owned(&mut v, "-global_quality");
        push_dec(&mut v, q);
        push_owned(&mut v, "-preset");
        push_owned(&mut v, "veryfast");
    } else if str_eq(vcodec, "h264_amf") || str_eq(vcodec, "hevc_amf") {
        push_owned(&mut v, "-quality");
        push_owned(&mut v, "balanced");
        push_owned(&mut v, "-rc");
        push_owned(&mut v, "cqp");
        push_owned(&mut v, "-qp_i");
        push_dec(&mut v, q);
        push_owned(&mut v, "-qp_p");
        push_dec(&mut v, q);
    } else if str_eq(vcodec, "libsvtav1") {
        push_owned(&mut v, "-crf");
        push_dec(&mut v, q);
        push_owned(&mut v, "-preset");
        push_owned(&mut v, "8");
    } else {
        push_owned(&mut v, "-crf");
        push_dec(&mut v, q);
    }
    assert(strings(v@) =~= spec_quality_args(vcodec@, q as nat));
    v
}

/// Hardware encoders the app knows, with their menu labels.
pub open spec fn hw_table() -> Seq<(Seq<char>, Seq<char>)> {
    seq![
        ("h264_nvenc"@, "H.264 NVENC (NVIDIA)"@),
        ("hevc_nvenc"@, "H.265 NVENC (NVIDIA)"@),
        ("av1_nvenc"@, "AV1 NVENC (NVIDIA)"@),
        ("h264_qsv"@, "H.264 QuickSync (Intel)"@),
        ("hevc_qsv"@, "H.265 QuickSync (Intel)"@),
        ("av1_qsv"@, "AV1 QuickSync (Intel)"@),
        ("h264_amf"@, "H.264 AMF (AMD VCN)"@),
        ("hevc_amf"@, "H.265 AMF (AMD VCN)"@),
    ]
}

/// Software encoders the app knows, with their menu labels.
pub open spec fn sw_table() -> Seq<(Seq<char>, Seq<char>)> {
    seq![
        ("libx264"@, "H.264 (x264)"@),
        ("libx265"@, "H.265 / HEVC (x265)"@),
        ("libsvtav1"@, "AV1 (SVT-AV1)"@),
    ]
}

/// The entries of `table` whose encoder is among `available`, in table order.
pub open spec fn offered(table: Seq<(Seq<char>, Seq<char>)>, available: Seq<Seq<char>>) -> Seq<
    (Seq<char>, Seq<char>),
> {
    table.filter_map(
        |e: (Seq<char>, Seq<char>)|
            if available.contains(e.0) {
                Some(e)
            } else {
                None
            },
    )
}

pub open spec fn pairs(v: Seq<(String, String)>) -> Seq<(Seq<char>, Seq<char>)> {
    v.map_values(|p: (String, String)| (p.0@, p.1@))
}

pub open spec fn table_view(v: Seq<(&str, &str)>) -> Seq<(Seq<char>, Seq<char>)> {
    v.map_values(|p: (&str, &str)| (p.0@, p.1@))
}

/// Entries of `table` offered by `available`.
fn filter_table(table: &Vec<(&'static str, &'static str)>, available: &Vec<String>) -> (r: Vec<
    (String, String),
>)
    ensures
        pairs(r@) == offered(table_view(table@), strings(available@)),
{
    let ghost tv = table_view(table@);
    let ghost av = strings(available@);
    let mut out: Vec<(String, String)> = Vec::new();
    let mut i: usize = 0;
    while i < table.len()
        invariant
            i <= table.len(),
            tv == table_view(table@),
            av == strings(available@),
            pairs(out@) == offered(tv.take(i as int), av),
        decreases table.len() - i,
    {
        let (id, label) = table[i];
        assert(tv.take(i + 1).drop_last() =~= tv.take(i as int));
        assert(tv.take(i + 1).last() == (id@, label@));
        let ghost before = pairs(out@);
        if has_encoder(available, id) {
            let e = (owned(id), owned(label));
            out.push(e);
            assert(pairs(out@) =~= before + seq![(id@, label@)]);
        }
        i += 1;
    }
    assert(tv.take(table.len() as int) =~= tv);
    out
}

/// Hardware-capable encoders present in this ffmpeg build.
pub fn hw_encoders(available: &Vec<String>) -> (r: Vec<(String, String)>)
    ensures
        pairs(r@) == offered(hw_table(), strings(available@)),
{
    let table = vec![
        ("h264_nvenc", "H.264 NVENC (NVIDIA)"),
        ("hevc_nvenc", "H.265 NVENC (NVIDIA)"),
        ("av1_nvenc", "AV1 NVENC (NVIDIA)"),
        ("h264_qsv", "H.264 QuickSync (Intel)"),
        ("hevc_qsv", "H.265 QuickSync (Intel)"),
        ("av1_qsv", "AV1 QuickSync (Intel)"),
        ("h264_amf", "H.264 AMF (AMD VCN)"),
        ("hevc_amf", "H.265 AMF (AMD VCN)"),
    ];
    assert(table_view(table@) =~= hw_table());
    filter_table(&table, available)
}

/// Software encoders present in this ffmpeg build.
pub fn sw_encoders(available: &Vec<String>) -> (r: Vec<(String, String)>)
    ensures
        pairs(r@) == offered(sw_table(), strings(available@)),
{
    let table = vec![
        ("libx264", "H.264 (x264)"),
        ("libx265", "H.265 / HEVC (x265)"),
        ("libsvtav1", "AV1 (SVT-AV1)"),
    ];
    assert(table_view(table@) =~= sw_table());
    filter_table(&table, available)
}

/// The codec the export dialog starts with: the first hardware encoder
/// offered, else x264.
pub fn preferred_vcodec(hw: &Vec<(String, String)>) -> (r: String)
    ensures
        r@ == (if hw@.len() > 0 {
            hw@[0].0@
        } else {
            "libx264"@
        }),
{
    if hw.len() > 0 {
        string_of(&chars_of(hw[0].0.as_str()))
    } else {
        owned("libx264")
    }
}

// ------------------------------------------------------------------ transition runs

/// Pieces of a track grouped into runs joined by transitions: piece `i`
/// continues the run of piece `i - 1` when `joins[i]` holds (`joins[0]` is
/// not looked at), and starts a new run otherwise.
pub open spec fn spec_runs(joins: Seq<bool>) -> Seq<Seq<usize>>
    decreases joins.len(),
{
    if joins.len() == 0 {
        Seq::empty()
    } else {
        let r = spec_runs(joins.drop_last());
        let i = (joins.len() - 1) as usize;
        if i == 0 || !joins.last() {
            r.push(seq![i])
        } else {
            r.update(r.len() - 1, r.last().push(i))
        }
    }
}

/// The runs, read one after the other, list every piece once and in order,
/// and no run is empty.
pub proof fn lemma_runs_partition(joins: Seq<bool>)
    requires
        joins.len() <= usize::MAX,
    ensures
        spec_runs(joins).flatten() == Seq::new(joins.len(), |k: int| k as usize),
        forall|j: int| 0 <= j < spec_runs(joins).len() ==> #[trigger] spec_runs(joins)[j].len() > 0,
        joins.len() > 0 ==> spec_runs(joins).len() > 0,
    decreases joins.len(),
{
    if joins.len() > 0 {
        let d = joins.drop_last();
        lemma_runs_partition(d);
        let r = spec_runs(d);
        let i = (joins.len() - 1) as usize;
        let n = joins.len();
        if i == 0 || !joins.last() {
            r.lemma_flatten_push(seq![i]);
            assert(Seq::new((n - 1) as nat, |k: int| k as usize) + seq![i] =~= Seq::new(n, |k: int| k as usize));
        } else {
            let front = r.drop_last();
            assert(r =~= front.push(r.last()));
            front.lemma_flatten_push(r.last());
            front.lemma_flatten_push(r.last().push(i));
            assert(r.update(r.len() - 1, r.last().push(i)) =~= front.push(r.last().push(i)));
            assert(r.last().push(i) =~= r.last() + seq![i]);
            assert(front.flatten() + (r.last() + seq![i]) =~= (front.flatten() + r.last()) + seq![i]);
            assert(Seq::new((n - 1) as nat, |k: int| k as usize) + seq![i] =~= Seq::new(n, |k: int| k as usize));
        }
    }
}

/// Transition runs of a track's pieces (see `spec_runs`).
pub fn transition_runs(joins: &Vec<bool>) -> (r: Vec<Vec<usize>>)
    ensures
        r@.map_values(|v: Vec<usize>| v@) == spec_runs(joins@),
{
    let mut runs: Vec<Vec<usize>> = Vec::new();
    let mut cur: Vec<usize> = Vec::new();
    let mut i: usize = 0;
    while i < joins.len()
        invariant
            i <= joins.len(),
            i == 0 ==> runs@.len() == 0 && cur@.len() == 0,
            i > 0 ==> cur@.len() > 0 && runs@.map_values(|v: Vec<usize>| v@).push(cur@) == spec_runs(
                joins@.take(i as int),
            ),
        decreases joins.len() - i,
    {
        let ghost before = runs@.map_values(|v: Vec<usize>| v@);
        let ghost c0 = cur@;
        assert(joins@.take(i + 1).drop_last() =~= joins@.take(i as int));
        assert(joins@.take(i + 1).last() == joins@[i as int]);
        if i == 0 {
            cur.push(i);
            assert(cur@ =~= seq![0usize]);
            assert(runs@.map_values(|v: Vec<usize>| v@).push(cur@) =~= Seq::<Seq<usize>>::empty().push(
                seq![0usize],
            ));
            assert(spec_runs(joins@.take(0)) == Seq::<Seq<usize>>::empty());
            assert(spec_runs(joins@.take(1)) == Seq::<Seq<usize>>::empty().push(seq![0usize]));
        } else if joins[i] {
            cur.push(i);
            assert(spec_runs(joins@.take(i + 1)) == before.push(c0).update(before.len() as int, c0.push(i)));
            assert(before.push(cur@) =~= before.push(c0).update(before.len() as int, c0.push(i)));
        } else {
            let done = cur;
            runs.push(done);
            cur = Vec::new();
            cur.push(i);
            assert(runs@.map_values(|v: Vec<usize>| v@) =~= before.push(c0));
            assert(cur@ =~= seq![i]);
            assert(spec_runs(joins@.take(i + 1)) == before.push(c0).push(seq![i]));
        }
        i += 1;
    }
    assert(joins@.take(joins.len() as int) =~= joins@);
    if cur.len() > 0 {
        let ghost before = runs@.map_values(|v: Vec<usize>| v@);
        runs.push(cur);
        assert(runs@.map_values(|v: Vec<usize>| v@) =~= before.push(cur@));
    } else {
        assert(joins@.len() == 0);
        assert(runs@.map_values(|v: Vec<usize>| v@) =~= Seq::<Seq<usize>>::empty());
    }
    runs
}

// ------------------------------------------------------------------ blend names

pub open spec fn spec_blend_name(m: BlendMode) -> Seq<char> {
    match m {
        BlendMode::Normal => "normal"@,
        BlendMode::Multiply => "multiply"@,
        BlendMode::Screen => "screen"@,
        BlendMode::Overlay => "overlay"@,
        BlendMode::SoftLight => "softlight"@,
        BlendMode::HardLight => "hardlight"@,
        BlendMode::Darken => "darken"@,
        BlendMode::Lighten => "lighten"@,
        BlendMode::Difference => "difference"@,
    }
}

/// ffmpeg `blend` filter mode name.
pub fn ffmpeg_blend_name(m: &BlendMode) -> (r: &'static str)
    ensures
        r@ == spec_blend_name(*m),
{
    match m {
        BlendMode::Normal => "normal",
        BlendMode::Multiply => "multiply",
        BlendMode::Screen => "screen",
        BlendMode::Overlay => "overlay",
        BlendMode::SoftLight => "softlight",
        BlendMode::HardLight => "hardlight",
        BlendMode::Darken => "darken",
        BlendMode::Lighten => "lighten",
        BlendMode::Difference => "difference",
    }
}

// ------------------------------------------------------------------ argument splitting

/// State of a scan over a pre-joined argument string: the finished
/// arguments, the one being read, and whether a single quote is open.
pub type ArgScan = (Seq<Seq<char>>, Seq<char>, bool);

/// One character of the scan: a quote toggles quoting and is dropped; an
/// unquoted space ends a non-empty argument; anything else is kept.
pub open spec fn arg_step(st: ArgScan, c: char) -> ArgScan {
    let (out, cur, in_q) = st;
    if c == '\'' {
        (out, cur, !in_q)
    } else if c == ' ' && !in_q {
        if cur.len() > 0 {
            (out.push(cur), Seq::empty(), in_q)
        } else {
            (out, cur, in_q)
        }
    } else {
        (out, cur.push(c), in_q)
    }
}

/// The scan of `t` continued from state `st`.
pub open spec fn scan_from(st: ArgScan, t: Seq<char>) -> ArgScan
    decreases t.len(),
{
    if t.len() == 0 {
        st
    } else {
        arg_step(scan_from(st, t.drop_last()), t.last())
    }
}

/// The scan of `s` from the start.
pub open spec fn args_scan(s: Seq<char>) -> ArgScan {
    scan_from((Seq::empty(), Seq::empty(), false), s)
}

pub open spec fn spec_split_args(s: Seq<char>) -> Seq<Seq<char>> {
    let (out, cur, _) = args_scan(s);
    if cur.len() > 0 {
        out.push(cur)
    } else {
        out
    }
}

proof fn lemma_scan_concat(st: ArgScan, a: Seq<char>, t: Seq<char>)
    ensures
        scan_from(st, a + t) == scan_from(scan_from(st, a), t),
    decreases t.len(),
{
    if t.len() == 0 {
        assert(a + t =~= a);
    } else {
        lemma_scan_concat(st, a, t.drop_last());
        assert((a + t).drop_last() =~= a + t.drop_last());
    }
}

/// Scanning from a fresh argument only appends to what was finished.
proof fn lemma_scan_fresh(o: Seq<Seq<char>>, t: Seq<char>)
    ensures
        scan_from((o, Seq::empty(), false), t) == (o + args_scan(t).0, args_scan(t).1, args_scan(t).2),
    decreases t.len(),
{
    if t.len() == 0 {
        assert(o + Seq::<Seq<char>>::empty() =~= o);
    } else {
        lemma_scan_fresh(o, t.drop_last());
        let (out, cur, _) = scan_from((Seq::empty(), Seq::empty(), false), t.drop_last());
        assert((o + out).push(cur) =~= o + out.push(cur));
    }
}

/// Characters other than quotes and (outside quotes) spaces extend the
/// argument being read.
proof fn lemma_scan_plain(o: Seq<Seq<char>>, c: Seq<char>, q: bool, t: Seq<char>)
    requires
        forall|i: int| 0 <= i < t.len() ==> t[i] != '\'' && (q || t[i] != ' '),
    ensures
        scan_from((o, c, q), t) == (o, c + t, q),
    decreases t.len(),
{
    if t.len() == 0 {
        assert(c + t =~= c);
    } else {
        lemma_scan_plain(o, c, q, t.drop_last());
        assert((c + t.drop_last()).push(t.last()) =~= c + t);
    }
}

/// Arguments joined with a space split back apart: splitting `a`, a space
/// and `b` gives the arguments of `a` followed by those of `b`, provided `a`
/// leaves no quote open.
pub proof fn lemma_split_args_join(a: Seq<char>, b: Seq<char>)
    requires
        !args_scan(a).2,
    ensures
        spec_split_args(a + seq![' '] + b) == spec_split_args(a) + spec_split_args(b),
{
    let init: ArgScan = (Seq::empty(), Seq::empty(), false);
    let sp = seq![' '];
    let sa = args_scan(a);
    let o = spec_split_args(a);
    lemma_scan_concat(init, a, sp);
    assert(sp.drop_last() =~= Seq::<char>::empty());
    assert(scan_from(sa, Seq::<char>::empty()) == sa);
    assert(sp.last() == ' ');
    assert(scan_from(sa, sp) == arg_step(sa, ' '));
    assert(args_scan(a + sp) == (o, Seq::<char>::empty(), false));
    lemma_scan_concat(init, a + sp, b);
    lemma_scan_fresh(o, b);
    let (ob, cb, qb) = args_scan(b);
    assert(args_scan(a + sp + b) == (o + ob, cb, qb));
    if cb.len() > 0 {
        assert((o + ob).push(cb) =~= o + ob.push(cb));
    } else {
        assert(spec_split_args(b) == ob);
    }
}

/// A quoted argument comes back whole, spaces included.
pub proof fn lemma_split_args_quoted(p: Seq<char>)
    requires
        p.len() > 0,
        forall|i: int| 0 <= i < p.len() ==> p[i] != '\'',
    ensures
        spec_split_args(seq!['\''] + p + seq!['\'']) == seq![p],
{
    let init: ArgScan = (Seq::empty(), Seq::empty(), false);
    let q = seq!['\''];
    let e = Seq::<Seq<char>>::empty();
    assert(q.drop_last() =~= Seq::<char>::empty());
    assert(q.last() == '\'');
    assert(scan_from(init, Seq::<char>::empty()) == init);
    assert(args_scan(q) == (e, Seq::<char>::empty(), true));
    lemma_scan_concat(init, q, p);
    lemma_scan_plain(e, Seq::empty(), true, p);
    assert(Seq::<char>::empty() + p =~= p);
    assert(args_scan(q + p) == (e, p, true));
    lemma_scan_concat(init, q + p, q);
    assert(scan_from((e, p, true), Seq::<char>::empty()) == (e, p, true));
    assert(scan_from((e, p, true), q) == arg_step((e, p, true), '\''));
    assert(args_scan(q + p + q) == (e, p, false));
    assert(e.push(p) =~= seq![p]);
}

/// A word without spaces or quotes is one argument.
pub proof fn lemma_split_args_word(w: Seq<char>)
    requires
        w.len() > 0,
        forall|i: int| 0 <= i < w.len() ==> w[i] != '\'' && w[i] != ' ',
    ensures
        spec_split_args(w) == seq![w],
{
    lemma_scan_plain(Seq::empty(), Seq::empty(), false, w);
    assert(Seq::<char>::empty() + w =~= w);
    assert(Seq::<Seq<char>>::empty().push(w) =~= seq![w]);
}

/// Split a pre-joined "-flag value -i path" string (quoted paths supported).
pub fn split_args(s: &str) -> (r: Vec<String>)
    ensures
        strings(r@) == spec_split_args(s@),
{
    let cs = chars_of(s);
    let mut out: Vec<String> = Vec::new();
    let mut cur: Vec<char> = Vec::new();
    let mut in_q = false;
    let mut i: usize = 0;
    while i < cs.len()
        invariant
            i <= cs.len(),
            cs@ == s@,
            args_scan(cs@.take(i as int)) == (strings(out@), cur@, in_q),
        decreases cs.len() - i,
    {
        let c = cs[i];
        assert(cs@.take(i + 1).drop_last() =~= cs@.take(i as int));
        if c == '\'' {
            in_q = !in_q;
        } else if c == ' ' && !in_q {
            if cur.len() > 0 {
                let ghost before = strings(out@);
                let w = string_of(&cur);
                out.push(w);
                assert(strings(out@) =~= before.push(cur@));
                cur = Vec::new();
            }
        } else {
            cur.push(c);
        }
        i += 1;
    }
    assert(cs@.take(cs.len() as int) =~= cs@);
    if cur.len() > 0 {
        let ghost before = strings(out@);
        let w = string_of(&cur);
        out.push(w);
        assert(strings(out@) =~= before.push(cur@));
    }
    out
}

// ------------------------------------------------------------------ encoder command tail

/// The arguments after the filter graph and maps: video codec and its
/// quality arguments, pixel format, frame rate, audio codec and bit rate,
/// fast start, progress on stdout, and the output path.
pub open spec fn spec_output_args(
    vcodec: Seq<char>,
    q: nat,
    fps: Seq<char>,
    acodec: Seq<char>,
    out: Seq<char>,
) -> Seq<Seq<char>> {
    seq!["-c:v"@, vcodec] + spec_quality_args(vcodec, q) + seq![
        "-pix_fmt"@,
        "yuv420p"@,
        "-r"@,
        fps,
        "-c:a"@,
        acodec,
        "-b:a"@,
        "192k"@,
        "-movflags"@,
        "+faststart"@,
        "-progress"@,
        "pipe:1"@,
        "-nostats"@,
        out,
    ]
}

/// The encoder arguments that close an export command; `fps` is the frame
/// rate as written on the command line.
pub fn output_args(vcodec: &str, quality: u32, fps: &str, acodec: &str, out: &str) -> (r: Vec<String>)
    ensures
        strings(r@) == spec_output_args(vcodec@, quality as nat, fps@, acodec@, out@),
{
    let mut v: Vec<String> = Vec::new();
    push_owned(&mut v, "-c:v");
    push_owned(&mut v, vcodec);
    let q = encoder_quality_args(vcodec, quality);
    let ghost head = strings(v@);
    let mut i: usize = 0;
    while i < q.len()
        invariant
            i <= q.len(),
            strings(q@) == spec_quality_args(vcodec@, quality as nat),
            strings(v@) == head + strings(q@).take(i as int),
        decreases q.len() - i,
    {
        let o = owned(q[i].as_str());
        let ghost vb = strings(v@);
        v.push(o);
        assert(o@ == strings(q@)[i as int]);
        assert(strings(v@) =~= vb.push(o@));
        assert(strings(q@).take(i + 1) =~= strings(q@).take(i as int).push(strings(q@)[i as int]));
        assert(strings(v@) =~= head + strings(q@).take(i + 1));
        i += 1;
    }
    assert(strings(q@).take(q.len() as int) =~= strings(q@));
    push_owned(&mut v, "-pix_fmt");
    push_owned(&mut v, "yuv420p");
    push_owned(&mut v, "-r");
    push_owned(&mut v, fps);
    push_owned(&mut v, "-c:a");
    push_owned(&mut v, acodec);
    push_owned(&mut v, "-b:a");
    push_owned(&mut v, "192k");
    push_owned(&mut v, "-movflags");
    push_owned(&mut v, "+faststart");
    push_owned(&mut v, "-progress");
    push_owned(&mut v, "pipe:1");
    push_owned(&mut v, "-nostats");
    push_owned(&mut v, out);
    assert(strings(v@) =~= spec_output_args(vcodec@, quality as nat, fps@, acodec@, out@));
    v
}

// ------------------------------------------------------------------ failure report

/// `s` without runs of equal neighbours (each run kept once).
pub open spec fn dedup(s: Seq<Seq<char>>) -> Seq<Seq<char>>
    decreases s.len(),
{
    if s.len() <= 1 {
        s
    } else {
        let d = dedup(s.drop_last());
        if d.last() == s.last() {
            d
        } else {
            d.push(s.last())
        }
    }
}

/// The parts joined with `sep` between them.
pub open spec fn join_with(parts: Seq<Seq<char>>, sep: Seq<char>) -> Seq<char>
    decreases parts.len(),
{
    if parts.len() == 0 {
        Seq::empty()
    } else if parts.len() == 1 {
        parts[0]
    } else {
        join_with(parts.drop_last(), sep) + sep + parts.last()
    }
}

/// The last `n` items of `s` (all of them when there are fewer).
pub open spec fn last_n(s: Seq<Seq<char>>, n: nat) -> Seq<Seq<char>> {
    if s.len() <= n {
        s
    } else {
        s.skip(s.len() - n)
    }
}

/// The error shown when ffmpeg fails: "ffmpeg failed: " and its last six
/// error lines, repeated neighbours once, joined with " | ".
pub open spec fn spec_failure_message(lines: Seq<Seq<char>>) -> Seq<char> {
    "ffmpeg failed: "@ + join_with(dedup(last_n(lines, 6)), " | "@)
}

proof fn lemma_dedup_nonempty(s: Seq<Seq<char>>)
    ensures
        s.len() > 0 ==> dedup(s).len() > 0 && dedup(s).last() == s.last(),
    decreases s.len(),
{
    if s.len() > 1 {
        lemma_dedup_nonempty(s.drop_last());
    }
}

/// The error text for a failed export from ffmpeg's error output lines.
pub fn export_failure_message(lines: &Vec<String>) -> (r: String)
    ensures
        r@ == spec_failure_message(strings(lines@)),
{
    let ghost all = strings(lines@);
    let n = lines.len();
    let start: usize = if n > 6 { n - 6 } else { 0 };
    let ghost tail = last_n(all, 6);
    assert(tail =~= all.subrange(start as int, n as int));
    // dedup
    let mut kept: Vec<String> = Vec::new();
    let mut i: usize = start;
    while i < n
        invariant
            start <= i <= n,
            n == lines.len(),
            all == strings(lines@),
            tail == all.subrange(start as int, n as int),
            strings(kept@) == dedup(all.subrange(start as int, i as int)),
        decreases n - i,
    {
        let ghost before = all.subrange(start as int, i as int);
        let ghost after = all.subrange(start as int, i as int + 1);
        assert(after.drop_last() =~= before);
        assert(after.last() == lines@[i as int]@);
        proof {
            lemma_dedup_nonempty(before);
        }
        let same = if kept.len() > 0 {
            str_eq(kept[kept.len() - 1].as_str(), lines[i].as_str())
        } else {
            false
        };
        if !same {
            let o = owned(lines[i].as_str());
            kept.push(o);
            assert(strings(kept@) =~= dedup(before).push(lines@[i as int]@));
        }
        proof {
            if before.len() == 0 {
                assert(after =~= seq![lines@[i as int]@]);
            }
        }
        i += 1;
    }
    // join
    let ghost d = strings(kept@);
    let mut msg = owned("ffmpeg failed: ");
    let ghost prefix = msg@;
    let mut j: usize = 0;
    while j < kept.len()
        invariant
            j <= kept.len(),
            d == strings(kept@),
            msg@ == prefix + join_with(d.take(j as int), " | "@),
        decreases kept.len() - j,
    {
        assert(d.take(j + 1).drop_last() =~= d.take(j as int));
        if j > 0 {
            crate::text::push_str(&mut msg, " | ");
        }
        crate::text::push_str(&mut msg, kept[j].as_str());
        proof {
            if j == 0 {
                assert(d.take(1) =~= seq![d[0]]);
                assert(join_with(d.take(0), " | "@) =~= Seq::<char>::empty());
            }
        }
        assert(msg@ =~= prefix + join_with(d.take(j + 1), " | "@));
        j += 1;
    }
    assert(d.take(kept.len() as int) =~= d);
    msg
}

// ------------------------------------------------------------------ rate-control table

/// The rate-control arguments per encoder, for every quality `q`: x264/x265
/// use CRF with the veryfast preset; the NVENC encoders constant quality
/// `-cq` under VBR with no bit-rate cap; QSV `-global_quality`; AMF constant
/// QP for I and P frames; SVT-AV1 CRF with preset 8; any other encoder a
/// bare CRF.
pub proof fn lemma_quality_args_table(q: nat)
    ensures
        spec_quality_args("libx264"@, q) == seq!["-crf"@, dec(q), "-preset"@, "veryfast"@],
        spec_quality_args("libx265"@, q) == seq!["-crf"@, dec(q), "-preset"@, "veryfast"@],
        spec_quality_args("h264_nvenc"@, q) == seq!["-preset"@, "p3"@, "-rc"@, "vbr"@, "-cq"@, dec(q), "-b:v"@, "0"@],
        spec_quality_args("hevc_nvenc"@, q) == seq!["-preset"@, "p3"@, "-rc"@, "vbr"@, "-cq"@, dec(q), "-b:v"@, "0"@],
        spec_quality_args("av1_nvenc"@, q) == seq!["-preset"@, "p3"@, "-rc"@, "vbr"@, "-cq"@, dec(q), "-b:v"@, "0"@],
        spec_quality_args("h264_qsv"@, q) == seq!["-global_quality"@, dec(q), "-preset"@, "veryfast"@],
        spec_quality_args("hevc_qsv"@, q) == seq!["-global_quality"@, dec(q), "-preset"@, "veryfast"@],
        spec_quality_args("av1_qsv"@, q) == seq!["-global_quality"@, dec(q), "-preset"@, "veryfast"@],
        spec_quality_args("h264_amf"@, q) == seq![
            "-quality"@,
            "balanced"@,
            "-rc"@,
            "cqp"@,
            "-qp_i"@,
            dec(q),
            "-qp_p"@,
            dec(q),
        ],
        spec_quality_args("hevc_amf"@, q) == seq![
            "-quality"@,
            "balanced"@,
            "-rc"@,
            "cqp"@,
            "-qp_i"@,
            dec(q),
            "-qp_p"@,
            dec(q),
        ],
        spec_quality_args("libsvtav1"@, q) == seq!["-crf"@, dec(q), "-preset"@, "8"@],
        spec_quality_args("mpeg4"@, q) == seq!["-crf"@, dec(q)],
{
    reveal_strlit("libx264");
    reveal_strlit("libx265");
    reveal_strlit("h264_nvenc");
    reveal_strlit("hevc_nvenc");
    reveal_strlit("av1_nvenc");
    reveal_strlit("h264_qsv");
    reveal_strlit("hevc_qsv");
    reveal_strlit("av1_qsv");
    reveal_strlit("h264_amf");
    reveal_strlit("hevc_amf");
    reveal_strlit("libsvtav1");
    reveal_strlit("mpeg4");
    assert("libx265"@[6] != "libx264"@[6]);
    assert("h264_nvenc"@.len() != "libx264"@.len());
    assert("h264_nvenc"@.len() != "libx265"@.len());
    assert("hevc_nvenc"@.len() != "libx264"@.len());
    assert("hevc_nvenc"@.len() != "libx265"@.len());
    assert("hevc_nvenc"@[1] != "h264_nvenc"@[1]);
    assert("av1_nvenc"@.len() != "libx264"@.len());
    assert("av1_nvenc"@.len() != "libx265"@.len());
    assert("av1_nvenc"@.len() != "h264_nvenc"@.len());
    assert("av1_nvenc"@.len() != "hevc_nvenc"@.len());
    assert("h264_qsv"@.len() != "libx264"@.len());
    assert("h264_qsv"@.len() != "libx265"@.len());
    assert("h264_qsv"@.len() != "h264_nvenc"@.len());
    assert("h264_qsv"@.len() != "hevc_nvenc"@.len());
    assert("h264_qsv"@.len() != "av1_nvenc"@.len());
    assert("hevc_qsv"@.len() != "libx264"@.len());
    assert("hevc_qsv"@.len() != "libx265"@.len());
    assert("hevc_qsv"@.len() != "h264_nvenc"@.len());
    assert("hevc_qsv"@.len() != "hevc_nvenc"@.len());
    assert("hevc_qsv"@.len() != "av1_nvenc"@.len());
    assert("hevc_qsv"@[1] != "h264_qsv"@[1]);
    assert("av1_qsv"@[0] != "libx264"@[0]);
    assert("av1_qsv"@[0] != "libx265"@[0]);
    assert("av1_qsv"@.len() != "h264_nvenc"@.len());
    assert("av1_qsv"@.len() != "hevc_nvenc"@.len());
    assert("av1_qsv"@.len() != "av1_nvenc"@.len());
    assert("av1_qsv"@.len() != "h264_qsv"@.len());
    assert("av1_qsv"@.len() != "hevc_qsv"@.len());
    assert("h264_amf"@.len() != "libx264"@.len());
    assert("h264_amf"@.len() != "libx265"@.len());
    assert("h264_amf"@.len() != "h264_nvenc"@.len());
    assert("h264_amf"@.len() != "hevc_nvenc"@.len());
    assert("h264_amf"@.len() != "av1_nvenc"@.len());
    assert("h264_amf"@[5] != "h264_qsv"@[5]);
    assert("h264_amf"@[1] != "hevc_qsv"@[1]);
    assert("h264_amf"@.len() != "av1_qsv"@.len());
    assert("hevc_amf"@.len() != "libx264"@.len());
    assert("hevc_amf"@.len() != "libx265"@.len());
    assert("hevc_amf"@.len() != "h264_nvenc"@.len());
    assert("hevc_amf"@.len() != "hevc_nvenc"@.len());
    assert("hevc_amf"@.len() != "av1_nvenc"@.len());
    assert("hevc_amf"@[1] != "h264_qsv"@[1]);
    assert("hevc_amf"@[5] != "hevc_qsv"@[5]);
    assert("hevc_amf"@.len() != "av1_qsv"@.len());
    assert("hevc_amf"@[1] != "h264_amf"@[1]);
    assert("libsvtav1"@.len() != "libx264"@.len());
    assert("libsvtav1"@.len() != "libx265"@.len());
    assert("libsvtav1"@.len() != "h264_nvenc"@.len());
    assert("libsvtav1"@.len() != "hevc_nvenc"@.len());
    assert("libsvtav1"@[0] != "av1_nvenc"@[0]);
    assert("libsvtav1"@.len() != "h264_qsv"@.len());
    assert("libsvtav1"@.len() != "hevc_qsv"@.len());
    assert("libsvtav1"@.len() != "av1_qsv"@.len());
    assert("libsvtav1"@.len() != "h264_amf"@.len());
    assert("libsvtav1"@.len() != "hevc_amf"@.len());
    assert("mpeg4"@.len() != "libx264"@.len());
    assert("mpeg4"@.len() != "libx265"@.len());
    assert("mpeg4"@.len() != "h264_nvenc"@.len());
    assert("mpeg4"@.len() != "hevc_nvenc"@.len());
    assert("mpeg4"@.len() != "av1_nvenc"@.len());
    assert("mpeg4"@.len() != "h264_qsv"@.len());
    assert("mpeg4"@.len() != "hevc_qsv"@.len());
    assert("mpeg4"@.len() != "av1_qsv"@.len());
    assert("mpeg4"@.len() != "h264_amf"@.len());
    assert("mpeg4"@.len() != "hevc_amf"@.len());
    assert("mpeg4"@.len() != "libsvtav1"@.len());
}

} // verus!
