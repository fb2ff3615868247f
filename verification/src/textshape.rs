//! Script detection for title shaping: which characters need the
//! right-to-left shaping path. The shaping itself (glyph positions in
//! pixels) is done by the font engine around this.

use vstd::prelude::*;

verus! {

/// Hebrew, Arabic, Syriac, Arabic Supplement, Arabic Extended-A and the two
/// Arabic presentation-form blocks.
pub open spec fn spec_is_rtl_char(c: char) -> bool {
    let u = c as u32;
    (0x0590 <= u <= 0x05FF) || (0x0600 <= u <= 0x06FF) || (0x0700 <= u <= 0x074F) || (0x0750 <= u
        <= 0x077F) || (0x08A0 <= u <= 0x08FF) || (0xFB50 <= u <= 0xFDFF) || (0xFE70 <= u <= 0xFEFF)
}

/// Whether `c` belongs to a right-to-left script block.
pub fn is_rtl_char(c: char) -> (r: bool)
    ensures
        r == spec_is_rtl_char(c),
{
    let u = c as u32;
    (0x0590 <= u && u <= 0x05FF) || (0x0600 <= u && u <= 0x06FF) || (0x0700 <= u && u <= 0x074F)
        || (0x0750 <= u && u <= 0x077F) || (0x08A0 <= u && u <= 0x08FF) || (0xFB50 <= u && u
        <= 0xFDFF) || (0xFE70 <= u && u <= 0xFEFF)
}

/// Whether a text takes the bidirectional shaping path: it does as soon as
/// one character is right-to-left.
pub fn needs_rtl_shaping(text: &str) -> (r: bool)
    ensures
        r == (exists|i: int| 0 <= i < text@.len() && spec_is_rtl_char(#[trigger] text@[i])),
{
    let mut found = false;
    for c in it: text.chars()
        invariant
            found == (exists|i: int| 0 <= i < it.index() && spec_is_rtl_char(#[trigger] it.seq()[i])),
    {
        if is_rtl_char(c) {
            found = true;
        }
    }
    found
}

// ------------------------------------------------------------------ bidi runs

/// One paragraph as unicode-bidi reorders it: the level of each byte of the
/// text and the level runs (byte ranges) in visual order.
pub type ParaRuns = (Vec<u8>, Vec<(usize, usize)>);

pub open spec fn para_view(p: ParaRuns) -> (Seq<u8>, Seq<(usize, usize)>) {
    (p.0@, p.1@)
}

pub open spec fn paras_view(v: Seq<ParaRuns>) -> Seq<(Seq<u8>, Seq<(usize, usize)>)> {
    v.map_values(|p: ParaRuns| para_view(p))
}

/// The paragraphs and visual runs that unicode-bidi computes for a text.
pub uninterp spec fn bidi_visual_runs(text: Seq<char>) -> Seq<(Seq<u8>, Seq<(usize, usize)>)>;

/// unicode-bidi's `BidiInfo::new(text, None)`, then `visual_runs` over each
/// paragraph's whole range, levels given as their numbers. The result is the
/// named `bidi_visual_runs` of the text; the bidi algorithm is not stated.
#[verifier::external_body]
fn visual_runs_of(text: &str) -> (r: Vec<ParaRuns>)
    ensures
        paras_view(r@) == bidi_visual_runs(text@),
{
    let info = unicode_bidi::BidiInfo::new(text, None);
    info.paragraphs.iter().map(|p| {
        let (levels, runs) = info.visual_runs(p, p.range.clone());
        (levels.iter().map(|l| l.number()).collect(), runs.iter().map(|r| (r.start, r.end)).collect())
    }).collect()
}

/// A run is right-to-left when the level of its first byte is odd (a run
/// starting past the levels counts as left-to-right).
pub open spec fn run_rtl(levels: Seq<u8>, start: usize) -> bool {
    start < levels.len() && levels[start as int] % 2 == 1
}

/// The non-empty runs of one paragraph, in visual order, with their direction.
pub open spec fn para_runs(levels: Seq<u8>, runs: Seq<(usize, usize)>) -> Seq<(usize, usize, bool)>
    decreases runs.len(),
{
    if runs.len() == 0 {
        Seq::empty()
    } else {
        let rest = para_runs(levels, runs.drop_last());
        let r = runs.last();
        if r.0 < r.1 {
            rest.push((r.0, r.1, run_rtl(levels, r.0)))
        } else {
            rest
        }
    }
}

/// The non-empty runs of all paragraphs, in order, with their direction.
pub open spec fn spec_shaping_runs(paras: Seq<(Seq<u8>, Seq<(usize, usize)>)>) -> Seq<(usize, usize, bool)>
    decreases paras.len(),
{
    if paras.len() == 0 {
        Seq::empty()
    } else {
        spec_shaping_runs(paras.drop_last()) + para_runs(paras.last().0, paras.last().1)
    }
}

/// The runs to shape, from unicode-bidi's paragraphs: each non-empty run as
/// its byte range and whether it is shaped right to left.
pub fn shaping_runs(paras: &Vec<ParaRuns>) -> (r: Vec<(usize, usize, bool)>)
    ensures
        r@ == spec_shaping_runs(paras_view(paras@)),
{
    let mut out: Vec<(usize, usize, bool)> = Vec::new();
    let mut i: usize = 0;
    while i < paras.len()
        invariant
            i <= paras.len(),
            out@ == spec_shaping_runs(paras_view(paras@).take(i as int)),
        decreases paras.len() - i,
    {
        let levels = &paras[i].0;
        let runs = &paras[i].1;
        let ghost base = out@;
        let mut j: usize = 0;
        while j < runs.len()
            invariant
                i < paras.len(),
                levels == &paras@[i as int].0,
                runs == &paras@[i as int].1,
                j <= runs.len(),
                out@ == base + para_runs(levels@, runs@.take(j as int)),
            decreases runs.len() - j,
        {
            let (st, en) = runs[j];
            assert(runs@.take(j as int + 1).drop_last() =~= runs@.take(j as int));
            if st < en {
                let rtl = st < levels.len() && levels[st] % 2 == 1;
                out.push((st, en, rtl));
            }
            j = j + 1;
        }
        proof {
            assert(runs@.take(runs.len() as int) =~= runs@);
            let pv = paras_view(paras@);
            assert(pv.take(i as int + 1).drop_last() =~= pv.take(i as int));
            assert(pv.take(i as int + 1).last() == para_view(paras@[i as int]));
        }
        i = i + 1;
    }
    assert(paras_view(paras@).take(paras.len() as int) =~= paras_view(paras@));
    out
}

/// The runs `shape_text` shapes for `text`: unicode-bidi's visual runs of
/// each paragraph, empty ones left out, each right-to-left exactly when the
/// level of its first byte is odd.
pub fn text_runs(text: &str) -> (r: Vec<(usize, usize, bool)>)
    ensures
        r@ == spec_shaping_runs(bidi_visual_runs(text@)),
{
    let paras = visual_runs_of(text);
    shaping_runs(&paras)
}

} // verus!
