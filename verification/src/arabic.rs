//! Arabic text shaping for display surfaces without complex-script support.
//!
//! Arabic strings are turned into Unicode Arabic Presentation Forms-B
//! (U+FE70..U+FEFF) by a context-form shaper, then put into *visual order* by
//! a simplified bidi pass, so that a plain left-to-right painter shows them
//! joined and right-to-left.
//!
//! The shaper is specified by two spec functions: `contextual` (the logical
//! order pass) and `visual_order` (the reordering pass); `shape` is proved to
//! compute `visual_order(contextual(input))`.

use vstd::prelude::*;
use vstd::multiset::Multiset;
use crate::text::chars_of;

verus! {

// ------------------------------------------------------------------ tables

/// How a letter connects to its neighbours.
#[derive(Clone, Copy, PartialEq, Eq, Structural, Debug)]
pub enum Join {
    /// connects on both sides
    Dual,
    /// connects only to the previous letter (final form)
    Right,
    /// does not connect
    NonJoining,
}

/// Presentation forms of a letter: `(isolated, final)`, `(initial, medial)`
/// and its joining behaviour.
pub type Forms = ((u32, u32), (u32, u32), Join);

pub open spec fn dual(base: u32) -> Option<Forms> {
    Some(((base, (base + 1) as u32), ((base + 2) as u32, (base + 3) as u32), Join::Dual))
}

pub open spec fn right(base: u32) -> Option<Forms> {
    Some(((base, (base + 1) as u32), (0u32, 0u32), Join::Right))
}

/// The presentation-form table of the base letters U+0621..U+064A.
pub open spec fn spec_forms(c: char) -> Option<Forms> {
    match c {
        '\u{0621}' => Some(((0xFE80u32, 0u32), (0u32, 0u32), Join::NonJoining)),
        '\u{0622}' => right(0xFE81),
        '\u{0623}' => right(0xFE83),
        '\u{0624}' => right(0xFE85),
        '\u{0625}' => right(0xFE87),
        '\u{0626}' => dual(0xFE89),
        '\u{0627}' => right(0xFE8D),
        '\u{0628}' => dual(0xFE8F),
        '\u{0629}' => right(0xFE93),
        '\u{062A}' => dual(0xFE95),
        '\u{062B}' => dual(0xFE99),
        '\u{062C}' => dual(0xFE9D),
        '\u{062D}' => dual(0xFEA1),
        '\u{062E}' => dual(0xFEA5),
        '\u{062F}' => right(0xFEA9),
        '\u{0630}' => right(0xFEAB),
        '\u{0631}' => right(0xFEAD),
        '\u{0632}' => right(0xFEAF),
        '\u{0633}' => dual(0xFEB1),
        '\u{0634}' => dual(0xFEB5),
        '\u{0635}' => dual(0xFEB9),
        '\u{0636}' => dual(0xFEBD),
        '\u{0637}' => dual(0xFEC1),
        '\u{0638}' => dual(0xFEC5),
        '\u{0639}' => dual(0xFEC9),
        '\u{063A}' => dual(0xFECD),
        '\u{0640}' => Some(((0x0640u32, 0x0640u32), (0x0640u32, 0x0640u32), Join::Dual)),
        '\u{0641}' => dual(0xFED1),
        '\u{0642}' => dual(0xFED5),
        '\u{0643}' => dual(0xFED9),
        '\u{0644}' => dual(0xFEDD),
        '\u{0645}' => dual(0xFEE1),
        '\u{0646}' => dual(0xFEE5),
        '\u{0647}' => dual(0xFEE9),
        '\u{0648}' => right(0xFEED),
        '\u{0649}' => right(0xFEEF),
        '\u{064A}' => dual(0xFEF1),
        _ => None,
    }
}

/// (isolated, final) and (initial, medial) presentation forms per base letter.
pub fn forms(c: char) -> (r: Option<Forms>)
    ensures
        r == spec_forms(c),
{
    match c {
        '\u{0621}' => Some(((0xFE80, 0), (0, 0), Join::NonJoining)),
        '\u{0622}' => Some(((0xFE81, 0xFE82), (0, 0), Join::Right)),
        '\u{0623}' => Some(((0xFE83, 0xFE84), (0, 0), Join::Right)),
        '\u{0624}' => Some(((0xFE85, 0xFE86), (0, 0), Join::Right)),
        '\u{0625}' => Some(((0xFE87, 0xFE88), (0, 0), Join::Right)),
        '\u{0626}' => Some(((0xFE89, 0xFE8A), (0xFE8B, 0xFE8C), Join::Dual)),
        '\u{0627}' => Some(((0xFE8D, 0xFE8E), (0, 0), Join::Right)),
        '\u{0628}' => Some(((0xFE8F, 0xFE90), (0xFE91, 0xFE92), Join::Dual)),
        '\u{0629}' => Some(((0xFE93, 0xFE94), (0, 0), Join::Right)),
        '\u{062A}' => Some(((0xFE95, 0xFE96), (0xFE97, 0xFE98), Join::Dual)),
        '\u{062B}' => Some(((0xFE99, 0xFE9A), (0xFE9B, 0xFE9C), Join::Dual)),
        '\u{062C}' => Some(((0xFE9D, 0xFE9E), (0xFE9F, 0xFEA0), Join::Dual)),
        '\u{062D}' => Some(((0xFEA1, 0xFEA2), (0xFEA3, 0xFEA4), Join::Dual)),
        '\u{062E}' => Some(((0xFEA5, 0xFEA6), (0xFEA7, 0xFEA8), Join::Dual)),
        '\u{062F}' => Some(((0xFEA9, 0xFEAA), (0, 0), Join::Right)),
        '\u{0630}' => Some(((0xFEAB, 0xFEAC), (0, 0), Join::Right)),
        '\u{0631}' => Some(((0xFEAD, 0xFEAE), (0, 0), Join::Right)),
        '\u{0632}' => Some(((0xFEAF, 0xFEB0), (0, 0), Join::Right)),
        '\u{0633}' => Some(((0xFEB1, 0xFEB2), (0xFEB3, 0xFEB4), Join::Dual)),
        '\u{0634}' => Some(((0xFEB5, 0xFEB6), (0xFEB7, 0xFEB8), Join::Dual)),
        '\u{0635}' => Some(((0xFEB9, 0xFEBA), (0xFEBB, 0xFEBC), Join::Dual)),
        '\u{0636}' => Some(((0xFEBD, 0xFEBE), (0xFEBF, 0xFEC0), Join::Dual)),
        '\u{0637}' => Some(((0xFEC1, 0xFEC2), (0xFEC3, 0xFEC4), Join::Dual)),
        '\u{0638}' => Some(((0xFEC5, 0xFEC6), (0xFEC7, 0xFEC8), Join::Dual)),
        '\u{0639}' => Some(((0xFEC9, 0xFECA), (0xFECB, 0xFECC), Join::Dual)),
        '\u{063A}' => Some(((0xFECD, 0xFECE), (0xFECF, 0xFED0), Join::Dual)),
        '\u{0640}' => Some(((0x0640, 0x0640), (0x0640, 0x0640), Join::Dual)),
        '\u{0641}' => Some(((0xFED1, 0xFED2), (0xFED3, 0xFED4), Join::Dual)),
        '\u{0642}' => Some(((0xFED5, 0xFED6), (0xFED7, 0xFED8), Join::Dual)),
        '\u{0643}' => Some(((0xFED9, 0xFEDA), (0xFEDB, 0xFEDC), Join::Dual)),
        '\u{0644}' => Some(((0xFEDD, 0xFEDE), (0xFEDF, 0xFEE0), Join::Dual)),
        '\u{0645}' => Some(((0xFEE1, 0xFEE2), (0xFEE3, 0xFEE4), Join::Dual)),
        '\u{0646}' => Some(((0xFEE5, 0xFEE6), (0xFEE7, 0xFEE8), Join::Dual)),
        '\u{0647}' => Some(((0xFEE9, 0xFEEA), (0xFEEB, 0xFEEC), Join::Dual)),
        '\u{0648}' => Some(((0xFEED, 0xFEEE), (0, 0), Join::Right)),
        '\u{0649}' => Some(((0xFEEF, 0xFEF0), (0, 0), Join::Right)),
        '\u{064A}' => Some(((0xFEF1, 0xFEF2), (0xFEF3, 0xFEF4), Join::Dual)),
        _ => None,
    }
}

/// Combining marks (harakat and Quranic annotation signs) that do not take
/// part in joining.
pub open spec fn spec_is_transparent(c: char) -> bool {
    (0x064B <= c as u32 <= 0x065F) || c as u32 == 0x0670 || (0x06D6 <= c as u32 <= 0x06ED)
}

pub fn is_transparent(c: char) -> (r: bool)
    ensures
        r == spec_is_transparent(c),
{
    let u = c as u32;
    (0x064B <= u && u <= 0x065F) || u == 0x0670 || (0x06D6 <= u && u <= 0x06ED)
}

/// Base letters of the Arabic block, U+0621..U+064A.
pub open spec fn spec_is_arabic_base(c: char) -> bool {
    0x0621 <= c as u32 <= 0x064A
}

pub fn is_arabic_base(c: char) -> (r: bool)
    ensures
        r == spec_is_arabic_base(c),
{
    let u = c as u32;
    0x0621 <= u && u <= 0x064A
}

/// Lam-Alef ligature (isolated, final) for the alef variants madda,
/// hamza-above, hamza-below and plain alef.
pub open spec fn spec_lam_alef(alef: char) -> Option<(u32, u32)> {
    match alef {
        '\u{0622}' => Some((0xFEF5u32, 0xFEF6u32)),
        '\u{0623}' => Some((0xFEF7u32, 0xFEF8u32)),
        '\u{0625}' => Some((0xFEF9u32, 0xFEFAu32)),
        '\u{0627}' => Some((0xFEFBu32, 0xFEFCu32)),
        _ => None,
    }
}

pub fn lam_alef(alef: char) -> (r: Option<(u32, u32)>)
    ensures
        r == spec_lam_alef(alef),
{
    match alef {
        '\u{0622}' => Some((0xFEF5, 0xFEF6)),
        '\u{0623}' => Some((0xFEF7, 0xFEF8)),
        '\u{0625}' => Some((0xFEF9, 0xFEFA)),
        '\u{0627}' => Some((0xFEFB, 0xFEFC)),
        _ => None,
    }
}


// ------------------------------------------------------------------ outside calls

/// ASCII letters and digits.
pub open spec fn is_ascii_alnum(c: char) -> bool {
    let u = c as u32;
    (0x30 <= u <= 0x39) || (0x41 <= u <= 0x5A) || (0x61 <= u <= 0x7A)
}

/// Unicode `Alphabetic` or `Numeric` for a character outside ASCII (std's
/// `char::is_alphanumeric`); the answer depends only on the character and
/// the Unicode tables of std.
pub uninterp spec fn non_ascii_alphanumeric(c: char) -> bool;

/// std's `char::is_alphanumeric`: within ASCII exactly the letters and
/// digits, elsewhere `non_ascii_alphanumeric`.
pub open spec fn spec_is_alphanumeric(c: char) -> bool {
    if (c as u32) < 0x80 {
        is_ascii_alnum(c)
    } else {
        non_ascii_alphanumeric(c)
    }
}

/// std's `char::is_alphanumeric` (Unicode `Alphabetic` or `Numeric`): within
/// ASCII these are exactly the letters and digits; for other characters the
/// result is the named `non_ascii_alphanumeric`, which is not stated.
#[verifier::external_body]
fn is_alphanumeric(c: char) -> (r: bool)
    ensures
        (c as u32) < 0x80 ==> r == is_ascii_alnum(c),
        (c as u32) >= 0x80 ==> r == non_ascii_alphanumeric(c),
{
    c.is_alphanumeric()
}

/// A Unicode scalar value: not a surrogate, at most U+10FFFF.
pub open spec fn is_scalar(code: u32) -> bool {
    code < 0xD800 || (0xE000 <= code && code <= 0x10FFFF)
}

/// std's `char::from_u32`: `Some` of the character with that code exactly
/// when the code is a Unicode scalar value, as its documentation says.
#[verifier::external_body]
fn char_from_u32(code: u32) -> (r: Option<char>)
    ensures
        r == (if is_scalar(code) { Some(code as char) } else { None::<char> }),
{
    char::from_u32(code)
}

// ------------------------------------------------------------------ classes

/// Bidi class used by the reordering pass.
#[derive(Clone, Copy, PartialEq, Eq, Structural, Debug)]
pub enum Cls {
    R,
    L,
    N,
}

pub open spec fn spec_classify(c: char) -> Cls {
    if spec_is_arabic_base(c) || (0xFE70 <= c as u32 <= 0xFEFF) || (0xFB50 <= c as u32 <= 0xFDFF)
        || spec_is_transparent(c) {
        Cls::R
    } else if spec_is_alphanumeric(c) {
        Cls::L
    } else {
        Cls::N
    }
}

pub fn classify(c: char) -> (r: Cls)
    ensures
        r == spec_classify(c),
{
    let u = c as u32;
    if is_arabic_base(c) || (0xFE70 <= u && u <= 0xFEFF) || (0xFB50 <= u && u <= 0xFDFF)
        || is_transparent(c) {
        Cls::R
    } else if is_alphanumeric(c) {
        Cls::L
    } else {
        Cls::N
    }
}

// ------------------------------------------------------------------ contextual pass

pub open spec fn lam() -> char {
    '\u{0644}'
}

/// The character with code `code`, or `default` when it is not a scalar value.
pub open spec fn code_char(code: u32, default: char) -> char {
    if is_scalar(code) {
        code as char
    } else {
        default
    }
}

/// Whether a letter connects to the letter after it: only dual-joining
/// letters do.
pub open spec fn joins_forward(c: char) -> bool {
    spec_forms(c) matches Some((_, _, Join::Dual))
}

/// Index of the nearest character before `k` that is not a transparent
/// mark, or -1 when there is none.
pub open spec fn prev_nontransparent(s: Seq<char>, k: int) -> int
    decreases k,
{
    if k <= 0 || k > s.len() {
        -1
    } else if spec_is_transparent(s[k - 1]) {
        prev_nontransparent(s, k - 1)
    } else {
        k - 1
    }
}

/// Whether the letter at `i` is joined from the right: the nearest source
/// character before it that is not a transparent mark is a letter that
/// connects forward.
pub open spec fn prev_joins(s: Seq<char>, i: int) -> bool {
    let p = prev_nontransparent(s, i);
    p >= 0 && joins_forward(s[p])
}

/// First index at or after `k` that does not hold a transparent mark.
pub open spec fn skip_transparent(s: Seq<char>, k: int) -> int
    decreases s.len() - k,
{
    if 0 <= k < s.len() && spec_is_transparent(s[k]) {
        skip_transparent(s, k + 1)
    } else {
        k
    }
}

/// Whether the letter at `i` (with forms `f`) connects to the next letter
/// that is not a transparent mark.
pub open spec fn next_joins(s: Seq<char>, i: int, f: Forms) -> bool {
    let k = skip_transparent(s, i + 1);
    f.2 == Join::Dual && k < s.len() && (spec_forms(s[k]) matches Some((_, _, j)) && (j
        == Join::Dual || j == Join::Right))
}

/// The presentation form chosen for a letter from its two join flags (the
/// table gives hamza no final form: its code there is 0).
pub open spec fn pick_form(f: Forms, prev: bool, next: bool) -> u32 {
    if prev && next {
        f.1.1
    } else if prev {
        f.0.1
    } else if next {
        f.1.0
    } else {
        f.0.0
    }
}

/// The contextual (logical order) pass over `s` from index `i`, having
/// already emitted `out`: transparent marks are dropped, characters other
/// than base letters are kept, Lam followed by an Alef variant becomes one
/// ligature (final when the source letter before it joins forward), and
/// each other letter takes the form chosen by whether the source letter
/// before it joins forward and whether it joins the letter after it (marks
/// skipped on both sides).
pub open spec fn contextual_from(s: Seq<char>, i: int, out: Seq<char>) -> Seq<char>
    decreases s.len() - i,
{
    if i < 0 || i >= s.len() {
        out
    } else {
        let c = s[i];
        if spec_is_transparent(c) {
            contextual_from(s, i + 1, out)
        } else if !spec_is_arabic_base(c) {
            contextual_from(s, i + 1, out.push(c))
        } else if c == lam() && i + 1 < s.len() && spec_lam_alef(s[i + 1]) is Some {
            let lig = spec_lam_alef(s[i + 1]).unwrap();
            let code = if prev_joins(s, i) {
                lig.1
            } else {
                lig.0
            };
            contextual_from(s, i + 2, out.push(code_char(code, ' ')))
        } else {
            match spec_forms(c) {
                None => contextual_from(s, i + 1, out.push(c)),
                Some(f) => {
                    let code = pick_form(f, prev_joins(s, i), next_joins(s, i, f));
                    contextual_from(s, i + 1, out.push(code_char(code, '\u{FFFD}')))
                },
            }
        }
    }
}

/// Contextual shaping of `s` in logical order.
pub open spec fn contextual(s: Seq<char>) -> Seq<char> {
    contextual_from(s, 0, Seq::empty())
}

// ------------------------------------------------------------------ reordering pass

/// A directional run: `true` for right-to-left, with its characters.
pub type Run = (bool, Seq<char>);

/// Splits `s` into its leading neutral characters and its directional runs:
/// each strong character extends the last run when that run has its
/// direction and starts a new run otherwise; a neutral character joins the
/// last run, or the lead while there is no run yet.
pub open spec fn bidi_runs(s: Seq<char>) -> (Seq<char>, Seq<Run>)
    decreases s.len(),
{
    if s.len() == 0 {
        (Seq::empty(), Seq::empty())
    } else {
        let (lead, runs) = bidi_runs(s.drop_last());
        let c = s.last();
        let k = spec_classify(c);
        if runs.len() > 0 && (k == Cls::N || runs.last().0 == (k == Cls::R)) {
            (lead, runs.update(runs.len() - 1, (runs.last().0, runs.last().1.push(c))))
        } else if k == Cls::N {
            (lead.push(c), runs)
        } else {
            (lead, runs.push((k == Cls::R, seq![c])))
        }
    }
}

/// A run as painted: right-to-left runs reversed.
pub open spec fn run_text(r: Run) -> Seq<char> {
    if r.0 {
        r.1.reverse()
    } else {
        r.1
    }
}

/// The runs painted in reverse order (the last run comes first).
pub open spec fn render_runs(runs: Seq<Run>) -> Seq<char>
    decreases runs.len(),
{
    if runs.len() == 0 {
        Seq::empty()
    } else {
        render_runs(runs.drop_first()) + run_text(runs[0])
    }
}

/// The simplified bidi reordering: the lead, then the runs in reverse order,
/// characters of right-to-left runs reversed.
pub open spec fn visual_order(s: Seq<char>) -> Seq<char> {
    let (lead, runs) = bidi_runs(s);
    lead + render_runs(runs)
}

/// What `shape` returns for the characters `s`.
pub open spec fn spec_shape(s: Seq<char>) -> Seq<char> {
    visual_order(contextual(s))
}

// ------------------------------------------------------------------ executable passes

/// Whether `c` connects to the letter after it.
fn dual_joining(c: char) -> (r: bool)
    ensures
        r == joins_forward(c),
{
    match forms(c) {
        Some((_, _, Join::Dual)) => true,
        _ => false,
    }
}

/// The contextual pass over `chars`.
fn contextual_pass(chars: &Vec<char>) -> (r: Vec<char>)
    ensures
        r@ == contextual(chars@),
{
    let n = chars.len();
    let mut shaped: Vec<char> = Vec::new();
    let mut i: usize = 0;
    // whether the previous source letter (marks skipped) connects forward
    let mut prev_join = false;
    while i < n
        invariant
            n == chars.len(),
            i <= n,
            contextual(chars@) == contextual_from(chars@, i as int, shaped@),
            prev_join == prev_joins(chars@, i as int),
        decreases n - i,
    {
        let c = chars[i];
        if is_transparent(c) {
            i += 1;
            continue;
        }
        let c_joins = dual_joining(c);
        if !is_arabic_base(c) {
            shaped.push(c);
            i += 1;
            prev_join = c_joins;
            continue;
        }
        // lam-alef ligature
        if c == '\u{0644}' && i + 1 < n {
            if let Some((iso, fin)) = lam_alef(chars[i + 1]) {
                let code = if prev_join { fin } else { iso };
                shaped.push(char_from_u32(code).unwrap_or(' '));
                prev_join = dual_joining(chars[i + 1]);
                i += 2;
                continue;
            }
        }
        let mut k = i + 1;
        while k < n && is_transparent(chars[k])
            invariant
                n == chars.len(),
                i < n,
                i + 1 <= k <= n,
                skip_transparent(chars@, i + 1) == skip_transparent(chars@, k as int),
            decreases n - k,
        {
            k += 1;
        }
        let f = forms(c);
        match f {
            None => {
                shaped.push(c);
                i += 1;
                prev_join = c_joins;
            },
            Some(((iso, fin), (ini, med), j)) => {
                // only dual-joining letters connect forward
                let own_dual = match j {
                    Join::Dual => true,
                    _ => false,
                };
                let next_join = own_dual && k < n && match forms(chars[k]) {
                    Some((_, _, Join::Dual)) => true,
                    Some((_, _, Join::Right)) => true,
                    _ => false,
                };
                let code = if prev_join && next_join {
                    med
                } else if prev_join {
                    fin
                } else if next_join {
                    ini
                } else {
                    iso
                };
                shaped.push(char_from_u32(code).unwrap_or('\u{FFFD}'));
                i += 1;
                prev_join = c_joins;
            },
        }
    }
    shaped
}

/// The runs held by the parallel vectors of directions and characters.
pub open spec fn runs_view(kinds: Seq<bool>, texts: Seq<Vec<char>>) -> Seq<Run> {
    Seq::new(kinds.len(), |j: int| (kinds[j], texts[j]@))
}

/// The reordering pass over the shaped characters.
fn reorder_pass(shaped: &Vec<char>) -> (r: Vec<char>)
    ensures
        r@ == visual_order(shaped@),
{
    let n = shaped.len();
    let mut lead: Vec<char> = Vec::new();
    let mut kinds: Vec<bool> = Vec::new();
    let mut texts: Vec<Vec<char>> = Vec::new();
    let mut i: usize = 0;
    while i < n
        invariant
            n == shaped.len(),
            i <= n,
            kinds.len() == texts.len(),
            bidi_runs(shaped@.take(i as int)) == (lead@, runs_view(kinds@, texts@)),
        decreases n - i,
    {
        let c = shaped[i];
        let k = classify(c);
        let ghost old_runs = runs_view(kinds@, texts@);
        let ghost old_lead = lead@;
        proof {
            assert(shaped@.take(i + 1).drop_last() =~= shaped@.take(i as int));
            assert(shaped@.take(i + 1).last() == c);
        }
        let nk = kinds.len();
        let extend = nk > 0 && match k {
            Cls::N => true,
            Cls::R => kinds[nk - 1],
            Cls::L => !kinds[nk - 1],
        };
        if extend {
            let mut last = texts.pop().unwrap();
            last.push(c);
            texts.push(last);
            proof {
                assert(runs_view(kinds@, texts@) =~= old_runs.update(
                    old_runs.len() - 1,
                    (old_runs.last().0, old_runs.last().1.push(c)),
                ));
            }
        } else {
            match k {
                Cls::N => {
                    lead.push(c);
                },
                Cls::R => {
                    kinds.push(true);
                    let mut t: Vec<char> = Vec::new();
                    t.push(c);
                    texts.push(t);
                    proof {
                        assert(runs_view(kinds@, texts@) =~= old_runs.push((true, seq![c])));
                    }
                },
                Cls::L => {
                    kinds.push(false);
                    let mut t: Vec<char> = Vec::new();
                    t.push(c);
                    texts.push(t);
                    proof {
                        assert(runs_view(kinds@, texts@) =~= old_runs.push((false, seq![c])));
                    }
                },
            }
        }
        i += 1;
    }
    proof {
        assert(shaped@.take(n as int) =~= shaped@);
    }
    let ghost runs = runs_view(kinds@, texts@);
    let mut out: Vec<char> = lead;
    let mut j: usize = kinds.len();
    while j > 0
        invariant
            kinds.len() == texts.len(),
            runs == runs_view(kinds@, texts@),
            j <= kinds.len(),
            out@ == bidi_runs(shaped@).0 + render_runs(runs.subrange(j as int, runs.len() as int)),
        decreases j,
    {
        let t = &texts[j - 1];
        let m = t.len();
        let ghost before = out@;
        if kinds[j - 1] {
            let mut q: usize = m;
            while q > 0
                invariant
                    q <= m,
                    m == t.len(),
                    out@ == before + t@.reverse().take((m - q) as int),
                decreases q,
            {
                out.push(t[q - 1]);
                proof {
                    assert(before + t@.reverse().take((m - q + 1) as int) =~= (before
                        + t@.reverse().take((m - q) as int)).push(t@[q - 1]));
                }
                q -= 1;
            }
            proof {
                assert(t@.reverse().take(m as int) =~= t@.reverse());
            }
        } else {
            let mut q: usize = 0;
            while q < m
                invariant
                    q <= m,
                    m == t.len(),
                    out@ == before + t@.take(q as int),
                decreases m - q,
            {
                out.push(t[q]);
                proof {
                    assert(before + t@.take(q + 1) =~= (before + t@.take(q as int)).push(t@[q as int]));
                }
                q += 1;
            }
            proof {
                assert(t@.take(m as int) =~= t@);
            }
        }
        proof {
            let sub = runs.subrange(j - 1, runs.len() as int);
            assert(sub.drop_first() =~= runs.subrange(j as int, runs.len() as int));
            assert(sub[0] == runs[j - 1]);
            assert(out@ =~= bidi_runs(shaped@).0 + render_runs(sub));
        }
        j -= 1;
    }
    proof {
        assert(runs.subrange(0, runs.len() as int) =~= runs);
    }
    out
}

// ------------------------------------------------------------------ public API

/// Shape a logical-order Arabic/Latin mixed string into a visual-order string
/// of presentation forms that a left-to-right painter shows correctly.
pub fn shape(input: &str) -> (r: String)
    ensures
        r@ == spec_shape(input@),
{
    let chars = chars_of(input);
    let shaped = contextual_pass(&chars);
    let visual = reorder_pass(&shaped);
    crate::text::string_of(&visual)
}

/// Whether `s` holds an Arabic base letter.
pub open spec fn has_arabic(s: Seq<char>) -> bool {
    exists|i: int| 0 <= i < s.len() && spec_is_arabic_base(#[trigger] s[i])
}

/// Shape only if the string contains Arabic letters; otherwise pass through.
pub fn shape_if_arabic(s: &str) -> (r: String)
    ensures
        r@ == (if has_arabic(s@) {
            spec_shape(s@)
        } else {
            s@
        }),
{
    let chars = chars_of(s);
    let mut any = false;
    let mut i: usize = 0;
    while i < chars.len()
        invariant
            i <= chars.len(),
            chars@ == s@,
            any <==> exists|j: int| 0 <= j < i && spec_is_arabic_base(#[trigger] chars@[j]),
        decreases chars.len() - i,
    {
        if is_arabic_base(chars[i]) {
            any = true;
        }
        i += 1;
    }
    if any {
        shape(s)
    } else {
        crate::text::string_of(&chars)
    }
}

/// Whether `c` is an Arabic base letter (U+0621..U+064A).
pub fn is_arabic(c: char) -> (r: bool)
    ensures
        r == spec_is_arabic_base(c),
{
    is_arabic_base(c)
}

// ------------------------------------------------------------------ laws

/// Multiset of all characters held by `runs`.
pub open spec fn runs_chars(runs: Seq<Run>) -> Multiset<char>
    decreases runs.len(),
{
    if runs.len() == 0 {
        Multiset::empty()
    } else {
        runs_chars(runs.drop_last()).add(runs.last().1.to_multiset())
    }
}

proof fn lemma_reverse_same_chars(t: Seq<char>)
    ensures
        t.reverse().to_multiset() =~= t.to_multiset(),
    decreases t.len(),
{
    broadcast use vstd::seq_lib::group_to_multiset_ensures;
    broadcast use vstd::multiset::group_multiset_axioms;
    broadcast use vstd::seq_lib::lemma_multiset_commutative;

    if t.len() > 0 {
        lemma_reverse_same_chars(t.drop_last());
        assert(t.reverse() =~= seq![t.last()] + t.drop_last().reverse());
        assert(t =~= t.drop_last().push(t.last()));
        assert(seq![t.last()] =~= Seq::<char>::empty().push(t.last()));
    }
}

proof fn lemma_runs_chars_first(runs: Seq<Run>)
    requires
        runs.len() > 0,
    ensures
        runs_chars(runs) =~= runs_chars(runs.drop_first()).add(runs[0].1.to_multiset()),
    decreases runs.len(),
{
    broadcast use vstd::multiset::group_multiset_axioms;

    if runs.len() > 1 {
        lemma_runs_chars_first(runs.drop_last());
        assert(runs.drop_last().drop_first() =~= runs.drop_first().drop_last());
    } else {
        assert(runs.drop_last() =~= Seq::<Run>::empty());
        assert(runs.drop_first() =~= Seq::<Run>::empty());
    }
}

proof fn lemma_render_chars(runs: Seq<Run>)
    ensures
        render_runs(runs).to_multiset() =~= runs_chars(runs),
    decreases runs.len(),
{
    broadcast use vstd::seq_lib::group_to_multiset_ensures;
    broadcast use vstd::multiset::group_multiset_axioms;
    broadcast use vstd::seq_lib::lemma_multiset_commutative;

    if runs.len() > 0 {
        lemma_render_chars(runs.drop_first());
        lemma_runs_chars_first(runs);
        lemma_reverse_same_chars(runs[0].1);
    }
}

proof fn lemma_bidi_runs_chars(s: Seq<char>)
    ensures
        bidi_runs(s).0.to_multiset().add(runs_chars(bidi_runs(s).1)) =~= s.to_multiset(),
    decreases s.len(),
{
    broadcast use vstd::seq_lib::group_to_multiset_ensures;
    broadcast use vstd::multiset::group_multiset_axioms;

    if s.len() > 0 {
        lemma_bidi_runs_chars(s.drop_last());
        assert(s =~= s.drop_last().push(s.last()));
        let (lead, runs) = bidi_runs(s.drop_last());
        let c = s.last();
        if runs.len() > 0 {
            let u = runs.update(runs.len() - 1, (runs.last().0, runs.last().1.push(c)));
            assert(u.drop_last() =~= runs.drop_last());
            let p = runs.push((spec_classify(c) == Cls::R, seq![c]));
            assert(p.drop_last() =~= runs);
            assert(seq![c] =~= Seq::<char>::empty().push(c));
        } else {
            let p = runs.push((spec_classify(c) == Cls::R, seq![c]));
            assert(p.drop_last() =~= runs);
            assert(seq![c] =~= Seq::<char>::empty().push(c));
        }
    }
}

/// The reordering pass only reorders: the visual string holds exactly the
/// characters of its input, each as many times.
pub proof fn lemma_visual_order_permutes(s: Seq<char>)
    ensures
        visual_order(s).to_multiset() =~= s.to_multiset(),
{
    broadcast use vstd::seq_lib::lemma_multiset_commutative;

    lemma_bidi_runs_chars(s);
    lemma_render_chars(bidi_runs(s).1);
}

proof fn lemma_bidi_runs_no_rtl(s: Seq<char>)
    requires
        forall|i: int| 0 <= i < s.len() ==> spec_classify(#[trigger] s[i]) != Cls::R,
    ensures
        bidi_runs(s).1.len() <= 1,
        bidi_runs(s).1.len() == 0 ==> bidi_runs(s).0 == s,
        bidi_runs(s).1.len() == 1 ==> !bidi_runs(s).1[0].0 && bidi_runs(s).0 + bidi_runs(s).1[0].1
            == s,
    decreases s.len(),
{
    if s.len() > 0 {
        assert(spec_classify(s[s.len() - 1]) != Cls::R);
        lemma_bidi_runs_no_rtl(s.drop_last());
        let (lead, runs) = bidi_runs(s.drop_last());
        let c = s.last();
        if runs.len() == 1 {
            assert(lead + runs[0].1.push(c) =~= (lead + runs[0].1).push(c));
            assert(s.drop_last().push(c) =~= s);
        } else if spec_classify(c) == Cls::N {
            assert(lead.push(c) =~= s);
        } else {
            assert(lead + seq![c] =~= s);
        }
    }
}

proof fn lemma_bidi_runs_all_rtl(s: Seq<char>)
    requires
        forall|i: int| 0 <= i < s.len() ==> spec_classify(#[trigger] s[i]) == Cls::R,
    ensures
        bidi_runs(s).0 == Seq::<char>::empty(),
        s.len() == 0 ==> bidi_runs(s).1 == Seq::<Run>::empty(),
        s.len() > 0 ==> bidi_runs(s).1 == seq![(true, s)],
    decreases s.len(),
{
    if s.len() > 0 {
        assert(spec_classify(s[s.len() - 1]) == Cls::R);
        lemma_bidi_runs_all_rtl(s.drop_last());
        let (lead, runs) = bidi_runs(s.drop_last());
        let c = s.last();
        if s.len() > 1 {
            assert(s.drop_last().push(c) =~= s);
            assert(runs.update(0, (true, s.drop_last().push(c))) =~= seq![(true, s)]);
        } else {
            assert(seq![c] =~= s);
            assert(runs.push((true, seq![c])) =~= seq![(true, s)]);
        }
    }
}

/// A string without right-to-left characters keeps its order.
pub proof fn lemma_visual_order_ltr_unchanged(s: Seq<char>)
    requires
        forall|i: int| 0 <= i < s.len() ==> spec_classify(#[trigger] s[i]) != Cls::R,
    ensures
        visual_order(s) == s,
{
    lemma_bidi_runs_no_rtl(s);
    let (lead, runs) = bidi_runs(s);
    if runs.len() == 1 {
        assert(runs.drop_first() =~= Seq::<Run>::empty());
        assert(render_runs(runs.drop_first()) == Seq::<char>::empty());
        assert(render_runs(runs) =~= runs[0].1);
    } else {
        assert(lead + render_runs(runs) =~= lead);
    }
}

/// A string made only of right-to-left characters is painted reversed.
pub proof fn lemma_visual_order_rtl_reversed(s: Seq<char>)
    requires
        forall|i: int| 0 <= i < s.len() ==> spec_classify(#[trigger] s[i]) == Cls::R,
    ensures
        visual_order(s) == s.reverse(),
{
    lemma_bidi_runs_all_rtl(s);
    if s.len() > 0 {
        let runs = seq![(true, s)];
        assert(runs.drop_first() =~= Seq::<Run>::empty());
        assert(render_runs(runs.drop_first()) == Seq::<char>::empty());
        assert(render_runs(runs) =~= s.reverse());
        assert(Seq::<char>::empty() + render_runs(runs) =~= s.reverse());
    } else {
        assert(visual_order(s) =~= s.reverse());
    }
}

proof fn lemma_contextual_from_len(s: Seq<char>, i: int, out: Seq<char>)
    requires
        0 <= i <= s.len(),
    ensures
        contextual_from(s, i, out).len() <= out.len() + s.len() - i,
    decreases s.len() - i,
{
    if i < s.len() {
        let c = s[i];
        if spec_is_transparent(c) {
            lemma_contextual_from_len(s, i + 1, out);
        } else if !spec_is_arabic_base(c) {
            lemma_contextual_from_len(s, i + 1, out.push(c));
        } else if c == lam() && i + 1 < s.len() && spec_lam_alef(s[i + 1]) is Some {
            let lig = spec_lam_alef(s[i + 1]).unwrap();
            let code = if prev_joins(s, i) {
                lig.1
            } else {
                lig.0
            };
            lemma_contextual_from_len(s, i + 2, out.push(code_char(code, ' ')));
        } else {
            match spec_forms(c) {
                None => lemma_contextual_from_len(s, i + 1, out.push(c)),
                Some(f) => {
                    let code = pick_form(f, prev_joins(s, i), next_joins(s, i, f));
                    lemma_contextual_from_len(s, i + 1, out.push(code_char(code, '\u{FFFD}')));
                },
            }
        }
    }
}

/// Shaping never makes a string longer.
pub proof fn lemma_shape_not_longer(s: Seq<char>)
    ensures
        spec_shape(s).len() <= s.len(),
{
    broadcast use vstd::seq_lib::group_to_multiset_ensures;

    lemma_contextual_from_len(s, 0, Seq::empty());
    lemma_visual_order_permutes(contextual(s));
    assert(spec_shape(s).to_multiset().len() == contextual(s).to_multiset().len());
}

proof fn lemma_contextual_from_plain(s: Seq<char>, i: int, out: Seq<char>)
    requires
        0 <= i <= s.len(),
        forall|j: int| i <= j < s.len() ==> spec_classify(#[trigger] s[j]) != Cls::R,
    ensures
        contextual_from(s, i, out) == out + s.subrange(i, s.len() as int),
    decreases s.len() - i,
{
    if i < s.len() {
        assert(spec_classify(s[i]) != Cls::R);
        lemma_contextual_from_plain(s, i + 1, out.push(s[i]));
        assert(out.push(s[i]) + s.subrange(i + 1, s.len() as int) =~= out + s.subrange(
            i,
            s.len() as int,
        ));
    } else {
        assert(out + s.subrange(i, s.len() as int) =~= out);
    }
}

/// Text without right-to-left characters (Latin, digits, punctuation) passes
/// through `shape` unchanged.
pub proof fn lemma_shape_ltr_unchanged(s: Seq<char>)
    requires
        forall|i: int| 0 <= i < s.len() ==> spec_classify(#[trigger] s[i]) != Cls::R,
    ensures
        spec_shape(s) == s,
{
    lemma_contextual_from_plain(s, 0, Seq::empty());
    assert(Seq::<char>::empty() + s.subrange(0, s.len() as int) =~= s);
    lemma_visual_order_ltr_unchanged(s);
}

/// A shaped word made only of right-to-left characters comes out reversed.
pub proof fn lemma_shape_rtl_word_reversed(s: Seq<char>)
    requires
        forall|i: int|
            0 <= i < contextual(s).len() ==> spec_classify(#[trigger] contextual(s)[i]) == Cls::R,
    ensures
        spec_shape(s) == contextual(s).reverse(),
{
    lemma_visual_order_rtl_reversed(contextual(s));
}

// ------------------------------------------------------------------ mixed text

proof fn lemma_prev_nontransparent_prefix(a: Seq<char>, t: Seq<char>, k: int)
    requires
        0 <= k <= a.len(),
    ensures
        prev_nontransparent(a + t, k) == prev_nontransparent(a, k),
        -1 <= prev_nontransparent(a, k) < k,
    decreases k,
{
    if k > 0 {
        assert((a + t)[k - 1] == a[k - 1]);
        lemma_prev_nontransparent_prefix(a, t, k - 1);
    }
}

proof fn lemma_skip_transparent_prefix(a: Seq<char>, t: Seq<char>, k: int)
    requires
        0 <= k <= a.len(),
        t.len() > 0,
        !spec_is_transparent(t[0]),
    ensures
        skip_transparent(a + t, k) == skip_transparent(a, k),
        k <= skip_transparent(a, k) <= a.len(),
    decreases a.len() - k,
{
    if k < a.len() {
        assert((a + t)[k] == a[k]);
        lemma_skip_transparent_prefix(a, t, k + 1);
    } else {
        assert((a + t)[k] == t[0]);
    }
}

/// Shaping `a` followed by text that starts with a space only looks at `a`
/// while it shapes `a`.
proof fn lemma_contextual_prefix(a: Seq<char>, t: Seq<char>, i: int, out: Seq<char>)
    requires
        0 <= i <= a.len(),
        t.len() > 0,
        t[0] == ' ',
    ensures
        contextual_from(a + t, i, out) == contextual_from(a + t, a.len() as int, contextual_from(a, i, out)),
    decreases a.len() - i,
{
    let s = a + t;
    if i < a.len() {
        let c = a[i];
        assert(s[i] == c);
        lemma_prev_nontransparent_prefix(a, t, i);
        let p = prev_nontransparent(a, i);
        if p >= 0 {
            assert(s[p] == a[p]);
        }
        assert(prev_joins(s, i) == prev_joins(a, i));
        if spec_is_transparent(c) {
            lemma_contextual_prefix(a, t, i + 1, out);
        } else if !spec_is_arabic_base(c) {
            lemma_contextual_prefix(a, t, i + 1, out.push(c));
        } else if c == lam() && i + 1 < s.len() && spec_lam_alef(s[i + 1]) is Some {
            if i + 1 == a.len() {
                assert(s[i + 1] == t[0]);
            }
            assert(i + 1 < a.len());
            assert(s[i + 1] == a[i + 1]);
            let lig = spec_lam_alef(s[i + 1]).unwrap();
            let code = if prev_joins(s, i) {
                lig.1
            } else {
                lig.0
            };
            lemma_contextual_prefix(a, t, i + 2, out.push(code_char(code, ' ')));
        } else {
            if i + 1 < a.len() {
                assert(s[i + 1] == a[i + 1]);
            }
            match spec_forms(c) {
                None => lemma_contextual_prefix(a, t, i + 1, out.push(c)),
                Some(f) => {
                    lemma_skip_transparent_prefix(a, t, i + 1);
                    let k = skip_transparent(a, i + 1);
                    if k < a.len() {
                        assert(s[k] == a[k]);
                    } else {
                        assert(s[k] == t[0]);
                    }
                    assert(next_joins(s, i, f) == next_joins(a, i, f));
                    let code = pick_form(f, prev_joins(s, i), next_joins(s, i, f));
                    lemma_contextual_prefix(a, t, i + 1, out.push(code_char(code, '\u{FFFD}')));
                },
            }
        }
    }
}

/// The forms of the letters that have them lie in the presentation-form
/// block (tatweel keeps its own code).
proof fn lemma_form_codes(c: char)
    requires
        spec_forms(c) is Some,
    ensures
        ({
            let f = spec_forms(c).unwrap();
            let ok = |x: u32| (0xFE70 <= x <= 0xFEFF) || x == 0x0640;
            &&& ok(f.0.0)
            &&& f.2 != Join::NonJoining ==> ok(f.0.1)
            &&& f.2 == Join::NonJoining ==> f.0.1 == 0 && f.1.0 == 0 && f.1.1 == 0
            &&& f.2 == Join::Dual ==> ok(f.1.0) && ok(f.1.1)
        }),
{
}

proof fn lemma_code_char_not_ltr(code: u32, d: char)
    requires
        (0xFE70 <= code <= 0xFEFF) || code == 0x0640 || code == 0,
    ensures
        spec_classify(code_char(code, d)) != Cls::L,
        code != 0 ==> spec_classify(code_char(code, d)) == Cls::R,
{
    assert(is_scalar(code));
    assert((code as char) as u32 == code);
}

/// Shaping Arabic letters gives no left-to-right character, keeps what was
/// already emitted, adds at least one character while letters are left, and
/// the first one it adds is right-to-left when nothing joins into it.
proof fn lemma_contextual_no_ltr(s: Seq<char>, i: int, out: Seq<char>)
    requires
        0 <= i <= s.len(),
        forall|j: int| 0 <= j < s.len() ==> spec_is_arabic_base(#[trigger] s[j]),
        forall|j: int| 0 <= j < out.len() ==> spec_classify(#[trigger] out[j]) != Cls::L,
    ensures
        forall|j: int|
            0 <= j < contextual_from(s, i, out).len() ==> spec_classify(
                #[trigger] contextual_from(s, i, out)[j],
            ) != Cls::L,
        contextual_from(s, i, out).len() >= out.len() + (if i < s.len() { 1int } else { 0 }),
        forall|j: int| 0 <= j < out.len() ==> #[trigger] contextual_from(s, i, out)[j] == out[j],
        i < s.len() && !prev_joins(s, i) ==> spec_classify(contextual_from(s, i, out)[out.len() as int])
            == Cls::R,
    decreases s.len() - i,
{
    if i < s.len() {
        let c = s[i];
        assert(spec_is_arabic_base(c));
        assert(!spec_is_transparent(c));
        let o = if c == lam() && i + 1 < s.len() && spec_lam_alef(s[i + 1]) is Some {
            let lig = spec_lam_alef(s[i + 1]).unwrap();
            let code = if prev_joins(s, i) {
                lig.1
            } else {
                lig.0
            };
            lemma_code_char_not_ltr(code, ' ');
            out.push(code_char(code, ' '))
        } else {
            match spec_forms(c) {
                None => out.push(c),
                Some(f) => {
                    lemma_form_codes(c);
                    let code = pick_form(f, prev_joins(s, i), next_joins(s, i, f));
                    lemma_code_char_not_ltr(code, '\u{FFFD}');
                    out.push(code_char(code, '\u{FFFD}'))
                },
            }
        };
        assert forall|j: int| 0 <= j < o.len() implies spec_classify(#[trigger] o[j]) != Cls::L by {
            if j < out.len() {
                assert(o[j] == out[j]);
            }
        }
        let next_i = if c == lam() && i + 1 < s.len() && spec_lam_alef(s[i + 1]) is Some {
            i + 2
        } else {
            i + 1
        };
        lemma_contextual_no_ltr(s, next_i, o);
        assert(contextual_from(s, i, out) == contextual_from(s, next_i, o));
        let r = contextual_from(s, i, out);
        assert forall|j: int| 0 <= j < out.len() implies #[trigger] r[j] == out[j] by {
            assert(r[j] == o[j]);
        }
        assert(r[out.len() as int] == o[out.len() as int]);
    }
}

proof fn lemma_bidi_runs_rtl_lead(s: Seq<char>)
    requires
        s.len() > 0,
        spec_classify(s[0]) == Cls::R,
        forall|i: int| 0 <= i < s.len() ==> spec_classify(#[trigger] s[i]) != Cls::L,
    ensures
        bidi_runs(s) == (Seq::<char>::empty(), seq![(true, s)]),
    decreases s.len(),
{
    let c = s.last();
    assert(spec_classify(s[s.len() - 1]) != Cls::L);
    if s.len() == 1 {
        assert(s.drop_last() =~= Seq::<char>::empty());
        assert(bidi_runs(Seq::<char>::empty()) == (Seq::<char>::empty(), Seq::<Run>::empty()));
        assert(c == s[0]);
        assert(seq![c] =~= s);
        assert(Seq::<Run>::empty().push((true, seq![c])) =~= seq![(true, s)]);
    } else {
        let p = s.drop_last();
        assert(p[0] == s[0]);
        assert forall|i: int| 0 <= i < p.len() implies spec_classify(#[trigger] p[i]) != Cls::L by {
            assert(p[i] == s[i]);
        }
        lemma_bidi_runs_rtl_lead(p);
        assert(p.push(c) =~= s);
        assert(seq![(true, p)].update(0, (true, p.push(c))) =~= seq![(true, s)]);
    }
}

/// A text that starts right to left and has no left-to-right character is
/// painted reversed.
proof fn lemma_visual_order_rtl_lead(s: Seq<char>)
    requires
        s.len() > 0,
        spec_classify(s[0]) == Cls::R,
        forall|i: int| 0 <= i < s.len() ==> spec_classify(#[trigger] s[i]) != Cls::L,
    ensures
        visual_order(s) == s.reverse(),
{
    lemma_bidi_runs_rtl_lead(s);
    let runs = seq![(true, s)];
    assert(runs.drop_first() =~= Seq::<Run>::empty());
    assert(render_runs(runs.drop_first()) == Seq::<char>::empty());
    assert(render_runs(runs) =~= s.reverse());
    assert(Seq::<char>::empty() + render_runs(runs) =~= s.reverse());
}

/// Splitting a right-to-left text, a space and left-to-right characters into
/// runs: the space joins the right-to-left run.
proof fn lemma_bidi_runs_mixed(x: Seq<char>, b: Seq<char>, k: int)
    requires
        x.len() > 0,
        spec_classify(x[0]) == Cls::R,
        forall|i: int| 0 <= i < x.len() ==> spec_classify(#[trigger] x[i]) != Cls::L,
        spec_classify(' ') == Cls::N,
        0 <= k <= b.len(),
        forall|i: int| 0 <= i < b.len() ==> spec_classify(#[trigger] b[i]) == Cls::L,
    ensures
        bidi_runs(x.push(' ') + b.take(k)) == (if k == 0 {
            (Seq::<char>::empty(), seq![(true, x.push(' '))])
        } else {
            (Seq::<char>::empty(), seq![(true, x.push(' ')), (false, b.take(k))])
        }),
    decreases k,
{
    let y = x.push(' ');
    if k == 0 {
        assert(y + b.take(0) =~= y);
        lemma_bidi_runs_rtl_lead(x);
        assert(y.drop_last() =~= x);
        assert(seq![(true, x)].update(0, (true, x.push(' '))) =~= seq![(true, y)]);
    } else {
        lemma_bidi_runs_mixed(x, b, k - 1);
        let s = y + b.take(k);
        assert(s.drop_last() =~= y + b.take(k - 1));
        assert(s.last() == b[k - 1]);
        assert(spec_classify(b[k - 1]) == Cls::L);
        if k == 1 {
            assert(b.take(1) =~= seq![b[0]]);
            assert(seq![(true, y)].push((false, seq![b[0]])) =~= seq![(true, y), (false, b.take(1))]);
        } else {
            let runs = seq![(true, y), (false, b.take(k - 1))];
            assert(b.take(k - 1).push(b[k - 1]) =~= b.take(k));
            assert(runs.update(1, (false, b.take(k - 1).push(b[k - 1]))) =~= seq![(true, y), (false, b.take(k))]);
        }
    }
}

/// On mixed text, an Arabic word followed by a space and a word of ASCII
/// letters and digits, the left-to-right word is painted first, then the
/// space, then the shaped Arabic word (the alphanumeric property is that of
/// std's `char::is_alphanumeric`, on which the direction of a character
/// rests).
#[verifier::spinoff_prover]
#[verifier::rlimit(50)]
pub proof fn lemma_shape_mixed_ltr_first(a: Seq<char>, b: Seq<char>)
    requires
        a.len() > 0,
        forall|i: int| 0 <= i < a.len() ==> spec_is_arabic_base(#[trigger] a[i]),
        b.len() > 0,
        forall|i: int| 0 <= i < b.len() ==> is_ascii_alnum(#[trigger] b[i]),
    ensures
        spec_shape(a + seq![' '] + b) == b + seq![' '] + spec_shape(a),
{
    let t = seq![' '] + b;
    let s = a + t;
    assert(a + seq![' '] + b =~= s);
    lemma_contextual_prefix(a, t, 0, Seq::empty());
    let x = contextual(a);
    assert(forall|j: int| a.len() <= j < s.len() ==> #[trigger] s[j] == t[j - a.len()]);
    assert forall|j: int| a.len() <= j < s.len() implies spec_classify(#[trigger] s[j]) != Cls::R by {
        assert(s[j] == t[j - a.len()]);
        if j > a.len() {
            assert(t[j - a.len()] == b[j - a.len() - 1]);
            assert(is_ascii_alnum(b[j - a.len() - 1]));
        }
    }
    lemma_contextual_from_plain(s, a.len() as int, x);
    assert(s.subrange(a.len() as int, s.len() as int) =~= t);
    lemma_contextual_no_ltr(a, 0, Seq::empty());
    assert(prev_nontransparent(a, 0) == -1);
    assert forall|i: int| 0 <= i < b.len() implies spec_classify(#[trigger] b[i]) == Cls::L by {
        assert(is_ascii_alnum(b[i]));
    }
    assert(x + t =~= x.push(' ') + b.take(b.len() as int));
    lemma_bidi_runs_mixed(x, b, b.len() as int);
    let runs = seq![(true, x.push(' ')), (false, b.take(b.len() as int))];
    assert(b.take(b.len() as int) =~= b);
    assert(runs.drop_first() =~= seq![(false, b)]);
    assert(seq![(false, b)].drop_first() =~= Seq::<Run>::empty());
    assert(render_runs(Seq::<Run>::empty()) == Seq::<char>::empty());
    assert(render_runs(seq![(false, b)]) == render_runs(Seq::<Run>::empty()) + run_text((false, b)));
    assert(Seq::<char>::empty() + b =~= b);
    assert(render_runs(seq![(false, b)]) =~= b);
    lemma_visual_order_rtl_lead(x);
    assert(x.push(' ').reverse() =~= seq![' '] + x.reverse());
    assert(Seq::<char>::empty() + render_runs(runs) =~= b + seq![' '] + x.reverse());
}

// ------------------------------------------------------------------ joining

/// Every character of `s` is a dual-joining letter.
pub open spec fn all_dual(s: Seq<char>) -> bool {
    forall|i: int| 0 <= i < s.len() ==> #[trigger] joins_forward(s[i])
}

/// The form of the letter at `i` in a word of dual-joining letters: joined
/// to the letter before it unless it is the first, and to the letter after
/// it unless it is the last.
pub open spec fn dual_word_form(s: Seq<char>, i: int) -> char {
    code_char(pick_form(spec_forms(s[i]).unwrap(), i > 0, i + 1 < s.len()), '\u{FFFD}')
}

proof fn lemma_dual_word_from(s: Seq<char>, i: int, out: Seq<char>)
    requires
        0 <= i <= s.len(),
        all_dual(s),
    ensures
        contextual_from(s, i, out) == out + Seq::new((s.len() - i) as nat, |j: int| dual_word_form(s, i + j)),
    decreases s.len() - i,
{
    let rest = Seq::new((s.len() - i) as nat, |j: int| dual_word_form(s, i + j));
    if i < s.len() {
        let c = s[i];
        assert(joins_forward(c));
        assert(spec_is_arabic_base(c));
        assert(!spec_is_transparent(c));
        if i + 1 < s.len() {
            assert(joins_forward(s[i + 1]));
            assert(spec_lam_alef(s[i + 1]) is None);
            assert(!spec_is_transparent(s[i + 1]));
        }
        if i > 0 {
            assert(joins_forward(s[i - 1]));
            assert(!spec_is_transparent(s[i - 1]));
            assert(prev_nontransparent(s, i) == i - 1);
        } else {
            assert(prev_nontransparent(s, i) == -1);
        }
        let f = spec_forms(c).unwrap();
        assert(next_joins(s, i, f) == (i + 1 < s.len()));
        assert(prev_joins(s, i) == (i > 0));
        lemma_dual_word_from(s, i + 1, out.push(dual_word_form(s, i)));
        assert(out.push(dual_word_form(s, i)) + Seq::new((s.len() - (i + 1)) as nat, |j: int| dual_word_form(s, i + 1 + j))
            =~= out + rest);
    } else {
        assert(out + rest =~= out);
    }
}

/// A word of dual-joining letters joins throughout: its first letter takes
/// the initial form, its last the final form, the letters between their
/// medial forms (a single letter stays isolated).
pub proof fn lemma_dual_word_joins(s: Seq<char>)
    requires
        all_dual(s),
    ensures
        contextual(s) == Seq::new(s.len(), |i: int| dual_word_form(s, i)),
{
    lemma_dual_word_from(s, 0, Seq::empty());
    assert(Seq::<char>::empty() + Seq::new(s.len(), |j: int| dual_word_form(s, 0 + j)) =~= Seq::new(
        s.len(),
        |i: int| dual_word_form(s, i),
    ));
}

// ------------------------------------------------------------------ joining forward

/// Only a letter that joins from the right can be joined into: when the next
/// character that is not a mark is missing, is not a letter with forms, or is
/// a non-joining letter (hamza), a letter is shaped in its isolated form, or
/// its final form when the letter before it joins forward; never in its
/// initial or medial form.
pub proof fn lemma_no_join_into_non_joining(s: Seq<char>, i: int, out: Seq<char>)
    requires
        0 <= i < s.len(),
        spec_forms(s[i]) is Some,
        ({
            let k = skip_transparent(s, i + 1);
            k >= s.len() || spec_forms(s[k]) is None || spec_forms(s[k]).unwrap().2 == Join::NonJoining
        }),
    ensures
        ({
            let f = spec_forms(s[i]).unwrap();
            let code = if prev_joins(s, i) {
                f.0.1
            } else {
                f.0.0
            };
            contextual_from(s, i, out) == contextual_from(s, i + 1, out.push(code_char(code, '\u{FFFD}')))
        }),
{
    let c = s[i];
    let f = spec_forms(c).unwrap();
    assert(spec_is_arabic_base(c));
    assert(!spec_is_transparent(c));
    let k = skip_transparent(s, i + 1);
    if i + 1 < s.len() && spec_lam_alef(s[i + 1]) is Some {
        let a = s[i + 1];
        assert(!spec_is_transparent(a));
        assert(k == i + 1);
        assert(spec_forms(a).unwrap().2 == Join::Right);
    }
    assert(!next_joins(s, i, f));
}

/// In a word of dual-joining letters the first letter takes its initial
/// form, the letters between their medial forms and the last its final
/// form; a single letter stays isolated.
pub proof fn lemma_dual_word_positions(s: Seq<char>)
    requires
        all_dual(s),
    ensures
        contextual(s).len() == s.len(),
        s.len() == 1 ==> contextual(s)[0] == code_char(spec_forms(s[0]).unwrap().0.0, '\u{FFFD}'),
        s.len() >= 2 ==> contextual(s)[0] == code_char(spec_forms(s[0]).unwrap().1.0, '\u{FFFD}'),
        forall|i: int|
            0 < i < s.len() - 1 ==> #[trigger] contextual(s)[i] == code_char(
                spec_forms(s[i]).unwrap().1.1,
                '\u{FFFD}',
            ),
        s.len() >= 2 ==> contextual(s)[s.len() - 1] == code_char(
            spec_forms(s[s.len() - 1]).unwrap().0.1,
            '\u{FFFD}',
        ),
{
    lemma_dual_word_joins(s);
    assert forall|i: int| 0 < i < s.len() - 1 implies #[trigger] contextual(s)[i] == code_char(
        spec_forms(s[i]).unwrap().1.1,
        '\u{FFFD}',
    ) by {
        assert(contextual(s)[i] == dual_word_form(s, i));
    }
    if s.len() >= 1 {
        assert(contextual(s)[0] == dual_word_form(s, 0));
        assert(contextual(s)[s.len() - 1] == dual_word_form(s, s.len() - 1));
    }
}

/// Lam followed directly by an alef variant is drawn as one lam-alef
/// ligature: its final form when the source letter before the lam joins
/// forward, its isolated form otherwise.
pub proof fn lemma_lam_alef_ligature(s: Seq<char>, i: int, out: Seq<char>)
    requires
        0 <= i,
        i + 1 < s.len(),
        s[i] == '\u{0644}',
        spec_lam_alef(s[i + 1]) is Some,
    ensures
        ({
            let lig = spec_lam_alef(s[i + 1]).unwrap();
            contextual_from(s, i, out) == contextual_from(
                s,
                i + 2,
                out.push(code_char(if prev_joins(s, i) { lig.1 } else { lig.0 }, ' ')),
            )
        }),
{
}

} // verus!
