//! SubRip (.srt) subtitle parsing into cues for title clips.
//!
//! Times are kept as whole milliseconds. A timestamp is `HH:MM:SS,mmm` or
//! `MM:SS,mmm` (`,` or `.` before the fraction); hours and minutes are
//! decimal digit strings, seconds may carry a fraction, of which the first
//! three digits count.

use vstd::prelude::*;
use crate::text::{chars_of, slice_chars, trim, trim_chars};
use vstd::utf8::{decode_utf8, valid_utf8};

verus! {

/// One subtitle cue: (start ms, end ms, text).
pub type Cue = (u64, u64, String);

/// A cue as the specification sees it.
pub type SpecCue = (u64, u64, Seq<char>);

// ------------------------------------------------------------------ tags

/// Scan for markup: the text outside `<...>` and whether a tag is still open.
pub open spec fn tag_scan(s: Seq<char>) -> (Seq<char>, bool)
    decreases s.len(),
{
    if s.len() == 0 {
        (Seq::empty(), false)
    } else {
        let (out, in_tag) = tag_scan(s.drop_last());
        let c = s.last();
        if c == '<' {
            (out, true)
        } else if c == '>' {
            (out, false)
        } else if !in_tag {
            (out.push(c), in_tag)
        } else {
            (out, in_tag)
        }
    }
}

/// Text with trivial HTML tags removed, trimmed.
pub open spec fn spec_strip_tags(s: Seq<char>) -> Seq<char> {
    trim(tag_scan(s).0)
}

proof fn lemma_tag_scan_no_brackets(s: Seq<char>)
    ensures
        !tag_scan(s).0.contains('<'),
        !tag_scan(s).0.contains('>'),
    decreases s.len(),
{
    if s.len() > 0 {
        lemma_tag_scan_no_brackets(s.drop_last());
        let (out, in_tag) = tag_scan(s.drop_last());
        let c = s.last();
        if c != '<' && c != '>' && !in_tag {
            assert forall|k: int| 0 <= k < out.len() + 1 implies out.push(c)[k] != '<' && out.push(c)[k]
                != '>' by {
                if k < out.len() {
                    assert(out.push(c)[k] == out[k]);
                }
            }
        }
    }
}

/// Stripped text never holds a tag bracket and is already trimmed.
pub proof fn lemma_strip_tags_no_brackets(s: Seq<char>)
    ensures
        !spec_strip_tags(s).contains('<'),
        !spec_strip_tags(s).contains('>'),
        trim(spec_strip_tags(s)) == spec_strip_tags(s),
{
    crate::text::lemma_trim_idempotent(tag_scan(s).0);
    lemma_tag_scan_no_brackets(s);
    crate::text::lemma_trim_keeps_chars(tag_scan(s).0, '<');
    crate::text::lemma_trim_keeps_chars(tag_scan(s).0, '>');
}

/// Removes `<...>` markup and surrounding white space.
pub fn strip_tags(s: &Vec<char>) -> (r: Vec<char>)
    ensures
        r@ == spec_strip_tags(s@),
        !r@.contains('<'),
        !r@.contains('>'),
{
    proof {
        lemma_strip_tags_no_brackets(s@);
    }
    let mut out: Vec<char> = Vec::new();
    let mut in_tag = false;
    let mut i: usize = 0;
    while i < s.len()
        invariant
            i <= s.len(),
            tag_scan(s@.take(i as int)) == (out@, in_tag),
        decreases s.len() - i,
    {
        let ch = s[i];
        assert(s@.take(i + 1).drop_last() =~= s@.take(i as int));
        if ch == '<' {
            in_tag = true;
        } else if ch == '>' {
            in_tag = false;
        } else if !in_tag {
            out.push(ch);
        }
        i += 1;
    }
    assert(s@.take(s.len() as int) =~= s@);
    trim_chars(&out)
}

// ------------------------------------------------------------------ splitting

/// The pieces of `s` between occurrences of `sep` (at least one piece).
pub open spec fn split_on(s: Seq<char>, sep: char) -> Seq<Seq<char>>
    decreases s.len(),
{
    if s.len() == 0 {
        seq![Seq::empty()]
    } else {
        let p = split_on(s.drop_last(), sep);
        if s.last() == sep {
            p.push(Seq::empty())
        } else {
            p.update(p.len() - 1, p.last().push(s.last()))
        }
    }
}

pub proof fn lemma_split_on_nonempty(s: Seq<char>, sep: char)
    ensures
        split_on(s, sep).len() >= 1,
    decreases s.len(),
{
    if s.len() > 0 {
        lemma_split_on_nonempty(s.drop_last(), sep);
    }
}

/// Splits the characters of `s` at each `sep`.
pub fn split_chars(s: &Vec<char>, sep: char) -> (r: Vec<Vec<char>>)
    ensures
        r@.map_values(|v: Vec<char>| v@) == split_on(s@, sep),
{
    let mut done: Vec<Vec<char>> = Vec::new();
    let mut cur: Vec<char> = Vec::new();
    let mut i: usize = 0;
    while i < s.len()
        invariant
            i <= s.len(),
            done@.map_values(|v: Vec<char>| v@).push(cur@) == split_on(s@.take(i as int), sep),
        decreases s.len() - i,
    {
        let c = s[i];
        let ghost before = done@.map_values(|v: Vec<char>| v@).push(cur@);
        assert(s@.take(i + 1).drop_last() =~= s@.take(i as int));
        proof {
            lemma_split_on_nonempty(s@.take(i as int), sep);
        }
        if c == sep {
            let piece = cur;
            cur = Vec::new();
            done.push(piece);
            assert(done@.map_values(|v: Vec<char>| v@).push(cur@) =~= before.push(Seq::empty()));
        } else {
            cur.push(c);
            assert(done@.map_values(|v: Vec<char>| v@).push(cur@) =~= before.update(
                before.len() - 1,
                before.last().push(c),
            ));
        }
        i += 1;
    }
    assert(s@.take(s.len() as int) =~= s@);
    done.push(cur);
    done
}

// ------------------------------------------------------------------ timestamps

pub open spec fn is_digit(c: char) -> bool {
    '0' <= c <= '9'
}

pub open spec fn all_digits(s: Seq<char>) -> bool {
    forall|i: int| 0 <= i < s.len() ==> is_digit(#[trigger] s[i])
}

/// Value of a string of decimal digits.
pub open spec fn digits_value(s: Seq<char>) -> nat
    decreases s.len(),
{
    if s.len() == 0 {
        0
    } else {
        digits_value(s.drop_last()) * 10 + (s.last() as nat - '0' as nat) as nat
    }
}

/// Milliseconds given by the fraction digits after the seconds: the first
/// three digits, padded with zeros.
pub open spec fn frac_ms(f: Seq<char>) -> nat {
    if f.len() >= 3 {
        digits_value(f.take(3))
    } else if f.len() == 2 {
        digits_value(f) * 10
    } else if f.len() == 1 {
        digits_value(f) * 100
    } else {
        0
    }
}

/// First index of `c` in `s`, or `-1`.
pub open spec fn index_of(s: Seq<char>, c: char) -> int
    decreases s.len(),
{
    if s.len() == 0 {
        -1
    } else if index_of(s.drop_last(), c) >= 0 {
        index_of(s.drop_last(), c)
    } else if s.last() == c {
        s.len() - 1
    } else {
        -1
    }
}

/// A seconds field: digits, optionally with a `.` and fraction digits, and at
/// least one digit in all.
pub open spec fn seconds_ok(p: Seq<char>) -> bool {
    let d = index_of(p, '.');
    if d < 0 {
        p.len() > 0 && all_digits(p)
    } else {
        all_digits(p.take(d)) && all_digits(p.skip(d + 1)) && p.len() > 1
    }
}

/// Milliseconds of a valid seconds field.
pub open spec fn seconds_ms(p: Seq<char>) -> nat {
    let d = index_of(p, '.');
    if d < 0 {
        digits_value(p) * 1000
    } else {
        digits_value(p.take(d)) * 1000 + frac_ms(p.skip(d + 1))
    }
}

/// An hours or minutes field: a non-empty digit string.
pub open spec fn field_ok(p: Seq<char>) -> bool {
    p.len() > 0 && all_digits(p)
}

/// `,` read as `.`.
pub open spec fn comma_to_dot(s: Seq<char>) -> Seq<char> {
    s.map_values(|c: char| if c == ',' { '.' } else { c })
}

/// Milliseconds denoted by an `HH:MM:SS.mmm` or `MM:SS.mmm` timestamp.
pub open spec fn ts_ms(s: Seq<char>) -> Option<nat> {
    let parts = split_on(comma_to_dot(trim(s)), ':');
    if parts.len() == 3 && field_ok(parts[0]) && field_ok(parts[1]) && seconds_ok(parts[2]) {
        Some(digits_value(parts[0]) * 3600000 + digits_value(parts[1]) * 60000 + seconds_ms(
            parts[2],
        ))
    } else if parts.len() == 2 && field_ok(parts[0]) && seconds_ok(parts[1]) {
        Some(digits_value(parts[0]) * 60000 + seconds_ms(parts[1]))
    } else {
        None
    }
}

/// The timestamp in milliseconds when it is valid and fits in `u64`.
pub open spec fn ts_value(s: Seq<char>) -> Option<u64> {
    match ts_ms(s) {
        Some(v) => if v <= u64::MAX {
            Some(v as u64)
        } else {
            None
        },
        None => None,
    }
}

proof fn lemma_digits_value_prefix(s: Seq<char>, i: int)
    requires
        0 <= i <= s.len(),
    ensures
        digits_value(s.take(i)) <= digits_value(s),
    decreases s.len() - i,
{
    if i < s.len() {
        lemma_digits_value_prefix(s, i + 1);
        assert(s.take(i + 1).drop_last() =~= s.take(i));
    } else {
        assert(s.take(i) =~= s);
    }
}

/// Value of the digits `s[a..b]`, or `None` when it exceeds `u64::MAX`.
fn parse_digits(s: &Vec<char>, a: usize, b: usize) -> (r: Option<u64>)
    requires
        a <= b <= s.len(),
        all_digits(s@.subrange(a as int, b as int)),
    ensures
        r == (if digits_value(s@.subrange(a as int, b as int)) <= u64::MAX {
            Some(digits_value(s@.subrange(a as int, b as int)) as u64)
        } else {
            None::<u64>
        }),
{
    let ghost whole = s@.subrange(a as int, b as int);
    let mut acc: u64 = 0;
    let mut i = a;
    while i < b
        invariant
            a <= i <= b <= s.len(),
            whole == s@.subrange(a as int, b as int),
            all_digits(whole),
            acc == digits_value(whole.take(i - a)),
        decreases b - i,
    {
        assert(whole.take(i - a + 1).drop_last() =~= whole.take(i - a));
        assert(whole.take(i - a + 1).last() == s@[i as int]);
        assert(is_digit(whole[i - a]));
        let d = (s[i] as u32 - '0' as u32) as u64;
        if acc > (u64::MAX - d) / 10 {
            proof {
                lemma_digits_value_prefix(whole, i - a + 1);
            }
            return None;
        }
        acc = acc * 10 + d;
        i += 1;
    }
    assert(whole.take(b - a) =~= whole);
    Some(acc)
}

pub(crate) proof fn lemma_index_of(s: Seq<char>, c: char)
    ensures
        index_of(s, c) == -1 <==> (forall|j: int| 0 <= j < s.len() ==> s[j] != c),
        index_of(s, c) >= 0 ==> index_of(s, c) < s.len() && s[index_of(s, c)] == c && (forall|j: int|
            0 <= j < index_of(s, c) ==> s[j] != c),
        index_of(s, c) >= -1,
    decreases s.len(),
{
    if s.len() > 0 {
        lemma_index_of(s.drop_last(), c);
        assert(forall|j: int| 0 <= j < s.len() - 1 ==> s.drop_last()[j] == s[j]);
    }
}

/// First index of `c` in `s`.
pub(crate) fn find_char(s: &Vec<char>, c: char) -> (r: Option<usize>)
    ensures
        r == (if index_of(s@, c) >= 0 {
            Some(index_of(s@, c) as usize)
        } else {
            None::<usize>
        }),
{
    proof {
        lemma_index_of(s@, c);
    }
    let mut i: usize = 0;
    while i < s.len()
        invariant
            i <= s.len(),
            forall|j: int| 0 <= j < i ==> s@[j] != c,
            index_of(s@, c) == -1 <==> (forall|j: int| 0 <= j < s.len() ==> s@[j] != c),
            index_of(s@, c) >= 0 ==> index_of(s@, c) < s.len() && s@[index_of(s@, c)] == c && (
            forall|j: int| 0 <= j < index_of(s@, c) ==> s@[j] != c),
            index_of(s@, c) >= -1,
        decreases s.len() - i,
    {
        if s[i] == c {
            return Some(i);
        }
        i += 1;
    }
    None
}

pub open spec fn pow10(n: nat) -> nat
    decreases n,
{
    if n == 0 {
        1
    } else {
        10 * pow10((n - 1) as nat)
    }
}

proof fn lemma_pow10_small()
    ensures
        pow10(1) == 10,
        pow10(2) == 100,
        pow10(3) == 1000,
{
    assert(pow10(0) == 1);
    assert(pow10(1) == 10);
    assert(pow10(2) == 100);
}

proof fn lemma_digits_value_bound(s: Seq<char>)
    requires
        all_digits(s),
    ensures
        digits_value(s) < pow10(s.len()),
    decreases s.len(),
{
    if s.len() > 0 {
        lemma_digits_value_bound(s.drop_last());
        assert(is_digit(s[s.len() - 1]));
        let a = digits_value(s.drop_last());
        let p = pow10(s.drop_last().len());
        let d = (s.last() as nat - '0' as nat) as nat;
        assert(d <= 9);
        assert(a * 10 + d < 10 * p) by (nonlinear_arith)
            requires
                a < p,
                d <= 9,
        ;
    }
}

/// Whether `s[a..b]` is made of decimal digits.
fn digits_only(s: &Vec<char>, a: usize, b: usize) -> (r: bool)
    requires
        a <= b <= s.len(),
    ensures
        r == all_digits(s@.subrange(a as int, b as int)),
{
    let mut i = a;
    while i < b
        invariant
            a <= i <= b <= s.len(),
            forall|j: int| a <= j < i ==> is_digit(s@[j]),
        decreases b - i,
    {
        if !('0' <= s[i] && s[i] <= '9') {
            assert(!is_digit(s@.subrange(a as int, b as int)[i - a]));
            return false;
        }
        i += 1;
    }
    assert forall|j: int| 0 <= j < b - a implies is_digit(#[trigger] s@.subrange(a as int, b as int)[j]) by {
        assert(s@.subrange(a as int, b as int)[j] == s@[a + j]);
    }
    true
}

fn field_ok_exec(p: &Vec<char>) -> (r: bool)
    ensures
        r == field_ok(p@),
{
    assert(p@.subrange(0, p.len() as int) =~= p@);
    p.len() > 0 && digits_only(p, 0, p.len())
}

fn seconds_ok_exec(p: &Vec<char>) -> (r: bool)
    ensures
        r == seconds_ok(p@),
{
    proof {
        lemma_index_of(p@, '.');
    }
    let d = find_char(p, '.');
    if d.is_none() {
        assert(p@.subrange(0, p.len() as int) =~= p@);
        p.len() > 0 && digits_only(p, 0, p.len())
    } else {
        let du = d.unwrap();
        assert(p@.subrange(0, du as int) =~= p@.take(du as int));
        assert(p@.subrange(du + 1, p.len() as int) =~= p@.skip(du + 1));
        digits_only(p, 0, du) && digits_only(p, du + 1, p.len()) && p.len() > 1
    }
}

/// Milliseconds of a valid seconds field, or `None` when over `u64::MAX`.
fn seconds_ms_exec(p: &Vec<char>) -> (r: Option<u64>)
    requires
        seconds_ok(p@),
    ensures
        r == (if seconds_ms(p@) <= u64::MAX {
            Some(seconds_ms(p@) as u64)
        } else {
            None::<u64>
        }),
{
    proof {
        lemma_index_of(p@, '.');
    }
    let d = find_char(p, '.');
    let (ip, fa, fb) = match d {
        None => (p.len(), p.len(), p.len()),
        Some(du) => {
            assert(du < p.len());
            (du, du + 1, p.len())
        },
    };
    assert(p@.subrange(0, p.len() as int) =~= p@);
    if d.is_some() {
        assert(p@.subrange(0, ip as int) =~= p@.take(ip as int));
        assert(p@.subrange(fa as int, fb as int) =~= p@.skip(fa as int));
    }
    let whole = match parse_digits(p, 0, ip) {
        Some(v) => v,
        None => {
            return None;
        },
    };
    let flen = fb - fa;
    let ghost fseq = p@.subrange(fa as int, fb as int);
    let frac: u64 = if flen >= 3 {
        let ghost f3 = p@.subrange(fa as int, fa + 3);
        assert(f3 =~= fseq.take(3));
        assert forall|j: int| 0 <= j < 3 implies is_digit(#[trigger] f3[j]) by {
            assert(f3[j] == fseq[j]);
        }
        proof {
            lemma_digits_value_bound(f3);
            lemma_pow10_small();
        }
        match parse_digits(p, fa, fa + 3) {
            Some(v) => v,
            None => 0,
        }
    } else if flen == 2 {
        proof {
            lemma_digits_value_bound(fseq);
            lemma_pow10_small();
        }
        match parse_digits(p, fa, fb) {
            Some(v) => v * 10,
            None => 0,
        }
    } else if flen == 1 {
        proof {
            lemma_digits_value_bound(fseq);
            lemma_pow10_small();
        }
        match parse_digits(p, fa, fb) {
            Some(v) => v * 100,
            None => 0,
        }
    } else {
        0
    };
    assert(frac == frac_ms(fseq));
    let total: u128 = whole as u128 * 1000 + frac as u128;
    if total <= u64::MAX as u128 {
        Some(total as u64)
    } else {
        None
    }
}

/// `,` replaced by `.`.
fn comma_to_dot_exec(s: &Vec<char>) -> (r: Vec<char>)
    ensures
        r@ == comma_to_dot(s@),
{
    let mut out: Vec<char> = Vec::new();
    let mut i: usize = 0;
    while i < s.len()
        invariant
            i <= s.len(),
            out@ == comma_to_dot(s@.take(i as int)),
        decreases s.len() - i,
    {
        let c = s[i];
        out.push(if c == ',' { '.' } else { c });
        assert(comma_to_dot(s@.take(i + 1)) =~= comma_to_dot(s@.take(i as int)).push(
            if c == ',' { '.' } else { c },
        ));
        i += 1;
    }
    assert(s@.take(s.len() as int) =~= s@);
    out
}

/// Parse an SRT timestamp (`00:01:02,500` or `00:01:02.500`) into
/// milliseconds.
pub fn ts_to_ms(s: &Vec<char>) -> (r: Option<u64>)
    ensures
        r == ts_value(s@),
{
    let t = trim_chars(s);
    let t2 = comma_to_dot_exec(&t);
    let parts = split_chars(&t2, ':');
    let ghost pv = parts@.map_values(|v: Vec<char>| v@);
    assert(pv.len() == parts.len());
    if parts.len() == 3 {
        assert(pv[0] == parts[0]@ && pv[1] == parts[1]@ && pv[2] == parts[2]@);
        if !(field_ok_exec(&parts[0]) && field_ok_exec(&parts[1]) && seconds_ok_exec(&parts[2])) {
            return None;
        }
        assert(parts[0]@.subrange(0, parts[0].len() as int) =~= parts[0]@);
        assert(parts[1]@.subrange(0, parts[1].len() as int) =~= parts[1]@);
        let h = match parse_digits(&parts[0], 0, parts[0].len()) {
            Some(v) => v,
            None => {
                return None;
            },
        };
        let m = match parse_digits(&parts[1], 0, parts[1].len()) {
            Some(v) => v,
            None => {
                return None;
            },
        };
        let sec = match seconds_ms_exec(&parts[2]) {
            Some(v) => v,
            None => {
                return None;
            },
        };
        let total: u128 = h as u128 * 3600000 + m as u128 * 60000 + sec as u128;
        if total <= u64::MAX as u128 {
            Some(total as u64)
        } else {
            None
        }
    } else if parts.len() == 2 {
        assert(pv[0] == parts[0]@ && pv[1] == parts[1]@);
        if !(field_ok_exec(&parts[0]) && seconds_ok_exec(&parts[1])) {
            return None;
        }
        assert(parts[0]@.subrange(0, parts[0].len() as int) =~= parts[0]@);
        let m = match parse_digits(&parts[0], 0, parts[0].len()) {
            Some(v) => v,
            None => {
                return None;
            },
        };
        let sec = match seconds_ms_exec(&parts[1]) {
            Some(v) => v,
            None => {
                return None;
            },
        };
        let total: u128 = m as u128 * 60000 + sec as u128;
        if total <= u64::MAX as u128 {
            Some(total as u64)
        } else {
            None
        }
    } else {
        None
    }
}

// ------------------------------------------------------------------ lines and blocks

pub open spec fn lines_view(v: Seq<Vec<char>>) -> Seq<Seq<char>> {
    v.map_values(|x: Vec<char>| x@)
}

pub open spec fn blocks_view(v: Seq<Vec<Vec<char>>>) -> Seq<Seq<Seq<char>>> {
    v.map_values(|b: Vec<Vec<char>>| lines_view(b@))
}

/// Cue text as the parser leaves it: no tag brackets, already trimmed.
pub open spec fn clean_text(t: Seq<char>) -> bool {
    !t.contains('<') && !t.contains('>') && trim(t) == t
}

pub open spec fn cues_view(v: Seq<Cue>) -> Seq<SpecCue> {
    v.map_values(|c: Cue| (c.0, c.1, c.2@))
}

/// `s` without leading byte-order marks.
pub open spec fn strip_boms(s: Seq<char>) -> Seq<char>
    decreases s.len(),
{
    if s.len() > 0 && s[0] == '\u{FEFF}' {
        strip_boms(s.drop_first())
    } else {
        s
    }
}

/// `s` without trailing carriage returns.
pub open spec fn strip_trailing_cr(s: Seq<char>) -> Seq<char>
    decreases s.len(),
{
    if s.len() > 0 && s.last() == '\r' {
        strip_trailing_cr(s.drop_last())
    } else {
        s
    }
}

/// The lines of `s` (split at `\n`, no final empty line), trailing `\r`
/// removed.
pub open spec fn text_lines(s: Seq<char>) -> Seq<Seq<char>> {
    let p = split_on(s, '\n');
    let q = if p.last().len() == 0 {
        p.drop_last()
    } else {
        p
    };
    q.map_values(|l: Seq<char>| strip_trailing_cr(l))
}

/// Groups lines into blocks separated by blank lines: the finished blocks
/// and the block still open.
pub open spec fn blocks_of(lines: Seq<Seq<char>>) -> (Seq<Seq<Seq<char>>>, Seq<Seq<char>>)
    decreases lines.len(),
{
    if lines.len() == 0 {
        (Seq::empty(), Seq::empty())
    } else {
        let (done, cur) = blocks_of(lines.drop_last());
        let l = lines.last();
        if trim(l).len() == 0 {
            if cur.len() > 0 {
                (done.push(cur), Seq::empty())
            } else {
                (done, cur)
            }
        } else {
            (done, cur.push(l))
        }
    }
}

/// The non-empty blocks of lines.
pub open spec fn srt_blocks(lines: Seq<Seq<char>>) -> Seq<Seq<Seq<char>>> {
    let (done, cur) = blocks_of(lines);
    if cur.len() > 0 {
        done.push(cur)
    } else {
        done
    }
}

/// `-->` starts at `i`.
pub open spec fn arrow_at(l: Seq<char>, i: int) -> bool {
    0 <= i && i + 3 <= l.len() && l[i] == '-' && l[i + 1] == '-' && l[i + 2] == '>'
}

/// First `-->` at or after `i`, or `-1`.
pub open spec fn find_arrow(l: Seq<char>, i: int) -> int
    decreases l.len() - i,
{
    if i < 0 || i + 3 > l.len() {
        -1
    } else if arrow_at(l, i) {
        i
    } else {
        find_arrow(l, i + 1)
    }
}

/// First line at or after `i` holding `-->`, or `-1`.
pub open spec fn timing_line(block: Seq<Seq<char>>, i: int) -> int
    decreases block.len() - i,
{
    if i < 0 || i >= block.len() {
        -1
    } else if find_arrow(block[i], 0) >= 0 {
        i
    } else {
        timing_line(block, i + 1)
    }
}

/// Lines joined with `\n`.
pub open spec fn join_lines(ls: Seq<Seq<char>>) -> Seq<char>
    decreases ls.len(),
{
    if ls.len() == 0 {
        Seq::empty()
    } else if ls.len() == 1 {
        ls[0]
    } else {
        join_lines(ls.drop_last()) + seq!['\n'] + ls.last()
    }
}

/// The cue of a block: its first line holding `-->` gives the start (text
/// before the first `-->`) and the end (text up to the next `-->`); the text
/// is the following lines joined, tags stripped. `None` when the block has
/// no such line or a timestamp does not parse.
pub open spec fn cue_of_block(block: Seq<Seq<char>>) -> Option<SpecCue> {
    let i = timing_line(block, 0);
    if i < 0 {
        None
    } else {
        let l = block[i];
        let p = find_arrow(l, 0);
        let q = find_arrow(l, p + 3);
        let a = ts_value(l.subrange(0, p));
        let b = ts_value(
            l.subrange(
                p + 3,
                if q >= 0 {
                    q
                } else {
                    l.len() as int
                },
            ),
        );
        if a is Some && b is Some {
            Some(
                (
                    a.unwrap(),
                    b.unwrap(),
                    spec_strip_tags(join_lines(block.subrange(i + 1, block.len() as int))),
                ),
            )
        } else {
            None
        }
    }
}

/// Cues that end after they start and have text.
pub open spec fn keep_cue(c: SpecCue) -> bool {
    c.1 > c.0 && c.2.len() > 0
}

/// The cues of an SRT document.
pub open spec fn spec_parse_srt(text: Seq<char>) -> Seq<SpecCue> {
    srt_blocks(text_lines(strip_boms(text))).filter_map(|b: Seq<Seq<char>>| cue_of_block(b)).filter(
        |c: SpecCue| keep_cue(c),
    )
}

// ------------------------------------------------------------------ decimal fractions

proof fn lemma_digits_value_push(s: Seq<char>, c: char)
    ensures
        digits_value(s.push(c)) == digits_value(s) * 10 + (c as nat - '0' as nat) as nat,
{
    assert(s.push(c).drop_last() =~= s);
}

/// The fraction after the seconds is a decimal fraction of a second: `f`
/// (up to three digits) stands for `f / 10^len` seconds, so its milliseconds
/// times `10^len` are its digits' value times 1000; a fourth digit and
/// beyond are dropped; and a trailing zero changes nothing.
pub proof fn lemma_frac_ms_decimal(f: Seq<char>)
    requires
        all_digits(f),
    ensures
        f.len() <= 3 ==> frac_ms(f) * pow10(f.len()) == digits_value(f) * 1000,
        f.len() > 3 ==> frac_ms(f) == frac_ms(f.take(3)),
        f.len() < 3 ==> frac_ms(f.push('0')) == frac_ms(f),
{
    assert(pow10(0) == 1);
    assert(pow10(1) == 10);
    assert(pow10(2) == 100);
    assert(pow10(3) == 1000);
    if f.len() == 0 {
        assert(digits_value(f) == 0);
    }
    if f.len() > 3 {
        assert(f.take(3).take(3) =~= f.take(3));
    }
    if f.len() < 3 {
        lemma_digits_value_push(f, '0');
        if f.len() == 2 {
            assert(f.push('0').take(3) =~= f.push('0'));
        }
        if f.len() == 0 {
            assert(digits_value(f.push('0')) == digits_value(Seq::<char>::empty()) * 10);
        }
    }
    if f.len() == 3 {
        assert(f.take(3) =~= f);
    }
}

proof fn lemma_index_of_push(p: Seq<char>, c: char, x: char)
    requires
        index_of(p, c) >= 0,
    ensures
        index_of(p.push(x), c) == index_of(p, c),
{
    assert(p.push(x).drop_last() =~= p);
}

proof fn lemma_index_of_bounds(p: Seq<char>, c: char)
    ensures
        -1 <= index_of(p, c) < p.len(),
        index_of(p, c) >= 0 ==> p[index_of(p, c)] == c,
    decreases p.len(),
{
    if p.len() > 0 {
        lemma_index_of_bounds(p.drop_last(), c);
    }
}

/// A seconds field with a fraction of fewer than three digits keeps its
/// value when a zero is appended: `01.5`, `01.50` and `01.500` are the same
/// time.
pub proof fn lemma_seconds_trailing_zero(p: Seq<char>)
    requires
        seconds_ok(p),
        index_of(p, '.') >= 0,
        p.len() - index_of(p, '.') - 1 < 3,
    ensures
        seconds_ok(p.push('0')),
        seconds_ms(p.push('0')) == seconds_ms(p),
{
    let d = index_of(p, '.');
    lemma_index_of_bounds(p, '.');
    lemma_index_of_push(p, '.', '0');
    let q = p.push('0');
    assert(q.take(d) =~= p.take(d));
    let f = p.skip(d + 1);
    assert(q.skip(d + 1) =~= f.push('0'));
    assert(all_digits(f.push('0'))) by {
        assert forall|i: int| 0 <= i < f.push('0').len() implies is_digit(#[trigger] f.push('0')[i]) by {
            if i < f.len() {
                assert(f.push('0')[i] == f[i]);
            }
        }
    }
    lemma_frac_ms_decimal(f);
}

// ------------------------------------------------------------------ byte-order marks and line ends

/// `s` with every `\n` turned into `\r\n`.
pub open spec fn with_crlf(s: Seq<char>) -> Seq<char>
    decreases s.len(),
{
    if s.len() == 0 {
        Seq::empty()
    } else if s.last() == '\n' {
        with_crlf(s.drop_last()) + seq!['\r', '\n']
    } else {
        with_crlf(s.drop_last()).push(s.last())
    }
}

/// Every piece but the last followed by a `\r`.
pub open spec fn add_cr(p: Seq<Seq<char>>) -> Seq<Seq<char>> {
    Seq::new(p.len(), |i: int| if i < p.len() - 1 { p[i].push('\r') } else { p[i] })
}

proof fn lemma_with_crlf_concat(x: Seq<char>, y: Seq<char>)
    ensures
        with_crlf(x + y) == with_crlf(x) + with_crlf(y),
    decreases y.len(),
{
    if y.len() == 0 {
        assert(x + y =~= x);
        assert(with_crlf(x) + with_crlf(y) =~= with_crlf(x));
    } else {
        assert((x + y).drop_last() =~= x + y.drop_last());
        assert((x + y).last() == y.last());
        lemma_with_crlf_concat(x, y.drop_last());
        if y.last() == '\n' {
            assert(with_crlf(x) + with_crlf(y.drop_last()) + seq!['\r', '\n'] =~= with_crlf(x) + (
            with_crlf(y.drop_last()) + seq!['\r', '\n']));
        } else {
            assert((with_crlf(x) + with_crlf(y.drop_last())).push(y.last()) =~= with_crlf(x) + with_crlf(
                y.drop_last(),
            ).push(y.last()));
        }
    }
}

proof fn lemma_strip_boms_crlf(s: Seq<char>)
    ensures
        strip_boms(with_crlf(s)) == with_crlf(strip_boms(s)),
    decreases s.len(),
{
    if s.len() > 0 {
        let h = seq![s[0]];
        assert(h + s.drop_first() =~= s);
        lemma_with_crlf_concat(h, s.drop_first());
        assert(h.drop_last() =~= Seq::<char>::empty());
        let ch = with_crlf(h);
        assert(h.last() == s[0]);
        assert(with_crlf(h.drop_last()) == Seq::<char>::empty());
        if s[0] == '\n' {
            assert(Seq::<char>::empty() + seq!['\r', '\n'] =~= seq!['\r', '\n']);
            assert(ch =~= seq!['\r', '\n']);
        } else {
            assert(Seq::<char>::empty().push(s[0]) =~= seq![s[0]]);
            assert(ch =~= seq![s[0]]);
        }
        let w = with_crlf(s);
        assert(w == ch + with_crlf(s.drop_first()));
        assert(w[0] == ch[0]);
        if s[0] == '\u{FEFF}' {
            assert(w.drop_first() =~= with_crlf(s.drop_first()));
            lemma_strip_boms_crlf(s.drop_first());
        }
    }
}

proof fn lemma_split_crlf(s: Seq<char>)
    ensures
        split_on(with_crlf(s), '\n') == add_cr(split_on(s, '\n')),
    decreases s.len(),
{
    if s.len() == 0 {
        assert(add_cr(seq![Seq::<char>::empty()]) =~= seq![Seq::<char>::empty()]);
    } else {
        let c = s.last();
        let w0 = with_crlf(s.drop_last());
        lemma_split_crlf(s.drop_last());
        lemma_split_on_nonempty(s.drop_last(), '\n');
        let p = split_on(s.drop_last(), '\n');
        let pp = add_cr(p);
        if c == '\n' {
            let wr = w0.push('\r');
            assert(wr.drop_last() =~= w0);
            assert((w0 + seq!['\r', '\n']).drop_last() =~= wr);
            assert(split_on(wr, '\n') == pp.update(pp.len() - 1, pp.last().push('\r')));
            assert(pp.update(pp.len() - 1, pp.last().push('\r')).push(Seq::<char>::empty()) =~= add_cr(
                p.push(Seq::<char>::empty()),
            ));
        } else {
            assert(w0.push(c).drop_last() =~= w0);
            assert(pp.update(pp.len() - 1, pp.last().push(c)) =~= add_cr(
                p.update(p.len() - 1, p.last().push(c)),
            ));
        }
    }
}

proof fn lemma_text_lines_crlf(s: Seq<char>)
    ensures
        text_lines(with_crlf(s)) == text_lines(s),
{
    lemma_split_crlf(s);
    lemma_split_on_nonempty(s, '\n');
    let p = split_on(s, '\n');
    let pp = add_cr(p);
    assert(pp.last() == p.last());
    let q = if p.last().len() == 0 {
        p.drop_last()
    } else {
        p
    };
    let qq = if pp.last().len() == 0 {
        pp.drop_last()
    } else {
        pp
    };
    assert forall|i: int| 0 <= i < q.len() implies strip_trailing_cr(#[trigger] qq[i]) == strip_trailing_cr(q[i]) by {
        if i < p.len() - 1 {
            assert(qq[i] == p[i].push('\r'));
            assert(p[i].push('\r').drop_last() =~= p[i]);
        }
    }
    assert(text_lines(with_crlf(s)) =~= text_lines(s));
}

/// Leading byte-order marks and `\r\n` line ends do not change what an SRT
/// document parses to.
pub proof fn lemma_parse_srt_bom_crlf(s: Seq<char>)
    ensures
        spec_parse_srt(seq!['\u{FEFF}'] + s) == spec_parse_srt(s),
        spec_parse_srt(with_crlf(s)) == spec_parse_srt(s),
{
    let b = seq!['\u{FEFF}'] + s;
    assert(b.drop_first() =~= s);
    assert(strip_boms(b) == strip_boms(s));
    lemma_strip_boms_crlf(s);
    lemma_text_lines_crlf(strip_boms(s));
}

// ------------------------------------------------------------------ executable parser

fn strip_cr_exec(l: &Vec<char>) -> (r: Vec<char>)
    ensures
        r@ == strip_trailing_cr(l@),
{
    let mut b = l.len();
    assert(l@.subrange(0, b as int) =~= l@);
    while b > 0 && l[b - 1] == '\r'
        invariant
            b <= l.len(),
            strip_trailing_cr(l@) == strip_trailing_cr(l@.subrange(0, b as int)),
        decreases b,
    {
        assert(l@.subrange(0, b as int).drop_last() =~= l@.subrange(0, b - 1));
        b -= 1;
    }
    slice_chars(l, 0, b)
}

/// The lines of `s`, as `text_lines` gives them.
fn lines_exec(s: &Vec<char>) -> (r: Vec<Vec<char>>)
    ensures
        lines_view(r@) == text_lines(s@),
{
    let pieces = split_chars(s, '\n');
    proof {
        lemma_split_on_nonempty(s@, '\n');
    }
    let ghost p = split_on(s@, '\n');
    assert(lines_view(pieces@) == p);
    let n = if pieces[pieces.len() - 1].len() == 0 {
        pieces.len() - 1
    } else {
        pieces.len()
    };
    let ghost q = if p.last().len() == 0 {
        p.drop_last()
    } else {
        p
    };
    assert(q.len() == n);
    let mut out: Vec<Vec<char>> = Vec::new();
    let mut i: usize = 0;
    while i < n
        invariant
            n <= pieces.len(),
            i <= n,
            lines_view(pieces@) == p,
            q.len() == n,
            forall|j: int| 0 <= j < n ==> q[j] == p[j],
            lines_view(out@) == q.take(i as int).map_values(|l: Seq<char>| strip_trailing_cr(l)),
        decreases n - i,
    {
        let l = strip_cr_exec(&pieces[i]);
        assert(pieces@[i as int]@ == p[i as int]);
        out.push(l);
        assert(q.take(i + 1) =~= q.take(i as int).push(q[i as int]));
        assert(q.take(i + 1).map_values(|l: Seq<char>| strip_trailing_cr(l)) =~= q.take(
            i as int,
        ).map_values(|l: Seq<char>| strip_trailing_cr(l)).push(strip_trailing_cr(q[i as int])));
        assert(lines_view(out@) =~= q.take(i + 1).map_values(|l: Seq<char>| strip_trailing_cr(l)));
        i += 1;
    }
    assert(q.take(n as int) =~= q);
    out
}

/// Whether the line is blank (only white space).
fn is_blank(l: &Vec<char>) -> (r: bool)
    ensures
        r == (trim(l@).len() == 0),
{
    let t = trim_chars(l);
    t.len() == 0
}

/// The blocks of `lines`, as `srt_blocks` gives them.
fn blocks_exec(lines: &Vec<Vec<char>>) -> (r: Vec<Vec<Vec<char>>>)
    ensures
        blocks_view(r@) == srt_blocks(lines_view(lines@)),
{
    let ghost ls = lines_view(lines@);
    let mut done: Vec<Vec<Vec<char>>> = Vec::new();
    let mut cur: Vec<Vec<char>> = Vec::new();
    let mut i: usize = 0;
    while i < lines.len()
        invariant
            i <= lines.len(),
            ls == lines_view(lines@),
            blocks_of(ls.take(i as int)) == (blocks_view(done@), lines_view(cur@)),
        decreases lines.len() - i,
    {
        assert(ls.take(i + 1).drop_last() =~= ls.take(i as int));
        assert(ls.take(i + 1).last() == lines@[i as int]@);
        let ghost old_done = blocks_view(done@);
        let ghost old_cur = lines_view(cur@);
        if is_blank(&lines[i]) {
            if cur.len() > 0 {
                let b = cur;
                cur = Vec::new();
                done.push(b);
                assert(blocks_view(done@) =~= old_done.push(old_cur));
                assert(lines_view(cur@) =~= Seq::<Seq<char>>::empty());
            }
        } else {
            cur.push(lines[i].clone());
            assert(lines_view(cur@) =~= old_cur.push(lines@[i as int]@));
        }
        i += 1;
    }
    assert(ls.take(lines.len() as int) =~= ls);
    if cur.len() > 0 {
        let ghost old_done = blocks_view(done@);
        let ghost old_cur = lines_view(cur@);
        done.push(cur);
        assert(blocks_view(done@) =~= old_done.push(old_cur));
    }
    done
}

/// First `-->` in `l` at or after `i`.
fn find_arrow_exec(l: &Vec<char>, i: usize) -> (r: Option<usize>)
    ensures
        r == (if find_arrow(l@, i as int) >= 0 {
            Some(find_arrow(l@, i as int) as usize)
        } else {
            None::<usize>
        }),
        find_arrow(l@, i as int) >= 0 ==> i <= find_arrow(l@, i as int) && arrow_at(
            l@,
            find_arrow(l@, i as int),
        ),
{
    let mut k = i;
    while k < l.len() && l.len() - k >= 3
        invariant
            i <= k,
            find_arrow(l@, i as int) == find_arrow(l@, k as int),
        decreases l.len() - k,
    {
        if l[k] == '-' && l[k + 1] == '-' && l[k + 2] == '>' {
            return Some(k);
        }
        k += 1;
    }
    None
}

proof fn lemma_timing_line(block: Seq<Seq<char>>, i: int)
    ensures
        timing_line(block, i) >= 0 ==> i <= timing_line(block, i) < block.len() && find_arrow(
            block[timing_line(block, i)],
            0,
        ) >= 0,
        timing_line(block, i) >= -1,
    decreases block.len() - i,
{
    if 0 <= i < block.len() && find_arrow(block[i], 0) < 0 {
        lemma_timing_line(block, i + 1);
    }
}

/// First line of `block` holding `-->`.
fn timing_line_exec(block: &Vec<Vec<char>>) -> (r: Option<usize>)
    ensures
        r == (if timing_line(lines_view(block@), 0) >= 0 {
            Some(timing_line(lines_view(block@), 0) as usize)
        } else {
            None::<usize>
        }),
        timing_line(lines_view(block@), 0) < block.len(),
{
    let ghost bv = lines_view(block@);
    let mut i: usize = 0;
    while i < block.len()
        invariant
            i <= block.len(),
            bv == lines_view(block@),
            timing_line(bv, 0) == timing_line(bv, i as int),
        decreases block.len() - i,
    {
        assert(bv[i as int] == block@[i as int]@);
        if find_arrow_exec(&block[i], 0).is_some() {
            return Some(i);
        }
        i += 1;
    }
    None
}

/// Lines `from..` of `ls` joined with `\n`.
fn join_from(ls: &Vec<Vec<char>>, from: usize) -> (r: Vec<char>)
    requires
        from <= ls.len(),
    ensures
        r@ == join_lines(lines_view(ls@).subrange(from as int, ls.len() as int)),
{
    let ghost lv = lines_view(ls@);
    let mut out: Vec<char> = Vec::new();
    let mut i = from;
    while i < ls.len()
        invariant
            from <= i <= ls.len(),
            lv == lines_view(ls@),
            out@ == join_lines(lv.subrange(from as int, i as int)),
        decreases ls.len() - i,
    {
        let ghost before = out@;
        let ghost sub = lv.subrange(from as int, i + 1);
        assert(sub.drop_last() =~= lv.subrange(from as int, i as int));
        assert(sub.last() == ls@[i as int]@);
        if i > from {
            out.push('\n');
        }
        let line = &ls[i];
        let mut k: usize = 0;
        let ghost mid = out@;
        while k < line.len()
            invariant
                k <= line.len(),
                out@ == mid + line@.take(k as int),
            decreases line.len() - k,
        {
            out.push(line[k]);
            assert(mid + line@.take(k + 1) =~= (mid + line@.take(k as int)).push(line@[k as int]));
            k += 1;
        }
        assert(line@.take(line.len() as int) =~= line@);
        if i > from {
            assert(out@ =~= before + seq!['\n'] + line@);
        } else {
            assert(sub =~= seq![line@]);
            assert(out@ =~= line@);
        }
        i += 1;
    }
    out
}

/// Parse the block's cue and append it to `out` when there is one.
fn push_cue(block: &Vec<Vec<char>>, out: &mut Vec<Cue>)
    requires
        forall|k: int| 0 <= k < old(out)@.len() ==> clean_text(#[trigger] old(out)@[k].2@),
    ensures
        cues_view(final(out)@) == cues_view(old(out)@) + (match cue_of_block(lines_view(block@)) {
            Some(c) => seq![c],
            None => Seq::<SpecCue>::empty(),
        }),
        forall|k: int| 0 <= k < final(out)@.len() ==> clean_text(#[trigger] final(out)@[k].2@),
{
    let ghost bv = lines_view(block@);
    let ghost before = cues_view(out@);
    let i = match timing_line_exec(block) {
        Some(i) => i,
        None => {
            assert(cues_view(out@) =~= before + Seq::<SpecCue>::empty());
            return;
        },
    };
    proof {
        lemma_timing_line(bv, 0);
    }
    let l = &block[i];
    assert(bv[i as int] == l@);
    assert(i as int == timing_line(bv, 0));
    assert(find_arrow(l@, 0) >= 0);
    let pa = find_arrow_exec(l, 0);
    assert(arrow_at(l@, find_arrow(l@, 0)));
    assert(find_arrow(l@, 0) < l.len());
    let p = match pa {
        Some(p) => p,
        None => {
            return;
        },
    };
    assert(p as int == find_arrow(l@, 0));
    assert(arrow_at(l@, p as int));
    let q = find_arrow_exec(l, p + 3);
    let end = match q {
        Some(q) => {
            assert(arrow_at(l@, q as int));
            q
        },
        None => l.len(),
    };
    let a_s = slice_chars(l, 0, p);
    let b_s = slice_chars(l, p + 3, end);
    let a = ts_to_ms(&a_s);
    let b = ts_to_ms(&b_s);
    match (a, b) {
        (Some(a), Some(b)) => {
            let text = join_from(block, i + 1);
            let clean = strip_tags(&text);
            proof {
                lemma_strip_tags_no_brackets(text@);
            }
            let cs = crate::text::string_of(&clean);
            out.push((a, b, cs));
            assert(cues_view(out@) =~= before + seq![(a, b, cs@)]);
        },
        _ => {
            assert(cues_view(out@) =~= before + Seq::<SpecCue>::empty());
        },
    }
}

/// Parse SRT text into cues. Tolerant of CRLF, BOM and minor format drift.
pub fn parse_srt(text: &str) -> (r: Vec<Cue>)
    ensures
        cues_view(r@) == spec_parse_srt(text@),
        forall|k: int| 0 <= k < r@.len() ==> r@[k].0 < r@[k].1 && r@[k].2@.len() > 0,
        forall|k: int| 0 <= k < r@.len() ==> !r@[k].2@.contains('<') && !r@[k].2@.contains('>'),
        forall|k: int| 0 <= k < r@.len() ==> trim(r@[k].2@) == r@[k].2@,
{
    let chars = chars_of(text);
    let mut a: usize = 0;
    assert(chars@.subrange(0, chars.len() as int) =~= chars@);
    while a < chars.len() && chars[a] == '\u{FEFF}'
        invariant
            a <= chars.len(),
            strip_boms(chars@) == strip_boms(chars@.subrange(a as int, chars.len() as int)),
        decreases chars.len() - a,
    {
        assert(chars@.subrange(a as int, chars.len() as int).drop_first() =~= chars@.subrange(
            a + 1,
            chars.len() as int,
        ));
        a += 1;
    }
    let body = slice_chars(&chars, a, chars.len());
    let lines = lines_exec(&body);
    let blocks = blocks_exec(&lines);
    let ghost bs = blocks_view(blocks@);
    let mut cues: Vec<Cue> = Vec::new();
    let mut i: usize = 0;
    while i < blocks.len()
        invariant
            i <= blocks.len(),
            bs == blocks_view(blocks@),
            cues_view(cues@) == bs.take(i as int).filter_map(|b: Seq<Seq<char>>| cue_of_block(b)),
            forall|k: int| 0 <= k < cues@.len() ==> clean_text(#[trigger] cues@[k].2@),
        decreases blocks.len() - i,
    {
        assert(bs.take(i + 1).drop_last() =~= bs.take(i as int));
        assert(bs.take(i + 1).last() == lines_view(blocks@[i as int]@));
        push_cue(&blocks[i], &mut cues);
        i += 1;
    }
    assert(bs.take(blocks.len() as int) =~= bs);
    let ghost all = cues_view(cues@);
    let mut kept: Vec<Cue> = Vec::new();
    let mut j: usize = 0;
    while j < cues.len()
        invariant
            j <= cues.len(),
            all == cues_view(cues@),
            cues_view(kept@) == all.take(j as int).filter(|c: SpecCue| keep_cue(c)),
            forall|k: int| 0 <= k < kept@.len() ==> kept@[k].0 < kept@[k].1 && kept@[k].2@.len() > 0,
            forall|k: int| 0 <= k < cues@.len() ==> clean_text(#[trigger] cues@[k].2@),
            forall|k: int| 0 <= k < kept@.len() ==> clean_text(#[trigger] kept@[k].2@),
        decreases cues.len() - j,
    {
        proof {
            reveal_with_fuel(Seq::filter, 1);
            assert(all.take(j + 1).drop_last() =~= all.take(j as int));
        }
        let c = &cues[j];
        if c.1 > c.0 && !c.2.as_str().is_empty() {
            let ghost before = cues_view(kept@);
            kept.push((c.0, c.1, c.2.clone()));
            assert(cues_view(kept@) =~= before.push(all[j as int]));
        }
        j += 1;
    }
    assert(all.take(cues.len() as int) =~= all);
    kept
}

// ------------------------------------------------------------------ file bytes

/// UTF-16 decoding with replacement: a unit outside the surrogate range is
/// its character, a high surrogate followed by a low one is the character
/// they encode together, and any other surrogate becomes U+FFFD.
pub open spec fn utf16_lossy(u: Seq<u16>) -> Seq<char>
    decreases u.len(),
{
    if u.len() == 0 {
        Seq::empty()
    } else {
        let a = u[0];
        if a < 0xD800 || a > 0xDFFF {
            seq![(a as u32) as char] + utf16_lossy(u.drop_first())
        } else if a <= 0xDBFF && u.len() >= 2 && 0xDC00 <= u[1] <= 0xDFFF {
            let code = 0x10000 + (a - 0xD800) * 0x400 + (u[1] - 0xDC00);
            seq![(code as u32) as char] + utf16_lossy(u.skip(2))
        } else {
            seq!['\u{FFFD}'] + utf16_lossy(u.drop_first())
        }
    }
}

/// What `String::from_utf8_lossy` makes of bytes that are not valid UTF-8.
pub uninterp spec fn invalid_utf8_lossy(bytes: Seq<u8>) -> Seq<char>;

/// `String::from_utf8_lossy`: valid UTF-8 decodes to its characters;
/// invalid input is `invalid_utf8_lossy`.
pub open spec fn utf8_lossy(bytes: Seq<u8>) -> Seq<char> {
    if valid_utf8(bytes) {
        decode_utf8(bytes)
    } else {
        invalid_utf8_lossy(bytes)
    }
}

/// std's `String::from_utf16_lossy`: decodes UTF-16, replacing invalid
/// data (unpaired surrogates) with U+FFFD, as `utf16_lossy` states.
#[verifier::external_body]
fn from_utf16_lossy(units: &[u16]) -> (r: String)
    ensures
        r@ == utf16_lossy(units@),
{
    String::from_utf16_lossy(units)
}

/// std's `String::from_utf8_lossy` (made owned): valid UTF-8 gives the text
/// it encodes; invalid sequences are replaced with U+FFFD, which is not
/// stated here beyond the name `invalid_utf8_lossy` of the bytes.
#[verifier::external_body]
fn from_utf8_lossy(bytes: &[u8]) -> (r: String)
    ensures
        valid_utf8(bytes@) ==> r@ == decode_utf8(bytes@),
        !valid_utf8(bytes@) ==> r@ == invalid_utf8_lossy(bytes@),
{
    String::from_utf8_lossy(bytes).into_owned()
}

/// Little-endian 16-bit units of `b` (an odd trailing byte is dropped).
pub open spec fn units_le(b: Seq<u8>) -> Seq<u16> {
    Seq::new(b.len() / 2, |k: int| (b[2 * k] + 256 * b[2 * k + 1]) as u16)
}

/// Big-endian 16-bit units of `b` (an odd trailing byte is dropped).
pub open spec fn units_be(b: Seq<u8>) -> Seq<u16> {
    Seq::new(b.len() / 2, |k: int| (256 * b[2 * k] + b[2 * k + 1]) as u16)
}

/// The text of an .srt file: UTF-16 LE or BE after the matching byte-order
/// mark (`FF FE` / `FE FF`), UTF-8 otherwise, invalid data replaced.
pub open spec fn spec_srt_text(bytes: Seq<u8>) -> Seq<char> {
    if bytes.len() >= 2 && bytes[0] == 0xFF && bytes[1] == 0xFE {
        utf16_lossy(units_le(bytes.skip(2)))
    } else if bytes.len() >= 2 && bytes[0] == 0xFE && bytes[1] == 0xFF {
        utf16_lossy(units_be(bytes.skip(2)))
    } else {
        utf8_lossy(bytes)
    }
}

/// 16-bit units of `bytes[2..]`, little- or big-endian.
fn units_from(bytes: &[u8], little: bool) -> (r: Vec<u16>)
    requires
        bytes@.len() >= 2,
    ensures
        r@ == (if little {
            units_le(bytes@.skip(2))
        } else {
            units_be(bytes@.skip(2))
        }),
{
    let ghost b = bytes@.skip(2);
    let len = bytes.len();
    let n = (len - 2) / 2;
    let mut out: Vec<u16> = Vec::new();
    let mut k: usize = 0;
    while k < n
        invariant
            b == bytes@.skip(2),
            bytes@.len() >= 2,
            b.len() == bytes@.len() - 2,
            len == bytes@.len(),
            n == b.len() / 2,
            k <= n,
            out@.len() == k,
            forall|j: int|
                0 <= j < k ==> out@[j] == (if little {
                    (b[2 * j] + 256 * b[2 * j + 1]) as u16
                } else {
                    (256 * b[2 * j] + b[2 * j + 1]) as u16
                }),
        decreases n - k,
    {
        assert(2 * k + 3 < len) by (nonlinear_arith)
            requires
                k < n,
                n == (len - 2) / 2,
        ;
        let x = bytes[2 + 2 * k] as u16;
        let y = bytes[3 + 2 * k] as u16;
        let u: u16 = if little {
            x + 256 * y
        } else {
            256 * x + y
        };
        out.push(u);
        k += 1;
    }
    proof {
        if little {
            assert(out@ =~= units_le(b));
        } else {
            assert(out@ =~= units_be(b));
        }
    }
    out
}

/// Decodes the bytes of an .srt file into text: many files ship as UTF-16
/// on Windows, which the byte-order mark tells.
pub fn srt_text(bytes: &[u8]) -> (r: String)
    ensures
        r@ == spec_srt_text(bytes@),
{
    if bytes.len() >= 2 && bytes[0] == 0xFF && bytes[1] == 0xFE {
        let units = units_from(bytes, true);
        from_utf16_lossy(units.as_slice())
    } else if bytes.len() >= 2 && bytes[0] == 0xFE && bytes[1] == 0xFF {
        let units = units_from(bytes, false);
        from_utf16_lossy(units.as_slice())
    } else {
        from_utf8_lossy(bytes)
    }
}

/// The cues of an .srt file given as its bytes.
pub fn parse_srt_bytes(bytes: &[u8]) -> (r: Vec<Cue>)
    ensures
        cues_view(r@) == spec_parse_srt(spec_srt_text(bytes@)),
{
    let text = srt_text(bytes);
    parse_srt(text.as_str())
}

} // verus!
