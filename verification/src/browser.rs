//! What the in-app file browser lists for a folder: hidden entries left
//! out, folders first, then by name, and only the files whose extension
//! the browser's mode accepts. Reading the folder is the caller's part.

use vstd::prelude::*;
use crate::app::FsMode;
use crate::text::{chars_of, lowercase, str_eq, to_lowercase};

verus! {

/// One folder entry: its file name, whether it is a folder, and its
/// extension (empty when it has none).
pub struct DirEntry {
    pub name: String,
    pub is_dir: bool,
    pub ext: String,
}

/// An entry as the specification sees it.
pub type EntryView = (Seq<char>, bool, Seq<char>);

pub open spec fn entry_view(e: DirEntry) -> EntryView {
    (e.name@, e.is_dir, e.ext@)
}

pub open spec fn entries_view(v: Seq<DirEntry>) -> Seq<EntryView> {
    v.map_values(|e: DirEntry| entry_view(e))
}

// ------------------------------------------------------------------ names in order

/// `a` sorts before or with `b`: lexicographic by character code, which is
/// also the byte order of their UTF-8 encodings.
pub open spec fn name_le(a: Seq<char>, b: Seq<char>) -> bool
    decreases a.len(),
{
    if a.len() == 0 {
        true
    } else if b.len() == 0 {
        false
    } else if a[0] != b[0] {
        (a[0] as int) < (b[0] as int)
    } else {
        name_le(a.drop_first(), b.drop_first())
    }
}

proof fn lemma_name_le_total(a: Seq<char>, b: Seq<char>)
    ensures
        name_le(a, b) || name_le(b, a),
    decreases a.len(),
{
    if a.len() > 0 && b.len() > 0 {
        if a[0] == b[0] {
            lemma_name_le_total(a.drop_first(), b.drop_first());
        } else {
            assert((a[0] as int) != (b[0] as int));
        }
    }
}

proof fn lemma_name_le_trans(a: Seq<char>, b: Seq<char>, c: Seq<char>)
    requires
        name_le(a, b),
        name_le(b, c),
    ensures
        name_le(a, c),
    decreases a.len(),
{
    if a.len() > 0 && b.len() > 0 && c.len() > 0 && a[0] == b[0] && b[0] == c[0] {
        lemma_name_le_trans(a.drop_first(), b.drop_first(), c.drop_first());
    }
}

/// Folders before files, then by name.
pub open spec fn entry_le(x: EntryView, y: EntryView) -> bool {
    (x.1 && !y.1) || (x.1 == y.1 && name_le(x.0, y.0))
}

proof fn lemma_entry_le_total(x: EntryView, y: EntryView)
    ensures
        entry_le(x, y) || entry_le(y, x),
{
    lemma_name_le_total(x.0, y.0);
}

proof fn lemma_entry_le_trans(x: EntryView, y: EntryView, z: EntryView)
    requires
        entry_le(x, y),
        entry_le(y, z),
    ensures
        entry_le(x, z),
{
    if x.1 == y.1 && y.1 == z.1 {
        lemma_name_le_trans(x.0, y.0, z.0);
    }
}

pub open spec fn sorted_entries(s: Seq<EntryView>) -> bool {
    forall|i: int, j: int| 0 <= i < j < s.len() ==> #[trigger] entry_le(s[i], s[j])
}

// ------------------------------------------------------------------ stable insertion

/// Where `e` goes in `out`: after every entry that sorts before or with it.
pub open spec fn insert_pos(out: Seq<EntryView>, e: EntryView) -> int
    decreases out.len(),
{
    if out.len() == 0 {
        0
    } else if !entry_le(out[0], e) {
        0
    } else {
        1 + insert_pos(out.drop_first(), e)
    }
}

/// `s` sorted stably: entries that compare equal keep their order.
pub open spec fn sort_entries(s: Seq<EntryView>) -> Seq<EntryView>
    decreases s.len(),
{
    if s.len() == 0 {
        Seq::empty()
    } else {
        let o = sort_entries(s.drop_last());
        o.insert(insert_pos(o, s.last()), s.last())
    }
}

proof fn lemma_insert_pos(out: Seq<EntryView>, e: EntryView)
    ensures
        0 <= insert_pos(out, e) <= out.len(),
        forall|k: int| 0 <= k < insert_pos(out, e) ==> entry_le(#[trigger] out[k], e),
        insert_pos(out, e) < out.len() ==> !entry_le(out[insert_pos(out, e)], e),
    decreases out.len(),
{
    if out.len() > 0 && entry_le(out[0], e) {
        lemma_insert_pos(out.drop_first(), e);
        assert forall|k: int| 0 <= k < insert_pos(out, e) implies entry_le(#[trigger] out[k], e) by {
            if k > 0 {
                assert(out[k] == out.drop_first()[k - 1]);
            }
        }
    }
}

proof fn lemma_sort_entries(s: Seq<EntryView>)
    ensures
        sorted_entries(sort_entries(s)),
        sort_entries(s).to_multiset() == s.to_multiset(),
        sort_entries(s).len() == s.len(),
    decreases s.len(),
{
    broadcast use vstd::seq_lib::to_multiset_insert;
    broadcast use vstd::seq_lib::to_multiset_build;
    broadcast use vstd::seq_lib::group_to_multiset_ensures;

    if s.len() == 0 {
        assert(s =~= Seq::<EntryView>::empty());
    } else {
        let o = sort_entries(s.drop_last());
        let e = s.last();
        lemma_sort_entries(s.drop_last());
        lemma_insert_pos(o, e);
        let p = insert_pos(o, e);
        let r = o.insert(p, e);
        assert(s =~= s.drop_last().push(e));
        assert(s.to_multiset() == s.drop_last().push(e).to_multiset());
        assert(r.to_multiset() == o.to_multiset().insert(e));
        assert forall|i: int, j: int| 0 <= i < j < r.len() implies #[trigger] entry_le(r[i], r[j]) by {
            if j < p {
                assert(r[i] == o[i] && r[j] == o[j]);
            } else if j == p {
                assert(r[i] == o[i]);
            } else if i < p {
                assert(r[i] == o[i] && r[j] == o[j - 1]);
                if i <= j - 1 {
                    assert(entry_le(o[i], e));
                    lemma_entry_le_total(o[p], e);
                    if i < p && p < j - 1 {
                        assert(entry_le(o[p], o[j - 1]));
                    }
                    if p <= j - 1 {
                        lemma_entry_le_total(o[p], e);
                        assert(entry_le(e, o[p]));
                        if p < j - 1 {
                            lemma_entry_le_trans(e, o[p], o[j - 1]);
                        }
                        lemma_entry_le_trans(o[i], e, o[j - 1]);
                    }
                }
            } else if i == p {
                assert(r[j] == o[j - 1]);
                lemma_entry_le_total(o[p], e);
                if p < j - 1 {
                    lemma_entry_le_trans(e, o[p], o[j - 1]);
                }
            } else {
                assert(r[i] == o[i - 1] && r[j] == o[j - 1]);
            }
        }
    }
}

// ------------------------------------------------------------------ the listing

/// Names starting with a dot are hidden.
pub open spec fn is_hidden(name: Seq<char>) -> bool {
    name.len() > 0 && name[0] == '.'
}

/// Whether a (non-hidden) entry is shown in `mode`: folders always, files
/// when the mode lists no extensions or lists their lowercased extension.
pub open spec fn is_shown(e: EntryView, mode: FsMode) -> bool {
    e.1 || mode.spec_filter().len() == 0 || mode.spec_filter().contains(lowercase(e.2))
}

/// The listing: hidden entries left out, the rest sorted folders first and
/// then by name (stably), and of those the ones shown in `mode`.
pub open spec fn spec_listing(entries: Seq<EntryView>, mode: FsMode) -> Seq<EntryView> {
    sort_entries(entries.filter(|e: EntryView| !is_hidden(e.0))).filter(|e: EntryView| is_shown(e, mode))
}

fn entry_le_exec(x: &DirEntry, y: &DirEntry) -> (r: bool)
    ensures
        r == entry_le(entry_view(*x), entry_view(*y)),
{
    if x.is_dir && !y.is_dir {
        return true;
    }
    if x.is_dir != y.is_dir {
        return false;
    }
    let a = chars_of(x.name.as_str());
    let b = chars_of(y.name.as_str());
    let mut i: usize = 0;
    assert(a@.skip(0) =~= a@);
    assert(b@.skip(0) =~= b@);
    while i < a.len() && i < b.len() && a[i] == b[i]
        invariant
            a@ == x.name@,
            b@ == y.name@,
            i <= a.len(),
            i <= b.len(),
            name_le(a@, b@) == name_le(a@.skip(i as int), b@.skip(i as int)),
        decreases a.len() - i,
    {
        assert(a@.skip(i as int).drop_first() =~= a@.skip(i + 1));
        assert(b@.skip(i as int).drop_first() =~= b@.skip(i + 1));
        i += 1;
    }
    if i == a.len() {
        true
    } else if i == b.len() {
        false
    } else {
        assert(a@.skip(i as int)[0] == a@[i as int]);
        assert(b@.skip(i as int)[0] == b@[i as int]);
        a[i] < b[i]
    }
}

fn shown_exec(e: &DirEntry, filter: &Vec<&'static str>, mode: FsMode) -> (r: bool)
    requires
        filter@.map_values(|s: &str| s@) == mode.spec_filter(),
    ensures
        r == is_shown(entry_view(*e), mode),
{
    assert(filter@.map_values(|s: &str| s@).len() == filter.len());
    if e.is_dir || filter.len() == 0 {
        return true;
    }
    let lower = to_lowercase(e.ext.as_str());
    let ghost fv = filter@.map_values(|s: &str| s@);
    let mut i: usize = 0;
    while i < filter.len()
        invariant
            i <= filter.len(),
            fv == filter@.map_values(|s: &str| s@),
            fv == mode.spec_filter(),
            lower@ == lowercase(e.ext@),
            forall|k: int| 0 <= k < i ==> fv[k] != lower@,
        decreases filter.len() - i,
    {
        if str_eq(filter[i], lower.as_str()) {
            assert(fv[i as int] == lower@);
            assert(mode.spec_filter()[i as int] == lower@);
            assert(mode.spec_filter().contains(lower@));
            return true;
        }
        i += 1;
    }
    false
}

fn copy_entry(e: &DirEntry) -> (r: DirEntry)
    ensures
        entry_view(r) == entry_view(*e),
{
    DirEntry { name: e.name.clone(), is_dir: e.is_dir, ext: e.ext.clone() }
}

proof fn lemma_view_push(v: Seq<DirEntry>, e: DirEntry)
    ensures
        entries_view(v.push(e)) == entries_view(v).push(entry_view(e)),
{
    assert(entries_view(v.push(e)) =~= entries_view(v).push(entry_view(e)));
}

/// Every entry of a filtered sorted sequence is sorted too.
proof fn lemma_filter_sorted(s: Seq<EntryView>, pred: spec_fn(EntryView) -> bool)
    requires
        sorted_entries(s),
    ensures
        sorted_entries(s.filter(pred)),
    decreases s.len(),
{
    reveal_with_fuel(Seq::filter, 1);
    if s.len() > 0 {
        let d = s.drop_last();
        assert(sorted_entries(d)) by {
            assert forall|i: int, j: int| 0 <= i < j < d.len() implies #[trigger] entry_le(d[i], d[j]) by {
                assert(d[i] == s[i] && d[j] == s[j]);
            }
        }
        lemma_filter_sorted(d, pred);
        let f = d.filter(pred);
        if pred(s.last()) {
            let r = f.push(s.last());
            assert(s.filter(pred) == r);
            assert forall|i: int, j: int| 0 <= i < j < r.len() implies #[trigger] entry_le(r[i], r[j]) by {
                if j == r.len() - 1 {
                    assert(f.contains(f[i]));
                    d.lemma_filter_contains_rev(pred, f[i]);
                    assert(d.contains(f[i]));
                    let k = choose|k: int| 0 <= k < d.len() && d[k] == f[i];
                    assert(entry_le(s[k], s[s.len() - 1]));
                } else {
                    assert(r[i] == f[i] && r[j] == f[j]);
                }
            }
        }
    }
}

/// The file browser shows exactly the entries that are not hidden and that
/// its mode accepts, folders first and then by name.
pub proof fn lemma_listing(entries: Seq<EntryView>, mode: FsMode)
    ensures
        sorted_entries(spec_listing(entries, mode)),
        forall|x: EntryView|
            #![trigger spec_listing(entries, mode).contains(x)]
            spec_listing(entries, mode).contains(x) <==> (entries.contains(x) && !is_hidden(x.0)
                && is_shown(x, mode)),
{
    let not_hidden = |e: EntryView| !is_hidden(e.0);
    let shown = |e: EntryView| is_shown(e, mode);
    let v = entries.filter(not_hidden);
    let so = sort_entries(v);
    lemma_sort_entries(v);
    lemma_filter_sorted(so, shown);
    assert forall|x: EntryView|
        #![trigger spec_listing(entries, mode).contains(x)]
        spec_listing(entries, mode).contains(x) <==> (entries.contains(x) && !is_hidden(x.0)
            && is_shown(x, mode)) by {
        broadcast use vstd::seq_lib::to_multiset_contains;
        broadcast use vstd::seq_lib::group_filter_ensures;

        if entries.contains(x) && !is_hidden(x.0) {
            let k = choose|k: int| 0 <= k < entries.len() && entries[k] == x;
            assert(not_hidden(entries[k]));
            assert(v.contains(x));
            assert(v.to_multiset().contains(x));
            assert(so.contains(x));
            if is_shown(x, mode) {
                let j = choose|j: int| 0 <= j < so.len() && so[j] == x;
                assert(shown(so[j]));
            }
        }
        if spec_listing(entries, mode).contains(x) {
            let f = so.filter(shown);
            let j = choose|j: int| 0 <= j < f.len() && f[j] == x;
            assert(shown(f[j]));
            so.lemma_filter_contains_rev(shown, x);
            assert(so.contains(x));
            assert(so.to_multiset().contains(x));
            assert(v.contains(x));
            let k = choose|k: int| 0 <= k < v.len() && v[k] == x;
            assert(not_hidden(v[k]));
            entries.lemma_filter_contains_rev(not_hidden, x);
        }
    }
}

/// The entries the file browser shows for a folder, in display order.
pub fn listing(entries: &Vec<DirEntry>, mode: FsMode) -> (r: Vec<DirEntry>)
    ensures
        entries_view(r@) == spec_listing(entries_view(entries@), mode),
{
    let ghost ev = entries_view(entries@);
    // hidden entries out
    let mut visible: Vec<DirEntry> = Vec::new();
    let mut i: usize = 0;
    while i < entries.len()
        invariant
            i <= entries.len(),
            ev == entries_view(entries@),
            entries_view(visible@) == ev.take(i as int).filter(|e: EntryView| !is_hidden(e.0)),
        decreases entries.len() - i,
    {
        proof {
            reveal_with_fuel(Seq::filter, 1);
            assert(ev.take(i + 1).drop_last() =~= ev.take(i as int));
            assert(ev.take(i + 1).last() == entry_view(entries@[i as int]));
        }
        let e = &entries[i];
        let name = chars_of(e.name.as_str());
        let hidden = name.len() > 0 && name[0] == '.';
        assert(hidden == is_hidden(entry_view(*e).0));
        assert(entry_view(*e) == ev[i as int]);
        if !hidden {
            let c = copy_entry(e);
            proof {
                lemma_view_push(visible@, c);
            }
            visible.push(c);
        }
        i += 1;
    }
    assert(ev.take(entries.len() as int) =~= ev);
    let ghost vv = entries_view(visible@);
    // stable insertion sort
    let mut sorted: Vec<DirEntry> = Vec::new();
    let mut j: usize = 0;
    while j < visible.len()
        invariant
            j <= visible.len(),
            vv == entries_view(visible@),
            entries_view(sorted@) == sort_entries(vv.take(j as int)),
        decreases visible.len() - j,
    {
        let e = copy_entry(&visible[j]);
        let ghost sv = entries_view(sorted@);
        let ghost ee = entry_view(e);
        assert(vv.take(j + 1).drop_last() =~= vv.take(j as int));
        assert(vv.take(j + 1).last() == ee);
        let mut k: usize = 0;
        assert(sv.skip(0) =~= sv);
        while k < sorted.len() && entry_le_exec(&sorted[k], &e)
            invariant
                k <= sorted.len(),
                sv == entries_view(sorted@),
                ee == entry_view(e),
                insert_pos(sv, ee) == k + insert_pos(sv.skip(k as int), ee),
            decreases sorted.len() - k,
        {
            assert(sv.skip(k as int)[0] == sv[k as int]);
            assert(sv.skip(k as int).drop_first() =~= sv.skip(k + 1));
            k += 1;
        }
        proof {
            if k < sorted.len() {
                assert(sv.skip(k as int)[0] == sv[k as int]);
            }
        }
        sorted.insert(k, e);
        assert(entries_view(sorted@) =~= sv.insert(k as int, ee));
        j += 1;
    }
    assert(vv.take(visible.len() as int) =~= vv);
    let ghost so = entries_view(sorted@);
    // entries the mode accepts
    let filter = mode.filter();
    let mut out: Vec<DirEntry> = Vec::new();
    let mut m: usize = 0;
    while m < sorted.len()
        invariant
            m <= sorted.len(),
            so == entries_view(sorted@),
            filter@.map_values(|s: &str| s@) == mode.spec_filter(),
            entries_view(out@) == so.take(m as int).filter(|e: EntryView| is_shown(e, mode)),
        decreases sorted.len() - m,
    {
        proof {
            reveal_with_fuel(Seq::filter, 1);
            assert(so.take(m + 1).drop_last() =~= so.take(m as int));
            assert(so.take(m + 1).last() == entry_view(sorted@[m as int]));
        }
        assert(entry_view(sorted@[m as int]) == so[m as int]);
        if shown_exec(&sorted[m], &filter, mode) {
            let c = copy_entry(&sorted[m]);
            proof {
                lemma_view_push(out@, c);
            }
            out.push(c);
        }
        m += 1;
    }
    assert(so.take(sorted.len() as int) =~= so);
    out
}

} // verus!
