//! Application vocabulary: workspaces, file-dialog modes and the string hash
//! used to key cached media.

use vstd::prelude::*;
use vstd::string::StringSliceAdditionalSpecFns;
use crate::model::{AssetKind, TrackKind};
use crate::media::{ascii_lowercase, lemma_image_kind, spec_classify_kind};
use crate::player::{fnv_le_bytes, fnv_mix, spec_hash_key, Tool, FNV_OFFSET, FNV_PRIME};
use crate::text::{chars_of, dec, dec_chars, lowercase, push_char, push_chars, to_lowercase};

verus! {

/// Workspaces; every tab switches the panel arrangement.
#[derive(Clone, Copy, PartialEq, Eq, Structural, Debug)]
pub enum Workspace {
    Edit,
    Color,
    Audio,
    Fx,
    Export,
}

/// What the in-app file browser is used for.
#[derive(Clone, Copy, PartialEq, Eq, Structural, Debug)]
pub enum FsMode {
    OpenMedia,
    OpenProject,
    SaveProject,
    SaveExport,
    PickLut,
    PickSrt,
}

impl FsMode {
    pub open spec fn spec_filter(self) -> Seq<Seq<char>> {
        match self {
            FsMode::OpenMedia => seq![
                "mp4"@,
                "mov"@,
                "mkv"@,
                "avi"@,
                "webm"@,
                "m4v"@,
                "mpg"@,
                "mpeg"@,
                "ts"@,
                "wmv"@,
                "mp3"@,
                "wav"@,
                "aac"@,
                "flac"@,
                "ogg"@,
                "m4a"@,
                "opus"@,
                "png"@,
                "jpg"@,
                "jpeg"@,
            ],
            FsMode::OpenProject | FsMode::SaveProject => seq!["kcproj"@],
            FsMode::SaveExport => seq!["mp4"@],
            FsMode::PickLut => seq!["cube"@],
            FsMode::PickSrt => seq!["srt"@],
        }
    }

    /// File extensions the browser lists in this mode.
    pub fn filter(&self) -> (r: Vec<&'static str>)
        ensures
            r@.map_values(|s: &str| s@) == self.spec_filter(),
    {
        let r = match self {
            FsMode::OpenMedia => vec![
                "mp4",
                "mov",
                "mkv",
                "avi",
                "webm",
                "m4v",
                "mpg",
                "mpeg",
                "ts",
                "wmv",
                "mp3",
                "wav",
                "aac",
                "flac",
                "ogg",
                "m4a",
                "opus",
                "png",
                "jpg",
                "jpeg",
            ],
            FsMode::OpenProject | FsMode::SaveProject => vec!["kcproj"],
            FsMode::SaveExport => vec!["mp4"],
            FsMode::PickLut => vec!["cube"],
            FsMode::PickSrt => vec!["srt"],
        };
        assert(r@.map_values(|s: &str| s@) =~= self.spec_filter());
        r
    }
}

/// `std::path::PathBuf`, carried opaquely in the library's records.
#[verifier::external_type_specification]
#[verifier::external_body]
pub struct ExPathBuf(std::path::PathBuf);

/// `std::time::Instant`, carried opaquely in the library's records.
#[verifier::external_type_specification]
#[verifier::external_body]
pub struct ExInstant(std::time::Instant);

/// `Instant::clone`: `Instant` is `Copy`, so the clone is the same instant.
pub assume_specification[<std::time::Instant as std::clone::Clone>::clone](i: &std::time::Instant) -> (r:
    std::time::Instant)
    ensures
        r == *i,
;

/// `PathBuf::clone`: nothing is claimed of the copy.
pub assume_specification[<std::path::PathBuf as std::clone::Clone>::clone](p: &std::path::PathBuf) -> (r:
    std::path::PathBuf);

/// State of the in-app file browser: the folder shown, what it is used for
/// and the file name typed so far.
#[derive(Clone)]
pub struct FsState {
    pub dir: std::path::PathBuf,
    pub mode: FsMode,
    pub name: String,
}

/// A transient notification: its text, its severity and when it was raised.
#[derive(Clone)]
pub struct Toast {
    pub msg: String,
    pub kind: u8,
    pub at: std::time::Instant,
}

/// Modal dialogs.
#[derive(Clone)]
pub enum Dialog {
    Fs(FsState),
    Learn,
    Proxies,
}

// ------------------------------------------------------------------ notifications

/// The queue after raising `t`: it goes last, and when that makes more than
/// five the oldest is dropped.
pub open spec fn spec_push_toast(q: Seq<Toast>, t: Toast) -> Seq<Toast> {
    if q.len() + 1 > 5 {
        q.push(t).drop_first()
    } else {
        q.push(t)
    }
}

/// Raise a notification; at most the five newest stay on screen.
pub fn push_toast(toasts: &mut Vec<Toast>, t: Toast)
    ensures
        final(toasts)@ == spec_push_toast(old(toasts)@, t),
        old(toasts)@.len() <= 5 ==> final(toasts)@.len() <= 5,
{
    toasts.push(t);
    if toasts.len() > 5 {
        toasts.remove(0);
    }
}

// ------------------------------------------------------------------ tracks and assets

/// Name of a new track: `V` or `A` followed by its number among the tracks
/// of its kind.
pub fn new_track_name(kind: TrackKind, existing: u64) -> (r: String)
    requires
        existing < u64::MAX,
    ensures
        r@ == seq![
            match kind {
                TrackKind::Video => 'V',
                TrackKind::Audio => 'A',
            },
        ] + dec(existing as nat + 1),
{
    let mut out = String::new();
    match kind {
        TrackKind::Video => push_char(&mut out, 'V'),
        TrackKind::Audio => push_char(&mut out, 'A'),
    }
    let d = dec_chars(existing + 1);
    push_chars(&mut out, &d);
    out
}

/// Whether an asset (when it is known) may be dropped on a track of the
/// given kind: audio goes on sound tracks, everything else on picture tracks.
pub fn asset_kind_matches_track(asset: Option<AssetKind>, track: TrackKind) -> (r: bool)
    ensures
        r == match asset {
            None => false,
            Some(k) => match track {
                TrackKind::Video => k != AssetKind::Audio,
                TrackKind::Audio => k == AssetKind::Audio,
            },
        },
{
    match asset {
        None => false,
        Some(k) => match track {
            TrackKind::Video => k != AssetKind::Audio,
            TrackKind::Audio => k == AssetKind::Audio,
        },
    }
}

/// Which tracks an asset needs when placed: a picture track for video and
/// stills, a sound track for audio and for anything with sound.
pub fn tracks_needed(kind: AssetKind, has_audio: bool) -> (r: (bool, bool))
    ensures
        r.0 == (kind == AssetKind::Video || kind == AssetKind::Image),
        r.1 == (has_audio || kind == AssetKind::Audio),
{
    (kind == AssetKind::Video || kind == AssetKind::Image, has_audio || kind == AssetKind::Audio)
}

// ------------------------------------------------------------------ selection

/// `ids` followed by those of `more` it does not hold yet, in order, each
/// once.
pub open spec fn append_new(ids: Seq<u64>, more: Seq<u64>) -> Seq<u64>
    decreases more.len(),
{
    if more.len() == 0 {
        ids
    } else {
        let acc = append_new(ids, more.drop_last());
        if acc.contains(more.last()) {
            acc
        } else {
            acc.push(more.last())
        }
    }
}

/// What `append_new` holds: everything it was given, and nothing else; the
/// ids it starts from stay in front.
pub proof fn lemma_append_new(ids: Seq<u64>, more: Seq<u64>)
    ensures
        forall|x: u64| ids.contains(x) || more.contains(x) <==> append_new(ids, more).contains(x),
        append_new(ids, more).len() >= ids.len(),
        append_new(ids, more).subrange(0, ids.len() as int) == ids,
    decreases more.len(),
{
    if more.len() > 0 {
        lemma_append_new(ids, more.drop_last());
        let acc = append_new(ids, more.drop_last());
        assert forall|x: u64| ids.contains(x) || more.contains(x) <==> append_new(ids, more).contains(
            x,
        ) by {
            if more.contains(x) && !more.drop_last().contains(x) {
                let j = choose|j: int| 0 <= j < more.len() && more[j] == x;
                if j < more.len() - 1 {
                    assert(more.drop_last()[j] == x);
                }
            }
            if more.drop_last().contains(x) {
                let j = choose|j: int| 0 <= j < more.drop_last().len() && more.drop_last()[j] == x;
                assert(more[j] == x);
            }
            if !acc.contains(more.last()) {
                assert(acc.push(more.last()).last() == more.last());
                if acc.contains(x) {
                    let j = choose|j: int| 0 <= j < acc.len() && acc[j] == x;
                    assert(acc.push(more.last())[j] == x);
                }
                if acc.push(more.last()).contains(x) && x != more.last() {
                    let j = choose|j: int| 0 <= j < acc.len() + 1 && acc.push(more.last())[j] == x;
                    assert(acc[j] == x);
                }
            }
            assert(more[more.len() - 1] == more.last());
        }
        if !acc.contains(more.last()) {
            assert(acc.push(more.last()).subrange(0, ids.len() as int) =~= acc.subrange(
                0,
                ids.len() as int,
            ));
        }
    }
}

fn contains_id(ids: &Vec<u64>, x: u64) -> (r: bool)
    ensures
        r == ids@.contains(x),
{
    let mut i: usize = 0;
    while i < ids.len()
        invariant
            i <= ids.len(),
            forall|k: int| 0 <= k < i ==> ids@[k] != x,
        decreases ids.len() - i,
    {
        if ids[i] == x {
            assert(ids@[i as int] == x);
            return true;
        }
        i += 1;
    }
    false
}

fn copy_ids(ids: &Vec<u64>) -> (r: Vec<u64>)
    ensures
        r@ == ids@,
{
    let mut out: Vec<u64> = Vec::new();
    let mut i: usize = 0;
    while i < ids.len()
        invariant
            i <= ids.len(),
            out@ == ids@.take(i as int),
        decreases ids.len() - i,
    {
        out.push(ids[i]);
        assert(ids@.take(i + 1) =~= ids@.take(i as int).push(ids@[i as int]));
        i += 1;
    }
    assert(ids@.take(ids.len() as int) =~= ids@);
    out
}

fn append_new_exec(ids: &mut Vec<u64>, more: &Vec<u64>)
    ensures
        final(ids)@ == append_new(old(ids)@, more@),
{
    let ghost start = ids@;
    let mut i: usize = 0;
    while i < more.len()
        invariant
            i <= more.len(),
            ids@ == append_new(start, more@.take(i as int)),
        decreases more.len() - i,
    {
        let m = more[i];
        assert(more@.take(i + 1).drop_last() =~= more@.take(i as int));
        assert(more@.take(i + 1).last() == m);
        if !contains_id(ids, m) {
            ids.push(m);
        }
        i += 1;
    }
    assert(more@.take(more.len() as int) =~= more@);
}

/// The clips an edit applies to.
pub open spec fn spec_edit_targets(sel_multi: Seq<u64>, sel: Option<u64>, group: Seq<u64>) -> Seq<
    u64,
> {
    match sel {
        None => sel_multi,
        Some(s) => append_new(append_new(sel_multi, seq![s]), group),
    }
}

/// The clips an edit applies to: the multi-selection, then the selected clip
/// and the other members of its group (`group`, empty when it has none),
/// each once.
pub fn edit_targets(sel_multi: &Vec<u64>, sel: Option<u64>, group: &Vec<u64>) -> (r: Vec<u64>)
    ensures
        r@ == spec_edit_targets(sel_multi@, sel, group@),
{
    let mut ids = copy_ids(sel_multi);
    match sel {
        None => ids,
        Some(s) => {
            let one = vec![s];
            assert(one@ =~= seq![s]);
            append_new_exec(&mut ids, &one);
            append_new_exec(&mut ids, group);
            ids
        },
    }
}

/// An edit reaches exactly the multi-selection, the selected clip and its
/// group, and the multi-selection keeps its order in front.
pub proof fn lemma_edit_targets_cover(sel_multi: Seq<u64>, sel: Option<u64>, group: Seq<u64>)
    ensures
        forall|x: u64|
            #![trigger spec_edit_targets(sel_multi, sel, group).contains(x)]
            spec_edit_targets(sel_multi, sel, group).contains(x) <==> (sel_multi.contains(x) || sel
                == Some(x) || (sel is Some && group.contains(x))),
        spec_edit_targets(sel_multi, sel, group).subrange(0, sel_multi.len() as int) == sel_multi,
{
    let all = spec_edit_targets(sel_multi, sel, group);
    match sel {
        None => {
            assert(all == sel_multi);
            assert(sel_multi.subrange(0, sel_multi.len() as int) =~= sel_multi);
        },
        Some(s) => {
            let one = seq![s];
            lemma_append_new(sel_multi, one);
            let first = append_new(sel_multi, one);
            lemma_append_new(first, group);
            assert(all == append_new(first, group));
            assert forall|x: u64| one.contains(x) <==> s == x by {
                if s == x {
                    assert(one[0] == x);
                }
            }
            assert forall|x: u64|
                #![trigger all.contains(x)]
                all.contains(x) <==> (sel_multi.contains(x) || sel == Some(x) || (sel is Some
                    && group.contains(x))) by {
                assert(first.contains(x) <==> sel_multi.contains(x) || one.contains(x));
                assert(all.contains(x) <==> first.contains(x) || group.contains(x));
            }
            assert(all.subrange(0, first.len() as int) == first);
            assert(all.subrange(0, sel_multi.len() as int) =~= first.subrange(0, sel_multi.len() as int));
        },
    }
}

/// The clips that grouping would join: the multi-selection and the selected
/// clip, each once; `None` when that is fewer than two clips.
pub fn grouping_ids(sel_multi: &Vec<u64>, sel: Option<u64>) -> (r: Option<Vec<u64>>)
    ensures
        ({
            let all = match sel {
                None => sel_multi@,
                Some(s) => append_new(sel_multi@, seq![s]),
            };
            match r {
                Some(v) => v@ == all && all.len() >= 2,
                None => all.len() < 2,
            }
        }),
{
    let mut all = copy_ids(sel_multi);
    match sel {
        None => {},
        Some(s) => {
            let one = vec![s];
            assert(one@ =~= seq![s]);
            append_new_exec(&mut all, &one);
        },
    }
    if all.len() < 2 {
        None
    } else {
        Some(all)
    }
}

// ------------------------------------------------------------------ media pool search

/// `t` occurs in `s` at index `i`.
pub open spec fn occurs_at(s: Seq<char>, t: Seq<char>, i: int) -> bool {
    0 <= i && i + t.len() <= s.len() && s.subrange(i, i + t.len() as int) == t
}

/// Whether an asset label is listed for a search text: always for an empty
/// search, otherwise when the lowercased search occurs in the lowercased
/// label.
pub open spec fn spec_matches_search(label: Seq<char>, search: Seq<char>) -> bool {
    search.len() == 0 || exists|i: int| occurs_at(lowercase(label), lowercase(search), i)
}

fn find_at(s: &Vec<char>, t: &Vec<char>, i: usize) -> (r: bool)
    requires
        i + t.len() <= s.len(),
    ensures
        r == occurs_at(s@, t@, i as int),
{
    let mut k: usize = 0;
    while k < t.len()
        invariant
            k <= t.len(),
            i + t.len() <= s.len(),
            forall|j: int| 0 <= j < k ==> s@[i + j] == t@[j],
        decreases t.len() - k,
    {
        if s[i + k] != t[k] {
            assert(s@.subrange(i as int, i + t.len())[k as int] != t@[k as int]);
            return false;
        }
        k += 1;
    }
    assert(s@.subrange(i as int, i + t.len()) =~= t@);
    true
}

/// Media pool search: whether an asset with this label is shown.
pub fn matches_search(label: &str, search: &str) -> (r: bool)
    ensures
        r == spec_matches_search(label@, search@),
{
    let sc = chars_of(search);
    if sc.len() == 0 {
        return true;
    }
    let l = chars_of(to_lowercase(label).as_str());
    let t = chars_of(to_lowercase(search).as_str());
    if t.len() > l.len() {
        return false;
    }
    let last = l.len() - t.len();
    let mut i: usize = 0;
    loop
        invariant
            search@.len() > 0,
            l@ == lowercase(label@),
            t@ == lowercase(search@),
            last == l.len() - t.len(),
            t.len() <= l.len(),
            i <= last,
            forall|j: int| 0 <= j < i ==> !occurs_at(l@, t@, j),
        decreases last - i,
    {
        if find_at(&l, &t, i) {
            assert(occurs_at(l@, t@, i as int));
            return true;
        }
        if i == last {
            assert forall|j: int| !occurs_at(l@, t@, j) by {
                if 0 <= j && j < i {
                } else if j == i {
                } else if j > i {
                    assert(j + t@.len() > l@.len());
                }
            }
            return false;
        }
        i += 1;
    }
}

// ------------------------------------------------------------------ export settings

/// Output frame size for the resolution menu: 1 is 1080p, 2 is 720p, any
/// other choice keeps the sequence size.
pub fn export_size(choice: usize, seq_w: u32, seq_h: u32) -> (r: (u32, u32))
    ensures
        r == (if choice == 1 {
            (1920u32, 1080u32)
        } else if choice == 2 {
            (1280u32, 720u32)
        } else {
            (seq_w, seq_h)
        }),
{
    if choice == 1 {
        (1920, 1080)
    } else if choice == 2 {
        (1280, 720)
    } else {
        (seq_w, seq_h)
    }
}

// ------------------------------------------------------------------ keyboard

/// The keys the editor reacts to.
#[derive(Clone, Copy, PartialEq, Eq, Structural, Debug)]
pub enum Key {
    Space,
    A,
    C,
    E,
    F,
    G,
    H,
    I,
    J,
    L,
    M,
    O,
    P,
    R,
    S,
    T,
    U,
    V,
    X,
    Y,
    Z,
    Delete,
    Backspace,
    ArrowLeft,
    ArrowRight,
    Home,
    End,
    Equals,
    Minus,
    Escape,
}

/// What a keyboard shortcut does.
#[derive(Clone, Copy, PartialEq, Eq, Structural, Debug)]
pub enum Shortcut {
    TogglePlay,
    Split,
    Delete,
    Undo,
    Redo,
    MarkIn,
    MarkOut,
    SecondForward,
    FrameForward,
    SecondBack,
    FrameBack,
    GoToIn,
    GoToOut,
    ToggleLoop,
    PickTool(Tool),
    ZoomIn,
    ZoomOut,
    OpenExport,
    Deselect,
    Copy,
    Cut,
    Paste,
    Group,
    Ungroup,
    AddMarker,
    FreezeFrame,
    ToggleReverse,
    Save,
}

/// The shortcut for the keys pressed in one frame, the first rule that
/// matches winning; nothing while a text field has the keyboard.
pub open spec fn spec_shortcut(typing: bool, keys: Seq<Key>, ctrl: bool, shift: bool) -> Option<
    Shortcut,
> {
    let k = |key: Key| keys.contains(key);
    if typing {
        None
    } else if k(Key::Space) {
        Some(Shortcut::TogglePlay)
    } else if k(Key::S) && !ctrl && !shift {
        Some(Shortcut::Split)
    } else if k(Key::Delete) || k(Key::Backspace) {
        Some(Shortcut::Delete)
    } else if k(Key::Z) && ctrl && !shift {
        Some(Shortcut::Undo)
    } else if (k(Key::Z) && ctrl && shift) || (k(Key::Y) && ctrl) {
        Some(Shortcut::Redo)
    } else if k(Key::I) {
        Some(Shortcut::MarkIn)
    } else if k(Key::O) {
        Some(Shortcut::MarkOut)
    } else if k(Key::ArrowRight) {
        Some(
            if shift {
                Shortcut::SecondForward
            } else {
                Shortcut::FrameForward
            },
        )
    } else if k(Key::ArrowLeft) {
        Some(
            if shift {
                Shortcut::SecondBack
            } else {
                Shortcut::FrameBack
            },
        )
    } else if k(Key::Home) {
        Some(Shortcut::GoToIn)
    } else if k(Key::End) {
        Some(Shortcut::GoToOut)
    } else if k(Key::L) && !ctrl {
        Some(Shortcut::ToggleLoop)
    } else if k(Key::A) && !ctrl {
        Some(Shortcut::PickTool(Tool::Select))
    } else if k(Key::C) && !ctrl {
        Some(Shortcut::PickTool(Tool::Razor))
    } else if k(Key::P) && !ctrl {
        Some(Shortcut::PickTool(Tool::Slip))
    } else if k(Key::G) && !ctrl {
        Some(Shortcut::PickTool(Tool::Pen))
    } else if k(Key::H) && !ctrl {
        Some(Shortcut::PickTool(Tool::Hand))
    } else if k(Key::Z) && !ctrl {
        Some(Shortcut::PickTool(Tool::Zoom))
    } else if k(Key::T) && !ctrl {
        Some(Shortcut::PickTool(Tool::Text))
    } else if k(Key::Equals) && ctrl {
        Some(Shortcut::ZoomIn)
    } else if k(Key::Minus) && ctrl {
        Some(Shortcut::ZoomOut)
    } else if k(Key::E) && ctrl {
        Some(Shortcut::OpenExport)
    } else if k(Key::Escape) {
        Some(Shortcut::Deselect)
    } else if k(Key::C) && ctrl {
        Some(Shortcut::Copy)
    } else if k(Key::X) && ctrl {
        Some(Shortcut::Cut)
    } else if k(Key::V) && ctrl {
        Some(Shortcut::Paste)
    } else if k(Key::G) && ctrl && !shift {
        Some(Shortcut::Group)
    } else if k(Key::G) && ctrl && shift {
        Some(Shortcut::Ungroup)
    } else if k(Key::M) && !ctrl {
        Some(Shortcut::AddMarker)
    } else if k(Key::F) && !ctrl {
        Some(Shortcut::FreezeFrame)
    } else if k(Key::R) && !ctrl {
        Some(Shortcut::ToggleReverse)
    } else if k(Key::S) && ctrl {
        Some(Shortcut::Save)
    } else if k(Key::J) && !ctrl {
        Some(Shortcut::PickTool(Tool::Slide))
    } else if k(Key::U) && !ctrl {
        Some(Shortcut::PickTool(Tool::Roll))
    } else {
        None
    }
}

fn key_down(keys: &Vec<Key>, key: Key) -> (r: bool)
    ensures
        r == keys@.contains(key),
{
    let mut i: usize = 0;
    while i < keys.len()
        invariant
            i <= keys.len(),
            forall|j: int| 0 <= j < i ==> keys@[j] != key,
        decreases keys.len() - i,
    {
        if keys[i] == key {
            assert(keys@[i as int] == key);
            return true;
        }
        i += 1;
    }
    false
}

/// The shortcut for the keys pressed this frame under the given modifiers.
pub fn shortcut(typing: bool, keys: &Vec<Key>, ctrl: bool, shift: bool) -> (r: Option<Shortcut>)
    ensures
        r == spec_shortcut(typing, keys@, ctrl, shift),
{
    if typing {
        None
    } else if key_down(keys, Key::Space) {
        Some(Shortcut::TogglePlay)
    } else if key_down(keys, Key::S) && !ctrl && !shift {
        Some(Shortcut::Split)
    } else if key_down(keys, Key::Delete) || key_down(keys, Key::Backspace) {
        Some(Shortcut::Delete)
    } else if key_down(keys, Key::Z) && ctrl && !shift {
        Some(Shortcut::Undo)
    } else if (key_down(keys, Key::Z) && ctrl && shift) || (key_down(keys, Key::Y) && ctrl) {
        Some(Shortcut::Redo)
    } else if key_down(keys, Key::I) {
        Some(Shortcut::MarkIn)
    } else if key_down(keys, Key::O) {
        Some(Shortcut::MarkOut)
    } else if key_down(keys, Key::ArrowRight) {
        Some(
            if shift {
                Shortcut::SecondForward
            } else {
                Shortcut::FrameForward
            },
        )
    } else if key_down(keys, Key::ArrowLeft) {
        Some(
            if shift {
                Shortcut::SecondBack
            } else {
                Shortcut::FrameBack
            },
        )
    } else if key_down(keys, Key::Home) {
        Some(Shortcut::GoToIn)
    } else if key_down(keys, Key::End) {
        Some(Shortcut::GoToOut)
    } else if key_down(keys, Key::L) && !ctrl {
        Some(Shortcut::ToggleLoop)
    } else if key_down(keys, Key::A) && !ctrl {
        Some(Shortcut::PickTool(Tool::Select))
    } else if key_down(keys, Key::C) && !ctrl {
        Some(Shortcut::PickTool(Tool::Razor))
    } else if key_down(keys, Key::P) && !ctrl {
        Some(Shortcut::PickTool(Tool::Slip))
    } else if key_down(keys, Key::G) && !ctrl {
        Some(Shortcut::PickTool(Tool::Pen))
    } else if key_down(keys, Key::H) && !ctrl {
        Some(Shortcut::PickTool(Tool::Hand))
    } else if key_down(keys, Key::Z) && !ctrl {
        Some(Shortcut::PickTool(Tool::Zoom))
    } else if key_down(keys, Key::T) && !ctrl {
        Some(Shortcut::PickTool(Tool::Text))
    } else if key_down(keys, Key::Equals) && ctrl {
        Some(Shortcut::ZoomIn)
    } else if key_down(keys, Key::Minus) && ctrl {
        Some(Shortcut::ZoomOut)
    } else if key_down(keys, Key::E) && ctrl {
        Some(Shortcut::OpenExport)
    } else if key_down(keys, Key::Escape) {
        Some(Shortcut::Deselect)
    } else if key_down(keys, Key::C) && ctrl {
        Some(Shortcut::Copy)
    } else if key_down(keys, Key::X) && ctrl {
        Some(Shortcut::Cut)
    } else if key_down(keys, Key::V) && ctrl {
        Some(Shortcut::Paste)
    } else if key_down(keys, Key::G) && ctrl && !shift {
        Some(Shortcut::Group)
    } else if key_down(keys, Key::G) && ctrl && shift {
        Some(Shortcut::Ungroup)
    } else if key_down(keys, Key::M) && !ctrl {
        Some(Shortcut::AddMarker)
    } else if key_down(keys, Key::F) && !ctrl {
        Some(Shortcut::FreezeFrame)
    } else if key_down(keys, Key::R) && !ctrl {
        Some(Shortcut::ToggleReverse)
    } else if key_down(keys, Key::S) && ctrl {
        Some(Shortcut::Save)
    } else if key_down(keys, Key::J) && !ctrl {
        Some(Shortcut::PickTool(Tool::Slide))
    } else if key_down(keys, Key::U) && !ctrl {
        Some(Shortcut::PickTool(Tool::Roll))
    } else {
        None
    }
}

/// FNV-1a over a byte sequence.
pub open spec fn fnv1a(bytes: Seq<u8>) -> u64
    decreases bytes.len(),
{
    if bytes.len() == 0 {
        FNV_OFFSET
    } else {
        fnv_mix(fnv1a(bytes.drop_last()), bytes.last() as u64)
    }
}

/// FNV-1a hash of the UTF-8 bytes of `s` (`spec_bytes` is the UTF-8
/// encoding of its characters).
pub fn fnv(s: &str) -> (r: u64)
    ensures
        r == fnv1a(s.spec_bytes()),
{
    let bytes = s.as_bytes();
    let mut h: u64 = FNV_OFFSET;
    let mut i: usize = 0;
    while i < bytes.len()
        invariant
            i <= bytes.len(),
            bytes@ == s.spec_bytes(),
            h == fnv1a(bytes@.take(i as int)),
        decreases bytes.len() - i,
    {
        assert(bytes@.take(i + 1).drop_last() =~= bytes@.take(i as int));
        h ^= bytes[i] as u64;
        h = h.wrapping_mul(FNV_PRIME);
        i += 1;
    }
    assert(bytes@.take(bytes.len() as int) =~= bytes@);
    h
}

/// The `k` low bytes of `v`, least significant first.
pub open spec fn low_bytes(v: u64, k: nat) -> Seq<u8>
    decreases k,
{
    if k == 0 {
        Seq::empty()
    } else {
        seq![(v & 0xff) as u8] + low_bytes(v >> 8, (k - 1) as nat)
    }
}

/// The 8 little-endian bytes of each value, values in order.
pub open spec fn le_bytes(vals: Seq<u64>) -> Seq<u8>
    decreases vals.len(),
{
    if vals.len() == 0 {
        Seq::empty()
    } else {
        le_bytes(vals.drop_last()) + low_bytes(vals.last(), 8)
    }
}

/// FNV-1a steps over `bytes` starting from the state `h`: a left fold that
/// xors in each byte and multiplies by the prime (wrapping).
pub open spec fn fnv_fold(h: u64, bytes: Seq<u8>) -> u64
    decreases bytes.len(),
{
    if bytes.len() == 0 {
        h
    } else {
        fnv_mix(fnv_fold(h, bytes.drop_last()), bytes.last() as u64)
    }
}

proof fn lemma_fnv1a_fold(bytes: Seq<u8>)
    ensures
        fnv1a(bytes) == fnv_fold(FNV_OFFSET, bytes),
    decreases bytes.len(),
{
    if bytes.len() > 0 {
        lemma_fnv1a_fold(bytes.drop_last());
    }
}

proof fn lemma_fnv_fold_concat(h: u64, p: Seq<u8>, q: Seq<u8>)
    ensures
        fnv_fold(h, p + q) == fnv_fold(fnv_fold(h, p), q),
    decreases q.len(),
{
    if q.len() == 0 {
        assert(p + q =~= p);
    } else {
        assert((p + q).drop_last() =~= p + q.drop_last());
        lemma_fnv_fold_concat(h, p, q.drop_last());
    }
}

proof fn lemma_fnv_le_bytes(h: u64, v: u64, k: nat)
    ensures
        fnv_le_bytes(h, v, k) == fnv_fold(h, low_bytes(v, k)),
    decreases k,
{
    if k > 0 {
        let b = (v & 0xff) as u8;
        assert((v & 0xff) < 256) by (bit_vector);
        assert(b as u64 == v & 0xff);
        lemma_fnv_le_bytes(fnv_mix(h, v & 0xff), v >> 8, (k - 1) as nat);
        lemma_fnv_fold_concat(h, seq![b], low_bytes(v >> 8, (k - 1) as nat));
        assert(seq![b].drop_last() =~= Seq::<u8>::empty());
        assert(fnv_fold(h, seq![b]) == fnv_mix(fnv_fold(h, Seq::<u8>::empty()), b as u64));
    }
}

proof fn lemma_hash_key_fold(vals: Seq<u64>)
    ensures
        spec_hash_key(vals) == fnv_fold(FNV_OFFSET, le_bytes(vals)),
    decreases vals.len(),
{
    if vals.len() > 0 {
        lemma_hash_key_fold(vals.drop_last());
        lemma_fnv_le_bytes(spec_hash_key(vals.drop_last()), vals.last(), 8);
        lemma_fnv_fold_concat(FNV_OFFSET, le_bytes(vals.drop_last()), low_bytes(vals.last(), 8));
    }
}

/// The decoder restart key of some values is the FNV-1a hash of their
/// little-endian bytes, values in order: the same hash `fnv` gives a text
/// with those bytes.
pub proof fn lemma_hash_key_is_fnv(vals: Seq<u64>)
    ensures
        spec_hash_key(vals) == fnv1a(le_bytes(vals)),
{
    lemma_hash_key_fold(vals);
    lemma_fnv1a_fold(le_bytes(vals));
}

/// Hashing two byte strings one after the other is folding the second into
/// the hash of the first: FNV-1a of `p + q` continues from FNV-1a of `p`.
pub proof fn lemma_fnv_concat(p: Seq<u8>, q: Seq<u8>)
    ensures
        fnv1a(p + q) == fnv_fold(fnv1a(p), q),
{
    lemma_fnv1a_fold(p + q);
    lemma_fnv1a_fold(p);
    lemma_fnv_fold_concat(FNV_OFFSET, p, q);
}

// ------------------------------------------------------------------ arrow keys

/// Keys whose shortcuts come before the arrow keys.
pub open spec fn outranks_arrows(k: Key) -> bool {
    k == Key::Space || k == Key::S || k == Key::Delete || k == Key::Backspace || k == Key::Z || k
        == Key::Y || k == Key::I || k == Key::O
}

/// The arrow keys step the playhead: one frame, or one second with Shift;
/// right steps forward and left back (right winning when both are held),
/// whatever else is held apart from the keys that come first, and Ctrl.
pub proof fn lemma_arrow_keys_step(keys: Seq<Key>, ctrl: bool, shift: bool)
    requires
        forall|i: int| 0 <= i < keys.len() ==> !outranks_arrows(#[trigger] keys[i]),
    ensures
        keys.contains(Key::ArrowRight) ==> spec_shortcut(false, keys, ctrl, shift) == Some(
            if shift {
                Shortcut::SecondForward
            } else {
                Shortcut::FrameForward
            },
        ),
        keys.contains(Key::ArrowLeft) && !keys.contains(Key::ArrowRight) ==> spec_shortcut(
            false,
            keys,
            ctrl,
            shift,
        ) == Some(
            if shift {
                Shortcut::SecondBack
            } else {
                Shortcut::FrameBack
            },
        ),
        !shift && keys.contains(Key::ArrowLeft) && !keys.contains(Key::ArrowRight) ==> spec_shortcut(
            false,
            keys,
            ctrl,
            shift,
        ) != Some(Shortcut::SecondBack),
{
    assert forall|key: Key| outranks_arrows(key) implies !keys.contains(key) by {
        if keys.contains(key) {
            let i = choose|i: int| 0 <= i < keys.len() && keys[i] == key;
            assert(!outranks_arrows(keys[i]));
        }
    }
}

/// Left and right are mirror images: with the same modifiers, the left
/// arrow alone steps back exactly as far as the right arrow alone steps
/// forward.
pub proof fn lemma_arrow_keys_mirror(ctrl: bool, shift: bool)
    ensures
        spec_shortcut(false, seq![Key::ArrowRight], ctrl, shift) == Some(Shortcut::FrameForward)
            <==> spec_shortcut(false, seq![Key::ArrowLeft], ctrl, shift) == Some(Shortcut::FrameBack),
        spec_shortcut(false, seq![Key::ArrowRight], ctrl, shift) == Some(Shortcut::SecondForward)
            <==> spec_shortcut(false, seq![Key::ArrowLeft], ctrl, shift) == Some(Shortcut::SecondBack),
        spec_shortcut(false, seq![Key::ArrowLeft], ctrl, shift) == Some(Shortcut::SecondBack) <==> shift,
{
    lemma_arrow_keys_step(seq![Key::ArrowRight], ctrl, shift);
    lemma_arrow_keys_step(seq![Key::ArrowLeft], ctrl, shift);
    assert(seq![Key::ArrowRight][0] == Key::ArrowRight);
    assert(seq![Key::ArrowLeft][0] == Key::ArrowLeft);
    assert(!seq![Key::ArrowLeft].contains(Key::ArrowRight)) by {
        if seq![Key::ArrowLeft].contains(Key::ArrowRight) {
            let i = choose|i: int| 0 <= i < 1 && seq![Key::ArrowLeft][i] == Key::ArrowRight;
        }
    }
}

proof fn lemma_one_key(k: Key)
    ensures
        forall|x: Key| #[trigger] seq![k].contains(x) <==> x == k,
{
    assert forall|x: Key| #[trigger] seq![k].contains(x) <==> x == k by {
        if x == k {
            assert(seq![k][0] == x);
        }
    }
}

/// The documented keyboard shortcuts, each key pressed alone: Space plays
/// or pauses, S splits, A/C/P/G/H/Z/T pick the select, razor, slip, pen,
/// hand, zoom and text tools, I/O mark in and out, Del deletes, Ctrl+Z and
/// Ctrl+Y undo and redo, and the arrows step a frame (a second with Shift).
pub proof fn lemma_documented_shortcuts(shift: bool)
    ensures
        spec_shortcut(false, seq![Key::Space], false, false) == Some(Shortcut::TogglePlay),
        spec_shortcut(false, seq![Key::S], false, false) == Some(Shortcut::Split),
        spec_shortcut(false, seq![Key::A], false, false) == Some(Shortcut::PickTool(Tool::Select)),
        spec_shortcut(false, seq![Key::C], false, false) == Some(Shortcut::PickTool(Tool::Razor)),
        spec_shortcut(false, seq![Key::P], false, false) == Some(Shortcut::PickTool(Tool::Slip)),
        spec_shortcut(false, seq![Key::G], false, false) == Some(Shortcut::PickTool(Tool::Pen)),
        spec_shortcut(false, seq![Key::H], false, false) == Some(Shortcut::PickTool(Tool::Hand)),
        spec_shortcut(false, seq![Key::Z], false, false) == Some(Shortcut::PickTool(Tool::Zoom)),
        spec_shortcut(false, seq![Key::T], false, false) == Some(Shortcut::PickTool(Tool::Text)),
        spec_shortcut(false, seq![Key::I], false, false) == Some(Shortcut::MarkIn),
        spec_shortcut(false, seq![Key::O], false, false) == Some(Shortcut::MarkOut),
        spec_shortcut(false, seq![Key::Delete], false, false) == Some(Shortcut::Delete),
        spec_shortcut(false, seq![Key::Z], true, false) == Some(Shortcut::Undo),
        spec_shortcut(false, seq![Key::Y], true, false) == Some(Shortcut::Redo),
        spec_shortcut(false, seq![Key::ArrowLeft], false, shift) == Some(
            if shift {
                Shortcut::SecondBack
            } else {
                Shortcut::FrameBack
            },
        ),
        spec_shortcut(false, seq![Key::ArrowRight], false, shift) == Some(
            if shift {
                Shortcut::SecondForward
            } else {
                Shortcut::FrameForward
            },
        ),
{
    lemma_one_key(Key::Space);
    lemma_one_key(Key::S);
    lemma_one_key(Key::A);
    lemma_one_key(Key::C);
    lemma_one_key(Key::P);
    lemma_one_key(Key::G);
    lemma_one_key(Key::H);
    lemma_one_key(Key::Z);
    lemma_one_key(Key::T);
    lemma_one_key(Key::I);
    lemma_one_key(Key::O);
    lemma_one_key(Key::Delete);
    lemma_one_key(Key::Y);
    lemma_one_key(Key::ArrowLeft);
    lemma_one_key(Key::ArrowRight);
}

/// While a text field has the keyboard no key is a shortcut.
pub proof fn lemma_typing_has_no_shortcut(keys: Seq<Key>, ctrl: bool, shift: bool)
    ensures
        spec_shortcut(true, keys, ctrl, shift) is None,
{
}

// ------------------------------------------------------------------ media files

/// The still-image entries of the Open Media filter (png, jpg, jpeg) are
/// listed there and are imported as images.
pub proof fn lemma_open_media_images_are_images()
    ensures
        FsMode::OpenMedia.spec_filter().contains("png"@),
        FsMode::OpenMedia.spec_filter().contains("jpg"@),
        FsMode::OpenMedia.spec_filter().contains("jpeg"@),
        forall|i: int|
            0 <= i < FsMode::OpenMedia.spec_filter().len() && (#[trigger] FsMode::OpenMedia.spec_filter()[i]
                == "png"@ || FsMode::OpenMedia.spec_filter()[i] == "jpg"@
                || FsMode::OpenMedia.spec_filter()[i] == "jpeg"@) ==> spec_classify_kind(
                FsMode::OpenMedia.spec_filter()[i],
            ) == AssetKind::Image,
{
    let f = FsMode::OpenMedia.spec_filter();
    assert(f[17] == "png"@);
    assert(f[18] == "jpg"@);
    assert(f[19] == "jpeg"@);
    reveal_strlit("png");
    reveal_strlit("jpg");
    reveal_strlit("jpeg");
    assert(ascii_lowercase("png"@) =~= "png"@);
    assert(ascii_lowercase("jpg"@) =~= "jpg"@);
    assert(ascii_lowercase("jpeg"@) =~= "jpeg"@);
    lemma_image_kind("png"@);
    lemma_image_kind("jpg"@);
    lemma_image_kind("jpeg"@);
}

} // verus!
