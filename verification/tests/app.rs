use kestrelcut::app::{
    asset_kind_matches_track, edit_targets, export_size, fnv, grouping_ids, matches_search, new_track_name, push_toast,
    shortcut,
    tracks_needed, Dialog, FsMode, FsState, Key, Shortcut, Toast,
};
use kestrelcut::model::{AssetKind, TrackKind};
use kestrelcut::player::Tool;

#[test]
fn fnv_known_values() {
    assert_eq!(fnv(""), 0xcbf29ce484222325);
    assert_eq!(fnv("a"), 0xaf63dc4c8601ec8c);
    // hashes the UTF-8 bytes, not the characters
    assert_eq!(fnv("é"), 0x0ac21707b7181e01);
}

#[test]
fn file_browser_filters() {
    assert_eq!(FsMode::OpenProject.filter(), vec!["kcproj"]);
    assert_eq!(FsMode::SaveProject.filter(), vec!["kcproj"]);
    assert_eq!(FsMode::SaveExport.filter(), vec!["mp4"]);
    assert_eq!(FsMode::PickLut.filter(), vec!["cube"]);
    assert_eq!(FsMode::PickSrt.filter(), vec!["srt"]);
    let media = FsMode::OpenMedia.filter();
    assert_eq!(media.len(), 20);
    assert_eq!(media[0], "mp4");
    assert!(media.contains(&"opus"));
    assert!(media.contains(&"jpeg"));
}

#[test]
fn dialog_records_carry_their_fields() {
    let st = FsState { dir: std::path::PathBuf::from("/tmp"), mode: FsMode::PickSrt, name: "subs.srt".to_string() };
    let d = Dialog::Fs(st.clone());
    match d {
        Dialog::Fs(s) => {
            assert_eq!(s.name, "subs.srt");
            assert!(s.mode == FsMode::PickSrt);
            assert_eq!(s.dir, std::path::PathBuf::from("/tmp"));
        }
        _ => panic!("wrong dialog"),
    }
    let now = std::time::Instant::now();
    let t = Toast { msg: "saved".to_string(), kind: 1, at: now };
    let u = t.clone();
    assert_eq!(u.msg, "saved");
    assert_eq!(u.kind, 1);
    assert_eq!(u.at, now);
}

#[test]
fn at_most_five_toasts_stay() {
    let now = std::time::Instant::now();
    let mut q: Vec<Toast> = Vec::new();
    for i in 0..7u8 {
        push_toast(&mut q, Toast { msg: format!("m{i}"), kind: 0, at: now });
    }
    assert_eq!(q.len(), 5);
    assert_eq!(q[0].msg, "m2");
    assert_eq!(q[4].msg, "m6");
}

#[test]
fn new_tracks_are_numbered_per_kind() {
    assert_eq!(new_track_name(TrackKind::Video, 3), "V4");
    assert_eq!(new_track_name(TrackKind::Audio, 0), "A1");
    assert_eq!(new_track_name(TrackKind::Audio, 11), "A12");
}

#[test]
fn assets_fit_tracks_of_their_kind() {
    assert!(asset_kind_matches_track(Some(AssetKind::Video), TrackKind::Video));
    assert!(asset_kind_matches_track(Some(AssetKind::Image), TrackKind::Video));
    assert!(!asset_kind_matches_track(Some(AssetKind::Audio), TrackKind::Video));
    assert!(asset_kind_matches_track(Some(AssetKind::Audio), TrackKind::Audio));
    assert!(!asset_kind_matches_track(Some(AssetKind::Video), TrackKind::Audio));
    assert!(!asset_kind_matches_track(None, TrackKind::Audio));
    assert_eq!(tracks_needed(AssetKind::Video, true), (true, true));
    assert_eq!(tracks_needed(AssetKind::Video, false), (true, false));
    assert_eq!(tracks_needed(AssetKind::Image, false), (true, false));
    assert_eq!(tracks_needed(AssetKind::Audio, false), (false, true));
}

#[test]
fn edits_reach_the_selection_and_its_group() {
    assert_eq!(edit_targets(&vec![4, 2], None, &vec![9]), vec![4, 2]);
    assert_eq!(edit_targets(&vec![4, 2], Some(2), &vec![2, 7, 4, 8]), vec![4, 2, 7, 8]);
    assert_eq!(edit_targets(&vec![], Some(5), &vec![]), vec![5]);
}

#[test]
fn grouping_needs_two_clips() {
    assert_eq!(grouping_ids(&vec![3], Some(3)), None);
    assert_eq!(grouping_ids(&vec![], Some(3)), None);
    assert_eq!(grouping_ids(&vec![3], Some(4)), Some(vec![3, 4]));
    assert_eq!(grouping_ids(&vec![1, 2], None), Some(vec![1, 2]));
}

#[test]
fn export_resolution_menu() {
    assert_eq!(export_size(0, 3840, 2160), (3840, 2160));
    assert_eq!(export_size(1, 3840, 2160), (1920, 1080));
    assert_eq!(export_size(2, 3840, 2160), (1280, 720));
    assert_eq!(export_size(7, 640, 480), (640, 480));
}

fn key(k: Key) -> Option<Shortcut> {
    shortcut(false, &vec![k], false, false)
}

fn ctrl(k: Key) -> Option<Shortcut> {
    shortcut(false, &vec![k], true, false)
}

fn ctrl_shift(k: Key) -> Option<Shortcut> {
    shortcut(false, &vec![k], true, true)
}

#[test]
fn documented_keyboard_shortcuts() {
    assert_eq!(key(Key::Space), Some(Shortcut::TogglePlay));
    assert_eq!(key(Key::S), Some(Shortcut::Split));
    assert_eq!(key(Key::A), Some(Shortcut::PickTool(Tool::Select)));
    assert_eq!(key(Key::C), Some(Shortcut::PickTool(Tool::Razor)));
    assert_eq!(key(Key::U), Some(Shortcut::PickTool(Tool::Roll)));
    assert_eq!(key(Key::J), Some(Shortcut::PickTool(Tool::Slide)));
    assert_eq!(key(Key::P), Some(Shortcut::PickTool(Tool::Slip)));
    assert_eq!(key(Key::G), Some(Shortcut::PickTool(Tool::Pen)));
    assert_eq!(key(Key::H), Some(Shortcut::PickTool(Tool::Hand)));
    assert_eq!(key(Key::Z), Some(Shortcut::PickTool(Tool::Zoom)));
    assert_eq!(key(Key::T), Some(Shortcut::PickTool(Tool::Text)));
    assert_eq!(key(Key::I), Some(Shortcut::MarkIn));
    assert_eq!(key(Key::O), Some(Shortcut::MarkOut));
    assert_eq!(key(Key::Delete), Some(Shortcut::Delete));
    assert_eq!(key(Key::M), Some(Shortcut::AddMarker));
    assert_eq!(key(Key::F), Some(Shortcut::FreezeFrame));
    assert_eq!(key(Key::R), Some(Shortcut::ToggleReverse));
    assert_eq!(key(Key::L), Some(Shortcut::ToggleLoop));
    assert_eq!(key(Key::Home), Some(Shortcut::GoToIn));
    assert_eq!(key(Key::End), Some(Shortcut::GoToOut));
    assert_eq!(key(Key::Escape), Some(Shortcut::Deselect));
    assert_eq!(key(Key::ArrowRight), Some(Shortcut::FrameForward));
    assert_eq!(shortcut(false, &vec![Key::ArrowLeft], false, true), Some(Shortcut::SecondBack));
    assert_eq!(ctrl(Key::Z), Some(Shortcut::Undo));
    assert_eq!(ctrl(Key::Y), Some(Shortcut::Redo));
    assert_eq!(ctrl_shift(Key::Z), Some(Shortcut::Redo));
    assert_eq!(ctrl(Key::C), Some(Shortcut::Copy));
    assert_eq!(ctrl(Key::X), Some(Shortcut::Cut));
    assert_eq!(ctrl(Key::V), Some(Shortcut::Paste));
    assert_eq!(ctrl(Key::G), Some(Shortcut::Group));
    assert_eq!(ctrl_shift(Key::G), Some(Shortcut::Ungroup));
    assert_eq!(ctrl(Key::S), Some(Shortcut::Save));
    assert_eq!(ctrl(Key::E), Some(Shortcut::OpenExport));
    assert_eq!(ctrl(Key::Equals), Some(Shortcut::ZoomIn));
    assert_eq!(ctrl(Key::Minus), Some(Shortcut::ZoomOut));
}

#[test]
fn shortcuts_yield_to_text_fields_and_follow_priority() {
    assert_eq!(shortcut(true, &vec![Key::Space], false, false), None);
    assert_eq!(shortcut(false, &vec![], false, false), None);
    assert_eq!(shortcut(false, &vec![Key::T, Key::Space], false, false), Some(Shortcut::TogglePlay));
    assert_eq!(shortcut(false, &vec![Key::S], false, true), None);
    assert_eq!(ctrl(Key::L), None);
}

#[test]
fn media_pool_search_ignores_case() {
    assert!(matches_search("Interview_Take3.MOV", "take3"));
    assert!(matches_search("anything", ""));
    assert!(!matches_search("abc", "abcd"));
    assert!(!matches_search("beach.mp4", "sunset"));
    assert!(matches_search("ÉCOLE.mp4", "école"));
    assert!(matches_search("clip", "CLIP"));
}

#[test]
fn fnv_of_concatenation_folds_the_second_part() {
    let (s, t) = ("kestrel", "cut 😀");
    let folded = t.bytes().fold(kestrelcut::app::fnv(s), |h, b| (h ^ b as u64).wrapping_mul(0x100000001b3));
    assert_eq!(kestrelcut::app::fnv(&format!("{s}{t}")), folded);
}

#[test]
fn search_ignores_ascii_case() {
    assert!(kestrelcut::app::matches_search("Beach Clip.MP4", "clip.mp4"));
    assert!(!kestrelcut::app::matches_search("Beach Clip.MP4", "clip.mov"));
}
