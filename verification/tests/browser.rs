use kestrelcut::app::FsMode;
use kestrelcut::browser::{listing, DirEntry};

fn e(name: &str, is_dir: bool, ext: &str) -> DirEntry {
    DirEntry { name: name.to_string(), is_dir, ext: ext.to_string() }
}

fn names(v: &[DirEntry]) -> Vec<String> {
    v.iter().map(|d| d.name.clone()).collect()
}

#[test]
fn folders_first_then_names_and_accepted_files_only() {
    let entries = vec![
        e(".hidden", true, ""),
        e("b.MP4", false, "MP4"),
        e("notes.txt", false, "txt"),
        e("zdir", true, ""),
        e(".cache.mp4", false, "mp4"),
        e("Adir", true, ""),
        e("c.mov", false, "mov"),
        e("a.wav", false, "wav"),
    ];
    let shown = listing(&entries, FsMode::OpenMedia);
    assert_eq!(names(&shown), vec!["Adir", "zdir", "a.wav", "b.MP4", "c.mov"]);
    assert!(shown[0].is_dir && !shown[2].is_dir);
}

#[test]
fn each_mode_lists_its_own_files() {
    let entries = vec![e("cut.kcproj", false, "kcproj"), e("look.cube", false, "cube"), e("x.srt", false, "srt")];
    assert_eq!(names(&listing(&entries, FsMode::OpenProject)), vec!["cut.kcproj"]);
    assert_eq!(names(&listing(&entries, FsMode::PickLut)), vec!["look.cube"]);
    assert_eq!(names(&listing(&entries, FsMode::PickSrt)), vec!["x.srt"]);
    assert!(listing(&entries, FsMode::SaveExport).is_empty());
}

#[test]
fn extensions_are_lowercased_with_unicode_rules() {
    // KELVIN SIGN lowercases to an ASCII k
    let entries = vec![e("movie.m\u{212A}v", false, "m\u{212A}v"), e("Z", false, "")];
    assert_eq!(names(&listing(&entries, FsMode::OpenMedia)), vec!["movie.m\u{212A}v"]);
}

#[test]
fn names_compare_by_character_code() {
    let entries = vec![e("é", true, ""), e("z", true, ""), e("Z", true, ""), e("za", true, ""), e("", true, "")];
    assert_eq!(names(&listing(&entries, FsMode::OpenMedia)), vec!["", "Z", "z", "za", "é"]);
}
