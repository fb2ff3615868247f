use kestrelcut::player::{hash_key, restart_needed, Quality, SlotState, Tool};

#[test]
fn hash_key_of_nothing_is_the_offset_basis() {
    assert_eq!(hash_key(&[]), 0xcbf29ce484222325);
}

#[test]
fn hash_key_reads_little_endian_bytes() {
    assert_eq!(hash_key(&[1]), 0x89cd31291d2aefa4);
    assert_eq!(hash_key(&[1, 2]), 0x7717980363c8e066);
    assert_ne!(hash_key(&[1, 2]), hash_key(&[2, 1]));
}

#[test]
fn quality_levels_and_labels() {
    let all = Quality::all();
    let labels: Vec<&str> = all.iter().map(|q| q.label()).collect();
    assert_eq!(labels, vec!["Full", "Half", "Quarter"]);
}

#[test]
fn tool_strip_order() {
    assert_eq!(
        Tool::all(),
        [Tool::Select, Tool::Razor, Tool::Roll, Tool::Slide, Tool::Slip, Tool::Pen, Tool::Hand, Tool::Zoom, Tool::Text]
    );
}

#[test]
fn decoders_restart_on_key_change_jump_or_stall() {
    let s = SlotState { key: 7, rev_bucket: 10, frame_current: true, eof: false };
    assert!(restart_needed(None, 7, false, 0, false, false));
    assert!(restart_needed(Some(s), 8, false, 30, false, false));
    assert!(!restart_needed(Some(s), 7, false, 30, false, false));
    assert!(restart_needed(Some(s), 7, false, 30, true, false));
    assert!(restart_needed(Some(s), 7, false, 30, false, true));
    // reversed clips regrab every third frame bucket
    assert!(!restart_needed(Some(s), 7, true, 31, true, true));
    assert!(restart_needed(Some(s), 7, true, 33, false, false));
    let ended = SlotState { frame_current: false, eof: true, ..s };
    assert!(restart_needed(Some(ended), 7, true, 30, false, false));
}

#[test]
fn hash_key_is_fnv_of_little_endian_bytes() {
    let vals = [u64::from_le_bytes(*b"abcdefgh"), u64::from_le_bytes(*b"ijklmnop")];
    assert_eq!(kestrelcut::player::hash_key(&vals), kestrelcut::app::fnv("abcdefghijklmnop"));
    assert_eq!(kestrelcut::player::hash_key(&[]), 0xcbf29ce484222325);
}
