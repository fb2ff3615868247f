use kestrelcut::textshape::{is_rtl_char, needs_rtl_shaping};

#[test]
fn rtl_blocks() {
    assert!(is_rtl_char('\u{05D0}'));
    assert!(is_rtl_char('\u{0627}'));
    assert!(is_rtl_char('\u{0710}'));
    assert!(is_rtl_char('\u{FEFB}'));
    assert!(is_rtl_char('\u{FB50}'));
    assert!(!is_rtl_char('\u{058F}'));
    assert!(!is_rtl_char('\u{0780}'));
    assert!(!is_rtl_char('a'));
    assert!(!is_rtl_char('\u{FF00}'));
}

#[test]
fn any_rtl_character_selects_the_bidi_path() {
    assert!(needs_rtl_shaping("Title مرحبا"));
    assert!(!needs_rtl_shaping("Plain title 2024"));
    assert!(!needs_rtl_shaping(""));
}
