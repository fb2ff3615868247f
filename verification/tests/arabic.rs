use kestrelcut::arabic::{is_arabic, shape, shape_if_arabic};

#[test]
fn lam_alef_shapes() {
    assert_eq!(shape("لا"), "\u{FEFB}");
}

#[test]
fn word_forms() {
    let s = shape("كتاب");
    assert_eq!(s.chars().count(), 4);
    assert!(s.chars().all(|c| ('\u{FE70}'..='\u{FEFF}').contains(&c)));
}

#[test]
fn mixed_number_word() {
    let s = shape("تسلسل 01");
    assert!(s.starts_with("01"));
}

#[test]
fn latin_passthrough() {
    assert_eq!(shape("Hello 123"), "Hello 123");
}

#[test]
fn kitab_exact_forms() {
    // kaf initial, teh medial, alef final, beh isolated (alef does not join
    // forward); painted right to left
    let s: Vec<char> = shape("كتاب").chars().collect();
    assert_eq!(s, vec!['\u{FE8F}', '\u{FE8E}', '\u{FE98}', '\u{FEDB}']);
}

#[test]
fn lam_alef_after_dual_joining_letter_is_final() {
    assert_eq!(shape("بلا"), "\u{FEFC}\u{FE91}");
}

#[test]
fn marhaba_joins() {
    // meem initial, reh final, hah initial, beh medial, alef final
    let s: Vec<char> = shape("مرحبا").chars().collect();
    assert_eq!(s, vec!['\u{FE8E}', '\u{FE92}', '\u{FEA3}', '\u{FEAE}', '\u{FEE3}']);
}

#[test]
fn marks_between_letters_do_not_break_joining() {
    // beh, fatha, beh: the first beh still joins the second
    assert_eq!(shape("ب\u{064E}ب"), "\u{FE90}\u{FE91}");
}

#[test]
fn lam_alef_after_tatweel_takes_final_form() {
    assert_eq!(shape("\u{0640}لا"), "\u{FEFC}\u{0640}");
}

#[test]
fn transparent_marks_are_dropped() {
    assert_eq!(shape("a\u{064B}b"), "ab");
}

#[test]
fn rtl_word_is_reversed() {
    // beh + alef + lam: all right-to-left
    let s = shape("بال");
    assert_eq!(s.chars().count(), 3);
    assert_eq!(s.chars().last(), Some('\u{FE91}'));
}

#[test]
fn shape_if_arabic_passes_latin() {
    assert_eq!(shape_if_arabic("abc\u{064B}"), "abc\u{064B}");
    assert_eq!(shape_if_arabic("لا"), "\u{FEFB}");
}

#[test]
fn is_arabic_range() {
    assert!(is_arabic('\u{0621}'));
    assert!(is_arabic('\u{064A}'));
    assert!(!is_arabic('\u{064B}'));
    assert!(!is_arabic('a'));
}

#[test]
fn shaping_never_lengthens() {
    for s in ["", "abc", "لا لا", "مرحبا 12 x", "\u{0640}\u{0621}"] {
        assert!(shape(s).chars().count() <= s.chars().count());
    }
}

#[test]
fn hamza_after_tatweel_takes_the_table_final_code() {
    // the table gives hamza no final form (code 0), so a joined hamza is U+0000
    assert_eq!(shape("\u{0640}ء"), "\u{0}\u{0640}");
    assert_eq!(shape("ء"), "\u{FE80}");
}

#[test]
fn ascii_word_comes_first_after_arabic_word() {
    assert_eq!(shape("كتاب 01"), format!("01 {}", shape("كتاب")));
}

#[test]
fn dual_joining_word_is_initial_medial_final() {
    // kaf, teh, beh
    assert_eq!(shape("كتب"), "\u{FE90}\u{FE98}\u{FEDB}");
}
