use kestrelcut::textshape::{shaping_runs, text_runs};

#[test]
fn latin_text_is_one_ltr_run() {
    assert_eq!(text_runs("Hello"), vec![(0, 5, false)]);
}

#[test]
fn arabic_text_is_one_rtl_run() {
    // two Arabic letters, two bytes each
    assert_eq!(text_runs("كت"), vec![(0, 4, true)]);
}

#[test]
fn mixed_text_runs_in_visual_order() {
    // an Arabic word then a Latin word in a left-to-right paragraph
    let runs = text_runs("ab كت");
    assert_eq!(runs, vec![(0, 3, false), (3, 7, true)]);
}

#[test]
fn empty_text_has_no_runs() {
    assert_eq!(text_runs(""), Vec::<(usize, usize, bool)>::new());
}

#[test]
fn runs_take_the_level_of_their_first_byte_and_skip_empty_ones() {
    let paras = vec![
        (vec![0u8, 0, 1, 1, 2], vec![(2, 4), (4, 4), (0, 2), (4, 5)]),
        (vec![1u8], vec![(0, 1), (3, 6)]),
    ];
    assert_eq!(
        shaping_runs(&paras),
        vec![(2, 4, true), (0, 2, false), (4, 5, false), (0, 1, true), (3, 6, false)]
    );
}
