use kestrelcut::text::truncate;

#[test]
fn labels_are_cut_with_an_ellipsis() {
    assert_eq!(truncate("interview_take_03.mov", 10), "interview…");
    assert_eq!(truncate("short.mp4", 9), "short.mp4");
    assert_eq!(truncate("مرحبا بالعالم", 5), "مرحب…");
    assert_eq!(truncate("ab", 1), "…");
    assert_eq!(truncate("", 0), "");
}
