use kestrelcut::model::{default_bar_color, AssetKind, BlendMode, ClipKind, Ease, IdGen, TransKind};

#[test]
fn ids_are_handed_out_in_order() {
    let mut g = IdGen::new();
    let a = g.next_id();
    let b = g.next_id();
    let c = g.next_id();
    assert_eq!((a, b, c), (1, 2, 3));
}

#[test]
fn blend_mode_labels() {
    let labels: Vec<&str> = BlendMode::ALL.iter().map(|m| m.label()).collect();
    assert_eq!(
        labels,
        vec!["Normal", "Multiply", "Screen", "Overlay", "Soft Light", "Hard Light", "Darken", "Lighten", "Difference"]
    );
    assert!(BlendMode::default() == BlendMode::Normal);
}

#[test]
fn transition_labels_and_xfade_names() {
    assert_eq!(TransKind::Dissolve.label(), "Cross Dissolve");
    assert_eq!(TransKind::Dissolve.xfade_name(), "fade");
    assert_eq!(TransKind::DipToBlack.xfade_name(), "fadeblack");
    assert_eq!(TransKind::WipeLeft.xfade_name(), "wipeleft");
    assert_eq!(TransKind::SlideRight.xfade_name(), "slideright");
    assert_eq!(TransKind::Zoom.xfade_name(), "zoomin");
    assert_eq!(TransKind::ALL.len(), 7);
}

#[test]
fn ease_and_kind_labels() {
    assert_eq!(Ease::default().label(), "Linear");
    assert_eq!(Ease::EaseInOut.label(), "Ease In-Out");
    assert_eq!(ClipKind::Adjustment.label(), "Adjustment");
    assert_eq!(ClipKind::Audio.label(), "Audio");
    assert!(AssetKind::Image != AssetKind::Video);
}

#[test]
fn title_bar_default_tint() {
    assert_eq!(default_bar_color(), [12, 12, 16]);
}
