//! Project model vocabulary: identifiers, compositing and transition kinds,
//! easing curves, asset, clip and track kinds.

use vstd::prelude::*;

verus! {

// ------------------------------------------------------------------ ids

/// Source of fresh object identifiers (clips, tracks, assets, groups).
pub struct IdGen {
    next: u64,
}

impl IdGen {
    /// The identifier the next call of `next_id` hands out.
    pub closed spec fn peek(&self) -> u64 {
        self.next
    }

    /// A source whose first identifier is 1.
    pub fn new() -> (r: Self)
        ensures
            r.peek() == 1,
    {
        IdGen { next: 1 }
    }

    /// Hands out the current identifier and advances by one (wrapping).
    pub fn next_id(&mut self) -> (id: u64)
        ensures
            id == old(self).peek(),
            old(self).peek() < u64::MAX ==> id < final(self).peek(),
            final(self).peek() == (if old(self).peek() == u64::MAX {
                0
            } else {
                (old(self).peek() + 1) as u64
            }),
    {
        let id = self.next;
        self.next = self.next.wrapping_add(1);
        id
    }
}

// ------------------------------------------------------------------ compositing

/// Layer blend mode (the "Compositing" inspector). `Normal` is plain alpha
/// compositing; the rest map to ffmpeg `blend` modes at export and to the
/// software compositor in the preview.
#[derive(Clone, Copy, PartialEq, Eq, Structural, Debug)]
pub enum BlendMode {
    Normal,
    Multiply,
    Screen,
    Overlay,
    SoftLight,
    HardLight,
    Darken,
    Lighten,
    Difference,
}

impl Default for BlendMode {
    fn default() -> (r: Self)
        ensures
            r == BlendMode::Normal,
    {
        BlendMode::Normal
    }
}

impl BlendMode {
    /// Every blend mode, in menu order.
    pub const ALL: [BlendMode; 9] = [
        BlendMode::Normal,
        BlendMode::Multiply,
        BlendMode::Screen,
        BlendMode::Overlay,
        BlendMode::SoftLight,
        BlendMode::HardLight,
        BlendMode::Darken,
        BlendMode::Lighten,
        BlendMode::Difference,
    ];

    pub open spec fn spec_label(self) -> Seq<char> {
        match self {
            BlendMode::Normal => "Normal"@,
            BlendMode::Multiply => "Multiply"@,
            BlendMode::Screen => "Screen"@,
            BlendMode::Overlay => "Overlay"@,
            BlendMode::SoftLight => "Soft Light"@,
            BlendMode::HardLight => "Hard Light"@,
            BlendMode::Darken => "Darken"@,
            BlendMode::Lighten => "Lighten"@,
            BlendMode::Difference => "Difference"@,
        }
    }

    pub fn label(&self) -> (r: &'static str)
        ensures
            r@ == self.spec_label(),
    {
        match self {
            BlendMode::Normal => "Normal",
            BlendMode::Multiply => "Multiply",
            BlendMode::Screen => "Screen",
            BlendMode::Overlay => "Overlay",
            BlendMode::SoftLight => "Soft Light",
            BlendMode::HardLight => "Hard Light",
            BlendMode::Darken => "Darken",
            BlendMode::Lighten => "Lighten",
            BlendMode::Difference => "Difference",
        }
    }
}

/// Clip-to-clip transition kind (attached to the right clip, plays over the
/// seam).
#[derive(Clone, Copy, PartialEq, Eq, Structural, Debug)]
pub enum TransKind {
    Dissolve,
    DipToBlack,
    WipeLeft,
    WipeRight,
    SlideLeft,
    SlideRight,
    Zoom,
}

impl TransKind {
    /// Every transition kind, in menu order.
    pub const ALL: [TransKind; 7] = [
        TransKind::Dissolve,
        TransKind::DipToBlack,
        TransKind::WipeLeft,
        TransKind::WipeRight,
        TransKind::SlideLeft,
        TransKind::SlideRight,
        TransKind::Zoom,
    ];

    pub open spec fn spec_label(self) -> Seq<char> {
        match self {
            TransKind::Dissolve => "Cross Dissolve"@,
            TransKind::DipToBlack => "Dip to Black"@,
            TransKind::WipeLeft => "Wipe ←"@,
            TransKind::WipeRight => "Wipe →"@,
            TransKind::SlideLeft => "Slide ←"@,
            TransKind::SlideRight => "Slide →"@,
            TransKind::Zoom => "Zoom"@,
        }
    }

    pub fn label(&self) -> (r: &'static str)
        ensures
            r@ == self.spec_label(),
    {
        match self {
            TransKind::Dissolve => "Cross Dissolve",
            TransKind::DipToBlack => "Dip to Black",
            TransKind::WipeLeft => "Wipe ←",
            TransKind::WipeRight => "Wipe →",
            TransKind::SlideLeft => "Slide ←",
            TransKind::SlideRight => "Slide →",
            TransKind::Zoom => "Zoom",
        }
    }

    pub open spec fn spec_xfade_name(self) -> Seq<char> {
        match self {
            TransKind::Dissolve => "fade"@,
            TransKind::DipToBlack => "fadeblack"@,
            TransKind::WipeLeft => "wipeleft"@,
            TransKind::WipeRight => "wiperight"@,
            TransKind::SlideLeft => "slideleft"@,
            TransKind::SlideRight => "slideright"@,
            TransKind::Zoom => "zoomin"@,
        }
    }

    /// ffmpeg `xfade` transition name (export backend).
    pub fn xfade_name(&self) -> (r: &'static str)
        ensures
            r@ == self.spec_xfade_name(),
    {
        match self {
            TransKind::Dissolve => "fade",
            TransKind::DipToBlack => "fadeblack",
            TransKind::WipeLeft => "wipeleft",
            TransKind::WipeRight => "wiperight",
            TransKind::SlideLeft => "slideleft",
            TransKind::SlideRight => "slideright",
            TransKind::Zoom => "zoomin",
        }
    }
}

// ------------------------------------------------------------------ keyframes

/// Easing applied on the keyframe segment starting at a keyframe.
#[derive(Clone, Copy, PartialEq, Eq, Structural, Debug)]
pub enum Ease {
    Linear,
    EaseIn,
    EaseOut,
    EaseInOut,
}

impl Default for Ease {
    fn default() -> (r: Self)
        ensures
            r == Ease::Linear,
    {
        Ease::Linear
    }
}

impl Ease {
    pub open spec fn spec_label(self) -> Seq<char> {
        match self {
            Ease::Linear => "Linear"@,
            Ease::EaseIn => "Ease In"@,
            Ease::EaseOut => "Ease Out"@,
            Ease::EaseInOut => "Ease In-Out"@,
        }
    }

    pub fn label(&self) -> (r: &'static str)
        ensures
            r@ == self.spec_label(),
    {
        match self {
            Ease::Linear => "Linear",
            Ease::EaseIn => "Ease In",
            Ease::EaseOut => "Ease Out",
            Ease::EaseInOut => "Ease In-Out",
        }
    }
}

// ------------------------------------------------------------------ kinds

/// Kind of an imported media file.
#[derive(Clone, Copy, PartialEq, Eq, Structural, Debug)]
pub enum AssetKind {
    Video,
    Audio,
    Image,
}

/// Kind of a timeline clip.
#[derive(Clone, Copy, PartialEq, Eq, Structural, Debug)]
pub enum ClipKind {
    Video,
    Audio,
    Image,
    Title,
    Adjustment,
}

impl ClipKind {
    pub open spec fn spec_label(self) -> Seq<char> {
        match self {
            ClipKind::Video => "Video"@,
            ClipKind::Audio => "Audio"@,
            ClipKind::Image => "Image"@,
            ClipKind::Title => "Title"@,
            ClipKind::Adjustment => "Adjustment"@,
        }
    }

    pub fn label(&self) -> (r: &'static str)
        ensures
            r@ == self.spec_label(),
    {
        match self {
            ClipKind::Video => "Video",
            ClipKind::Audio => "Audio",
            ClipKind::Image => "Image",
            ClipKind::Title => "Title",
            ClipKind::Adjustment => "Adjustment",
        }
    }
}

/// Kind of a timeline track.
#[derive(Clone, Copy, PartialEq, Eq, Structural, Debug)]
pub enum TrackKind {
    Video,
    Audio,
}

/// Default tint of the background bar behind title text.
pub fn default_bar_color() -> (r: [u8; 3])
    ensures
        r@ == seq![12u8, 12u8, 16u8],
{
    [12, 12, 16]
}

} // verus!
