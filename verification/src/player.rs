//! Playback transport vocabulary: preview quality levels, editing tools and
//! the decoder restart key.

use vstd::prelude::*;

verus! {

/// Preview decode quality.
#[derive(Clone, Copy, PartialEq, Eq, Structural, Debug)]
pub enum Quality {
    Full,
    Half,
    Quarter,
}

impl Quality {
    pub open spec fn spec_label(self) -> Seq<char> {
        match self {
            Quality::Full => "Full"@,
            Quality::Half => "Half"@,
            Quality::Quarter => "Quarter"@,
        }
    }

    pub fn label(self) -> (r: &'static str)
        ensures
            r@ == self.spec_label(),
    {
        match self {
            Quality::Full => "Full",
            Quality::Half => "Half",
            Quality::Quarter => "Quarter",
        }
    }

    /// Every quality level, best first.
    pub fn all() -> (r: [Quality; 3])
        ensures
            r@ == seq![Quality::Full, Quality::Half, Quality::Quarter],
    {
        [Quality::Full, Quality::Half, Quality::Quarter]
    }
}

/// Timeline editing tool.
#[derive(Clone, Copy, PartialEq, Eq, Structural, Debug)]
pub enum Tool {
    Select,
    Razor,
    Slip,
    Pen,
    Hand,
    Zoom,
    Text,
    Roll,
    Slide,
}

impl Tool {
    /// Every tool, in tool-strip order.
    pub fn all() -> (r: [Tool; 9])
        ensures
            r@ == seq![
                Tool::Select,
                Tool::Razor,
                Tool::Roll,
                Tool::Slide,
                Tool::Slip,
                Tool::Pen,
                Tool::Hand,
                Tool::Zoom,
                Tool::Text,
            ],
    {
        [
            Tool::Select,
            Tool::Razor,
            Tool::Roll,
            Tool::Slide,
            Tool::Slip,
            Tool::Pen,
            Tool::Hand,
            Tool::Zoom,
            Tool::Text,
        ]
    }
}

// ------------------------------------------------------------------ FNV-1a

pub const FNV_OFFSET: u64 = 0xcbf29ce484222325;

pub const FNV_PRIME: u64 = 0x100000001b3;

/// One FNV-1a step: xor in a byte, multiply by the prime (wrapping).
pub open spec fn fnv_mix(h: u64, b: u64) -> u64 {
    (h ^ b).wrapping_mul(FNV_PRIME)
}

/// FNV-1a over the `k` low bytes of `v`, least significant first.
pub open spec fn fnv_le_bytes(h: u64, v: u64, k: nat) -> u64
    decreases k,
{
    if k == 0 {
        h
    } else {
        fnv_le_bytes(fnv_mix(h, v & 0xff), v >> 8, (k - 1) as nat)
    }
}

/// FNV-1a over the 8 little-endian bytes of each value in turn.
pub open spec fn spec_hash_key(vals: Seq<u64>) -> u64
    decreases vals.len(),
{
    if vals.len() == 0 {
        FNV_OFFSET
    } else {
        fnv_le_bytes(spec_hash_key(vals.drop_last()), vals.last(), 8)
    }
}

/// Hash helper for decoder restart keys.
pub fn hash_key(vals: &[u64]) -> (r: u64)
    ensures
        r == spec_hash_key(vals@),
{
    let mut hash: u64 = FNV_OFFSET;
    let mut i: usize = 0;
    while i < vals.len()
        invariant
            i <= vals.len(),
            hash == spec_hash_key(vals@.take(i as int)),
        decreases vals.len() - i,
    {
        assert(vals@.take(i + 1).drop_last() =~= vals@.take(i as int));
        let v = vals[i];
        let ghost h0 = hash;
        let mut b = v;
        let mut k: usize = 0;
        while k < 8
            invariant
                k <= 8,
                fnv_le_bytes(h0, v, 8) == fnv_le_bytes(hash, b, (8 - k) as nat),
            decreases 8 - k,
        {
            hash ^= b & 0xff;
            hash = hash.wrapping_mul(FNV_PRIME);
            b >>= 8;
            k += 1;
        }
        i += 1;
    }
    assert(vals@.take(vals.len() as int) =~= vals@);
    hash
}

// ------------------------------------------------------------------ decode slots

/// What the player knows of a live decode slot when it decides whether to
/// restart its decoder.
#[derive(Clone, Copy, PartialEq, Eq, Structural, Debug)]
pub struct SlotState {
    /// Restart key the decoder was started with.
    pub key: u64,
    /// Frame bucket (in thirds) of the last still grab of a reversed clip.
    pub rev_bucket: u64,
    /// The shown frame comes from the current decoder.
    pub frame_current: bool,
    /// The decoder reached its end.
    pub eof: bool,
}

/// Whether a wanted clip needs a fresh decoder: when it has no slot, when
/// its key (clip, filters, quality) changed, for a reversed clip when the
/// playhead moved to another bucket of three frames or its grab ended
/// without a current frame, and for a streaming clip when the caller saw a
/// backward jump or a stall.
pub fn restart_needed(
    slot: Option<SlotState>,
    key: u64,
    reverse: bool,
    bucket_now: u64,
    backward: bool,
    stalled: bool,
) -> (r: bool)
    ensures
        r == match slot {
            None => true,
            Some(s) => s.key != key || (if reverse {
                s.rev_bucket != bucket_now / 3 || (!s.frame_current && s.eof)
            } else {
                backward || stalled
            }),
        },
{
    match slot {
        None => true,
        Some(s) => {
            if s.key != key {
                true
            } else if reverse {
                s.rev_bucket != bucket_now / 3 || (!s.frame_current && s.eof)
            } else {
                backward || stalled
            }
        },
    }
}

} // verus!
