//! Shared formatting: byte sizes, timecodes and short durations.

use vstd::prelude::*;
use vstd::arithmetic::power2::{pow2, lemma2_to64, lemma2_to64_rest, lemma_pow2_adds, lemma_pow2_pos, lemma_pow2_unfold, lemma_pow2_strictly_increases};
use crate::text::{dec, dec_chars, dec_pad, dec_pad_chars, push_chars, push_str};

verus! {

// ------------------------------------------------------------------ binary length

/// Number of binary digits of `b` (0 for 0).
pub open spec fn bit_len(b: nat) -> nat
    decreases b,
{
    if b == 0 {
        0
    } else {
        1 + bit_len(b / 2)
    }
}

proof fn lemma_bit_len_bound(b: nat, k: nat)
    requires
        b < pow2(k),
    ensures
        bit_len(b) <= k,
    decreases k,
{
    if b > 0 {
        if k == 0 {
            lemma2_to64();
        } else {
            lemma_pow2_unfold(k);
            lemma_bit_len_bound(b / 2, (k - 1) as nat);
        }
    }
}

proof fn lemma_below_bit_len(b: nat)
    ensures
        b < pow2(bit_len(b)),
    decreases b,
{
    if b == 0 {
        lemma2_to64();
    } else {
        lemma_below_bit_len(b / 2);
        lemma_pow2_unfold(bit_len(b));
    }
}

/// The integer value of `b as f64`: `b` itself when it has at most 53
/// significant bits, otherwise rounded to 53 bits, ties to even.
pub open spec fn f64_value(b: nat) -> nat {
    if bit_len(b) <= 53 {
        b
    } else {
        let s = (bit_len(b) - 53) as nat;
        let p = pow2(s);
        let q = b / p;
        let r = b % p;
        let h = p / 2;
        (if r > h || (r == h && q % 2 == 1) {
            q + 1
        } else {
            q
        }) * p
    }
}

/// `num / den` rounded to the nearest integer, ties to even.
pub open spec fn round_half_even(num: nat, den: nat) -> nat {
    let q = num / den;
    let r = num % den;
    if 2 * r > den || (2 * r == den && q % 2 == 1) {
        q + 1
    } else {
        q
    }
}

/// Number of 1024 steps shown: B, KB, MB, GB, TB.
pub open spec fn unit_index(b: nat) -> nat {
    if b < 1024 {
        0
    } else if b < 0x10_0000 {
        1
    } else if b < 0x4000_0000 {
        2
    } else if b < 0x100_0000_0000 {
        3
    } else {
        4
    }
}

pub open spec fn unit_name(i: nat) -> Seq<char> {
    if i == 1 {
        "KB"@
    } else if i == 2 {
        "MB"@
    } else if i == 3 {
        "GB"@
    } else {
        "TB"@
    }
}

/// Byte size as shown in the media pool: `N B` below 1 KB, otherwise the
/// value in the largest unit up to TB with one decimal (the decimal rounded
/// from the binary value, ties to even).
pub open spec fn spec_fmt_bytes(b: nat) -> Seq<char> {
    let i = unit_index(b);
    if i == 0 {
        dec(b) + " B"@
    } else {
        let n = round_half_even(10 * f64_value(b), pow2(10 * i));
        dec(n / 10) + "."@ + dec(n % 10) + " "@ + unit_name(i)
    }
}

/// Value of `b as f64`, and a bound on it.
fn f64_value_exec(b: u64) -> (r: u128)
    ensures
        r == f64_value(b as nat),
        r <= 0x1_0000_0000_0000_0000u128,
{
    let mut t = b;
    let mut bl: u64 = 0;
    proof {
        lemma2_to64();
        lemma2_to64_rest();
        lemma_bit_len_bound(b as nat, 64);
    }
    while t > 0
        invariant
            bit_len(b as nat) == bl + bit_len(t as nat),
            bit_len(b as nat) <= 64,
        decreases t,
    {
        t = t / 2;
        bl += 1;
    }
    if bl <= 53 {
        return b as u128;
    }
    let s = bl - 53;
    let mut p: u128 = 1;
    let mut k: u64 = 0;
    proof {
        lemma2_to64();
    }
    while k < s
        invariant
            k <= s <= 11,
            p == pow2(k as nat),
            p <= 2048,
            pow2(11) == 2048,
        decreases s - k,
    {
        proof {
            lemma_pow2_unfold(k as nat + 1);
            if k + 1 < 11 {
                lemma_pow2_strictly_increases(k as nat + 1, 11);
            }
        }
        p = p * 2;
        k += 1;
    }
    let bb = b as u128;
    let q = bb / p;
    let r = bb % p;
    let h = p / 2;
    let qq = if r > h || (r == h && q % 2 == 1) {
        q + 1
    } else {
        q
    };
    proof {
        lemma2_to64();
        lemma2_to64_rest();
        lemma_below_bit_len(b as nat);
        lemma_pow2_adds(53, s as nat);
        lemma_pow2_pos(s as nat);
        let m = pow2(53);
        assert(m == 0x20000000000000);
        assert(bb < m * p);
        assert(q < m) by (nonlinear_arith)
            requires
                bb < m * p,
                p > 0,
                q == bb / p,
        ;
        assert(qq * p <= m * 2048) by (nonlinear_arith)
            requires
                qq <= m,
                0 < p <= 2048,
        ;
    }
    qq * p
}

/// Human-readable byte size (`512 B`, `1.5 KB`, ... up to TB).
pub fn fmt_bytes(b: u64) -> (r: String)
    ensures
        r@ == spec_fmt_bytes(b as nat),
{
    let mut out = String::new();
    if b < 1024 {
        let d = dec_chars(b);
        push_chars(&mut out, &d);
        push_str(&mut out, " B");
        return out;
    }
    let (den, unit): (u128, &str) = if b < 0x10_0000 {
        (1024, "KB")
    } else if b < 0x4000_0000 {
        (0x10_0000, "MB")
    } else if b < 0x100_0000_0000 {
        (0x4000_0000, "GB")
    } else {
        (0x100_0000_0000, "TB")
    };
    proof {
        lemma2_to64();
        lemma2_to64_rest();
    }
    let fv = f64_value_exec(b);
    let num = fv * 10;
    let q = num / den;
    let r = num % den;
    let n = if 2 * r > den || (2 * r == den && q % 2 == 1) {
        q + 1
    } else {
        q
    };
    assert(n <= 0x1_0000_0000_0000_0000) by (nonlinear_arith)
        requires
            num <= 10 * 0x1_0000_0000_0000_0000,
            den >= 1024,
            q == num / den,
            n <= q + 1,
    ;
    let whole = dec_chars((n / 10) as u64);
    let frac = dec_chars((n % 10) as u64);
    push_chars(&mut out, &whole);
    push_str(&mut out, ".");
    push_chars(&mut out, &frac);
    push_str(&mut out, " ");
    push_str(&mut out, unit);
    out
}

// ------------------------------------------------------------------ timecodes

/// `HH:MM:SS:FF` for a frame count at `fps` whole frames per second.
pub open spec fn spec_timecode(total_frames: nat, fps: nat) -> Seq<char> {
    let fr = total_frames % fps;
    let secs = total_frames / fps;
    dec_pad(secs / 3600, 2) + ":"@ + dec_pad((secs % 3600) / 60, 2) + ":"@ + dec_pad(secs % 60, 2)
        + ":"@ + dec_pad(fr, 2)
}

/// SMPTE-like timecode `HH:MM:SS:FF` of a frame count.
pub fn timecode_of_frames(total_frames: u64, fps: u64) -> (r: String)
    requires
        fps >= 1,
    ensures
        r@ == spec_timecode(total_frames as nat, fps as nat),
{
    let fr = total_frames % fps;
    let secs = total_frames / fps;
    let mut out = String::new();
    let h = dec_pad_chars(secs / 3600, 2);
    let m = dec_pad_chars((secs % 3600) / 60, 2);
    let s = dec_pad_chars(secs % 60, 2);
    let f = dec_pad_chars(fr, 2);
    push_chars(&mut out, &h);
    push_str(&mut out, ":");
    push_chars(&mut out, &m);
    push_str(&mut out, ":");
    push_chars(&mut out, &s);
    push_str(&mut out, ":");
    push_chars(&mut out, &f);
    out
}

/// Short duration label: `H:MM:SS` from an hour on, `MM:SS` below.
pub open spec fn spec_short_dur(s: nat) -> Seq<char> {
    if s >= 3600 {
        dec(s / 3600) + ":"@ + dec_pad((s % 3600) / 60, 2) + ":"@ + dec_pad(s % 60, 2)
    } else {
        dec_pad(s / 60, 2) + ":"@ + dec_pad(s % 60, 2)
    }
}

/// Duration label of whole seconds, as used in the media pool.
pub fn short_dur_of_secs(s: u64) -> (r: String)
    ensures
        r@ == spec_short_dur(s as nat),
{
    let mut out = String::new();
    if s >= 3600 {
        let h = dec_chars(s / 3600);
        let m = dec_pad_chars((s % 3600) / 60, 2);
        let sec = dec_pad_chars(s % 60, 2);
        push_chars(&mut out, &h);
        push_str(&mut out, ":");
        push_chars(&mut out, &m);
        push_str(&mut out, ":");
        push_chars(&mut out, &sec);
    } else {
        let m = dec_pad_chars(s / 60, 2);
        let sec = dec_pad_chars(s % 60, 2);
        push_chars(&mut out, &m);
        push_str(&mut out, ":");
        push_chars(&mut out, &sec);
    }
    out
}

} // verus!
