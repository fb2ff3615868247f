use kestrelcut::util::{fmt_bytes, short_dur_of_secs, timecode_of_frames};

/// The formatting the editor has always shown: the size as a float divided
/// down by 1024 until below 1024 (at most TB), with one decimal.
fn expected_size(b: u64) -> String {
    let units = ["B", "KB", "MB", "GB", "TB"];
    let mut v = b as f64;
    let mut i = 0;
    while v >= 1024.0 && i < 4 {
        v /= 1024.0;
        i += 1;
    }
    if i == 0 {
        format!("{b} B")
    } else {
        format!("{v:.1} {}", units[i])
    }
}

#[test]
fn byte_sizes_exact_values() {
    assert_eq!(fmt_bytes(0), "0 B");
    assert_eq!(fmt_bytes(1023), "1023 B");
    assert_eq!(fmt_bytes(1024), "1.0 KB");
    assert_eq!(fmt_bytes(1536), "1.5 KB");
    assert_eq!(fmt_bytes(10 * 1024 * 1024), "10.0 MB");
    assert_eq!(fmt_bytes(u64::MAX), "16777216.0 TB");
}

#[test]
fn byte_sizes_match_float_formatting() {
    let mut cases: Vec<u64> = vec![1280, 1126, 1127, 1075, 1177, 2047, 2048, 1048575, 1048576, 1073741823];
    for k in 0..64u32 {
        let p = 1u64 << k;
        cases.push(p);
        cases.push(p.wrapping_sub(1));
        cases.push(p.wrapping_add(1));
        cases.push(p / 10 * 3 + 7);
    }
    let mut x: u64 = 0x9E3779B97F4A7C15;
    for _ in 0..20000 {
        x ^= x << 13;
        x ^= x >> 7;
        x ^= x << 17;
        cases.push(x >> (x % 64));
    }
    for b in cases {
        assert_eq!(fmt_bytes(b), expected_size(b), "size {b}");
    }
}

#[test]
fn timecodes_are_zero_padded() {
    assert_eq!(timecode_of_frames(0, 30), "00:00:00:00");
    assert_eq!(timecode_of_frames(30 * 3661 + 7, 30), "01:01:01:07");
    assert_eq!(timecode_of_frames(24 * 3600 * 100, 24), "100:00:00:00");
    assert_eq!(timecode_of_frames(59, 1), "00:00:59:00");
}

#[test]
fn short_durations() {
    assert_eq!(short_dur_of_secs(0), "00:00");
    assert_eq!(short_dur_of_secs(75), "01:15");
    assert_eq!(short_dur_of_secs(3599), "59:59");
    assert_eq!(short_dur_of_secs(3600), "1:00:00");
    assert_eq!(short_dur_of_secs(36125), "10:02:05");
}
