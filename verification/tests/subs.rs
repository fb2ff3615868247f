use kestrelcut::subs::{parse_srt, parse_srt_bytes, srt_text, ts_to_ms};

fn secs(ms: u64) -> f64 {
    ms as f64 / 1000.0
}

#[test]
fn parses_basic_srt() {
    let srt = "1\n00:00:01,000 --> 00:00:03,500\nHello <b>world</b>\n\n2\n00:00:04,000 --> 00:00:06,000\nSecond line";
    let cues = parse_srt(srt);
    assert_eq!(cues.len(), 2);
    assert!((secs(cues[0].0) - 1.0).abs() < 1e-6);
    assert!((secs(cues[0].1) - 3.5).abs() < 1e-6);
    assert_eq!(cues[0].2, "Hello world");
}

#[test]
fn crlf_bom_and_multiline_text() {
    let srt = "\u{feff}1\r\n00:01:02.250 --> 00:01:03,000\r\nline one\r\nline <i>two</i>\r\n\r\n";
    let cues = parse_srt(srt);
    assert_eq!(cues.len(), 1);
    assert_eq!(cues[0].0, 62_250);
    assert_eq!(cues[0].1, 63_000);
    assert_eq!(cues[0].2, "line one\nline two");
}

#[test]
fn drops_empty_and_backwards_cues() {
    let srt = "1\n00:00:05,000 --> 00:00:04,000\nbackwards\n\n2\n00:00:01,000 --> 00:00:02,000\n<b></b>\n\n3\n00:00:03,000 --> 00:00:04,000\nok";
    let cues = parse_srt(srt);
    assert_eq!(cues.len(), 1);
    assert_eq!(cues[0].2, "ok");
}

#[test]
fn block_without_timing_line_is_skipped() {
    let cues = parse_srt("just text\nmore text\n\n00:02,000 --> 00:03,000\nshort form");
    assert_eq!(cues.len(), 1);
    assert_eq!(cues[0].0, 2_000);
    assert_eq!(cues[0].1, 3_000);
    assert_eq!(cues[0].2, "short form");
}

#[test]
fn timestamp_forms() {
    let v = |s: &str| ts_to_ms(&s.chars().collect());
    assert_eq!(v(" 01:02:03,456 "), Some(3_723_456));
    assert_eq!(v("02:03.4"), Some(123_400));
    assert_eq!(v("00:00:07"), Some(7_000));
    assert_eq!(v("00:00:01.23456"), Some(1_234));
    assert_eq!(v("1:2:3:4"), None);
    assert_eq!(v("aa:00"), None);
    assert_eq!(v("00:."), None);
    assert_eq!(v(""), None);
}

#[test]
fn utf16_files_are_decoded_by_their_byte_order_mark() {
    let srt = "1\n00:00:01,000 --> 00:00:02,000\nHéllo\n";
    let mut le = vec![0xFF, 0xFE];
    for u in srt.encode_utf16() {
        le.extend_from_slice(&u.to_le_bytes());
    }
    let mut be = vec![0xFE, 0xFF];
    for u in srt.encode_utf16() {
        be.extend_from_slice(&u.to_be_bytes());
    }
    for bytes in [le, be, srt.as_bytes().to_vec()] {
        let cues = parse_srt_bytes(&bytes);
        assert_eq!(cues.len(), 1);
        assert_eq!(cues[0], (1_000, 2_000, "Héllo".to_string()));
    }
}

#[test]
fn undecodable_bytes_become_replacement_characters() {
    assert_eq!(srt_text(&[b'a', 0xFF, b'b']), "a\u{FFFD}b");
    assert_eq!(srt_text(&[0xFF, 0xFE, 0x00, 0xD8, b'x', 0x00]), "\u{FFFD}x");
    assert_eq!(srt_text(&[0xFE, 0xFF, 0x00, b'y', 0x00]), "y");
}

#[test]
fn bom_and_crlf_do_not_change_the_cues() {
    let s = "1\n00:00:01,000 --> 00:00:02,500\nHello <i>there</i>\n\n2\n00:00:03,000 --> 00:00:04,000\nBye\n";
    let plain = parse_srt(s);
    assert_eq!(plain.len(), 2);
    assert_eq!(parse_srt(&format!("\u{feff}{s}")), plain);
    assert_eq!(parse_srt(&s.replace('\n', "\r\n")), plain);
}

#[test]
fn utf16_pairs_decode_and_lone_surrogates_are_replaced() {
    let mut bytes = vec![0xFF, 0xFE];
    for u in [0x0061u16, 0xD83D, 0xDE00, 0xDC00, 0x0062] {
        bytes.extend_from_slice(&u.to_le_bytes());
    }
    assert_eq!(srt_text(&bytes), "a\u{1F600}\u{FFFD}b");
}
