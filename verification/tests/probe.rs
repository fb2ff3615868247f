use kestrelcut::probe::{parse_probe_json, pick_streams, probe_streams, ProbeError};

const REPORT: &str = r#"{
  "streams": [
    {"index": 0, "codec_type": "data"},
    {"index": 1, "codec_type": "audio", "codec_name": "aac", "sample_rate": "48000", "channels": 2},
    {"index": 2, "codec_type": "video", "codec_name": "h264", "width": 1920, "height": 1080,
     "avg_frame_rate": "30000/1001", "duration": "12.5"},
    {"index": 3, "codec_type": "video", "codec_name": "mjpeg"}
  ],
  "format": {"duration": "12.512", "size": "1048576"}
}"#;

#[test]
fn report_fields_are_read() {
    let doc = parse_probe_json(REPORT.as_bytes()).unwrap();
    assert_eq!(doc.format_duration.as_deref(), Some("12.512"));
    assert_eq!(doc.format_size.as_deref(), Some("1048576"));
    assert_eq!(doc.streams.len(), 4);
    let v = &doc.streams[2];
    assert_eq!(v.codec_name.as_deref(), Some("h264"));
    assert_eq!((v.width, v.height), (Some(1920), Some(1080)));
    assert_eq!(v.avg_frame_rate.as_deref(), Some("30000/1001"));
    assert_eq!(doc.streams[1].channels, Some(2));
    assert_eq!(doc.streams[1].sample_rate.as_deref(), Some("48000"));
}

#[test]
fn first_video_and_first_audio_are_picked() {
    let doc = parse_probe_json(REPORT.as_bytes()).unwrap();
    assert_eq!(pick_streams(&doc), Some((Some(2), Some(1))));
    let (_, v, a) = probe_streams(REPORT.as_bytes()).unwrap();
    assert_eq!((v, a), (Some(2), Some(1)));
}

#[test]
fn no_streams_and_bad_json_are_errors() {
    let empty = br#"{"format": {"duration": "1.0"}}"#;
    assert_eq!(probe_streams(empty).unwrap_err(), ProbeError::NoStreams);
    assert_eq!(probe_streams(b"not json").unwrap_err(), ProbeError::Unreadable);
    assert_eq!(ProbeError::NoStreams.message(), "no streams found");
    assert_eq!(ProbeError::Unreadable.message(), "ffprobe failed");
}

#[test]
fn audio_only_file_has_no_video_index() {
    let only = br#"{"streams": [{"codec_type": "audio", "codec_name": "mp3"}]}"#;
    let (doc, v, a) = probe_streams(only).unwrap();
    assert_eq!((v, a), (None, Some(0)));
    assert_eq!(doc.format_duration, None);
}
