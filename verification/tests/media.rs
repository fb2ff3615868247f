use kestrelcut::media::{
    classify_kind, encoders_from_listing, esc_filter_path, ffmpeg_ok, ffmpeg_source, has_encoder, pick_ffmpeg,
    pick_ffprobe, progress_time, progress_value, wave_peaks, where_report, FfmpegSource,
};
use kestrelcut::model::AssetKind;

fn s(x: &str) -> Option<String> {
    Some(x.to_string())
}

#[test]
fn ffmpeg_resolution_order() {
    assert_eq!(
        pick_ffmpeg(s("/env/ffmpeg"), s("/app/ffmpeg"), s("/usr/bin/ffmpeg")),
        Some(("/env/ffmpeg".to_string(), FfmpegSource::EnvOverride))
    );
    assert_eq!(
        pick_ffmpeg(None, s("/app/ffmpeg"), s("/usr/bin/ffmpeg")),
        Some(("/app/ffmpeg".to_string(), FfmpegSource::Bundled))
    );
    assert_eq!(
        pick_ffmpeg(None, None, s("/usr/bin/ffmpeg")),
        Some(("/usr/bin/ffmpeg".to_string(), FfmpegSource::SystemPath))
    );
    assert_eq!(pick_ffmpeg(None, None, None), None);
}

#[test]
fn ffprobe_falls_back_to_the_copy_beside_ffmpeg() {
    assert_eq!(pick_ffprobe(None, None, None, s("/opt/ffprobe")), s("/opt/ffprobe"));
    assert_eq!(pick_ffprobe(None, s("/app/ffprobe"), None, s("/opt/ffprobe")), s("/app/ffprobe"));
    assert_eq!(pick_ffprobe(None, None, None, None), None);
}

#[test]
fn source_labels_and_availability() {
    assert_eq!(ffmpeg_source(Some(FfmpegSource::Bundled)), "bundled with KestrelCut");
    assert_eq!(ffmpeg_source(Some(FfmpegSource::EnvOverride)), "env override");
    assert_eq!(ffmpeg_source(Some(FfmpegSource::SystemPath)), "system PATH");
    assert_eq!(ffmpeg_source(None), "not found");
    assert!(ffmpeg_ok(&Some(("/x".to_string(), FfmpegSource::SystemPath))));
    assert!(!ffmpeg_ok(&None));
}

#[test]
fn where_report_text() {
    assert_eq!(
        where_report(Some("/a/ffmpeg"), None, "bundled with KestrelCut"),
        "ffmpeg : /a/ffmpeg\nffprobe: NOT FOUND\nsource : bundled with KestrelCut"
    );
}

#[test]
fn classify_by_extension_ignoring_case() {
    assert_eq!(classify_kind("MP3"), AssetKind::Audio);
    assert_eq!(classify_kind("wma"), AssetKind::Audio);
    assert_eq!(classify_kind("Jpeg"), AssetKind::Image);
    assert_eq!(classify_kind("tiff"), AssetKind::Image);
    assert_eq!(classify_kind("mkv"), AssetKind::Video);
    assert_eq!(classify_kind(""), AssetKind::Video);
}

#[test]
fn filter_paths_are_escaped() {
    assert_eq!(esc_filter_path("C:\\clips\\it's.cube"), "C\\:/clips/it\\\\'s.cube");
    assert_eq!(esc_filter_path("/plain/path.srt"), "/plain/path.srt");
}

#[test]
fn encoders_are_read_from_the_listing() {
    let listing = "Encoders:\n V..... = Video\n ------\n V....D libx264              libx264 H.264\r\n A....D aac                  AAC\n";
    let enc = encoders_from_listing(listing);
    assert_eq!(enc, vec!["=", "libx264", "aac"]);
    assert!(has_encoder(&enc, "libx264"));
    assert!(!has_encoder(&enc, "h264_nvenc"));
}

#[test]
fn progress_lines_carry_output_time() {
    assert_eq!(progress_time("out_time_us=1500000\n"), s("1500000"));
    assert_eq!(progress_time("  out_time_ms=42 "), s("42"));
    assert_eq!(progress_time("out_time=00:00:01.500000"), None);
    assert_eq!(progress_time("frame=12"), None);
    assert_eq!(progress_time("out_time_ms"), s(""));
}

#[test]
fn progress_values_by_key() {
    assert_eq!(progress_value("speed=1.5x", "speed"), s("1.5x"));
    assert_eq!(progress_value("out_time_us=10", "out_time_ms"), None);
    assert_eq!(progress_value(" progress=end\r\n", "progress"), s("end"));
    assert_eq!(progress_value("a=b=c", "a"), s("b=c"));
}

fn pcm(samples: &[i16]) -> Vec<u8> {
    samples.iter().flat_map(|v| v.to_le_bytes()).collect()
}

#[test]
fn wave_peaks_of_one_bucket() {
    let p = wave_peaks(&pcm(&[0x1234, -1, 300, -513]));
    assert_eq!(p, vec![(-3, 18)]);
}

#[test]
fn wave_peaks_split_into_twenty_ms_buckets() {
    let mut samples = vec![1000i16; 160];
    samples.extend(vec![-1000i16; 10]);
    let p = wave_peaks(&pcm(&samples));
    assert_eq!(p, vec![(3, 3), (-4, -4)]);
}

#[test]
fn wave_peaks_edge_cases() {
    assert_eq!(wave_peaks(&[]), Vec::<(i8, i8)>::new());
    // a lone byte is a bucket without samples
    assert_eq!(wave_peaks(&[7]), vec![(0, 0)]);
    // extremes equal to the start values read as 0
    assert_eq!(wave_peaks(&pcm(&[i16::MAX, i16::MIN])), vec![(-128, 127)]);
    assert_eq!(wave_peaks(&pcm(&[i16::MAX])), vec![(0, 127)]);
}

#[test]
fn wave_peaks_are_capped_at_twenty_minutes() {
    let bytes = vec![0u8; 320 * 60_001];
    assert_eq!(wave_peaks(&bytes).len(), 60_000);
}
