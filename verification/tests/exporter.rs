use kestrelcut::exporter::{
    encoder_quality_args, ffmpeg_blend_name, hw_encoders, preferred_vcodec, split_args, sw_encoders,
    transition_runs,
};
use kestrelcut::model::BlendMode;

fn v(xs: &[&str]) -> Vec<String> {
    xs.iter().map(|x| x.to_string()).collect()
}

#[test]
fn quality_arguments_per_encoder() {
    assert_eq!(encoder_quality_args("libx264", 21), v(&["-crf", "21", "-preset", "veryfast"]));
    assert_eq!(
        encoder_quality_args("hevc_nvenc", 28),
        v(&["-preset", "p3", "-rc", "vbr", "-cq", "28", "-b:v", "0"])
    );
    assert_eq!(encoder_quality_args("av1_qsv", 0), v(&["-global_quality", "0", "-preset", "veryfast"]));
    assert_eq!(
        encoder_quality_args("h264_amf", 4294967295),
        v(&["-quality", "balanced", "-rc", "cqp", "-qp_i", "4294967295", "-qp_p", "4294967295"])
    );
    assert_eq!(encoder_quality_args("libsvtav1", 35), v(&["-crf", "35", "-preset", "8"]));
    assert_eq!(encoder_quality_args("mpeg4", 5), v(&["-crf", "5"]));
}

#[test]
fn offered_encoders_follow_the_table_order() {
    let available = v(&["aac", "hevc_amf", "h264_nvenc", "libx265", "libx264"]);
    let hw = hw_encoders(&available);
    assert_eq!(
        hw,
        vec![
            ("h264_nvenc".to_string(), "H.264 NVENC (NVIDIA)".to_string()),
            ("hevc_amf".to_string(), "H.265 AMF (AMD VCN)".to_string()),
        ]
    );
    let sw = sw_encoders(&available);
    assert_eq!(
        sw,
        vec![
            ("libx264".to_string(), "H.264 (x264)".to_string()),
            ("libx265".to_string(), "H.265 / HEVC (x265)".to_string()),
        ]
    );
    assert!(hw_encoders(&Vec::new()).is_empty());
}

#[test]
fn blend_filter_names() {
    assert_eq!(ffmpeg_blend_name(&BlendMode::SoftLight), "softlight");
    assert_eq!(ffmpeg_blend_name(&BlendMode::Difference), "difference");
    assert_eq!(ffmpeg_blend_name(&BlendMode::Normal), "normal");
}

#[test]
fn arguments_split_on_unquoted_spaces() {
    assert_eq!(split_args("-i 'my clip.mp4'  -t 3"), v(&["-i", "my clip.mp4", "-t", "3"]));
    assert_eq!(split_args("  "), Vec::<String>::new());
    assert_eq!(split_args("a''b 'c"), v(&["ab", "c"]));
    assert_eq!(split_args("'' x"), v(&["x"]));
}

#[test]
fn joined_arguments_split_back_apart() {
    let a = "-ss 1.000 -t 2.500";
    let b = "-i '/media/my clip.mp4'";
    let mut expected = split_args(a);
    expected.extend(split_args(b));
    assert_eq!(split_args(&format!("{a} {b}")), expected);
    assert_eq!(split_args("'/media/my clip.mp4'"), v(&["/media/my clip.mp4"]));
}

#[test]
fn export_dialog_prefers_hardware() {
    let hw = vec![("hevc_nvenc".to_string(), "H.265 NVENC (NVIDIA)".to_string())];
    assert_eq!(preferred_vcodec(&hw), "hevc_nvenc");
    assert_eq!(preferred_vcodec(&Vec::new()), "libx264");
}

#[test]
fn pieces_group_into_transition_runs() {
    assert_eq!(transition_runs(&vec![]), Vec::<Vec<usize>>::new());
    assert_eq!(transition_runs(&vec![true]), vec![vec![0]]);
    assert_eq!(
        transition_runs(&vec![false, true, false, false, true, true]),
        vec![vec![0, 1], vec![2], vec![3, 4, 5]]
    );
}

#[test]
fn output_args_close_the_command() {
    let v = kestrelcut::exporter::output_args("libx264", 21, "30", "aac", "/tmp/out.mp4");
    assert_eq!(v, vec![
        "-c:v", "libx264", "-crf", "21", "-preset", "veryfast", "-pix_fmt", "yuv420p", "-r", "30",
        "-c:a", "aac", "-b:a", "192k", "-movflags", "+faststart", "-progress", "pipe:1", "-nostats",
        "/tmp/out.mp4",
    ]);
}

#[test]
fn failure_message_keeps_last_six_lines_once_each() {
    let lines: Vec<String> = ["a", "b", "c", "c", "d", "d", "e", "f"].iter().map(|s| s.to_string()).collect();
    assert_eq!(kestrelcut::exporter::export_failure_message(&lines), "ffmpeg failed: c | d | e | f");
    assert_eq!(kestrelcut::exporter::export_failure_message(&Vec::new()), "ffmpeg failed: ");
}
