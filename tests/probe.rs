use video_ops::error::EditError;
use video_ops::probe::{
    contains_line, dimension_probe_args, duration_probe_args, get_stream_info, get_video_dimensions,
    get_video_duration, stream_probe_args,
};

#[test]
fn finds_both_stream_kinds() {
    assert_eq!(get_stream_info("video\naudio\n"), (true, true));
    assert_eq!(get_stream_info("audio\nvideo"), (true, true));
}

#[test]
fn stream_lines_must_match_whole() {
    assert_eq!(get_stream_info("videos\n"), (false, false));
    assert_eq!(get_stream_info("video\r\n"), (true, false));
    assert_eq!(get_stream_info("video\r"), (false, false));
    assert_eq!(get_stream_info(""), (false, false));
    assert_eq!(get_stream_info("subtitle\naudio"), (false, true));
    assert!(!contains_line(" audio", "audio"));
}

#[test]
fn reads_dimensions() {
    assert_eq!(get_video_dimensions("1920,1080\n"), (1920, 1080));
    assert_eq!(get_video_dimensions("+640,480,x"), (640, 480));
}

#[test]
fn missing_dimensions_read_as_zero() {
    assert_eq!(get_video_dimensions("1920"), (1920, 0));
    assert_eq!(get_video_dimensions("abc,720"), (0, 720));
    assert_eq!(get_video_dimensions(""), (0, 0));
    assert_eq!(get_video_dimensions("1920, 1080"), (1920, 0));
}

#[test]
fn reads_duration() {
    assert_eq!(get_video_duration("10.500000\n"), Ok(10_500_000));
    assert_eq!(get_video_duration("N/A\n"), Err(EditError::InvalidNumber));
    assert_eq!(get_video_duration("+5"), Ok(5_000_000));
    assert_eq!(get_video_duration("1e1\n"), Ok(10_000_000));
}

#[test]
fn probe_arguments() {
    assert_eq!(
        duration_probe_args("in.mp4"),
        vec!["-v", "error", "-show_entries", "format=duration", "-of", "default=noprint_wrappers=1:nokey=1", "in.mp4"]
    );
    assert_eq!(
        stream_probe_args("in.mp4"),
        vec!["-v", "error", "-show_entries", "stream=codec_type", "-of", "csv=p=0", "in.mp4"]
    );
    assert_eq!(
        dimension_probe_args("in.mp4"),
        vec!["-v", "error", "-select_streams", "v:0", "-count_packets", "-show_entries", "stream=width,height", "-of", "csv=p=0", "in.mp4"]
    );
}
