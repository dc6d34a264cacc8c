use video_ops::error::EditError;
use video_ops::ops::{
    apply_effect, concat_list, concatenate_videos, cover_watermark, cross_fade_videos, reverse_video,
    segment_time, segment_pattern, split_video, stretch_video, trim_video, watermark_filter, Shape,
    VideoEffect,
};

#[test]
fn effect_arguments() {
    assert_eq!(apply_effect("a.mp4", "b.mp4", &VideoEffect::Blur), vec!["-i", "a.mp4", "-vf", "boxblur=5:1", "b.mp4"]);
    assert_eq!(apply_effect("a.mp4", "b.mp4", &VideoEffect::Vflip)[3], "vflip");
    assert_eq!(
        apply_effect("a.mp4", "b.mp4", &VideoEffect::Sepia)[3],
        "colorchannelmixer=.393:.769:.189:0:.349:.686:.168:0:.272:.534:.131"
    );
}

#[test]
fn reverse_arguments() {
    assert_eq!(reverse_video("a.mp4", "b.mp4"), vec!["-i", "a.mp4", "-vf", "reverse", "-af", "areverse", "b.mp4"]);
}

#[test]
fn split_segment_is_duration_over_parts() {
    assert_eq!(segment_time(10_000_000, 4), 25_000_000_000_000_000_000_000_000);
    assert_eq!(segment_time(10_000_000, 3), 33_333_333_333_333_333_333_333_334);
    assert_eq!(segment_time(0, 5), 0);
    let third = split_video("in.mp4", "out", 10_000_000, 3).unwrap();
    assert_eq!(third[5], "3.3333333333333333333333334");
    let t: f64 = third[5].parse().unwrap();
    assert!((t - 10.0 / 3.0).abs() <= 1e-9 * (10.0 / 3.0));
    let args = split_video("in.mp4", "out", 10_000_000, 4).unwrap();
    assert_eq!(
        args,
        vec!["-i", "in.mp4", "-f", "segment", "-segment_time", "2.5000000000000000000000000", "-reset_timestamps", "1", "-c", "copy", "out/part%03d.mp4"]
    );
}

#[test]
fn split_of_largest_values() {
    let args = split_video("in.mp4", "out", u64::MAX, u32::MAX).unwrap();
    let t: f64 = args[5].parse().unwrap();
    let exact = (u64::MAX as f64 / 1e6) / (u32::MAX as f64);
    assert!((t - exact).abs() <= 1e-9 * exact);
    let one = split_video("in.mp4", "out", u64::MAX, 1).unwrap();
    assert_eq!(one[5], "18446744073709.5516150000000000000000000");
}

#[test]
fn split_into_zero_parts_fails() {
    assert_eq!(split_video("in.mp4", "out", 10_000_000, 0), Err(EditError::ZeroParts));
}

#[test]
fn segment_pattern_joins_like_a_path() {
    assert_eq!(segment_pattern("out"), "out/part%03d.mp4");
    assert_eq!(segment_pattern("out/"), "out/part%03d.mp4");
    assert_eq!(segment_pattern(""), "part%03d.mp4");
}

#[test]
fn stretch_uses_ratio_and_inverse_tempo() {
    let args = stretch_video("a.mp4", "b.mp4", 10_000_000, 20_000_000);
    assert_eq!(
        args,
        vec!["-i", "a.mp4", "-filter:v", "setpts=20.000000/10.000000*PTS", "-filter:a", "atempo=10.000000/20.000000", "-y", "b.mp4"]
    );
    let back = stretch_video("b.mp4", "c.mp4", 20_000_000, 10_000_000);
    assert_eq!(back[3], "setpts=10.000000/20.000000*PTS");
    assert_eq!(back[5], "atempo=20.000000/10.000000");
}

#[test]
fn stretch_to_zero_is_left_to_the_tool() {
    let args = stretch_video("a.mp4", "b.mp4", 5_000_000, 0);
    assert_eq!(args[3], "setpts=0.000000/5.000000*PTS");
    assert_eq!(args[5], "atempo=5.000000/0.000000");
}

#[test]
fn rectangle_cover() {
    let args = cover_watermark("a.mp4", "b.mp4", 100, 50, 10, -5, Shape::Rectangle, "#FF0000").unwrap();
    assert_eq!(
        args,
        vec!["-i", "a.mp4", "-vf", "drawbox=x=10:y=-5:w=100:h=50:color=#FF0000@1:t=fill", "-c:a", "copy", "-y", "b.mp4"]
    );
}

#[test]
fn ellipse_cover_filter() {
    assert_eq!(
        watermark_filter(40, 20, 3, 4, Shape::Ellipse, "00ff00"),
        "format=rgba,drawbox=x=3:y=4:w=40:h=20:color=00ff00@1:t=fill,geq=lum='lum(X,Y)':a='if(pow((X-(3+40/2))/(0.5*40),2)+pow((Y-(4+20/2))/(0.5*20),2)<=1,255,0)'"
    );
}

#[test]
fn cover_with_bad_colour_fails() {
    assert_eq!(
        cover_watermark("a.mp4", "b.mp4", 1, 1, 0, 0, Shape::Rectangle, "red"),
        Err(EditError::InvalidColor)
    );
}

#[test]
fn cross_fade_offset() {
    let args = cross_fade_videos("a.mp4", "b.mp4", "c.mp4", 10_000_000, 2_000_000);
    assert_eq!(
        args,
        vec!["-i", "a.mp4", "-i", "b.mp4", "-filter_complex", "[0:v][1:v]xfade=transition=fade:duration=2.000000:offset=8.000000[v]", "-map", "[v]", "-y", "c.mp4"]
    );
}

#[test]
fn cross_fade_longer_than_video_gives_negative_offset() {
    let args = cross_fade_videos("a.mp4", "b.mp4", "c.mp4", 1_000_000, 3_500_000);
    assert_eq!(args[5], "[0:v][1:v]xfade=transition=fade:duration=3.500000:offset=-2.500000[v]");
}

#[test]
fn trim_with_audio() {
    let args = trim_video("a.mp4", "b.mp4", 1_500_000, 4_000_000, true, true).unwrap();
    assert_eq!(
        args,
        vec!["-i", "a.mp4", "-ss", "1.500000", "-to", "4.000000", "-map", "0:v", "-map", "0:a", "-c:v", "libx264", "-preset", "fast", "-c:a", "aac", "-y", "b.mp4"]
    );
}

#[test]
fn trim_without_audio() {
    let args = trim_video("a.mp4", "b.mp4", 0, 2_000_000, true, false).unwrap();
    assert_eq!(
        args,
        vec!["-i", "a.mp4", "-ss", "0.000000", "-to", "2.000000", "-map", "0:v", "-c:v", "libx264", "-preset", "fast", "-y", "b.mp4"]
    );
}

#[test]
fn trim_without_video_fails() {
    assert_eq!(trim_video("a.mp4", "b.mp4", 0, 1, false, true), Err(EditError::NoVideoStream));
}

#[test]
fn concat_of_one_input() {
    assert_eq!(concat_list(&vec!["only.mp4".to_string()]), "file 'only.mp4'\n");
    assert_eq!(
        concatenate_videos("list.txt", "out.mp4"),
        vec!["-f", "concat", "-safe", "0", "-i", "list.txt", "-c", "copy", "-y", "out.mp4"]
    );
}

#[test]
fn concat_list_keeps_order() {
    let inputs = vec!["b.mp4".to_string(), "a.mp4".to_string()];
    assert_eq!(concat_list(&inputs), "file 'b.mp4'\nfile 'a.mp4'\n");
    assert_eq!(concat_list(&Vec::new()), "");
}
