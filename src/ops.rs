use vstd::prelude::*;

use crate::color::{hex_to_rgb, is_color_text};
use crate::error::EditError;
use crate::text::{
    decimal, fine_seconds_text, push_arg, push_decimal, push_fine_seconds, push_seconds, push_signed_decimal, push_signed_seconds,
    seconds_text, signed_decimal, signed_seconds_text, views,
};

verus! {

/// The outline of a cover drawn over a watermark.
#[derive(Copy, Clone, PartialEq, Eq, PartialOrd, Ord, Debug, Structural)]
pub enum Shape {
    Rectangle,
    Ellipse,
}

/// The fixed effects that can be applied to a whole video.
#[derive(Copy, Clone, PartialEq, Eq, Debug, Structural)]
pub enum VideoEffect {
    Sepia,
    Blur,
    Vflip,
}

/// The filter expression of each effect.
pub open spec fn effect_filter_text(effect: VideoEffect) -> Seq<char> {
    match effect {
        VideoEffect::Sepia => "colorchannelmixer=.393:.769:.189:0:.349:.686:.168:0:.272:.534:.131"@,
        VideoEffect::Blur => "boxblur=5:1"@,
        VideoEffect::Vflip => "vflip"@,
    }
}

fn effect_filter(effect: &VideoEffect) -> (r: &'static str)
    ensures
        r@ == effect_filter_text(*effect),
{
    match effect {
        VideoEffect::Sepia => "colorchannelmixer=.393:.769:.189:0:.349:.686:.168:0:.272:.534:.131",
        VideoEffect::Blur => "boxblur=5:1",
        VideoEffect::Vflip => "vflip",
    }
}

/// The processing tool's arguments that apply an effect to a video.
pub fn apply_effect(input: &str, output: &str, effect: &VideoEffect) -> (r: Vec<String>)
    ensures
        views(r@) == seq!["-i"@, input@, "-vf"@, effect_filter_text(*effect), output@],
{
    let mut r: Vec<String> = Vec::new();
    push_arg(&mut r, "-i");
    push_arg(&mut r, input);
    push_arg(&mut r, "-vf");
    push_arg(&mut r, effect_filter(effect));
    push_arg(&mut r, output);
    r
}

/// The processing tool's arguments that play a video, sound included, backwards.
pub fn reverse_video(input: &str, output: &str) -> (r: Vec<String>)
    ensures
        views(r@) == seq!["-i"@, input@, "-vf"@, "reverse"@, "-af"@, "areverse"@, output@],
{
    let mut r: Vec<String> = Vec::new();
    push_arg(&mut r, "-i");
    push_arg(&mut r, input);
    push_arg(&mut r, "-vf");
    push_arg(&mut r, "reverse");
    push_arg(&mut r, "-af");
    push_arg(&mut r, "areverse");
    push_arg(&mut r, output);
    r
}

/// The file-name pattern of the parts, three zero-padded digits each.
pub open spec fn part_pattern() -> Seq<char> {
    "part%03d.mp4"@
}

/// The pattern joined to the output directory as a path: with a separator
/// unless the directory is empty or already ends in one.
pub open spec fn segment_pattern_text(dir: Seq<char>) -> Seq<char> {
    if dir.len() == 0 {
        part_pattern()
    } else if dir.last() == '/' {
        dir + part_pattern()
    } else {
        dir + seq!['/'] + part_pattern()
    }
}

/// The path pattern of the files that a split writes into `output_dir`.
pub fn segment_pattern(output_dir: &str) -> (r: String)
    ensures
        r@ == segment_pattern_text(output_dir@),
{
    let n = output_dir.unicode_len();
    if n == 0 {
        return String::from_str("part%03d.mp4");
    }
    let mut r = String::from_str(output_dir);
    if output_dir.get_char(n - 1) != '/' {
        r.append("/");
        proof {
            reveal_strlit("/");
        }
    }
    r.append("part%03d.mp4");
    assert(r@ =~= segment_pattern_text(output_dir@));
    r
}

/// The length of each part, in units of 10^-25 second, when a duration in
/// microseconds is cut into `parts` parts: the exact quotient, rounded up at
/// the last place so that the parts cover the whole.
pub open spec fn segment_length(duration_us: nat, parts: nat) -> nat
    recommends
        parts > 0,
{
    ((duration_us * 10_000_000_000_000_000_000 + parts - 1) / parts as int) as nat
}

/// The length of each part, in units of 10^-25 second, of a split into
/// `parts` parts.
pub fn segment_time(duration_us: u64, parts: u32) -> (r: u128)
    requires
        parts > 0,
    ensures
        r as nat == segment_length(duration_us as nat, parts as nat),
        r / 10_000_000_000_000_000_000_000_000 <= u64::MAX,
{
    let n = parts as u128;
    let num = duration_us as u128 * 10_000_000_000_000_000_000u128;
    let q = num / n;
    let rem = num % n;
    let r: u128;
    proof {
        let d = num as int;
        let p = n as int;
        assert(d == q * p + rem) by (nonlinear_arith)
            requires
                q == d / p,
                rem == d % p,
                p > 0,
        ;
        if rem == 0 {
            assert((d + p - 1) / p == q) by (nonlinear_arith)
                requires
                    d == q * p,
                    p > 0,
            ;
        } else {
            assert((d + p - 1) / p == q + 1) by (nonlinear_arith)
                requires
                    d == q * p + rem,
                    0 < rem < p,
            ;
            assert(q < d) by (nonlinear_arith)
                requires
                    d == q * p + rem,
                    0 < rem < p,
                    q >= 0,
            ;
        }
        assert(q <= d) by (nonlinear_arith)
            requires
                d == q * p + rem,
                p >= 1,
                rem >= 0,
                q >= 0,
        ;
    }
    if rem == 0 {
        r = q;
    } else {
        r = q + 1;
    }
    proof {
        let f: int = 10_000_000_000_000_000_000_000_000;
        let m: int = 10_000_000_000_000_000_000;
        assert(r as int <= num as int);
        assert(num as int == duration_us as int * m);
        assert((r as int) / f <= (duration_us as int * m) / f) by (nonlinear_arith)
            requires
                r as int <= duration_us as int * m,
                f > 0,
                r >= 0,
        ;
        assert((duration_us as int * m) / f <= duration_us as int) by (nonlinear_arith)
            requires
                m == 10_000_000_000_000_000_000,
                f == 10_000_000_000_000_000_000_000_000,
                duration_us >= 0,
        ;
    }
    r
}

/// The processing tool's arguments that cut a video into `parts` parts of
/// equal length, without re-encoding, written after the pattern.
pub open spec fn split_args(input: Seq<char>, pattern: Seq<char>, seg: nat) -> Seq<Seq<char>> {
    seq![
        "-i"@,
        input,
        "-f"@,
        "segment"@,
        "-segment_time"@,
        fine_seconds_text(seg),
        "-reset_timestamps"@,
        "1"@,
        "-c"@,
        "copy"@,
        pattern,
    ]
}

/// The processing tool's arguments that split a video of the given duration,
/// in microseconds, into `parts` files in `output_dir`. Zero parts is an error.
pub fn split_video(input: &str, output_dir: &str, duration_us: u64, parts: u32) -> (r: Result<
    Vec<String>,
    EditError,
>)
    ensures
        parts == 0 ==> r == Err::<Vec<String>, EditError>(EditError::ZeroParts),
        parts > 0 ==> r is Ok && views(r->Ok_0@) == split_args(
            input@,
            segment_pattern_text(output_dir@),
            segment_length(duration_us as nat, parts as nat),
        ),
{
    if parts == 0 {
        return Err(EditError::ZeroParts);
    }
    let seg = segment_time(duration_us, parts);
    let mut time = String::new();
    push_fine_seconds(&mut time, seg);
    let pattern = segment_pattern(output_dir);
    let mut r: Vec<String> = Vec::new();
    push_arg(&mut r, "-i");
    push_arg(&mut r, input);
    push_arg(&mut r, "-f");
    push_arg(&mut r, "segment");
    push_arg(&mut r, "-segment_time");
    push_arg(&mut r, time.as_str());
    push_arg(&mut r, "-reset_timestamps");
    push_arg(&mut r, "1");
    push_arg(&mut r, "-c");
    push_arg(&mut r, "copy");
    push_arg(&mut r, pattern.as_str());
    Ok(r)
}

/// The factor by which a stretch from `original` to `target` scales time, as
/// numerator and denominator: `target / original`.
pub open spec fn stretch_ratio(original: nat, target: nat) -> (nat, nat) {
    (target, original)
}

/// The factor by which the same stretch changes the audio tempo, as numerator
/// and denominator: `original / target`.
pub open spec fn tempo_ratio(original: nat, target: nat) -> (nat, nat) {
    (original, target)
}

/// A ratio of two durations in microseconds, written as a quotient of seconds.
pub open spec fn ratio_text(r: (nat, nat)) -> Seq<char> {
    seconds_text(r.0) + "/"@ + seconds_text(r.1)
}

/// The presentation-time scale of a stretch.
pub open spec fn stretch_filter_text(original: nat, target: nat) -> Seq<char> {
    "setpts="@ + ratio_text(stretch_ratio(original, target)) + "*PTS"@
}

/// The audio tempo that goes with that stretch.
pub open spec fn tempo_filter_text(original: nat, target: nat) -> Seq<char> {
    "atempo="@ + ratio_text(tempo_ratio(original, target))
}

/// The processing tool's arguments that stretch a video of duration
/// `original_us` to `target_us`, both in microseconds. The ratio is written
/// as a quotient and handed over unchecked: a ratio that the tool cannot use
/// fails there.
pub fn stretch_video(input: &str, output: &str, original_us: u64, target_us: u64) -> (r: Vec<String>)
    ensures
        views(r@) == seq![
            "-i"@,
            input@,
            "-filter:v"@,
            stretch_filter_text(original_us as nat, target_us as nat),
            "-filter:a"@,
            tempo_filter_text(original_us as nat, target_us as nat),
            "-y"@,
            output@,
        ],
{
    let mut video = String::from_str("setpts=");
    push_seconds(&mut video, target_us);
    video.append("/");
    push_seconds(&mut video, original_us);
    video.append("*PTS");
    let mut audio = String::from_str("atempo=");
    push_seconds(&mut audio, original_us);
    audio.append("/");
    push_seconds(&mut audio, target_us);
    assert(video@ =~= stretch_filter_text(original_us as nat, target_us as nat));
    assert(audio@ =~= tempo_filter_text(original_us as nat, target_us as nat));
    let mut r: Vec<String> = Vec::new();
    push_arg(&mut r, "-i");
    push_arg(&mut r, input);
    push_arg(&mut r, "-filter:v");
    push_arg(&mut r, video.as_str());
    push_arg(&mut r, "-filter:a");
    push_arg(&mut r, audio.as_str());
    push_arg(&mut r, "-y");
    push_arg(&mut r, output);
    r
}

/// A filled, opaque box of the colour at the given place and size.
pub open spec fn box_text(width: u32, height: u32, x: i32, y: i32, color: Seq<char>) -> Seq<char> {
    "drawbox=x="@ + signed_decimal(x as int) + ":y="@ + signed_decimal(y as int) + ":w="@
        + decimal(width as nat) + ":h="@ + decimal(height as nat) + ":color="@ + color
        + "@1:t=fill"@
}

/// The alpha mask that keeps the pixels inside the ellipse inscribed in the box.
pub open spec fn ellipse_mask_text(width: u32, height: u32, x: i32, y: i32) -> Seq<char> {
    ",geq=lum='lum(X,Y)':a='if(pow((X-("@ + signed_decimal(x as int) + "+"@ + decimal(
        width as nat,
    ) + "/2))/(0.5*"@ + decimal(width as nat) + "),2)+pow((Y-("@ + signed_decimal(y as int)
        + "+"@ + decimal(height as nat) + "/2))/(0.5*"@ + decimal(height as nat)
        + "),2)<=1,255,0)'"@
}

/// The filter that covers a region with a shape of the colour.
pub open spec fn watermark_filter_text(
    width: u32,
    height: u32,
    x: i32,
    y: i32,
    shape: Shape,
    color: Seq<char>,
) -> Seq<char> {
    match shape {
        Shape::Rectangle => box_text(width, height, x, y, color),
        Shape::Ellipse => "format=rgba,"@ + box_text(width, height, x, y, color)
            + ellipse_mask_text(width, height, x, y),
    }
}

fn push_box(f: &mut String, width: u32, height: u32, x: i32, y: i32, color: &str)
    ensures
        final(f)@ == old(f)@ + box_text(width, height, x, y, color@),
{
    f.append("drawbox=x=");
    push_signed_decimal(f, x as i64);
    f.append(":y=");
    push_signed_decimal(f, y as i64);
    f.append(":w=");
    push_decimal(f, width as u64);
    f.append(":h=");
    push_decimal(f, height as u64);
    f.append(":color=");
    f.append(color);
    f.append("@1:t=fill");
    assert(final(f)@ =~= old(f)@ + box_text(width, height, x, y, color@));
}

fn push_ellipse_mask(f: &mut String, width: u32, height: u32, x: i32, y: i32)
    ensures
        final(f)@ == old(f)@ + ellipse_mask_text(width, height, x, y),
{
    f.append(",geq=lum='lum(X,Y)':a='if(pow((X-(");
    push_signed_decimal(f, x as i64);
    f.append("+");
    push_decimal(f, width as u64);
    f.append("/2))/(0.5*");
    push_decimal(f, width as u64);
    f.append("),2)+pow((Y-(");
    push_signed_decimal(f, y as i64);
    f.append("+");
    push_decimal(f, height as u64);
    f.append("/2))/(0.5*");
    push_decimal(f, height as u64);
    f.append("),2)<=1,255,0)'");
    assert(final(f)@ =~= old(f)@ + ellipse_mask_text(width, height, x, y));
}

/// The filter expression that covers a region with a shape of the colour.
pub fn watermark_filter(width: u32, height: u32, x: i32, y: i32, shape: Shape, color: &str) -> (r:
    String)
    ensures
        r@ == watermark_filter_text(width, height, x, y, shape, color@),
{
    let mut f = String::new();
    match shape {
        Shape::Rectangle => {
            push_box(&mut f, width, height, x, y, color);
        },
        Shape::Ellipse => {
            f.append("format=rgba,");
            push_box(&mut f, width, height, x, y, color);
            push_ellipse_mask(&mut f, width, height, x, y);
        },
    }
    assert(f@ =~= watermark_filter_text(width, height, x, y, shape, color@));
    f
}

/// The processing tool's arguments that cover a watermark: a `width` by
/// `height` shape with its top-left corner at (`x`, `y`), in the colour
/// written as six hexadecimal digits; the sound is copied. A colour that is
/// not such is an error.
pub fn cover_watermark(
    input: &str,
    output: &str,
    width: u32,
    height: u32,
    x: i32,
    y: i32,
    shape: Shape,
    color: &str,
) -> (r: Result<Vec<String>, EditError>)
    ensures
        !is_color_text(color@) ==> r == Err::<Vec<String>, EditError>(EditError::InvalidColor),
        is_color_text(color@) ==> r is Ok && views(r->Ok_0@) == seq![
            "-i"@,
            input@,
            "-vf"@,
            watermark_filter_text(width, height, x, y, shape, color@),
            "-c:a"@,
            "copy"@,
            "-y"@,
            output@,
        ],
{
    if hex_to_rgb(color).is_err() {
        return Err(EditError::InvalidColor);
    }
    let filter = watermark_filter(width, height, x, y, shape, color);
    let mut r: Vec<String> = Vec::new();
    push_arg(&mut r, "-i");
    push_arg(&mut r, input);
    push_arg(&mut r, "-vf");
    push_arg(&mut r, filter.as_str());
    push_arg(&mut r, "-c:a");
    push_arg(&mut r, "copy");
    push_arg(&mut r, "-y");
    push_arg(&mut r, output);
    Ok(r)
}

/// Where the fade starts: the first video's duration less the fade's, which
/// is negative where the fade is the longer.
pub open spec fn fade_offset(first_duration: nat, fade: nat) -> int {
    first_duration - fade
}

/// The filter that fades from the first video into the second.
pub open spec fn cross_fade_filter_text(first_duration: nat, fade: nat) -> Seq<char> {
    "[0:v][1:v]xfade=transition=fade:duration="@ + seconds_text(fade) + ":offset="@
        + signed_seconds_text(fade_offset(first_duration, fade)) + "[v]"@
}

/// The processing tool's arguments that cross-fade two videos, given the
/// first one's duration and the fade's, in microseconds.
pub fn cross_fade_videos(
    input1: &str,
    input2: &str,
    output: &str,
    first_duration_us: u64,
    fade_us: u64,
) -> (r: Vec<String>)
    ensures
        views(r@) == seq![
            "-i"@,
            input1@,
            "-i"@,
            input2@,
            "-filter_complex"@,
            cross_fade_filter_text(first_duration_us as nat, fade_us as nat),
            "-map"@,
            "[v]"@,
            "-y"@,
            output@,
        ],
{
    let mut f = String::from_str("[0:v][1:v]xfade=transition=fade:duration=");
    push_seconds(&mut f, fade_us);
    f.append(":offset=");
    if fade_us <= first_duration_us {
        push_signed_seconds(&mut f, false, first_duration_us - fade_us);
    } else {
        push_signed_seconds(&mut f, true, fade_us - first_duration_us);
    }
    f.append("[v]");
    assert(f@ =~= cross_fade_filter_text(first_duration_us as nat, fade_us as nat));
    let mut r: Vec<String> = Vec::new();
    push_arg(&mut r, "-i");
    push_arg(&mut r, input1);
    push_arg(&mut r, "-i");
    push_arg(&mut r, input2);
    push_arg(&mut r, "-filter_complex");
    push_arg(&mut r, f.as_str());
    push_arg(&mut r, "-map");
    push_arg(&mut r, "[v]");
    push_arg(&mut r, "-y");
    push_arg(&mut r, output);
    r
}

/// The processing tool's arguments that cut out the span from `start` to
/// `end`, re-encoding the video and, where there is one, the sound.
pub open spec fn trim_args(
    input: Seq<char>,
    output: Seq<char>,
    start: nat,
    end: nat,
    has_audio: bool,
) -> Seq<Seq<char>> {
    let head = seq!["-i"@, input, "-ss"@, seconds_text(start), "-to"@, seconds_text(end), "-map"@, "0:v"@];
    let video = seq!["-c:v"@, "libx264"@, "-preset"@, "fast"@];
    let tail = seq!["-y"@, output];
    if has_audio {
        head + seq!["-map"@, "0:a"@] + video + seq!["-c:a"@, "aac"@] + tail
    } else {
        head + video + tail
    }
}

/// The processing tool's arguments that trim a video to the span from
/// `start_us` to `end_us`, given which streams the input holds. An input
/// without a video stream is an error.
pub fn trim_video(
    input: &str,
    output: &str,
    start_us: u64,
    end_us: u64,
    has_video: bool,
    has_audio: bool,
) -> (r: Result<Vec<String>, EditError>)
    ensures
        !has_video ==> r == Err::<Vec<String>, EditError>(EditError::NoVideoStream),
        has_video ==> r is Ok && views(r->Ok_0@) == trim_args(
            input@,
            output@,
            start_us as nat,
            end_us as nat,
            has_audio,
        ),
{
    if !has_video {
        return Err(EditError::NoVideoStream);
    }
    let mut start = String::new();
    push_seconds(&mut start, start_us);
    let mut end = String::new();
    push_seconds(&mut end, end_us);
    let mut r: Vec<String> = Vec::new();
    push_arg(&mut r, "-i");
    push_arg(&mut r, input);
    push_arg(&mut r, "-ss");
    push_arg(&mut r, start.as_str());
    push_arg(&mut r, "-to");
    push_arg(&mut r, end.as_str());
    push_arg(&mut r, "-map");
    push_arg(&mut r, "0:v");
    if has_audio {
        push_arg(&mut r, "-map");
        push_arg(&mut r, "0:a");
    }
    push_arg(&mut r, "-c:v");
    push_arg(&mut r, "libx264");
    push_arg(&mut r, "-preset");
    push_arg(&mut r, "fast");
    if has_audio {
        push_arg(&mut r, "-c:a");
        push_arg(&mut r, "aac");
    }
    push_arg(&mut r, "-y");
    push_arg(&mut r, output);
    assert(views(r@) =~= trim_args(input@, output@, start_us as nat, end_us as nat, has_audio));
    Ok(r)
}

/// The list of files that the concatenation reads, one `file '<path>'` line
/// for each input, in order.
pub open spec fn concat_list_text(inputs: Seq<Seq<char>>) -> Seq<char>
    decreases inputs.len(),
{
    if inputs.len() == 0 {
        Seq::empty()
    } else {
        concat_list_text(inputs.drop_last()) + "file '"@ + inputs.last() + "'\n"@
    }
}

/// The text of the list file that names the inputs of a concatenation.
pub fn concat_list(inputs: &Vec<String>) -> (r: String)
    ensures
        r@ == concat_list_text(views(inputs@)),
{
    let mut r = String::new();
    let mut i: usize = 0;
    while i < inputs.len()
        invariant
            i <= inputs.len(),
            r@ == concat_list_text(views(inputs@.take(i as int))),
        decreases inputs.len() - i,
    {
        r.append("file '");
        r.append(inputs[i].as_str());
        r.append("'\n");
        proof {
            let s = views(inputs@.take(i + 1));
            assert(s.drop_last() =~= views(inputs@.take(i as int)));
            assert(s.last() == inputs@[i as int]@);
        }
        i = i + 1;
    }
    assert(inputs@.take(inputs.len() as int) =~= inputs@);
    r
}

/// The processing tool's arguments that join, without re-encoding, the
/// videos named in the list file.
pub fn concatenate_videos(list_path: &str, output: &str) -> (r: Vec<String>)
    ensures
        views(r@) == seq![
            "-f"@,
            "concat"@,
            "-safe"@,
            "0"@,
            "-i"@,
            list_path@,
            "-c"@,
            "copy"@,
            "-y"@,
            output@,
        ],
{
    let mut r: Vec<String> = Vec::new();
    push_arg(&mut r, "-f");
    push_arg(&mut r, "concat");
    push_arg(&mut r, "-safe");
    push_arg(&mut r, "0");
    push_arg(&mut r, "-i");
    push_arg(&mut r, list_path);
    push_arg(&mut r, "-c");
    push_arg(&mut r, "copy");
    push_arg(&mut r, "-y");
    push_arg(&mut r, output);
    r
}

/// Cutting a duration into `parts` parts of the segment length covers it:
/// the parts together reach at least the duration, and exceed it by less
/// than one unit of 10^-25 second for each part.
pub proof fn lemma_segments_cover(duration_us: nat, parts: nat)
    requires
        parts > 0,
    ensures
        parts * segment_length(duration_us, parts) >= duration_us * 10_000_000_000_000_000_000,
        parts * segment_length(duration_us, parts) < duration_us * 10_000_000_000_000_000_000
            + parts,
{
    let d = (duration_us * 10_000_000_000_000_000_000) as int;
    let p = parts as int;
    let s = (d + p - 1) / p;
    assert(p * s <= d + p - 1 && p * s > d - 1) by (nonlinear_arith)
        requires
            s == (d + p - 1) / p,
            p > 0,
    ;
}

/// For a split of any positive duration into any count of parts that a
/// `u32` holds, the parts together differ from the duration by at most a
/// billionth of it: in units of 10^-25 second, the excess is at most the
/// duration in microseconds times 10^10.
pub proof fn lemma_segment_precision(duration_us: nat, parts: nat)
    requires
        duration_us > 0,
        0 < parts <= u32::MAX,
    ensures
        0 <= parts * segment_length(duration_us, parts) - duration_us * 10_000_000_000_000_000_000
            <= duration_us * 10_000_000_000,
{
    lemma_segments_cover(duration_us, parts);
    assert(duration_us * 10_000_000_000 >= 10_000_000_000) by (nonlinear_arith)
        requires
            duration_us >= 1,
    ;
}

/// The tempo ratio is the inverse of the stretch ratio, and scaling the
/// original duration by the stretch ratio gives the target exactly.
pub proof fn lemma_stretch_ratios(original: nat, target: nat)
    ensures
        stretch_ratio(original, target).0 * tempo_ratio(original, target).0 == stretch_ratio(
            original,
            target,
        ).1 * tempo_ratio(original, target).1,
        original * stretch_ratio(original, target).0 == target * stretch_ratio(original, target).1,
{
    assert(target * original == original * target) by (nonlinear_arith);
}

/// Stretching from `a` to `b` and then from `b` back to `a` scales time by
/// two ratios whose product is one, so the first duration comes back exactly.
pub proof fn lemma_stretch_round_trip(a: nat, b: nat)
    ensures
        stretch_ratio(a, b).0 * stretch_ratio(b, a).0 == stretch_ratio(a, b).1 * stretch_ratio(
            b,
            a,
        ).1,
        a * stretch_ratio(a, b).0 * stretch_ratio(b, a).0 == a * stretch_ratio(a, b).1
            * stretch_ratio(b, a).1,
{
    assert(b * a == a * b) by (nonlinear_arith);
    assert(a * b * a == a * a * b) by (nonlinear_arith);
}

} // verus!
