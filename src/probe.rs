use vstd::prelude::*;

use crate::error::EditError;
use crate::text::{
    count_leading, lemma_count_leading, parse_seconds, parse_u32, push_arg, seconds_value, trim,
    trim_bounds, u32_value, views,
};

verus! {

/// The arguments that ask the inspection tool for a file's duration in
/// seconds, printed bare.
pub fn duration_probe_args(input: &str) -> (r: Vec<String>)
    ensures
        views(r@) == seq![
            "-v"@,
            "error"@,
            "-show_entries"@,
            "format=duration"@,
            "-of"@,
            "default=noprint_wrappers=1:nokey=1"@,
            input@,
        ],
{
    let mut r: Vec<String> = Vec::new();
    push_arg(&mut r, "-v");
    push_arg(&mut r, "error");
    push_arg(&mut r, "-show_entries");
    push_arg(&mut r, "format=duration");
    push_arg(&mut r, "-of");
    push_arg(&mut r, "default=noprint_wrappers=1:nokey=1");
    push_arg(&mut r, input);
    r
}

/// The arguments that ask the inspection tool for the codec type of each
/// stream, one per line.
pub fn stream_probe_args(input: &str) -> (r: Vec<String>)
    ensures
        views(r@) == seq![
            "-v"@,
            "error"@,
            "-show_entries"@,
            "stream=codec_type"@,
            "-of"@,
            "csv=p=0"@,
            input@,
        ],
{
    let mut r: Vec<String> = Vec::new();
    push_arg(&mut r, "-v");
    push_arg(&mut r, "error");
    push_arg(&mut r, "-show_entries");
    push_arg(&mut r, "stream=codec_type");
    push_arg(&mut r, "-of");
    push_arg(&mut r, "csv=p=0");
    push_arg(&mut r, input);
    r
}

/// The arguments that ask the inspection tool for the width and height of
/// the first video stream, separated by a comma.
pub fn dimension_probe_args(input: &str) -> (r: Vec<String>)
    ensures
        views(r@) == seq![
            "-v"@,
            "error"@,
            "-select_streams"@,
            "v:0"@,
            "-count_packets"@,
            "-show_entries"@,
            "stream=width,height"@,
            "-of"@,
            "csv=p=0"@,
            input@,
        ],
{
    let mut r: Vec<String> = Vec::new();
    push_arg(&mut r, "-v");
    push_arg(&mut r, "error");
    push_arg(&mut r, "-select_streams");
    push_arg(&mut r, "v:0");
    push_arg(&mut r, "-count_packets");
    push_arg(&mut r, "-show_entries");
    push_arg(&mut r, "stream=width,height");
    push_arg(&mut r, "-of");
    push_arg(&mut r, "csv=p=0");
    push_arg(&mut r, input);
    r
}

/// Reads the duration that the inspection tool printed, in seconds, into
/// microseconds; text that is no decimal number of seconds is an error.
pub fn get_video_duration(listing: &str) -> (r: Result<u64, EditError>)
    ensures
        r == match seconds_value(listing@) {
            Some(us) => Ok::<u64, EditError>(us),
            None => Err(EditError::InvalidNumber),
        },
{
    match parse_seconds(listing) {
        Some(us) => Ok(us),
        None => Err(EditError::InvalidNumber),
    }
}

/// Whether a line of `s` may start at `i`.
pub open spec fn line_starts_at(s: Seq<char>, i: int) -> bool {
    i == 0 || s[i - 1] == '\n'
}

/// Whether a line of `s` may end at `j`: a line feed, or a carriage return
/// and a line feed, or the end of the text follows.
pub open spec fn line_ends_at(s: Seq<char>, j: int) -> bool {
    j == s.len() || s[j] == '\n' || (s[j] == '\r' && j + 1 < s.len() && s[j + 1] == '\n')
}

/// Whether `w` stands at `i` in `s` as a whole line.
pub open spec fn line_at(s: Seq<char>, w: Seq<char>, i: int) -> bool {
    0 <= i && i + w.len() <= s.len() && s.subrange(i, i + w.len()) == w && line_starts_at(s, i)
        && line_ends_at(s, i + w.len())
}

/// Whether some line of `s`, as `str::lines` splits it, equals `w`.
pub open spec fn has_line(s: Seq<char>, w: Seq<char>) -> bool {
    exists|i: int| #[trigger] line_at(s, w, i)
}

fn line_at_exec(text: &str, word: &str, i: usize) -> (r: bool)
    requires
        i + word@.len() <= text@.len(),
    ensures
        r == line_at(text@, word@, i as int),
{
    let n = text.unicode_len();
    let m = word.unicode_len();
    if i > 0 && text.get_char(i - 1) != '\n' {
        return false;
    }
    let mut k: usize = 0;
    while k < m
        invariant
            n == text@.len(),
            m == word@.len(),
            i + m <= n,
            k <= m,
            forall|j: int| 0 <= j < k ==> text@[i + j] == word@[j],
        decreases m - k,
    {
        if text.get_char(i + k) != word.get_char(k) {
            assert(text@.subrange(i as int, i + m)[k as int] != word@[k as int]);
            return false;
        }
        k = k + 1;
    }
    assert(text@.subrange(i as int, i + m) =~= word@);
    let j = i + m;
    j == n || text.get_char(j) == '\n' || (text.get_char(j) == '\r' && j + 1 < n && text.get_char(j
        + 1) == '\n')
}

/// Whether some line of the text equals the word.
pub fn contains_line(text: &str, word: &str) -> (r: bool)
    ensures
        r == has_line(text@, word@),
{
    let n = text.unicode_len();
    let m = word.unicode_len();
    if m > n {
        assert forall|i: int| !line_at(text@, word@, i) by {}
        return false;
    }
    let mut i: usize = 0;
    while i < n - m
        invariant
            n == text@.len(),
            m == word@.len(),
            m <= n,
            i <= n - m,
            forall|j: int| 0 <= j < i ==> !#[trigger] line_at(text@, word@, j),
        decreases n - m - i,
    {
        if line_at_exec(text, word, i) {
            return true;
        }
        i = i + 1;
    }
    if line_at_exec(text, word, i) {
        return true;
    }
    assert forall|j: int| !#[trigger] line_at(text@, word@, j) by {}
    false
}

/// Reads which kinds of stream the inspection tool listed: whether some line
/// is `video`, and whether some line is `audio`.
pub fn get_stream_info(listing: &str) -> (r: (bool, bool))
    ensures
        r == (has_line(listing@, "video"@), has_line(listing@, "audio"@)),
{
    let has_video = contains_line(listing, "video");
    let has_audio = contains_line(listing, "audio");
    (has_video, has_audio)
}

pub open spec fn not_comma() -> spec_fn(char) -> bool {
    |c: char| c != ','
}

/// A field read as a `u32`, or zero where it is no such number.
pub open spec fn u32_or_zero(s: Seq<char>) -> u32 {
    match u32_value(s) {
        Some(v) => v,
        None => 0,
    }
}

/// The width and height in a `width,height` line, each zero where its field
/// is missing or no number.
pub open spec fn dimensions_value(s: Seq<char>) -> (u32, u32) {
    let t = trim(s);
    let c = count_leading(t, not_comma()) as int;
    let h = if c < t.len() {
        let rest = t.skip(c + 1);
        u32_or_zero(rest.take(count_leading(rest, not_comma()) as int))
    } else {
        0
    };
    (u32_or_zero(t.take(c)), h)
}

/// Scans from `from` to the next comma or to `hi`.
fn field_end(text: &str, from: usize, hi: usize) -> (r: usize)
    requires
        from <= hi <= text@.len(),
    ensures
        from <= r <= hi,
        count_leading(text@.subrange(from as int, hi as int), not_comma()) == r - from,
{
    let ghost s = text@.subrange(from as int, hi as int);
    let mut i: usize = from;
    while i < hi && text.get_char(i) != ','
        invariant
            from <= i <= hi <= text@.len(),
            s == text@.subrange(from as int, hi as int),
            forall|j: int| 0 <= j < i - from ==> #[trigger] s[j] != ',',
        decreases hi - i,
    {
        i = i + 1;
    }
    proof {
        assert forall|j: int| 0 <= j < i - from implies not_comma()(#[trigger] s[j]) by {}
        lemma_count_leading(s, not_comma(), i - from);
        if i < hi {
            assert(s.skip(i - from)[0] == s[i - from]);
        }
    }
    i
}

/// Reads the width and height that the inspection tool printed as
/// `width,height`; a missing or malformed field reads as zero.
pub fn get_video_dimensions(listing: &str) -> (r: (u32, u32))
    ensures
        r == dimensions_value(listing@),
{
    let (lo, hi) = trim_bounds(listing);
    let ghost t = listing@.subrange(lo as int, hi as int);
    let c = field_end(listing, lo, hi);
    assert(t.take(c - lo) =~= listing@.subrange(lo as int, c as int));
    let width = match parse_u32(listing, lo, c) {
        Some(v) => v,
        None => 0,
    };
    let mut height: u32 = 0;
    if c < hi {
        let e = field_end(listing, c + 1, hi);
        let ghost rest = t.skip(c - lo + 1);
        assert(rest =~= listing@.subrange(c + 1, hi as int));
        assert(rest.take(e - c - 1) =~= listing@.subrange(c + 1, e as int));
        height = match parse_u32(listing, c + 1, e) {
            Some(v) => v,
            None => 0,
        };
    }
    (width, height)
}

} // verus!
