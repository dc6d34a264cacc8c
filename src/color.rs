use vstd::prelude::*;

use crate::error::EditError;
use crate::text::push_char;

verus! {

/// Whether `c` is one of `0-9`, `a-f`, `A-F`.
pub open spec fn is_hex_digit(c: char) -> bool {
    ('0' <= c && c <= '9') || ('a' <= c && c <= 'f') || ('A' <= c && c <= 'F')
}

/// The value of a hexadecimal digit.
pub open spec fn hex_value(c: char) -> int {
    if '0' <= c && c <= '9' {
        c as int - '0' as int
    } else if 'a' <= c && c <= 'f' {
        c as int - 'a' as int + 10
    } else {
        c as int - 'A' as int + 10
    }
}

/// The lowercase digit of a value below 16.
pub open spec fn hex_char(v: int) -> char {
    if v < 10 {
        (v + '0' as int) as char
    } else {
        (v - 10 + 'a' as int) as char
    }
}

/// A colour text without its one optional leading `#`.
pub open spec fn strip_hash(s: Seq<char>) -> Seq<char> {
    if s.len() > 0 && s[0] == '#' {
        s.drop_first()
    } else {
        s
    }
}

/// Whether the text, once its optional `#` is stripped, is six hex digits.
pub open spec fn is_color_text(s: Seq<char>) -> bool {
    let h = strip_hash(s);
    h.len() == 6 && forall|i: int| 0 <= i < 6 ==> is_hex_digit(#[trigger] h[i])
}

/// The byte written by the two digits at `i` and `i + 1`.
pub open spec fn pair_value(h: Seq<char>, i: int) -> int {
    hex_value(h[i]) * 16 + hex_value(h[i + 1])
}

/// The channels that a colour text stands for.
pub open spec fn color_channels(s: Seq<char>) -> (u8, u8, u8) {
    let h = strip_hash(s);
    (pair_value(h, 0) as u8, pair_value(h, 2) as u8, pair_value(h, 4) as u8)
}

/// The six lowercase digits that write three channels.
pub open spec fn color_text(r: u8, g: u8, b: u8) -> Seq<char> {
    seq![
        hex_char(r as int / 16),
        hex_char(r as int % 16),
        hex_char(g as int / 16),
        hex_char(g as int % 16),
        hex_char(b as int / 16),
        hex_char(b as int % 16),
    ]
}

/// The lowercase form of a character; other characters are kept.
pub open spec fn ascii_lower(c: char) -> char {
    if 'A' <= c && c <= 'Z' {
        (c as int + 32) as char
    } else {
        c
    }
}

fn hex_digit(c: char) -> (r: Option<u8>)
    ensures
        r is Some <==> is_hex_digit(c),
        r is Some ==> r->0 as int == hex_value(c) && r->0 < 16,
{
    if '0' <= c && c <= '9' {
        Some((c as u32 - '0' as u32) as u8)
    } else if 'a' <= c && c <= 'f' {
        Some((c as u32 - 'a' as u32 + 10) as u8)
    } else if 'A' <= c && c <= 'F' {
        Some((c as u32 - 'A' as u32 + 10) as u8)
    } else {
        None
    }
}

/// Decodes a colour written as six hexadecimal digits, upper or lower case,
/// with an optional leading `#`, into its red, green and blue channels.
pub fn hex_to_rgb(hex: &str) -> (r: Result<(u8, u8, u8), EditError>)
    ensures
        is_color_text(hex@) ==> r == Ok::<(u8, u8, u8), EditError>(color_channels(hex@)),
        !is_color_text(hex@) ==> r == Err::<(u8, u8, u8), EditError>(EditError::InvalidColor),
{
    let n = hex.unicode_len();
    let start: usize = if n > 0 && hex.get_char(0) == '#' { 1 } else { 0 };
    let ghost h = strip_hash(hex@);
    assert(h =~= hex@.subrange(start as int, n as int));
    if n - start != 6 {
        return Err(EditError::InvalidColor);
    }
    let mut vals: [u8; 6] = [0; 6];
    let mut i: usize = 0;
    while i < 6
        invariant
            h.len() == 6,
            h =~= hex@.subrange(start as int, n as int),
            n == hex@.len(),
            start + 6 == n,
            0 <= i <= 6,
            forall|j: int| 0 <= j < i ==> is_hex_digit(#[trigger] h[j]),
            forall|j: int| 0 <= j < i ==> #[trigger] vals[j] < 16 && vals[j] as int == hex_value(h[j]),
        decreases 6 - i,
    {
        match hex_digit(hex.get_char(start + i)) {
            Some(v) => {
                vals[i] = v;
            },
            None => {
                assert(!is_hex_digit(h[i as int]));
                return Err(EditError::InvalidColor);
            },
        }
        i = i + 1;
    }
    assert(vals[0] < 16 && vals[1] < 16 && vals[2] < 16 && vals[3] < 16 && vals[4] < 16
        && vals[5] < 16);
    let r = vals[0] * 16 + vals[1];
    let g = vals[2] * 16 + vals[3];
    let b = vals[4] * 16 + vals[5];
    Ok((r, g, b))
}

fn hex_char_of(v: u8) -> (c: char)
    requires
        v < 16,
    ensures
        c == hex_char(v as int),
{
    if v < 10 {
        (v + 48u8) as char
    } else {
        (v - 10 + 97u8) as char
    }
}

/// Writes three channels as six lowercase hexadecimal digits.
pub fn rgb_to_hex(r: u8, g: u8, b: u8) -> (s: String)
    ensures
        s@ == color_text(r, g, b),
{
    let mut s = String::new();
    push_char(&mut s, hex_char_of(r / 16));
    push_char(&mut s, hex_char_of(r % 16));
    push_char(&mut s, hex_char_of(g / 16));
    push_char(&mut s, hex_char_of(g % 16));
    push_char(&mut s, hex_char_of(b / 16));
    push_char(&mut s, hex_char_of(b % 16));
    assert(s@ =~= color_text(r, g, b));
    s
}

proof fn lemma_hex_char(v: int)
    requires
        0 <= v < 16,
    ensures
        is_hex_digit(hex_char(v)),
        hex_value(hex_char(v)) == v,
        hex_char(v) != '#',
{
}

proof fn lemma_hex_value(c: char)
    requires
        is_hex_digit(c),
    ensures
        0 <= hex_value(c) < 16,
        hex_char(hex_value(c)) == ascii_lower(c),
{
}

proof fn lemma_pair(hi: int, lo: int)
    requires
        0 <= hi < 16,
        0 <= lo < 16,
    ensures
        0 <= hi * 16 + lo < 256,
        (hi * 16 + lo) / 16 == hi,
        (hi * 16 + lo) % 16 == lo,
{
}

/// Writing three channels as a colour and decoding it gives the channels back.
pub proof fn lemma_channels_round_trip(r: u8, g: u8, b: u8)
    ensures
        is_color_text(color_text(r, g, b)),
        color_channels(color_text(r, g, b)) == (r, g, b),
{
    let t = color_text(r, g, b);
    lemma_hex_char(r as int / 16);
    lemma_hex_char(r as int % 16);
    lemma_hex_char(g as int / 16);
    lemma_hex_char(g as int % 16);
    lemma_hex_char(b as int / 16);
    lemma_hex_char(b as int % 16);
    assert(strip_hash(t) == t);
    assert forall|i: int| 0 <= i < 6 implies is_hex_digit(#[trigger] t[i]) by {}
}

/// Decoding a valid colour and writing the channels again gives the digits of
/// the colour, without its `#`, in lower case.
pub proof fn lemma_text_round_trip(s: Seq<char>)
    requires
        is_color_text(s),
    ensures
        color_text(color_channels(s).0, color_channels(s).1, color_channels(s).2) == strip_hash(
            s,
        ).map_values(|c: char| ascii_lower(c)),
{
    let h = strip_hash(s);
    assert(is_hex_digit(h[0]) && is_hex_digit(h[1]) && is_hex_digit(h[2]) && is_hex_digit(h[3])
        && is_hex_digit(h[4]) && is_hex_digit(h[5]));
    lemma_hex_value(h[0]);
    lemma_hex_value(h[1]);
    lemma_hex_value(h[2]);
    lemma_hex_value(h[3]);
    lemma_hex_value(h[4]);
    lemma_hex_value(h[5]);
    lemma_pair(hex_value(h[0]), hex_value(h[1]));
    lemma_pair(hex_value(h[2]), hex_value(h[3]));
    lemma_pair(hex_value(h[4]), hex_value(h[5]));
    let c = color_channels(s);
    assert(color_text(c.0, c.1, c.2) =~= h.map_values(|c: char| ascii_lower(c)));
}

} // verus!
