use vstd::prelude::*;

verus! {

/// The texts of a list of arguments.
pub open spec fn views(v: Seq<String>) -> Seq<Seq<char>> {
    v.map_values(|a: String| a@)
}

/// Appends one argument to a list of arguments.
pub fn push_arg(args: &mut Vec<String>, a: &str)
    ensures
        views(final(args)@) == views(old(args)@).push(a@),
{
    args.push(String::from_str(a));
    assert(views(final(args)@) =~= views(old(args)@).push(a@));
}

/// Microseconds in one second.
pub const MICROS_PER_SECOND: u64 = 1_000_000;

/// The character of a decimal digit value below ten.
pub open spec fn digit_char(d: nat) -> char {
    (d + '0' as nat) as char
}

/// The decimal writing of a natural number, without leading zeros.
pub open spec fn decimal(n: nat) -> Seq<char>
    decreases n,
{
    if n < 10 {
        seq![digit_char(n)]
    } else {
        decimal(n / 10).push(digit_char(n % 10))
    }
}

/// The decimal writing of an integer, with `-` before a negative one.
pub open spec fn signed_decimal(n: int) -> Seq<char> {
    if n < 0 {
        seq!['-'] + decimal((-n) as nat)
    } else {
        decimal(n as nat)
    }
}

/// Six digits, zero-padded, for a fraction of a second in microseconds.
pub open spec fn six_digits(f: nat) -> Seq<char> {
    seq![
        digit_char(f / 100000 % 10),
        digit_char(f / 10000 % 10),
        digit_char(f / 1000 % 10),
        digit_char(f / 100 % 10),
        digit_char(f / 10 % 10),
        digit_char(f % 10),
    ]
}

/// A duration in microseconds written in seconds with six decimals.
pub open spec fn seconds_text(us: nat) -> Seq<char> {
    decimal(us / 1_000_000) + seq!['.'] + six_digits(us % 1_000_000)
}

/// A signed duration in microseconds written in seconds with six decimals.
pub open spec fn signed_seconds_text(us: int) -> Seq<char> {
    if us < 0 {
        seq!['-'] + seconds_text((-us) as nat)
    } else {
        seconds_text(us as nat)
    }
}

/// Relies on `String::push`: the character is appended at the end.
#[verifier::external_body]
pub(crate) fn push_char(s: &mut String, c: char)
    ensures
        final(s)@ == old(s)@.push(c),
{
    s.push(c)
}

fn digit(d: u64) -> (c: char)
    requires
        d < 10,
    ensures
        c == digit_char(d as nat),
{
    ((d as u8) + 48u8) as char
}

/// Appends the decimal writing of `n`.
pub fn push_decimal(out: &mut String, n: u64)
    ensures
        final(out)@ == old(out)@ + decimal(n as nat),
    decreases n,
{
    if n >= 10 {
        push_decimal(out, n / 10);
    }
    push_char(out, digit(n % 10));
    assert(final(out)@ =~= old(out)@ + decimal(n as nat));
}

/// The last `k` decimal digits of `v`, zero-padded to `k` places.
pub open spec fn padded(v: nat, k: nat) -> Seq<char>
    decreases k,
{
    if k == 0 {
        Seq::empty()
    } else {
        padded(v / 10, (k - 1) as nat).push(digit_char(v % 10))
    }
}

/// Appends the last `k` decimal digits of `v`, zero-padded.
pub fn push_padded(out: &mut String, v: u128, k: u32)
    ensures
        final(out)@ == old(out)@ + padded(v as nat, k as nat),
    decreases k,
{
    if k > 0 {
        push_padded(out, v / 10, k - 1);
        push_char(out, digit((v % 10) as u64));
    }
    assert(final(out)@ =~= old(out)@ + padded(v as nat, k as nat));
}

/// Units of 10^-25 second in one second.
pub const FINE_PER_SECOND: u128 = 10_000_000_000_000_000_000_000_000;

/// A duration in units of 10^-25 second, written in seconds with 25 decimals.
pub open spec fn fine_seconds_text(w: nat) -> Seq<char> {
    decimal(w / 10_000_000_000_000_000_000_000_000) + seq!['.'] + padded(
        w % 10_000_000_000_000_000_000_000_000,
        25,
    )
}

/// Appends a duration given in units of 10^-25 second as seconds with 25
/// decimals.
pub fn push_fine_seconds(out: &mut String, w: u128)
    requires
        w / 10_000_000_000_000_000_000_000_000 <= u64::MAX,
    ensures
        final(out)@ == old(out)@ + fine_seconds_text(w as nat),
{
    push_decimal(out, (w / FINE_PER_SECOND) as u64);
    push_char(out, '.');
    push_padded(out, w % FINE_PER_SECOND, 25);
    assert(final(out)@ =~= old(out)@ + fine_seconds_text(w as nat));
}

/// Appends the decimal writing of a signed integer.
pub fn push_signed_decimal(out: &mut String, n: i64)
    ensures
        final(out)@ == old(out)@ + signed_decimal(n as int),
{
    if n < 0 {
        push_char(out, '-');
        let m: u64 = if n == i64::MIN { 9223372036854775808u64 } else { (-n) as u64 };
        push_decimal(out, m);
    } else {
        push_decimal(out, n as u64);
    }
    assert(final(out)@ =~= old(out)@ + signed_decimal(n as int));
}

/// Appends a duration given in microseconds as seconds with six decimals.
pub fn push_seconds(out: &mut String, us: u64)
    ensures
        final(out)@ == old(out)@ + seconds_text(us as nat),
{
    push_decimal(out, us / MICROS_PER_SECOND);
    push_char(out, '.');
    let f = us % MICROS_PER_SECOND;
    push_char(out, digit(f / 100000 % 10));
    push_char(out, digit(f / 10000 % 10));
    push_char(out, digit(f / 1000 % 10));
    push_char(out, digit(f / 100 % 10));
    push_char(out, digit(f / 10 % 10));
    push_char(out, digit(f % 10));
    assert(final(out)@ =~= old(out)@ + seconds_text(us as nat));
}

/// Appends a signed duration, given as a sign and a magnitude in microseconds,
/// as seconds with six decimals.
pub fn push_signed_seconds(out: &mut String, negative: bool, us: u64)
    ensures
        final(out)@ == old(out)@ + signed_seconds_text(if negative { -(us as int) } else { us as int }),
{
    if negative && us > 0 {
        push_char(out, '-');
    }
    push_seconds(out, us);
    assert(final(out)@ =~= old(out)@ + signed_seconds_text(if negative { -(us as int) } else { us as int }));
}

/// Whether `c` is white space in Unicode's sense, as `char::is_whitespace` has it.
pub open spec fn is_space(c: char) -> bool {
    ('\u{9}' <= c && c <= '\u{d}') || c == ' ' || c == '\u{85}' || c == '\u{a0}'
        || c == '\u{1680}' || ('\u{2000}' <= c && c <= '\u{200a}') || c == '\u{2028}'
        || c == '\u{2029}' || c == '\u{202f}' || c == '\u{205f}' || c == '\u{3000}'
}

pub open spec fn is_digit(c: char) -> bool {
    '0' <= c && c <= '9'
}

/// How many characters at the front of `s` satisfy `p`.
pub open spec fn count_leading(s: Seq<char>, p: spec_fn(char) -> bool) -> nat
    decreases s.len(),
{
    if s.len() > 0 && p(s[0]) {
        1 + count_leading(s.drop_first(), p)
    } else {
        0
    }
}

/// How many characters at the back of `s` satisfy `p`.
pub open spec fn count_trailing(s: Seq<char>, p: spec_fn(char) -> bool) -> nat
    decreases s.len(),
{
    if s.len() > 0 && p(s.last()) {
        1 + count_trailing(s.drop_last(), p)
    } else {
        0
    }
}

/// Reads the text between `lo` and `hi` as `str::parse::<u32>` would.
#[verifier::loop_isolation(false)]
pub fn parse_u32(text: &str, lo: usize, hi: usize) -> (r: Option<u32>)
    requires
        lo <= hi <= text@.len(),
    ensures
        r == u32_value(text@.subrange(lo as int, hi as int)),
{
    let ghost s = text@.subrange(lo as int, hi as int);
    let start: usize = if lo < hi && text.get_char(lo) == '+' { lo + 1 } else { lo };
    let ghost d = if s.len() > 0 && s[0] == '+' { s.drop_first() } else { s };
    assert(d =~= text@.subrange(start as int, hi as int));
    if start == hi {
        return None;
    }
    let mut v: u64 = 0;
    let mut i: usize = start;
    while i < hi
        invariant
            start <= i <= hi <= text@.len(),
            d =~= text@.subrange(start as int, hi as int),
            forall|j: int| 0 <= j < i - start ==> is_digit(#[trigger] d[j]),
            v as nat == digits_value(d.take(i - start)),
            v <= u32::MAX,
        decreases hi - i,
    {
        let c = text.get_char(i);
        if !is_digit_char(c) {
            assert(!is_digit(d[i - start]));
            return None;
        }
        proof {
            lemma_digits_step(d, i - start);
            lemma_digits_prefix(d, i - start + 1);
        }
        v = v * 10 + (c as u32 - '0' as u32) as u64;
        if v > u32::MAX as u64 {
            return None;
        }
        i = i + 1;
    }
    assert(d.take(d.len() as int) =~= d);
    Some(v as u32)
}

/// A prefix of a string of digits is worth no more than the whole.
proof fn lemma_digits_prefix(s: Seq<char>, i: int)
    requires
        0 <= i <= s.len(),
    ensures
        digits_value(s.take(i)) <= digits_value(s),
    decreases s.len() - i,
{
    if i < s.len() {
        lemma_digits_prefix(s, i + 1);
        lemma_digits_step(s, i);
    } else {
        assert(s.take(i) =~= s);
    }
}

pub open spec fn space() -> spec_fn(char) -> bool {
    |c: char| is_space(c)
}

pub open spec fn digit_pred() -> spec_fn(char) -> bool {
    |c: char| is_digit(c)
}

/// The text without white space at either end, as `str::trim` leaves it.
pub open spec fn trim(s: Seq<char>) -> Seq<char> {
    let a = s.skip(count_leading(s, space()) as int);
    a.take(a.len() - count_trailing(a, space()))
}

pub open spec fn all_digits(s: Seq<char>) -> bool {
    forall|i: int| 0 <= i < s.len() ==> is_digit(#[trigger] s[i])
}

/// The value of a decimal digit; other characters count as zero.
pub open spec fn digit_value(c: char) -> nat {
    if is_digit(c) {
        (c as int - '0' as int) as nat
    } else {
        0
    }
}

/// The value of a string of decimal digits; the empty string is zero.
pub open spec fn digits_value(s: Seq<char>) -> nat
    decreases s.len(),
{
    if s.len() == 0 {
        0
    } else {
        digits_value(s.drop_last()) * 10 + digit_value(s.last())
    }
}

/// Ten to the power `k`.
pub open spec fn pow10(k: nat) -> nat
    decreases k,
{
    if k == 0 {
        1
    } else {
        10 * pow10((k - 1) as nat)
    }
}

/// The pieces of a number written as `str::parse::<f64>` reads one, without
/// its infinities and not-a-numbers and without a minus sign: an optional
/// `+`, digits, optionally a point and digits, at least one digit in all, and
/// optionally `e` or `E`, a sign and at least one digit. Gives the digits
/// before the point, those after it, whether the exponent is negative, and
/// the exponent's digits.
pub open spec fn number_parts(t: Seq<char>) -> Option<(Seq<char>, Seq<char>, bool, Seq<char>)> {
    let u = if t.len() > 0 && t[0] == '+' { t.drop_first() } else { t };
    let a = count_leading(u, digit_pred()) as int;
    let r1 = u.skip(a);
    let has_point = r1.len() > 0 && r1[0] == '.';
    let r2 = if has_point { r1.drop_first() } else { r1 };
    let b = if has_point { count_leading(r2, digit_pred()) as int } else { 0 };
    let r3 = r2.skip(b);
    if a + b == 0 {
        None
    } else if r3.len() == 0 {
        Some((u.take(a), r2.take(b), false, Seq::empty()))
    } else if r3[0] == 'e' || r3[0] == 'E' {
        let r4 = r3.drop_first();
        let r5 = if r4.len() > 0 && (r4[0] == '+' || r4[0] == '-') { r4.drop_first() } else { r4 };
        if r5.len() > 0 && all_digits(r5) {
            Some((u.take(a), r2.take(b), r4.len() > 0 && r4[0] == '-', r5))
        } else {
            None
        }
    } else {
        None
    }
}

/// The whole part of `digits × 10^p`, where `digits` are read as one integer.
pub open spec fn scaled_value(digits: Seq<char>, p: int) -> nat {
    let n = digits.len() as int;
    if n + p <= 0 {
        0
    } else if p >= 0 {
        digits_value(digits) * pow10(p as nat)
    } else {
        digits_value(digits.take(n + p))
    }
}

/// The whole microseconds in a number of seconds given by its pieces: the
/// digits before and after the point, times ten to the exponent.
pub open spec fn parts_micros(
    whole: Seq<char>,
    frac: Seq<char>,
    negative: bool,
    exponent: Seq<char>,
) -> nat {
    let e = digits_value(exponent) as int;
    scaled_value(whole + frac, (if negative { -e } else { e }) + 6 - frac.len())
}

/// What a text that should hold a number of seconds gives, in whole
/// microseconds. A value that does not fit a `u64` of microseconds gives
/// nothing, and so do negative numbers, infinities and not-a-numbers, which
/// no duration holds.
pub open spec fn seconds_value(s: Seq<char>) -> Option<u64> {
    match number_parts(trim(s)) {
        Some(parts) => {
            let v = parts_micros(parts.0, parts.1, parts.2, parts.3);
            if v <= u64::MAX {
                Some(v as u64)
            } else {
                None
            }
        },
        None => None,
    }
}

/// Whether the text is what `str::parse::<u32>` accepts: an optional `+`,
/// then at least one digit, of a value that fits.
pub open spec fn u32_value(s: Seq<char>) -> Option<u32> {
    let d = if s.len() > 0 && s[0] == '+' { s.drop_first() } else { s };
    if d.len() > 0 && all_digits(d) && digits_value(d) <= u32::MAX {
        Some(digits_value(d) as u32)
    } else {
        None
    }
}

pub proof fn lemma_count_leading(s: Seq<char>, p: spec_fn(char) -> bool, i: int)
    requires
        0 <= i <= s.len(),
        forall|j: int| 0 <= j < i ==> p(#[trigger] s[j]),
    ensures
        count_leading(s, p) == i + count_leading(s.skip(i), p),
        count_leading(s, p) <= s.len(),
    decreases i,
{
    lemma_count_leading_bound(s.skip(i), p);
    if i == 0 {
        assert(s.skip(0) =~= s);
    } else {
        lemma_count_leading(s.drop_first(), p, i - 1);
        assert(s.drop_first().skip(i - 1) =~= s.skip(i));
    }
}

pub proof fn lemma_count_leading_bound(s: Seq<char>, p: spec_fn(char) -> bool)
    ensures
        count_leading(s, p) <= s.len(),
    decreases s.len(),
{
    if s.len() > 0 {
        lemma_count_leading_bound(s.drop_first(), p);
    }
}

pub proof fn lemma_count_trailing(s: Seq<char>, p: spec_fn(char) -> bool, k: int)
    requires
        0 <= k <= s.len(),
        forall|j: int| s.len() - k <= j < s.len() ==> p(#[trigger] s[j]),
    ensures
        count_trailing(s, p) == k + count_trailing(s.take(s.len() - k), p),
        count_trailing(s, p) <= s.len(),
    decreases k,
{
    lemma_count_trailing_bound(s.take(s.len() - k), p);
    if k == 0 {
        assert(s.take(s.len() as int) =~= s);
    } else {
        lemma_count_trailing(s.drop_last(), p, k - 1);
        assert(s.drop_last().take(s.len() - 1 - (k - 1)) =~= s.take(s.len() - k));
    }
}

pub proof fn lemma_count_trailing_bound(s: Seq<char>, p: spec_fn(char) -> bool)
    ensures
        count_trailing(s, p) <= s.len(),
    decreases s.len(),
{
    if s.len() > 0 {
        lemma_count_trailing_bound(s.drop_last(), p);
    }
}

proof fn lemma_digits_step(s: Seq<char>, i: int)
    requires
        0 <= i < s.len(),
    ensures
        digits_value(s.take(i + 1)) == digits_value(s.take(i)) * 10 + digit_value(s[i]),
{
    assert(s.take(i + 1).drop_last() =~= s.take(i));
}

fn is_space_char(c: char) -> (r: bool)
    ensures
        r == is_space(c),
{
    ('\u{9}' <= c && c <= '\u{d}') || c == ' ' || c == '\u{85}' || c == '\u{a0}'
        || c == '\u{1680}' || ('\u{2000}' <= c && c <= '\u{200a}') || c == '\u{2028}'
        || c == '\u{2029}' || c == '\u{202f}' || c == '\u{205f}' || c == '\u{3000}'
}

pub(crate) fn is_digit_char(c: char) -> (r: bool)
    ensures
        r == is_digit(c),
{
    '0' <= c && c <= '9'
}

/// The bounds of the text that remains once white space at both ends is removed.
pub fn trim_bounds(s: &str) -> (r: (usize, usize))
    ensures
        r.0 <= r.1 <= s@.len(),
        trim(s@) == s@.subrange(r.0 as int, r.1 as int),
{
    let n = s.unicode_len();
    let mut lo: usize = 0;
    while lo < n && is_space_char(s.get_char(lo))
        invariant
            n == s@.len(),
            lo <= n,
            forall|j: int| 0 <= j < lo ==> is_space(#[trigger] s@[j]),
        decreases n - lo,
    {
        lo = lo + 1;
    }
    proof {
        lemma_count_leading(s@, space(), lo as int);
        if lo < n {
            assert(s@.skip(lo as int)[0] == s@[lo as int]);
        }
        assert(count_leading(s@, space()) == lo);
    }
    let ghost a = s@.skip(lo as int);
    let mut hi: usize = n;
    while hi > lo && is_space_char(s.get_char(hi - 1))
        invariant
            n == s@.len(),
            lo <= hi <= n,
            a == s@.skip(lo as int),
            forall|j: int| hi <= j < n ==> is_space(#[trigger] s@[j]),
        decreases hi - lo,
    {
        hi = hi - 1;
    }
    proof {
        let k = (n - hi) as int;
        assert forall|j: int| a.len() - k <= j < a.len() implies space()(#[trigger] a[j]) by {
            assert(a[j] == s@[j + lo]);
        }
        lemma_count_trailing(a, space(), k);
        let rest = a.take(a.len() - k);
        if hi > lo {
            assert(rest.last() == s@[hi - 1]);
        }
        assert(count_trailing(a, space()) == k);
        assert(trim(s@) =~= s@.subrange(lo as int, hi as int));
    }
    (lo, hi)
}

/// `v`, or `cap` where `v` is larger.
pub open spec fn capped(v: nat, cap: nat) -> nat {
    if v < cap {
        v
    } else {
        cap
    }
}

proof fn lemma_pow10_mono(i: nat, j: nat)
    requires
        i <= j,
    ensures
        1 <= pow10(i) <= pow10(j),
    decreases j,
{
    if j > i {
        lemma_pow10_mono(i, (j - 1) as nat);
    } else if i > 0 {
        lemma_pow10_mono((i - 1) as nat, (i - 1) as nat);
    }
}

/// Scans from `from` to the first character that is no digit, or to `hi`.
pub fn digit_run_end(text: &str, from: usize, hi: usize) -> (r: usize)
    requires
        from <= hi <= text@.len(),
    ensures
        from <= r <= hi,
        count_leading(text@.subrange(from as int, hi as int), digit_pred()) == r - from,
        forall|j: int| from <= j < r ==> is_digit(#[trigger] text@[j]),
        r < hi ==> !is_digit(text@[r as int]),
{
    let ghost s = text@.subrange(from as int, hi as int);
    let mut i: usize = from;
    while i < hi && is_digit_char(text.get_char(i))
        invariant
            from <= i <= hi <= text@.len(),
            s == text@.subrange(from as int, hi as int),
            forall|j: int| from <= j < i ==> is_digit(#[trigger] text@[j]),
        decreases hi - i,
    {
        i = i + 1;
    }
    proof {
        assert forall|j: int| 0 <= j < i - from implies digit_pred()(#[trigger] s[j]) by {
            assert(s[j] == text@[j + from]);
        }
        lemma_count_leading(s, digit_pred(), i - from);
        if i < hi {
            assert(s.skip(i - from)[0] == s[i - from]);
        }
    }
    i
}

/// Reads the first `m` digits of the run from `i0` to `i1` followed by the
/// run from `f0` to `f1`, as one integer, saturated at `cap`.
#[verifier::loop_isolation(false)]
fn read_digits(text: &str, i0: usize, i1: usize, f0: usize, f1: usize, m: usize, cap: u128) -> (r:
    u128)
    requires
        i0 <= i1 <= text@.len(),
        f0 <= f1 <= text@.len(),
        forall|j: int| i0 <= j < i1 ==> is_digit(#[trigger] text@[j]),
        forall|j: int| f0 <= j < f1 ==> is_digit(#[trigger] text@[j]),
        m <= (i1 - i0) + (f1 - f0),
        cap <= 0x100_0000_0000_0000_0000_0000_0000_0000,
    ensures
        r as nat == capped(
            digits_value(
                (text@.subrange(i0 as int, i1 as int) + text@.subrange(f0 as int, f1 as int)).take(
                    m as int,
                ),
            ),
            cap as nat,
        ),
{
    let ghost s = text@.subrange(i0 as int, i1 as int) + text@.subrange(f0 as int, f1 as int);
    let il = i1 - i0;
    let mut acc: u128 = 0;
    let mut j: usize = 0;
    assert(s.take(0) =~= Seq::<char>::empty());
    while j < m
        invariant
            i0 <= i1 <= text@.len(),
            f0 <= f1 <= text@.len(),
            il == i1 - i0,
            s == text@.subrange(i0 as int, i1 as int) + text@.subrange(f0 as int, f1 as int),
            m <= s.len(),
            j <= m,
            cap <= 0x100_0000_0000_0000_0000_0000_0000_0000,
            acc as nat == capped(digits_value(s.take(j as int)), cap as nat),
        decreases m - j,
    {
        let c = if j < il {
            text.get_char(i0 + j)
        } else {
            text.get_char(f0 + (j - il))
        };
        assert(c == s[j as int]);
        assert(is_digit(c));
        proof {
            lemma_digits_step(s, j as int);
        }
        let d = (c as u32 - '0' as u32) as u128;
        if acc < cap {
            acc = acc * 10 + d;
            if acc > cap {
                acc = cap;
            }
        }
        j = j + 1;
    }
    acc
}

/// Finds the pieces of a number, as `number_parts` has them, in the text
/// from `lo` to `hi`: the runs of digits before and after the point, whether
/// the exponent is negative, and where its digits start.
#[verifier::loop_isolation(false)]
#[verifier::rlimit(100)]
fn scan_number(text: &str, lo: usize, hi: usize) -> (r: Option<(usize, usize, usize, usize, bool, usize)>)
    requires
        lo <= hi <= text@.len(),
    ensures
        r is None <==> number_parts(text@.subrange(lo as int, hi as int)) is None,
        r matches Some((pos, a_end, fstart, fend, negative, estart)) ==> {
            &&& lo <= pos <= a_end <= fstart <= fend <= estart <= hi
            &&& forall|j: int| pos <= j < a_end ==> is_digit(#[trigger] text@[j])
            &&& forall|j: int| fstart <= j < fend ==> is_digit(#[trigger] text@[j])
            &&& forall|j: int| estart <= j < hi ==> is_digit(#[trigger] text@[j])
            &&& number_parts(text@.subrange(lo as int, hi as int)) == Some((
                text@.subrange(pos as int, a_end as int),
                text@.subrange(fstart as int, fend as int),
                negative,
                text@.subrange(estart as int, hi as int),
            ))
        },
{
    let ghost t = text@.subrange(lo as int, hi as int);
    let pos: usize = if lo < hi && text.get_char(lo) == '+' {
        lo + 1
    } else {
        lo
    };
    let ghost u = if t.len() > 0 && t[0] == '+' {
        t.drop_first()
    } else {
        t
    };
    assert(u =~= text@.subrange(pos as int, hi as int));
    let a_end = digit_run_end(text, pos, hi);
    let ghost a = (a_end - pos) as int;
    let ghost r1 = u.skip(a);
    assert(r1 =~= text@.subrange(a_end as int, hi as int));
    assert(u.take(a) =~= text@.subrange(pos as int, a_end as int));
    let has_point = a_end < hi && text.get_char(a_end) == '.';
    let fstart: usize = if has_point {
        a_end + 1
    } else {
        a_end
    };
    let ghost r2 = if has_point {
        r1.drop_first()
    } else {
        r1
    };
    assert(r2 =~= text@.subrange(fstart as int, hi as int));
    let fend: usize = if has_point {
        digit_run_end(text, fstart, hi)
    } else {
        fstart
    };
    let ghost b = (fend - fstart) as int;
    assert(r2.take(b) =~= text@.subrange(fstart as int, fend as int));
    assert(r2.skip(b) =~= text@.subrange(fend as int, hi as int));
    if a_end - pos + (fend - fstart) == 0 {
        return None;
    }
    let mut negative = false;
    let mut estart: usize = hi;
    if fend < hi {
        let c = text.get_char(fend);
        if c != 'e' && c != 'E' {
            return None;
        }
        let mut k: usize = fend + 1;
        let ghost r4 = r2.skip(b).drop_first();
        assert(r4 =~= text@.subrange(fend + 1, hi as int));
        if k < hi && (text.get_char(k) == '+' || text.get_char(k) == '-') {
            negative = text.get_char(k) == '-';
            k = k + 1;
        }
        let ghost r5 = if r4.len() > 0 && (r4[0] == '+' || r4[0] == '-') {
            r4.drop_first()
        } else {
            r4
        };
        assert(r5 =~= text@.subrange(k as int, hi as int));
        if k == hi {
            return None;
        }
        let e_end = digit_run_end(text, k, hi);
        if e_end != hi {
            assert(!is_digit(r5[e_end - k]));
            return None;
        }
        assert(all_digits(r5)) by {
            assert forall|j: int| 0 <= j < r5.len() implies is_digit(#[trigger] r5[j]) by {
                assert(r5[j] == text@[j + k]);
            }
        }
        estart = k;
    }
    let ghost whole = text@.subrange(pos as int, a_end as int);
    let ghost frac = text@.subrange(fstart as int, fend as int);
    let ghost exps = text@.subrange(estart as int, hi as int);
    assert(number_parts(t) == Some((whole, frac, negative, exps)));
    Some((pos, a_end, fstart, fend, negative, estart))
}

/// Reads a number of seconds, written as `str::parse::<f64>` reads a number
/// and with white space around it allowed, into whole microseconds; what
/// lies below a microsecond is dropped. Gives `None` where the text is no
/// such number, or is negative, infinite or not a number, or where the value
/// does not fit.
#[verifier::loop_isolation(false)]
#[verifier::rlimit(100)]
pub fn parse_seconds(text: &str) -> (r: Option<u64>)
    ensures
        r == seconds_value(text@),
{
    let (lo, hi) = trim_bounds(text);
    let ghost t = text@.subrange(lo as int, hi as int);
    let (pos, a_end, fstart, fend, negative, estart) = match scan_number(text, lo, hi) {
        Some(found) => found,
        None => {
            return None;
        },
    };
    let ghost whole = text@.subrange(pos as int, a_end as int);
    let ghost frac = text@.subrange(fstart as int, fend as int);
    let ghost exps = text@.subrange(estart as int, hi as int);
    let ghost digits = whole + frac;
    let il = a_end - pos;
    let fl = fend - fstart;
    let n = il + fl;
    let cap_e: u128 = 1_000_000_000_000_000_000_000_000_000_000;
    let ev = read_digits(text, estart, hi, hi, hi, hi - estart, cap_e);
    assert((exps + text@.subrange(hi as int, hi as int)).take((hi - estart) as int) =~= exps);
    let ghost e = digits_value(exps) as int;
    let ghost pv: int = (if negative { -e } else { e }) + 6 - fl;
    assert(parts_micros(whole, frac, negative, exps) == scaled_value(digits, pv));
    assert(digits.take(n as int) =~= digits);
    let cap: u128 = 0x1_0000_0000_0000_0000;
    if ev >= cap_e {
        if negative {
            return Some(0);
        }
        let x = read_digits(text, pos, a_end, fstart, fend, n, cap);
        if x == 0 {
            proof {
                let dv = digits_value(digits);
                let big = pow10(pv as nat);
                assert(dv * big == 0) by (nonlinear_arith)
                    requires
                        dv == 0,
                ;
            }
            return Some(0);
        }
        proof {
            lemma_pow10_mono(20, pv as nat);
            reveal_with_fuel(pow10, 21);
            let big = pow10(pv as nat);
            let dv = digits_value(digits);
            assert(dv * big >= big) by (nonlinear_arith)
                requires
                    dv >= 1,
            ;
        }
        return None;
    }
    let p: i128 = (if negative {
        -(ev as i128)
    } else {
        ev as i128
    }) + 6 - fl as i128;
    assert(p == pv);
    scale_digits(text, pos, a_end, fstart, fend, p)
}

/// The digits of the run from `i0` to `i1` followed by the run from `f0` to
/// `f1`, read as one integer and multiplied by `10^p`, in whole units; `None`
/// where that does not fit a `u64`.
#[verifier::loop_isolation(false)]
fn scale_digits(text: &str, i0: usize, i1: usize, f0: usize, f1: usize, p: i128) -> (r: Option<
    u64,
>)
    requires
        i0 <= i1 <= f0 <= f1 <= text@.len(),
        forall|j: int| i0 <= j < i1 ==> is_digit(#[trigger] text@[j]),
        forall|j: int| f0 <= j < f1 ==> is_digit(#[trigger] text@[j]),
        -0x1_0000_0000_0000_0000_0000_0000_0000 < p < 0x1_0000_0000_0000_0000_0000_0000_0000,
    ensures
        ({
            let v = scaled_value(
                text@.subrange(i0 as int, i1 as int) + text@.subrange(f0 as int, f1 as int),
                p as int,
            );
            r == if v <= u64::MAX {
                Some(v as u64)
            } else {
                None
            }
        }),
{
    let ghost digits = text@.subrange(i0 as int, i1 as int) + text@.subrange(f0 as int, f1 as int);
    let n = (i1 - i0) + (f1 - f0);
    assert(digits.take(n as int) =~= digits);
    let cap: u128 = 0x1_0000_0000_0000_0000;
    if n as i128 + p <= 0 {
        return Some(0);
    }
    let m: usize = if p >= 0 {
        n
    } else {
        (n as i128 + p) as usize
    };
    let mut acc = read_digits(text, i0, i1, f0, f1, m, cap);
    let ghost x = digits_value(digits.take(m as int));
    assert(pow10(0) == 1);
    assert(x * pow10(0) == x) by (nonlinear_arith)
        requires
            pow10(0) == 1,
    ;
    if p > 0 {
        let pp = p as u128;
        let mut i: u128 = 0;
        while i < pp && acc != 0 && acc < cap
            invariant
                i <= pp,
                acc as nat == capped(x * pow10(i as nat), cap as nat),
            decreases pp - i,
        {
            proof {
                assert(x * pow10((i + 1) as nat) == 10 * (x * pow10(i as nat))) by (nonlinear_arith)
                    requires
                        pow10((i + 1) as nat) == 10 * pow10(i as nat),
                ;
            }
            acc = acc * 10;
            if acc > cap {
                acc = cap;
            }
            i = i + 1;
        }
        proof {
            lemma_pow10_mono(i as nat, pp as nat);
            let a1 = pow10(i as nat);
            let a2 = pow10(pp as nat);
            assert(x * a1 <= x * a2) by (nonlinear_arith)
                requires
                    a1 <= a2,
            ;
            if acc == 0 {
                assert(x == 0) by (nonlinear_arith)
                    requires
                        x * a1 == 0,
                        a1 >= 1,
                ;
            }
        }
    }
    assert(acc as nat == capped(scaled_value(digits, p as int), cap as nat));
    if acc >= cap {
        None
    } else {
        Some(acc as u64)
    }
}

} // verus!
