//! Byte-level text helpers over UTF-8 encoded input: trimming of Unicode
//! white space, trimming of double quotes, and decimal `u32` parsing.
//!
//! The input bytes are the UTF-8 encoding of a string. Every white-space
//! character is recognised by its complete encoding, so on well-formed
//! UTF-8 these functions agree with the corresponding `str` methods.

use vstd::prelude::*;

verus! {

/// An ASCII white-space byte: tab, line feed, vertical tab, form feed,
/// carriage return, or space.
pub open spec fn is_ascii_ws(b: u8) -> bool {
    (9 <= b && b <= 13) || b == 32
}

/// The second byte of a two-byte white-space character (`0xC2` lead):
/// U+0085 or U+00A0.
pub open spec fn is_ws2_tail(b: u8) -> bool {
    b == 0x85 || b == 0xA0
}

/// A three-byte encoding of a white-space character: U+1680, U+2000..U+200A,
/// U+2028, U+2029, U+202F, U+205F or U+3000.
pub open spec fn is_ws3(a: u8, b: u8, c: u8) -> bool {
    ||| (a == 0xE1 && b == 0x9A && c == 0x80)
    ||| (a == 0xE2 && b == 0x80 && ((0x80 <= c && c <= 0x8A) || c == 0xA8 || c == 0xA9
        || c == 0xAF))
    ||| (a == 0xE2 && b == 0x81 && c == 0x9F)
    ||| (a == 0xE3 && b == 0x80 && c == 0x80)
}

/// Width in bytes of the white-space character whose encoding starts at
/// `i`, or 0 when no white-space character starts there.
pub open spec fn ws_width_at(s: Seq<u8>, i: int) -> int {
    if 0 <= i < s.len() && is_ascii_ws(s[i]) {
        1
    } else if 0 <= i && i + 1 < s.len() && s[i] == 0xC2 && is_ws2_tail(s[i + 1]) {
        2
    } else if 0 <= i && i + 2 < s.len() && is_ws3(s[i], s[i + 1], s[i + 2]) {
        3
    } else {
        0
    }
}

/// Width in bytes of the white-space character whose encoding ends just
/// before `j`, or 0 when no white-space character ends there.
pub open spec fn ws_width_before(s: Seq<u8>, j: int) -> int {
    if 1 <= j <= s.len() && is_ascii_ws(s[j - 1]) {
        1
    } else if 2 <= j <= s.len() && s[j - 2] == 0xC2 && is_ws2_tail(s[j - 1]) {
        2
    } else if 3 <= j <= s.len() && is_ws3(s[j - 3], s[j - 2], s[j - 1]) {
        3
    } else {
        0
    }
}

/// First position at or after `i` where no white-space character starts.
pub open spec fn trim_start_index(s: Seq<u8>, i: int) -> int
    decreases s.len() - i,
{
    if 0 <= i && ws_width_at(s, i) > 0 {
        trim_start_index(s, i + ws_width_at(s, i))
    } else {
        i
    }
}

/// Last position `j`, not below `lo`, before which no white-space character
/// ends, found by stripping white-space characters backwards from `j`.
pub open spec fn trim_end_index(s: Seq<u8>, lo: int, j: int) -> int
    decreases j,
{
    if j > lo && ws_width_before(s, j) > 0 && j - ws_width_before(s, j) >= lo {
        trim_end_index(s, lo, j - ws_width_before(s, j))
    } else {
        j
    }
}

/// `s` without its leading and trailing white-space characters.
pub open spec fn trim_ws(s: Seq<u8>) -> Seq<u8> {
    let a = trim_start_index(s, 0);
    s.subrange(a, trim_end_index(s, a, s.len() as int))
}

proof fn lemma_trim_end_bounds(s: Seq<u8>, lo: int, j: int)
    requires
        0 <= lo <= j <= s.len(),
    ensures
        lo <= trim_end_index(s, lo, j) <= j,
    decreases j,
{
    if j > lo && ws_width_before(s, j) > 0 && j - ws_width_before(s, j) >= lo {
        lemma_trim_end_bounds(s, lo, j - ws_width_before(s, j));
    }
}

fn ws_width_at_exec(s: &[u8], i: usize) -> (w: usize)
    ensures
        w == ws_width_at(s@, i as int),
{
    let n = s.len();
    if i < n && ((9 <= s[i] && s[i] <= 13) || s[i] == 32) {
        1
    } else if i < n && n - i > 1 && s[i] == 0xC2 && (s[i + 1] == 0x85 || s[i + 1] == 0xA0) {
        2
    } else if i < n && n - i > 2 && is_ws3_exec(s[i], s[i + 1], s[i + 2]) {
        3
    } else {
        0
    }
}

fn is_ws3_exec(a: u8, b: u8, c: u8) -> (r: bool)
    ensures
        r == is_ws3(a, b, c),
{
    (a == 0xE1 && b == 0x9A && c == 0x80) || (a == 0xE2 && b == 0x80 && ((0x80 <= c && c
        <= 0x8A) || c == 0xA8 || c == 0xA9 || c == 0xAF)) || (a == 0xE2 && b == 0x81 && c
        == 0x9F) || (a == 0xE3 && b == 0x80 && c == 0x80)
}

fn ws_width_before_exec(s: &[u8], j: usize) -> (w: usize)
    ensures
        w == ws_width_before(s@, j as int),
{
    let n = s.len();
    if 1 <= j && j <= n && ((9 <= s[j - 1] && s[j - 1] <= 13) || s[j - 1] == 32) {
        1
    } else if 2 <= j && j <= n && s[j - 2] == 0xC2 && (s[j - 1] == 0x85 || s[j - 1] == 0xA0) {
        2
    } else if 3 <= j && j <= n && is_ws3_exec(s[j - 3], s[j - 2], s[j - 1]) {
        3
    } else {
        0
    }
}

/// Removes leading and trailing white-space characters, as `str::trim` does
/// on the string these bytes encode.
pub fn trim_whitespace(s: &[u8]) -> (r: &[u8])
    ensures
        r@ == trim_ws(s@),
{
    let n = s.len();
    let mut a: usize = 0;
    while ws_width_at_exec(s, a) > 0
        invariant
            0 <= a <= n,
            n == s@.len(),
            trim_start_index(s@, a as int) == trim_start_index(s@, 0),
        decreases n - a,
    {
        a = a + ws_width_at_exec(s, a);
    }
    let mut b: usize = n;
    proof {
        lemma_trim_end_bounds(s@, a as int, n as int);
    }
    while b > a && ws_width_before_exec(s, b) > 0 && b - ws_width_before_exec(s, b) >= a
        invariant
            a <= b <= n,
            n == s@.len(),
            trim_start_index(s@, 0) == a,
            trim_end_index(s@, a as int, b as int) == trim_end_index(s@, a as int, n as int),
        decreases b,
    {
        b = b - ws_width_before_exec(s, b);
    }
    &s[a..b]
}

/// `w` is a run of white-space characters, read from its start.
pub open spec fn ws_run(w: Seq<u8>) -> bool
    decreases w.len(),
{
    if w.len() == 0 {
        true
    } else if ws_width_at(w, 0) > 0 {
        ws_run(w.skip(ws_width_at(w, 0)))
    } else {
        false
    }
}

/// A white-space character is recognised by its own bytes alone: where the
/// bytes of one found at `i` of `x` stand at `j` of `y`, the same character
/// is found there.
proof fn lemma_ws_window(x: Seq<u8>, i: int, y: Seq<u8>, j: int)
    requires
        0 <= i,
        0 <= j,
        ws_width_at(x, i) > 0,
        j + ws_width_at(x, i) <= y.len(),
        y.subrange(j, j + ws_width_at(x, i)) == x.subrange(i, i + ws_width_at(x, i)),
    ensures
        ws_width_at(y, j) == ws_width_at(x, i),
{
    let k = ws_width_at(x, i);
    assert(y[j] == y.subrange(j, j + k)[0]);
    assert(x[i] == x.subrange(i, i + k)[0]);
    if k >= 2 {
        assert(y[j + 1] == y.subrange(j, j + k)[1]);
        assert(x[i + 1] == x.subrange(i, i + k)[1]);
    }
    if k >= 3 {
        assert(y[j + 2] == y.subrange(j, j + k)[2]);
        assert(x[i + 2] == x.subrange(i, i + k)[2]);
    }
}

/// A white-space character that ends at `j` starts `width` bytes earlier.
proof fn lemma_before_is_at(s: Seq<u8>, j: int)
    requires
        ws_width_before(s, j) > 0,
    ensures
        ws_width_at(s, j - ws_width_before(s, j)) == ws_width_before(s, j),
{
}

/// A white-space character that starts at `i` ends `width` bytes later.
proof fn lemma_at_is_before(s: Seq<u8>, i: int)
    requires
        ws_width_at(s, i) > 0,
    ensures
        ws_width_before(s, i + ws_width_at(s, i)) == ws_width_at(s, i),
{
}

proof fn lemma_trim_start_props(s: Seq<u8>, i: int)
    requires
        0 <= i <= s.len(),
    ensures
        i <= trim_start_index(s, i) <= s.len(),
        ws_width_at(s, trim_start_index(s, i)) == 0,
        ws_run(s.subrange(i, trim_start_index(s, i))),
    decreases s.len() - i,
{
    let k = ws_width_at(s, i);
    if k > 0 {
        lemma_trim_start_props(s, i + k);
        let r = trim_start_index(s, i);
        let sub = s.subrange(i, r);
        assert(sub.subrange(0, k) =~= s.subrange(i, i + k));
        lemma_ws_window(s, i, sub, 0);
        assert(sub.skip(k) =~= s.subrange(i + k, r));
    } else {
        assert(s.subrange(i, i).len() == 0);
    }
}

/// A run of white space followed by one more white-space character is a
/// run of white space.
proof fn lemma_ws_run_append(x: Seq<u8>, c: Seq<u8>)
    requires
        ws_run(x),
        c.len() > 0,
        ws_width_at(c, 0) == c.len(),
    ensures
        ws_run(x + c),
    decreases x.len(),
{
    if x.len() == 0 {
        assert(x + c =~= c);
        assert(c.skip(c.len() as int).len() == 0);
        assert(ws_run(c.skip(c.len() as int)));
    } else {
        let k = ws_width_at(x, 0);
        let xc = x + c;
        assert(xc.subrange(0, k) =~= x.subrange(0, k));
        lemma_ws_window(x, 0, xc, 0);
        lemma_ws_run_append(x.skip(k), c);
        assert(xc.skip(k) =~= x.skip(k) + c);
    }
}

proof fn lemma_trim_end_props(s: Seq<u8>, lo: int, j: int)
    requires
        0 <= lo <= j <= s.len(),
    ensures
        lo <= trim_end_index(s, lo, j) <= j,
        trim_end_index(s, lo, j) == lo || ws_width_before(s, trim_end_index(s, lo, j)) == 0
            || trim_end_index(s, lo, j) - ws_width_before(s, trim_end_index(s, lo, j)) < lo,
        ws_run(s.subrange(trim_end_index(s, lo, j), j)),
    decreases j,
{
    let w = ws_width_before(s, j);
    if j > lo && w > 0 && j - w >= lo {
        lemma_trim_end_props(s, lo, j - w);
        let r = trim_end_index(s, lo, j);
        lemma_before_is_at(s, j);
        let c = s.subrange(j - w, j);
        assert(c.subrange(0, w) =~= s.subrange(j - w, j));
        lemma_ws_window(s, j - w, c, 0);
        lemma_ws_run_append(s.subrange(r, j - w), c);
        assert(s.subrange(r, j - w) + c =~= s.subrange(r, j));
    } else {
        assert(s.subrange(j, j).len() == 0);
    }
}

/// Trimming removes white space and nothing else, and all of it at both
/// ends: the result is `s` with a run of white-space characters taken off
/// its start and another off its end, and it neither starts nor ends with a
/// white-space character.
pub proof fn lemma_trim_ws_strips_white_space(s: Seq<u8>)
    ensures
        exists|a: int, b: int|
            0 <= a <= b <= s.len() && trim_ws(s) == s.subrange(a, b) && ws_run(
                #[trigger] s.subrange(0, a),
            ) && ws_run(#[trigger] s.subrange(b, s.len() as int)),
        ws_width_at(trim_ws(s), 0) == 0,
        ws_width_before(trim_ws(s), trim_ws(s).len() as int) == 0,
{
    let a = trim_start_index(s, 0);
    lemma_trim_start_props(s, 0);
    let b = trim_end_index(s, a, s.len() as int);
    lemma_trim_end_props(s, a, s.len() as int);
    let t = s.subrange(a, b);
    assert(trim_ws(s) == t);
    if ws_width_at(t, 0) > 0 {
        let k = ws_width_at(t, 0);
        assert(s.subrange(a, a + k) =~= t.subrange(0, k));
        lemma_ws_window(t, 0, s, a);
        assert(false);
    }
    if ws_width_before(t, t.len() as int) > 0 {
        let k = ws_width_before(t, t.len() as int);
        lemma_before_is_at(t, t.len() as int);
        assert(s.subrange(b - k, b) =~= t.subrange(t.len() - k, t.len() as int));
        lemma_ws_window(t, t.len() - k, s, b - k);
        lemma_at_is_before(s, b - k);
        assert(false);
    }
}

/// Trimming looks past white space at the start the same way from any
/// prefix: a white-space character found at `i` of `s` is found at
/// `p.len() + i` of `p + s`, and the other way round.
proof fn lemma_start_shift(p: Seq<u8>, s: Seq<u8>, i: int)
    requires
        0 <= i <= s.len(),
    ensures
        trim_start_index(p + s, p.len() + i) == p.len() + trim_start_index(s, i),
    decreases s.len() - i,
{
    let ps = p + s;
    let q = p.len() + i;
    if ws_width_at(s, i) > 0 {
        let k = ws_width_at(s, i);
        assert(ps.subrange(q, q + k) =~= s.subrange(i, i + k));
        lemma_ws_window(s, i, ps, q);
        lemma_start_shift(p, s, i + k);
    } else if ws_width_at(ps, q) > 0 {
        let k = ws_width_at(ps, q);
        assert(s.subrange(i, i + k) =~= ps.subrange(q, q + k));
        lemma_ws_window(ps, q, s, i);
        assert(false);
    }
}

proof fn lemma_ws_run_start(w: Seq<u8>, s: Seq<u8>)
    requires
        ws_run(w),
    ensures
        trim_start_index(w + s, 0) == w.len() + trim_start_index(s, 0),
    decreases w.len(),
{
    if w.len() == 0 {
        assert(w + s =~= s);
    } else {
        let k = ws_width_at(w, 0);
        let ws = w + s;
        assert(ws.subrange(0, k) =~= w.subrange(0, k));
        lemma_ws_window(w, 0, ws, 0);
        let p = w.subrange(0, k);
        let rest = w.skip(k);
        assert(ws =~= p + (rest + s));
        lemma_start_shift(p, rest + s, 0);
        lemma_ws_run_start(rest, s);
    }
}

proof fn lemma_end_shift(p: Seq<u8>, s: Seq<u8>, lo: int, j: int)
    requires
        0 <= lo <= j <= s.len(),
    ensures
        trim_end_index(p + s, p.len() + lo, p.len() + j) == p.len() + trim_end_index(s, lo, j),
    decreases j,
{
    let ps = p + s;
    let pl = p.len() as int;
    let w = ws_width_before(s, j);
    let wp = ws_width_before(ps, pl + j);
    if w > 0 {
        lemma_before_is_at(s, j);
        assert(ps.subrange(pl + j - w, pl + j) =~= s.subrange(j - w, j));
        lemma_ws_window(s, j - w, ps, pl + j - w);
        lemma_at_is_before(ps, pl + j - w);
        assert(wp == w);
        if j > lo && j - w >= lo {
            lemma_end_shift(p, s, lo, j - w);
        }
    } else if wp > 0 && j - wp >= lo {
        lemma_before_is_at(ps, pl + j);
        assert(s.subrange(j - wp, j) =~= ps.subrange(pl + j - wp, pl + j));
        lemma_ws_window(ps, pl + j - wp, s, j - wp);
        lemma_at_is_before(s, j - wp);
        assert(false);
    }
}

/// White space before a text does not change what trimming gives.
pub proof fn lemma_trim_ws_ignores_leading_white_space(w: Seq<u8>, s: Seq<u8>)
    requires
        ws_run(w),
    ensures
        trim_ws(w + s) == trim_ws(s),
{
    let ws = w + s;
    let a = trim_start_index(s, 0);
    lemma_trim_start_props(s, 0);
    lemma_ws_run_start(w, s);
    let b = trim_end_index(s, a, s.len() as int);
    lemma_trim_end_props(s, a, s.len() as int);
    lemma_end_shift(w, s, a, s.len() as int);
    assert(ws.len() == w.len() + s.len());
    assert(ws.subrange(w.len() + a, w.len() + b) =~= s.subrange(a, b));
}

/// Position of the first byte at or after `i` that is not a double quote.
pub open spec fn quote_start_index(s: Seq<u8>, i: int) -> int
    decreases s.len() - i,
{
    if 0 <= i < s.len() && s[i] == 0x22 {
        quote_start_index(s, i + 1)
    } else {
        i
    }
}

/// Position after the last byte before `j`, not below `lo`, that is not a
/// double quote.
pub open spec fn quote_end_index(s: Seq<u8>, lo: int, j: int) -> int
    decreases j,
{
    if j > lo && 1 <= j <= s.len() && s[j - 1] == 0x22 {
        quote_end_index(s, lo, j - 1)
    } else {
        j
    }
}

/// `s` without its leading and trailing double quotes.
pub open spec fn trim_quotes_spec(s: Seq<u8>) -> Seq<u8> {
    let a = quote_start_index(s, 0);
    s.subrange(a, quote_end_index(s, a, s.len() as int))
}

/// Removes every leading and trailing `"`, as `str::trim_matches('"')` does.
pub fn trim_quotes(s: &[u8]) -> (r: &[u8])
    ensures
        r@ == trim_quotes_spec(s@),
{
    let n = s.len();
    let mut a: usize = 0;
    while a < n && s[a] == 0x22
        invariant
            0 <= a <= n,
            n == s@.len(),
            quote_start_index(s@, a as int) == quote_start_index(s@, 0),
        decreases n - a,
    {
        a = a + 1;
    }
    let mut b: usize = n;
    while b > a && s[b - 1] == 0x22
        invariant
            a <= b <= n,
            n == s@.len(),
            quote_start_index(s@, 0) == a,
            quote_end_index(s@, a as int, b as int) == quote_end_index(s@, a as int, n as int),
        decreases b,
    {
        b = b - 1;
    }
    &s[a..b]
}

/// An ASCII decimal digit.
pub open spec fn is_digit(b: u8) -> bool {
    0x30 <= b && b <= 0x39
}

/// Every byte of `s` is an ASCII decimal digit.
pub open spec fn all_digits(s: Seq<u8>) -> bool {
    forall|i: int| 0 <= i < s.len() ==> is_digit(#[trigger] s[i])
}

/// The number that the decimal digits `s` denote.
pub open spec fn decimal_value(s: Seq<u8>) -> nat
    decreases s.len(),
{
    if s.len() == 0 {
        0
    } else {
        decimal_value(s.drop_last()) * 10 + (s.last() - 0x30) as nat
    }
}

/// What `str::parse::<u32>` yields: an optional leading `+`, then at least
/// one decimal digit, denoting a value that fits in a `u32`.
pub open spec fn parse_u32_spec(s: Seq<u8>) -> Option<u32> {
    let digits = if s.len() > 0 && s[0] == 0x2B {
        s.drop_first()
    } else {
        s
    };
    if digits.len() == 0 || !all_digits(digits) || decimal_value(digits) > u32::MAX {
        None
    } else {
        Some(decimal_value(digits) as u32)
    }
}

proof fn lemma_decimal_value_step(s: Seq<u8>, i: int)
    requires
        0 <= i < s.len(),
    ensures
        decimal_value(s.subrange(0, i + 1)) == decimal_value(s.subrange(0, i)) * 10 + (s[i]
            - 0x30) as nat,
{
    assert(s.subrange(0, i + 1).drop_last() =~= s.subrange(0, i));
}

proof fn lemma_decimal_value_mono(s: Seq<u8>, i: int, j: int)
    requires
        0 <= i <= j <= s.len(),
        all_digits(s),
    ensures
        decimal_value(s.subrange(0, i)) <= decimal_value(s.subrange(0, j)),
    decreases j - i,
{
    if i < j {
        lemma_decimal_value_mono(s, i, j - 1);
        lemma_decimal_value_step(s, j - 1);
    }
}

/// Parses a decimal `u32` as `str::parse::<u32>` does: `None` exactly where
/// that parse fails.
pub fn parse_u32(s: &[u8]) -> (r: Option<u32>)
    ensures
        r == parse_u32_spec(s@),
{
    let n = s.len();
    let start: usize = if n > 0 && s[0] == 0x2B {
        1
    } else {
        0
    };
    let ghost digits = if n > 0 && s@[0] == 0x2B {
        s@.drop_first()
    } else {
        s@
    };
    assert(digits =~= s@.subrange(start as int, n as int));
    if start == n {
        return None;
    }
    let mut value: u64 = 0;
    let mut i: usize = start;
    while i < n
        invariant
            start <= i <= n,
            n == s@.len(),
            digits =~= s@.subrange(start as int, n as int),
            digits == (if s@.len() > 0 && s@[0] == 0x2B {
                s@.drop_first()
            } else {
                s@
            }),
            all_digits(s@.subrange(start as int, i as int)),
            value == decimal_value(s@.subrange(start as int, i as int)),
            value <= u32::MAX,
        decreases n - i,
    {
        let b = s[i];
        if b < 0x30 || b > 0x39 {
            assert(!all_digits(digits)) by {
                assert(digits[i - start] == b);
            }
            return None;
        }
        proof {
            lemma_decimal_value_step(digits, i - start);
            assert(digits.subrange(0, i - start) =~= s@.subrange(start as int, i as int));
            assert(digits.subrange(0, i - start + 1) =~= s@.subrange(start as int, i + 1));
        }
        value = value * 10 + (b - 0x30) as u64;
        if value > 0xFFFF_FFFF {
            proof {
                if all_digits(digits) {
                    lemma_decimal_value_mono(digits, i - start + 1, digits.len() as int);
                    assert(digits.subrange(0, digits.len() as int) =~= digits);
                }
            }
            return None;
        }
        i = i + 1;
    }
    assert(s@.subrange(start as int, n as int) =~= digits);
    Some(value as u32)
}

/// `s[a..b]`.
pub(crate) fn slice_range(s: &[u8], a: usize, b: usize) -> (r: &[u8])
    requires
        a <= b <= s@.len(),
    ensures
        r@ == s@.subrange(a as int, b as int),
{
    &s[a..b]
}

} // verus!
