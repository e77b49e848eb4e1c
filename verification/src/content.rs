//! The input model: one post parsed from its `index.md` (YAML frontmatter
//! between `---` fences, then the markdown body), dates turned into sort keys,
//! and the newest-first ordering of a set of posts.

use vstd::prelude::*;
use vstd::utf8::{decode_utf8, encode_utf8, is_char_boundary};
use vstd::string::StringSliceAdditionalSpecFns;
use crate::text::{
    all_digits, chars_of, decimal, decimal_of, digit_char, digit_value, digits_value, has_prefix, is_digit, lemma_digits_grow,
    lemma_lex_asym, lemma_lex_total, lemma_lex_trans, lex_lt, push_all, push_str, same_text, slice_chars, starts_with_str, string_of, text_less, trim,
    trim_chars, trim_end, trim_start,
};
use yaml_rust2::{Yaml, YamlLoader};

verus! {

/// The value of an optionally signed decimal integer as std's `str::parse::<i64>`
/// reads it: an optional `+` or `-`, then one or more ASCII digits, in range.
pub open spec fn parse_signed(s: Seq<char>) -> Option<i64> {
    if s.len() == 0 {
        None
    } else {
        let neg = s[0] == '-';
        let ds = if s[0] == '-' || s[0] == '+' { s.drop_first() } else { s };
        if ds.len() > 0 && all_digits(ds) {
            let v: int = if neg { -digits_value(ds) } else { digits_value(ds) as int };
            if i64::MIN <= v && v <= i64::MAX { Some(v as i64) } else { None }
        } else {
            None
        }
    }
}

/// Parses an optionally signed decimal `i64` (see [`parse_signed`]).
pub fn parse_i64(s: &[char]) -> (r: Option<i64>)
    ensures
        r == parse_signed(s@),
{
    if s.len() == 0 {
        return None;
    }
    let neg = s[0] == '-';
    let start: usize = if s[0] == '-' || s[0] == '+' { 1 } else { 0 };
    let ghost ds = if s@[0] == '-' || s@[0] == '+' { s@.drop_first() } else { s@ };
    assert(ds =~= s@.subrange(start as int, s@.len() as int));
    if start >= s.len() {
        return None;
    }
    let limit: u64 = if neg { 9223372036854775808 } else { 9223372036854775807 };
    let mut v: u64 = 0;
    let mut i: usize = start;
    while i < s.len()
        invariant
            start <= i <= s@.len(),
            s@.len() > 0,
            neg == (s@[0] == '-'),
            limit == (if neg { 9223372036854775808u64 } else { 9223372036854775807u64 }),
            ds == s@.subrange(start as int, s@.len() as int),
            ds == (if s@[0] == '-' || s@[0] == '+' { s@.drop_first() } else { s@ }),
            all_digits(s@.subrange(start as int, i as int)),
            v == digits_value(s@.subrange(start as int, i as int)),
            v <= limit,
        decreases s@.len() - i,
    {
        let c = s[i];
        assert(s@.subrange(start as int, i + 1).drop_last() =~= s@.subrange(start as int, i as int));
        if !('0' <= c && c <= '9') {
            assert(ds[i - start] == c);
            assert(!all_digits(ds));
            return None;
        }
        assert((c as u32) <= ('9' as u32) && (c as u32) >= ('0' as u32));
        let d: u64 = (c as u32 - '0' as u32) as u64;
        if v > (limit - d) / 10 {
            assert(v * 10 + d > limit) by (nonlinear_arith)
                requires v > (limit - d) / 10, d <= 9, limit >= 9;
            assert(s@.subrange(start as int, i + 1) =~= ds.take(i + 1 - start));
            assert(digits_value(ds.take(i + 1 - start)) > limit);
            proof {
                if all_digits(ds) {
                    lemma_digits_grow(ds, i + 1 - start);
                }
            }
            return None;
        }
        assert(v * 10 + d <= limit) by (nonlinear_arith)
            requires v <= (limit - d) / 10, d <= 9, limit >= 9;
        v = v * 10 + d;
        i = i + 1;
    }
    assert(s@.subrange(start as int, i as int) =~= ds);
    if neg {
        if v == 9223372036854775808 {
            Some(-9223372036854775807i64 - 1)
        } else {
            Some(-(v as i64))
        }
    } else {
        Some(v as i64)
    }
}

/// Truncating division by a positive divisor (Rust's `/` on signed integers).
pub open spec fn tdiv(a: int, b: int) -> int {
    if a >= 0 { a / b } else { -((-a) / b) }
}

/// Days since 1970-01-01 of the civil date `y-m-d` (Howard Hinnant's
/// `days_from_civil`, with Rust's truncating division).
pub open spec fn days_civil(y: int, m: int, d: int) -> int {
    let y = if m <= 2 { y - 1 } else { y };
    let era = tdiv(if y >= 0 { y } else { y - 399 }, 400);
    let yoe = y - era * 400;
    let mp = if m > 2 { m - 3 } else { m + 9 };
    let doy = tdiv(153 * mp + 2, 5) + d - 1;
    let doe = yoe * 365 + tdiv(yoe, 4) - tdiv(yoe, 100) + doy;
    era * 146097 + doe - 719468
}

fn tdiv_exec(a: i64, b: i64) -> (r: i64)
    requires
        b > 0,
        a > i64::MIN,
    ensures
        r == tdiv(a as int, b as int),
{
    if a >= 0 {
        a / b
    } else {
        let q = (-a) / b;
        -q
    }
}

/// Days since 1970-01-01 for a civil date.
///
/// Each argument is bounded by 2^50 in absolute value: a bound chosen with room
/// to spare so that no step of the computation overflows `i64` (the arithmetic
/// itself overflows only near |y| = 2^54, |m| = 2^55 or |d| = 2^63). Dates read
/// from text have at most four digits per field.
pub fn days_from_civil(y: i64, m: i64, d: i64) -> (r: i64)
    requires
        -0x4_0000_0000_0000 <= y <= 0x4_0000_0000_0000,
        -0x4_0000_0000_0000 <= m <= 0x4_0000_0000_0000,
        -0x4_0000_0000_0000 <= d <= 0x4_0000_0000_0000,
    ensures
        r == days_civil(y as int, m as int, d as int),
{
    let y = if m <= 2 { y - 1 } else { y };
    let num = if y >= 0 { y } else { y - 399 };
    let era = tdiv_exec(num, 400);
    proof { lemma_era(y as int); }
    let yoe = y - era * 400;
    let mp = if m > 2 { m - 3 } else { m + 9 };
    let doy = tdiv_exec(153 * mp + 2, 5) + d - 1;
    let doe = yoe * 365 + tdiv_exec(yoe, 4) - tdiv_exec(yoe, 100) + doy;
    era * 146_097 + doe - 719_468
}

/// The era and year of era of `days_civil`: `0 <= yoe < 400`, era about `y / 400`.
proof fn lemma_era(y: int)
    ensures
        ({
            let era = tdiv(if y >= 0 { y } else { y - 399 }, 400);
            &&& 0 <= y - era * 400 < 400
            &&& (y >= 0 ==> 0 <= era <= y / 400)
            &&& (y < 0 ==> y / 400 - 1 <= era < 0)
        }),
{
    if y >= 0 {
        assert(0 <= y - (y / 400) * 400 < 400);
    } else {
        let q = (399 - y) / 400;
        let r = (399 - y) % 400;
        assert(399 - y == 400 * q + r && 0 <= r < 400);
        assert(tdiv(y - 399, 400) == -q);
        assert(y - (-q) * 400 == 399 - r);
        assert(q >= 1);
    }
}

/// Bytes read as characters one for one.
pub open spec fn byte_chars(b: Seq<u8>) -> Seq<char> {
    b.map_values(|x: u8| x as char)
}

/// The integer in bytes `lo..hi` of `b`, as `str::get(lo..hi)` then
/// `parse::<i64>` read it: `None` when the range leaves the text or splits a
/// character, or when the slice is no integer.
pub open spec fn byte_field(b: Seq<u8>, lo: int, hi: int) -> Option<i64> {
    if lo <= hi && hi <= b.len() && is_char_boundary(b, lo) && is_char_boundary(b, hi) {
        parse_signed(byte_chars(b.subrange(lo, hi)))
    } else {
        None
    }
}

/// A zone offset (`Z`, `±HH:MM`, surrounding white space ignored) in seconds
/// east of UTC; an empty offset is zero. Arithmetic wraps as `i64` does in
/// release builds.
pub open spec fn offset_seconds(s: Seq<char>) -> Option<i64> {
    let t = trim(s);
    if t.len() == 0 || t == seq!['Z'] {
        Some(0)
    } else if t[0] != '+' && t[0] != '-' {
        None
    } else {
        let sign: i64 = if t[0] == '+' { 1i64 } else { -1i64 };
        let rest = t.drop_first();
        match rest.index_of_first(':') {
            None => None,
            Some(k) => match (parse_signed(rest.take(k)), parse_signed(rest.skip(k + 1))) {
                (Some(hh), Some(mm)) => Some(
                    sign.wrapping_mul(hh.wrapping_mul(3600).wrapping_add(mm.wrapping_mul(60))),
                ),
                _ => None,
            },
        }
    }
}

/// The index just past the run of ASCII digits that starts at byte `i` of `b`.
pub open spec fn digits_end(b: Seq<u8>, i: int) -> int
    decreases b.len() - i,
{
    if 0 <= i < b.len() && 48u8 <= b[i] <= 57u8 { digits_end(b, i + 1) } else { i }
}

/// Where the zone offset starts: after the seconds (byte 19), past a
/// fraction of a second (`.` and its digits) when there is one.
pub open spec fn zone_start(b: Seq<u8>) -> int {
    if b.len() > 19 && b[19] == 46u8 { digits_end(b, 20) } else { 19 }
}

/// UTC epoch seconds of an RFC 3339-ish date (`YYYY-MM-DD`, optionally followed
/// by `T` or a space, `HH:MM:SS`, a fraction of a second that is dropped, and a
/// zone offset), read at fixed byte positions of the text's UTF-8 encoding.
/// `None` when a field is missing; an offset that does not parse counts as zero.
pub open spec fn date_epoch(raw: Seq<char>) -> Option<i64> {
    let b = encode_utf8(raw);
    match (byte_field(b, 0, 4), byte_field(b, 5, 7), byte_field(b, 8, 10)) {
        (Some(y), Some(mo), Some(d)) => {
            let secs = days_civil(y as int, mo as int, d as int) * 86400;
            if b.len() > 10 && (b[10] == 84u8 || b[10] == 32u8) && b.len() >= 19 {
                match (byte_field(b, 11, 13), byte_field(b, 14, 16), byte_field(b, 17, 19)) {
                    (Some(hh), Some(mm), Some(ss)) => {
                        let local = (secs + hh * 3600 + mm * 60 + ss) as i64;
                        let z = zone_start(b);
                        let off = if is_char_boundary(b, z) {
                            match offset_seconds(decode_utf8(b.subrange(z, b.len() as int))) {
                                Some(o) => o,
                                None => 0i64,
                            }
                        } else {
                            0i64
                        };
                        Some(local.wrapping_sub(off))
                    },
                    _ => None,
                }
            } else {
                Some(secs as i64)
            }
        },
        _ => None,
    }
}

/// The characters of a byte slice, one per byte.
fn chars_of_bytes(b: &[u8], lo: usize, hi: usize) -> (r: Vec<char>)
    requires
        lo <= hi <= b@.len(),
    ensures
        r@ == byte_chars(b@.subrange(lo as int, hi as int)),
{
    let mut r: Vec<char> = Vec::new();
    let mut i: usize = lo;
    while i < hi
        invariant
            lo <= i <= hi <= b@.len(),
            r@ == byte_chars(b@.subrange(lo as int, i as int)),
        decreases hi - i,
    {
        r.push(b[i] as char);
        i = i + 1;
        assert(r@ =~= byte_chars(b@.subrange(lo as int, i as int)));
    }
    r
}

/// The integer in bytes `lo..hi` of `raw` (see [`byte_field`]).
fn field(raw: &str, lo: usize, hi: usize) -> (r: Option<i64>)
    ensures
        r == byte_field(raw.spec_bytes(), lo as int, hi as int),
{
    let b = raw.as_bytes();
    if lo <= hi && hi <= b.len() && raw.is_char_boundary(lo) && raw.is_char_boundary(hi) {
        let cs = chars_of_bytes(b, lo, hi);
        parse_i64(&cs)
    } else {
        None
    }
}

/// Parses a zone offset (see [`offset_seconds`]).
pub fn parse_offset(s: &str) -> (r: Option<i64>)
    ensures
        r == offset_seconds(s@),
{
    let t = trim_chars(&chars_of(s));
    if t.len() == 0 || (t.len() == 1 && t[0] == 'Z') {
        assert(t.len() == 1 ==> t@ =~= seq!['Z']);
        return Some(0);
    }
    assert(t@ != seq!['Z']);
    if t[0] != '+' && t[0] != '-' {
        return None;
    }
    let sign: i64 = if t[0] == '+' { 1 } else { -1 };
    let rest = slice_chars(&t, 1, t.len());
    assert(rest@ =~= t@.drop_first());
    let mut k: usize = 0;
    while k < rest.len() && rest[k] != ':'
        invariant
            k <= rest@.len(),
            forall|j: int| 0 <= j < k ==> rest@[j] != ':',
        decreases rest@.len() - k,
    {
        k = k + 1;
    }
    proof { rest@.index_of_first_ensures(':'); }
    if k == rest.len() {
        proof {
            if rest@.contains(':') {
                let j = choose|j: int| 0 <= j < rest@.len() && rest@[j] == ':';
            }
        }
        return None;
    }
    proof {
        match rest@.index_of_first(':') {
            Some(j) => {
                if j < k {
                } else if j > k {
                }
            },
            None => {
                assert(rest@.contains(':'));
            },
        }
    }
    let h = slice_chars(&rest, 0, k);
    let m = slice_chars(&rest, k + 1, rest.len());
    assert(h@ =~= rest@.take(k as int));
    assert(m@ =~= rest@.skip(k + 1));
    match (parse_i64(&h), parse_i64(&m)) {
        (Some(hh), Some(mm)) => Some(
            sign.wrapping_mul(hh.wrapping_mul(3600).wrapping_add(mm.wrapping_mul(60))),
        ),
        _ => None,
    }
}

/// Parses a frontmatter date into UTC epoch seconds (see [`date_epoch`]).
pub fn date_to_epoch(raw: &str) -> (r: Option<i64>)
    ensures
        r == date_epoch(raw@),
{
    let ghost b = raw.spec_bytes();
    let year = match field(raw, 0, 4) {
        Some(v) => v,
        None => return None,
    };
    let month = match field(raw, 5, 7) {
        Some(v) => v,
        None => return None,
    };
    let day = match field(raw, 8, 10) {
        Some(v) => v,
        None => return None,
    };
    proof { lemma_small_field(b, 0, 4); lemma_small_field(b, 5, 7); lemma_small_field(b, 8, 10); }
    let mut secs: i64 = days_from_civil(year, month, day) * 86_400;
    let bytes = raw.as_bytes();
    if bytes.len() > 10 && (bytes[10] == 84u8 || bytes[10] == 32u8) && bytes.len() >= 19 {
        let hh = match field(raw, 11, 13) {
            Some(v) => v,
            None => return None,
        };
        let mm = match field(raw, 14, 16) {
            Some(v) => v,
            None => return None,
        };
        let ss = match field(raw, 17, 19) {
            Some(v) => v,
            None => return None,
        };
        proof { lemma_small_field(b, 11, 13); lemma_small_field(b, 14, 16); lemma_small_field(b, 17, 19); }
        secs = secs + hh * 3600 + mm * 60 + ss;
        let mut z: usize = 19;
        if bytes.len() > 19 && bytes[19] == 46u8 {
            z = 20;
            while z < bytes.len() && 48u8 <= bytes[z] && bytes[z] <= 57u8
                invariant
                    20 <= z <= bytes@.len(),
                    bytes@ == b,
                    b.len() > 19 && b[19] == 46u8,
                    digits_end(b, z as int) == digits_end(b, 20),
                decreases bytes@.len() - z,
            {
                z = z + 1;
            }
        }
        assert(z == zone_start(b));
        let off = if raw.is_char_boundary(z) {
            let (_, zone) = raw.split_at(z);
            proof {
                vstd::utf8::encode_utf8_decode_utf8(zone@);
            }
            assert(zone@ == decode_utf8(b.subrange(z as int, b.len() as int)));
            match parse_offset(zone) {
                Some(o) => o,
                None => 0,
            }
        } else {
            0
        };
        secs = secs.wrapping_sub(off);
    }
    Some(secs)
}

/// A field of at most four bytes holds a small number.
proof fn lemma_small_field(b: Seq<u8>, lo: int, hi: int)
    requires
        0 <= lo,
        hi - lo <= 4,
        byte_field(b, lo, hi) is Some,
    ensures
        -999 <= byte_field(b, lo, hi)->0 <= 9999,
{
    let s = byte_chars(b.subrange(lo, hi));
    assert(s.len() == hi - lo);
    assert(s.len() > 0);
    let ds = if s[0] == '-' || s[0] == '+' { s.drop_first() } else { s };
    assert(all_digits(ds));
    lemma_digits_bound(ds);
    if s[0] == '-' || s[0] == '+' {
        assert(ds.len() <= 3);
        assert(digits_value(ds) < 1000);
    } else {
        assert(digits_value(ds) < 10000);
    }
}

/// A number of `n` digits is below `10^n`.
proof fn lemma_digits_bound(ds: Seq<char>)
    requires
        all_digits(ds),
    ensures
        ds.len() <= 4 ==> digits_value(ds) < pow10(ds.len()),
    decreases ds.len(),
{
    if ds.len() > 0 {
        assert(all_digits(ds.drop_last()));
        lemma_digits_bound(ds.drop_last());
        assert(is_digit(ds.last()));
    }
}

/// `10^n` for small `n`.
spec fn pow10(n: nat) -> nat {
    if n == 0 { 1 } else if n == 1 { 10 } else if n == 2 { 100 } else if n == 3 { 1000 } else { 10000 }
}

/// The display form of a frontmatter date: its first ten bytes when the date
/// parses and byte 4 is `-`, else the whole text.
pub open spec fn date_display(raw: Seq<char>) -> Seq<char> {
    let b = encode_utf8(raw);
    if date_epoch(raw) is Some && b[4] == 45u8 {
        decode_utf8(b.take(10))
    } else {
        raw
    }
}

/// The sort key of a frontmatter date: its epoch seconds, 0 when it does not parse.
pub open spec fn date_key(raw: Seq<char>) -> i64 {
    match date_epoch(raw) {
        Some(k) => k,
        None => 0,
    }
}

/// Splits a frontmatter date into its `YYYY-MM-DD` display form and its sort
/// key. Text that does not parse as a date gives itself and key 0.
pub fn parse_date(raw: &str) -> (r: (String, i64))
    ensures
        r.0@ == date_display(raw@),
        r.1 == date_key(raw@),
{
    let ghost b = raw.spec_bytes();
    let bytes = raw.as_bytes();
    let epoch = date_to_epoch(raw);
    let display = if epoch.is_some() && bytes[4] == 45u8 {
        assert(byte_field(b, 8, 10) is Some);
        let (head, _) = raw.split_at(10);
        proof {
            vstd::utf8::encode_utf8_decode_utf8(head@);
        }
        assert(b.subrange(0, 10) =~= b.take(10));
        head.to_owned()
    } else {
        raw.to_owned()
    };
    let key = match epoch {
        Some(k) => k,
        None => 0,
    };
    (display, key)
}

/// `s` without a leading byte-order mark.
pub open spec fn strip_bom(s: Seq<char>) -> Seq<char> {
    if s.len() > 0 && s[0] == '\u{feff}' { s.drop_first() } else { s }
}

/// What follows the opening `---` fence line (`\n` or `\r\n` ended).
pub open spec fn after_open_fence(s: Seq<char>) -> Option<Seq<char>> {
    if has_prefix(s, "---\n"@) {
        Some(s.skip("---\n"@.len() as int))
    } else if has_prefix(s, "---\r\n"@) {
        Some(s.skip("---\r\n"@.len() as int))
    } else {
        None
    }
}

/// The index just past the line that starts at `k` (past its `\n`, or the end).
pub open spec fn line_end(s: Seq<char>, k: int) -> int
    decreases s.len() - k,
{
    if k < 0 || k >= s.len() {
        s.len() as int
    } else if s[k] == '\n' {
        k + 1
    } else {
        line_end(s, k + 1)
    }
}

pub proof fn lemma_line_end(s: Seq<char>, k: int)
    requires
        0 <= k < s.len(),
    ensures
        k < line_end(s, k) <= s.len(),
        forall|j: int| k <= j < line_end(s, k) - 1 ==> s[j] != '\n',
        line_end(s, k) < s.len() ==> s[line_end(s, k) - 1] == '\n',
    decreases s.len() - k,
{
    reveal_with_fuel(line_end, 2);
    if s[k] != '\n' && k + 1 < s.len() {
        lemma_line_end(s, k + 1);
    }
}

/// `l` without trailing `\n` and `\r` characters.
pub open spec fn trim_newlines(l: Seq<char>) -> Seq<char>
    decreases l.len(),
{
    if l.len() > 0 && (l.last() == '\n' || l.last() == '\r') { trim_newlines(l.drop_last()) } else { l }
}

/// The first line at or after `k` that is a `---` fence (trailing line breaks
/// ignored), as its start and end.
pub open spec fn find_fence(s: Seq<char>, k: int) -> Option<(int, int)>
    decreases s.len() - k,
{
    if k < 0 || k >= s.len() {
        None
    } else {
        let e = line_end(s, k);
        if trim_newlines(s.subrange(k, e)) == "---"@ {
            Some((k, e))
        } else {
            proof { lemma_line_end(s, k); }
            find_fence(s, e)
        }
    }
}

/// The frontmatter and body of a raw post: the text must open with a `---`
/// fence line (after an optional byte-order mark) and carry a closing one; the
/// frontmatter is what lies between, the body everything after the closing
/// fence line, unchanged.
pub open spec fn frontmatter_split(raw: Seq<char>) -> Option<(Seq<char>, Seq<char>)> {
    match after_open_fence(strip_bom(raw)) {
        None => None,
        Some(a) => match find_fence(a, 0) {
            None => None,
            Some((k, e)) => Some((a.take(k), a.skip(e))),
        },
    }
}

/// Whether the line `l` is a `---` fence.
fn is_fence(l: &[char]) -> (r: bool)
    ensures
        r == (trim_newlines(l@) == "---"@),
{
    let mut n: usize = l.len();
    assert(l@.take(n as int) =~= l@);
    while n > 0 && (l[n - 1] == '\n' || l[n - 1] == '\r')
        invariant
            n <= l@.len(),
            trim_newlines(l@) == trim_newlines(l@.take(n as int)),
        decreases n,
    {
        assert(l@.take(n - 1) =~= l@.take(n as int).drop_last());
        n = n - 1;
    }
    let t = slice_chars(l, 0, n);
    assert(t@ =~= l@.take(n as int));
    same_text(&t, "---")
}

/// Splits a raw post into frontmatter and body (see [`frontmatter_split`]).
pub fn split_frontmatter(raw: &str) -> (r: Option<(String, String)>)
    ensures
        match r {
            Some((fm, body)) => frontmatter_split(raw@) == Some((fm@, body@)),
            None => frontmatter_split(raw@) is None,
        },
{
    let cs = chars_of(raw);
    let s = if cs.len() > 0 && cs[0] == '\u{feff}' { slice_chars(&cs, 1, cs.len()) } else { cs };
    assert(s@ =~= strip_bom(raw@));
    let a = if starts_with_str(&s, "---\n") {
        let n = chars_of("---\n").len();
        slice_chars(&s, n, s.len())
    } else if starts_with_str(&s, "---\r\n") {
        let n = chars_of("---\r\n").len();
        slice_chars(&s, n, s.len())
    } else {
        return None;
    };
    assert(after_open_fence(s@) == Some(a@));
    let mut k: usize = 0;
    while k < a.len()
        invariant
            k <= a@.len(),
            after_open_fence(strip_bom(raw@)) == Some(a@),
            find_fence(a@, 0) == find_fence(a@, k as int),
        decreases a@.len() - k,
    {
        let mut e: usize = k;
        while e < a.len() && a[e] != '\n'
            invariant
                k <= e <= a@.len(),
                line_end(a@, k as int) == line_end(a@, e as int),
            decreases a@.len() - e,
        {
            e = e + 1;
        }
        if e < a.len() {
            e = e + 1;
        }
        assert(e == line_end(a@, k as int));
        proof { lemma_line_end(a@, k as int); }
        let line = slice_chars(&a, k, e);
        assert(line@ == a@.subrange(k as int, e as int));
        if is_fence(&line) {
            assert(find_fence(a@, k as int) == Some((k as int, e as int)));
            let fm = slice_chars(&a, 0, k);
            let body = slice_chars(&a, e, a.len());
            assert(fm@ =~= a@.take(k as int));
            assert(body@ =~= a@.skip(e as int));
            return Some((string_of(&fm), string_of(&body)));
        }
        k = e;
    }
    None
}

/// One frontmatter value as the post reads it.
pub enum FieldValue {
    Str(String),
    Int(i64),
    /// A floating-point scalar, kept as its source text.
    Real(String),
    Bool(bool),
    /// A sequence: the text of each string element, `None` for other elements.
    List(Vec<Option<String>>),
    /// Anything else, or no value at all.
    Other,
}

/// A frontmatter value's content.
pub enum FieldV {
    Str(Seq<char>),
    Int(i64),
    Real(Seq<char>),
    Bool(bool),
    List(Seq<Option<Seq<char>>>),
    Other,
}

/// The texts of a list.
pub open spec fn list_view(v: Seq<Option<String>>) -> Seq<Option<Seq<char>>> {
    v.map_values(|o: Option<String>| match o { Some(t) => Some(t@), None => None })
}

impl View for FieldValue {
    type V = FieldV;

    open spec fn view(&self) -> FieldV {
        match self {
            FieldValue::Str(s) => FieldV::Str(s@),
            FieldValue::Int(i) => FieldV::Int(*i),
            FieldValue::Real(s) => FieldV::Real(s@),
            FieldValue::Bool(b) => FieldV::Bool(*b),
            FieldValue::List(v) => FieldV::List(list_view(v@)),
            FieldValue::Other => FieldV::Other,
        }
    }
}

#[verifier::external_type_specification]
#[verifier::external_body]
pub struct ExYaml(Yaml);

/// What a parsed YAML document holds at its top level: each string key of a
/// mapping with its value read as a [`FieldV`] (empty when the document is not
/// a mapping).
pub uninterp spec fn yaml_fields(doc: Yaml) -> Map<Seq<char>, FieldV>;

/// What yaml-rust2's `YamlLoader::load_from_str` makes of a text: each document's
/// top-level fields, or the text of the scan error.
pub uninterp spec fn yaml_documents(src: Seq<char>) -> Result<Seq<Map<Seq<char>, FieldV>>, Seq<char>>;

/// Loads YAML documents with `YamlLoader::load_from_str`, the error given as the
/// text its `Display` writes. The contract claims only that the outcome is a
/// function of the text.
#[verifier::external_body]
fn yaml_load(src: &str) -> (r: Result<Vec<Yaml>, String>)
    ensures
        match (r, yaml_documents(src@)) {
            (Ok(docs), Ok(ms)) => docs@.map_values(|d: Yaml| yaml_fields(d)) == ms,
            (Err(e), Err(m)) => e@ == m,
            _ => false,
        },
{
    match YamlLoader::load_from_str(src) {
        Ok(docs) => Ok(docs),
        Err(e) => Err(e.to_string()),
    }
}

/// The value of `key` in `fields` (`Other` when absent).
pub open spec fn field_in(fields: Map<Seq<char>, FieldV>, key: Seq<char>) -> FieldV {
    if fields.contains_key(key) { fields[key] } else { FieldV::Other }
}

/// Looks `key` up in a YAML document with yaml-rust2's `doc[key]` and reads the
/// value: strings, integers, reals (their text) and booleans as they are, a
/// sequence as the text of each string element (`as_str`), anything else
/// (including the `BadValue` of a missing key) as `Other`.
#[verifier::external_body]
fn yaml_get(doc: &Yaml, key: &str) -> (r: FieldValue)
    ensures
        r@ == field_in(yaml_fields(*doc), key@),
{
    match &doc[key] {
        Yaml::String(s) => FieldValue::Str(s.clone()),
        Yaml::Integer(i) => FieldValue::Int(*i),
        Yaml::Real(r) => FieldValue::Real(r.clone()),
        Yaml::Boolean(b) => FieldValue::Bool(*b),
        Yaml::Array(a) => FieldValue::List(a.iter().map(|y| y.as_str().map(String::from)).collect()),
        _ => FieldValue::Other,
    }
}

/// One parsed post. `body` is the raw markdown after the closing frontmatter fence.
#[derive(Debug, Clone, PartialEq)]
pub struct Post {
    /// URL/selector stem: the post directory name, or an explicit `slug:`.
    pub slug: String,
    pub title: String,
    /// `YYYY-MM-DD` for display in menus and the post header.
    pub date: String,
    /// Sort key: UTC epoch seconds of the frontmatter date (0 if unparseable).
    pub sort_key: i64,
    pub draft: bool,
    pub description: String,
    pub tags: Vec<String>,
    pub categories: Vec<String>,
    pub series: Vec<String>,
    pub body: String,
}

/// A post's content.
#[verifier::ext_equal]
pub struct PostV {
    pub slug: Seq<char>,
    pub title: Seq<char>,
    pub date: Seq<char>,
    pub sort_key: i64,
    pub draft: bool,
    pub description: Seq<char>,
    pub tags: Seq<Seq<char>>,
    pub categories: Seq<Seq<char>>,
    pub series: Seq<Seq<char>>,
    pub body: Seq<char>,
}

/// The texts of a vector of strings.
pub open spec fn texts_view(v: Seq<String>) -> Seq<Seq<char>> {
    v.map_values(|s: String| s@)
}

impl View for Post {
    type V = PostV;

    open spec fn view(&self) -> PostV {
        PostV {
            slug: self.slug@,
            title: self.title@,
            date: self.date@,
            sort_key: self.sort_key,
            draft: self.draft,
            description: self.description@,
            tags: texts_view(self.tags@),
            categories: texts_view(self.categories@),
            series: texts_view(self.series@),
            body: self.body@,
        }
    }
}

/// The frontmatter fields a post reads.
pub struct FrontMatter {
    pub slug: FieldValue,
    pub title: FieldValue,
    pub date: FieldValue,
    pub draft: FieldValue,
    pub description: FieldValue,
    pub tags: FieldValue,
    pub categories: FieldValue,
    pub series: FieldValue,
}

/// The frontmatter fields' content.
pub struct FrontV {
    pub slug: FieldV,
    pub title: FieldV,
    pub date: FieldV,
    pub draft: FieldV,
    pub description: FieldV,
    pub tags: FieldV,
    pub categories: FieldV,
    pub series: FieldV,
}

impl View for FrontMatter {
    type V = FrontV;

    open spec fn view(&self) -> FrontV {
        FrontV {
            slug: self.slug@,
            title: self.title@,
            date: self.date@,
            draft: self.draft@,
            description: self.description@,
            tags: self.tags@,
            categories: self.categories@,
            series: self.series@,
        }
    }
}

/// The decimal text of a signed integer.
pub open spec fn int_text(i: i64) -> Seq<char> {
    if i < 0 { seq!['-'] + decimal((-i) as nat) } else { decimal(i as nat) }
}

/// A scalar field as text: strings as they are, integers in decimal, reals as
/// written; `None` for anything else.
pub open spec fn scalar_text(v: FieldV) -> Option<Seq<char>> {
    match v {
        FieldV::Str(s) => Some(s),
        FieldV::Int(i) => Some(int_text(i)),
        FieldV::Real(r) => Some(r),
        _ => None,
    }
}

/// A boolean field (`false` when absent or not a boolean).
pub open spec fn flag_of(v: FieldV) -> bool {
    match v {
        FieldV::Bool(b) => b,
        _ => false,
    }
}

/// The present texts of a list, in order.
pub open spec fn somes(v: Seq<Option<Seq<char>>>) -> Seq<Seq<char>>
    decreases v.len(),
{
    if v.len() == 0 {
        seq![]
    } else {
        let prev = somes(v.drop_last());
        match v.last() {
            Some(t) => prev.push(t),
            None => prev,
        }
    }
}

/// A string-list field: its string elements (empty when absent or not a list).
pub open spec fn list_of(v: FieldV) -> Seq<Seq<char>> {
    match v {
        FieldV::List(items) => somes(items),
        _ => seq![],
    }
}

/// `t` when present, else `d`.
pub open spec fn or_else(t: Option<Seq<char>>, d: Seq<char>) -> Seq<char> {
    match t {
        Some(x) => x,
        None => d,
    }
}

/// The post a directory `dir_slug` holds, given its frontmatter fields and
/// body: slug and title default to the directory name, the other texts to
/// empty, `draft` to false, lists to empty.
pub open spec fn post_of(dir_slug: Seq<char>, f: FrontV, body: Seq<char>) -> PostV {
    let raw_date = or_else(scalar_text(f.date), seq![]);
    PostV {
        slug: or_else(scalar_text(f.slug), dir_slug),
        title: or_else(scalar_text(f.title), dir_slug),
        date: date_display(raw_date),
        sort_key: date_key(raw_date),
        draft: flag_of(f.draft),
        description: or_else(scalar_text(f.description), seq![]),
        tags: list_of(f.tags),
        categories: list_of(f.categories),
        series: list_of(f.series),
        body,
    }
}

/// The decimal text of `i`.
fn int_to_text(i: i64) -> (r: Vec<char>)
    ensures
        r@ == int_text(i),
{
    if i < 0 {
        let m: u64 = if i == i64::MIN { 9223372036854775808 } else { (-i) as u64 };
        let mut r = Vec::new();
        r.push('-');
        let d = decimal_of(m);
        push_all(&mut r, &d);
        r
    } else {
        decimal_of(i as u64)
    }
}

/// A scalar field as text (see [`scalar_text`]).
pub fn ystr(v: &FieldValue) -> (r: Option<String>)
    ensures
        match r {
            Some(t) => scalar_text(v@) == Some(t@),
            None => scalar_text(v@) is None,
        },
{
    match v {
        FieldValue::Str(s) => Some(string_of(&chars_of(s.as_str()))),
        FieldValue::Int(i) => Some(string_of(&int_to_text(*i))),
        FieldValue::Real(r) => Some(string_of(&chars_of(r.as_str()))),
        _ => None,
    }
}

/// A boolean field (see [`flag_of`]).
pub fn ybool(v: &FieldValue) -> (r: bool)
    ensures
        r == flag_of(v@),
{
    match v {
        FieldValue::Bool(b) => *b,
        _ => false,
    }
}

/// A string-list field (see [`list_of`]).
pub fn yarr(v: &FieldValue) -> (r: Vec<String>)
    ensures
        texts_view(r@) == list_of(v@),
{
    match v {
        FieldValue::List(items) => {
            let ghost lv = list_view(items@);
            let mut out: Vec<String> = Vec::new();
            let mut i: usize = 0;
            while i < items.len()
                invariant
                    i <= items@.len(),
                    lv == list_view(items@),
                    texts_view(out@) == somes(lv.take(i as int)),
                decreases items@.len() - i,
            {
                assert(lv.take(i as int + 1).drop_last() =~= lv.take(i as int));
                let ghost before = texts_view(out@);
                match &items[i] {
                    Some(t) => {
                        out.push(string_of(&chars_of(t.as_str())));
                        assert(texts_view(out@) =~= before.push(t@));
                    },
                    None => {},
                }
                i = i + 1;
            }
            assert(lv.take(i as int) =~= lv);
            out
        },
        _ => {
            let out: Vec<String> = Vec::new();
            assert(texts_view(out@) =~= seq![]);
            out
        },
    }
}

/// The text of an optional field, or `d`.
fn text_or(v: &FieldValue, d: &str) -> (r: String)
    ensures
        r@ == or_else(scalar_text(v@), d@),
{
    match ystr(v) {
        Some(t) => t,
        None => string_of(&chars_of(d)),
    }
}

/// Builds the post of directory `dir_slug` from its frontmatter fields and body
/// (see [`post_of`]).
pub fn post_from_front(dir_slug: &str, front: &FrontMatter, body: &str) -> (r: Post)
    ensures
        r@ == post_of(dir_slug@, front@, body@),
{
    proof {
        reveal_strlit("");
    }
    let raw_date = text_or(&front.date, "");
    let (date, sort_key) = parse_date(raw_date.as_str());
    let r = Post {
        slug: text_or(&front.slug, dir_slug),
        title: text_or(&front.title, dir_slug),
        date,
        sort_key,
        draft: ybool(&front.draft),
        description: text_or(&front.description, ""),
        tags: yarr(&front.tags),
        categories: yarr(&front.categories),
        series: yarr(&front.series),
        body: string_of(&chars_of(body)),
    };
    assert(r@ =~= post_of(dir_slug@, front@, body@));
    r
}

/// The frontmatter fields of a document's top level.
pub open spec fn front_of(fields: Map<Seq<char>, FieldV>) -> FrontV {
    FrontV {
        slug: field_in(fields, "slug"@),
        title: field_in(fields, "title"@),
        date: field_in(fields, "date"@),
        draft: field_in(fields, "draft"@),
        description: field_in(fields, "description"@),
        tags: field_in(fields, "tags"@),
        categories: field_in(fields, "categories"@),
        series: field_in(fields, "series"@),
    }
}

/// What parsing a raw `index.md` in directory `dir_slug` gives: an error when
/// the frontmatter fences are missing or the YAML does not load, else the post
/// built from the first YAML document (no fields when there is none).
pub open spec fn post_parse(dir_slug: Seq<char>, raw: Seq<char>) -> Result<PostV, Seq<char>> {
    match frontmatter_split(raw) {
        None => Err("missing '---' frontmatter fence"@),
        Some((fm, body)) => match yaml_documents(fm) {
            Err(e) => Err("invalid YAML: "@ + e),
            Ok(docs) => {
                let fields = if docs.len() > 0 { docs[0] } else { Map::empty() };
                Ok(post_of(dir_slug, front_of(fields), body))
            },
        },
    }
}

/// The result's content.
pub open spec fn post_result_view(r: Result<Post, String>) -> Result<PostV, Seq<char>> {
    match r {
        Ok(p) => Ok(p@),
        Err(e) => Err(e@),
    }
}

/// Parses one post from its raw `index.md` text (see [`post_parse`]). `dir_slug`
/// is the directory name, the slug unless the frontmatter names one.
pub fn parse_post(dir_slug: &str, raw: &str) -> (r: Result<Post, String>)
    ensures
        post_result_view(r) == post_parse(dir_slug@, raw@),
{
    let (fm, body) = match split_frontmatter(raw) {
        Some(parts) => parts,
        None => return Err(string_of(&chars_of("missing '---' frontmatter fence"))),
    };
    let docs = match yaml_load(fm.as_str()) {
        Ok(d) => d,
        Err(e) => {
            let mut m = chars_of("invalid YAML: ");
            push_str(&mut m, e.as_str());
            return Err(string_of(&m));
        },
    };
    let front = if docs.len() > 0 {
        let doc = &docs[0];
        FrontMatter {
            slug: yaml_get(doc, "slug"),
            title: yaml_get(doc, "title"),
            date: yaml_get(doc, "date"),
            draft: yaml_get(doc, "draft"),
            description: yaml_get(doc, "description"),
            tags: yaml_get(doc, "tags"),
            categories: yaml_get(doc, "categories"),
            series: yaml_get(doc, "series"),
        }
    } else {
        FrontMatter {
            slug: FieldValue::Other,
            title: FieldValue::Other,
            date: FieldValue::Other,
            draft: FieldValue::Other,
            description: FieldValue::Other,
            tags: FieldValue::Other,
            categories: FieldValue::Other,
            series: FieldValue::Other,
        }
    };
    proof {
        let ghost fields = match yaml_documents(fm@) { Ok(ms) => if ms.len() > 0 { ms[0] } else { Map::empty() }, Err(_) => Map::empty() };
        assert(front@ == front_of(fields));
    }
    Ok(post_from_front(dir_slug, &front, body.as_str()))
}

/// Whether post `a` goes strictly before post `b` newest-first: a later sort
/// key, or the same key and a slug that sorts first.
pub open spec fn strictly_before(a: PostV, b: PostV) -> bool {
    a.sort_key > b.sort_key || (a.sort_key == b.sort_key && lex_lt(a.slug, b.slug))
}

/// Where `x` goes in the ordered `s`: before the first post it strictly
/// precedes, after all the others.
pub open spec fn insert_pos(s: Seq<PostV>, x: PostV) -> int
    decreases s.len(),
{
    if s.len() == 0 {
        0
    } else if strictly_before(x, s[0]) {
        0
    } else {
        1 + insert_pos(s.drop_first(), x)
    }
}

/// The non-draft posts of `s`, newest first, ties broken by slug, posts that
/// compare equal kept in their given order (a stable sort).
pub open spec fn newest_first_of(s: Seq<PostV>) -> Seq<PostV>
    decreases s.len(),
{
    if s.len() == 0 {
        seq![]
    } else {
        let o = newest_first_of(s.drop_last());
        let x = s.last();
        if x.draft { o } else { o.insert(insert_pos(o, x), x) }
    }
}

/// The contents of a list of posts.
pub open spec fn posts_view(v: Seq<Post>) -> Seq<PostV> {
    v.map_values(|p: Post| p@)
}

proof fn lemma_insert_pos_bound(s: Seq<PostV>, x: PostV)
    ensures
        0 <= insert_pos(s, x) <= s.len(),
    decreases s.len(),
{
    if s.len() > 0 && !strictly_before(x, s[0]) {
        lemma_insert_pos_bound(s.drop_first(), x);
    }
}

/// Whether post `a` goes strictly before post `b` (see [`strictly_before`]).
fn post_strictly_before(a: &Post, b: &Post) -> (r: bool)
    ensures
        r == strictly_before(a@, b@),
{
    if a.sort_key != b.sort_key {
        a.sort_key > b.sort_key
    } else {
        text_less(&chars_of(a.slug.as_str()), &chars_of(b.slug.as_str()))
    }
}

/// Drops the drafts and orders the rest newest-first (see [`newest_first_of`]).
pub fn newest_first(posts: Vec<Post>) -> (r: Vec<Post>)
    ensures
        posts_view(r@) == newest_first_of(posts_view(posts@)),
        is_newest_first(posts_view(r@)),
        posts_view(r@).to_multiset() == non_drafts(posts_view(posts@)).to_multiset(),
{
    proof {
        lemma_newest_first(posts_view(posts@));
    }
    let ghost pv = posts_view(posts@);
    let mut out: Vec<Post> = Vec::new();
    for p in it: posts
        invariant
            it.seq() == posts@,
            pv == posts_view(posts@),
            posts_view(out@) == newest_first_of(pv.take(it.index() as int)),
    {
        let ghost i = it.index();
        assert(pv.take(i + 1).drop_last() =~= pv.take(i));
        assert(pv.take(i + 1).last() == p@);
        if !p.draft {
            let ghost ov = posts_view(out@);
            let mut j: usize = 0;
            assert(ov.skip(0) =~= ov);
            while j < out.len() && !post_strictly_before(&p, &out[j])
                invariant
                    j <= out@.len(),
                    ov == posts_view(out@),
                    insert_pos(ov, p@) == j + insert_pos(ov.skip(j as int), p@),
                decreases out@.len() - j,
            {
                assert(ov.skip(j as int).drop_first() =~= ov.skip(j + 1));
                j = j + 1;
            }
            assert(insert_pos(ov, p@) == j);
            out.insert(j, p);
            assert(posts_view(out@) =~= ov.insert(j as int, p@));
        }
    }
    assert(pv.take(pv.len() as int) =~= pv);
    out
}

/// Whether `s` is in newest-first order: no post goes strictly before one
/// listed ahead of it.
pub open spec fn is_newest_first(s: Seq<PostV>) -> bool {
    forall|i: int, j: int| 0 <= i < j < s.len() ==> !strictly_before(#[trigger] s[j], #[trigger] s[i])
}

/// The posts of `s` that are not drafts, in order.
pub open spec fn non_drafts(s: Seq<PostV>) -> Seq<PostV>
    decreases s.len(),
{
    if s.len() == 0 {
        seq![]
    } else {
        let o = non_drafts(s.drop_last());
        if s.last().draft { o } else { o.push(s.last()) }
    }
}

proof fn lemma_before_asym(a: PostV, b: PostV)
    ensures
        strictly_before(a, b) ==> !strictly_before(b, a),
{
    lemma_lex_asym(a.slug, b.slug);
}

proof fn lemma_before_split(c: PostV, b: PostV, a: PostV)
    ensures
        strictly_before(c, a) ==> strictly_before(c, b) || strictly_before(b, a),
{
    lemma_lex_total(c.slug, b.slug);
    lemma_lex_trans(b.slug, c.slug, a.slug);
}

proof fn lemma_insert_pos_props(s: Seq<PostV>, x: PostV)
    ensures
        0 <= insert_pos(s, x) <= s.len(),
        forall|i: int| 0 <= i < insert_pos(s, x) ==> !strictly_before(x, #[trigger] s[i]),
        insert_pos(s, x) < s.len() ==> strictly_before(x, s[insert_pos(s, x)]),
    decreases s.len(),
{
    if s.len() > 0 && !strictly_before(x, s[0]) {
        lemma_insert_pos_props(s.drop_first(), x);
        assert forall|i: int| 0 <= i < insert_pos(s, x) implies !strictly_before(x, #[trigger] s[i]) by {
            if i > 0 {
                assert(s[i] == s.drop_first()[i - 1]);
            }
        }
    }
}

proof fn lemma_insert_keeps_order(s: Seq<PostV>, x: PostV)
    requires
        is_newest_first(s),
    ensures
        is_newest_first(s.insert(insert_pos(s, x), x)),
{
    lemma_insert_pos_props(s, x);
    let p = insert_pos(s, x);
    let t = s.insert(p, x);
    s.insert_ensures(p, x);
    assert forall|i: int, j: int| 0 <= i < j < t.len() implies !strictly_before(#[trigger] t[j], #[trigger] t[i]) by {
        if j < p {
            assert(t[i] == s[i] && t[j] == s[j]);
        } else if j == p {
            assert(t[i] == s[i]);
        } else if i < p {
            assert(t[i] == s[i] && t[j] == s[j - 1]);
        } else if i == p {
            assert(t[j] == s[j - 1]);
            lemma_before_asym(x, s[p]);
            lemma_before_split(s[j - 1], s[p], x);
            if j - 1 > p {
                assert(!strictly_before(s[j - 1], s[p]));
            }
        } else {
            assert(t[i] == s[i - 1] && t[j] == s[j - 1]);
        }
    }
}

proof fn lemma_insert_multiset(s: Seq<PostV>, p: int, x: PostV)
    requires
        0 <= p <= s.len(),
    ensures
        s.insert(p, x).to_multiset() == s.to_multiset().insert(x),
{
    let t = s.insert(p, x);
    s.insert_ensures(p, x);
    t.to_multiset_ensures();
    assert(t.remove(p) =~= s);
    assert(t.to_multiset().remove(x) == s.to_multiset());
    assert(t.contains(x)) by {
        assert(t[p] == x);
    }
    assert(t.to_multiset() =~= s.to_multiset().insert(x));
}

/// Law: the posts come out newest-first, ties broken by slug; exactly the
/// non-draft posts (as a multiset) and no draft.
pub proof fn lemma_newest_first(s: Seq<PostV>)
    ensures
        is_newest_first(newest_first_of(s)),
        newest_first_of(s).to_multiset() == non_drafts(s).to_multiset(),
        forall|i: int| 0 <= i < newest_first_of(s).len() ==> !(#[trigger] newest_first_of(s)[i]).draft,
    decreases s.len(),
{
    if s.len() > 0 {
        lemma_newest_first(s.drop_last());
        let o = newest_first_of(s.drop_last());
        let x = s.last();
        if !x.draft {
            lemma_insert_keeps_order(o, x);
            lemma_insert_pos_props(o, x);
            lemma_insert_multiset(o, insert_pos(o, x), x);
            non_drafts(s.drop_last()).to_multiset_ensures();
            let t = newest_first_of(s);
            o.insert_ensures(insert_pos(o, x), x);
            assert forall|i: int| 0 <= i < t.len() implies !(#[trigger] t[i]).draft by {
                let p = insert_pos(o, x);
                if i < p {
                    assert(t[i] == o[i]);
                } else if i > p {
                    assert(t[i] == o[i - 1]);
                }
            }
        }
    }
}

proof fn lemma_find_fence(s: Seq<char>, k: int)
    ensures
        find_fence(s, k) matches Some((a, b)) ==> 0 <= k <= a && a < b && b <= s.len()
            && trim_newlines(s.subrange(a, b)) == "---"@,
    decreases s.len() - k,
{
    if 0 <= k < s.len() {
        lemma_line_end(s, k);
        let e = line_end(s, k);
        if trim_newlines(s.subrange(k, e)) != "---"@ {
            lemma_find_fence(s, e);
        }
    }
}

/// Law: splitting loses nothing and changes nothing: the text (less a leading
/// byte-order mark) is the opening fence line, the frontmatter, a closing
/// `---` fence line and the body, byte for byte.
pub proof fn lemma_frontmatter_reassembles(raw: Seq<char>)
    ensures
        frontmatter_split(raw) matches Some((fm, body)) ==> ({
            let s = strip_bom(raw);
            let open = if has_prefix(s, "---\n"@) { "---\n"@ } else { "---\r\n"@ };
            let close = s.subrange((open.len() + fm.len()) as int, s.len() - body.len());
            &&& has_prefix(s, open)
            &&& open.len() + fm.len() <= s.len() - body.len()
            &&& trim_newlines(close) == "---"@
            &&& s == open + fm + close + body
        }),
{
    let s = strip_bom(raw);
    match after_open_fence(s) {
        None => {},
        Some(a) => {
            lemma_find_fence(a, 0);
            match find_fence(a, 0) {
                None => {},
                Some((k, e)) => {
                    let open = if has_prefix(s, "---\n"@) { "---\n"@ } else { "---\r\n"@ };
                    assert(s =~= open + a);
                    let fm = a.take(k);
                    let body = a.skip(e);
                    let close = s.subrange((open.len() + fm.len()) as int, s.len() - body.len());
                    assert(close =~= a.subrange(k, e));
                    assert(s =~= open + fm + close + body);
                },
            }
        },
    }
}

/// A leap year of the Gregorian calendar.
pub open spec fn is_leap(y: int) -> bool {
    y % 4 == 0 && (y % 100 != 0 || y % 400 == 0)
}

/// The number of days of month `m` of year `y`.
pub open spec fn month_len(y: int, m: int) -> int {
    if m == 2 {
        if is_leap(y) { 29 } else { 28 }
    } else if m == 4 || m == 6 || m == 9 || m == 11 {
        30
    } else {
        31
    }
}

/// The day after `y-m-d`.
pub open spec fn next_date(y: int, m: int, d: int) -> (int, int, int) {
    if d < month_len(y, m) {
        (y, m, d + 1)
    } else if m < 12 {
        (y, m + 1, 1)
    } else {
        (y + 1, 1, 1)
    }
}

/// Day number of the first of March of year `y` (March-based year `y`), less
/// the epoch offset: `era * 146097 + yoe * 365 + yoe / 4 - yoe / 100`.
spec fn year_start(y: int) -> int {
    let o = y % 400;
    (y / 400) * 146097 + o * 365 + o / 4 - o / 100
}

proof fn lemma_days_split(y: int, m: int, d: int)
    ensures
        ({
            let ya = if m <= 2 { y - 1 } else { y };
            let mp = if m > 2 { m - 3 } else { m + 9 };
            days_civil(y, m, d) == year_start(ya) + tdiv(153 * mp + 2, 5) + d - 1 - 719468
        }),
{
    let ya = if m <= 2 { y - 1 } else { y };
    lemma_era(ya);
    let era = tdiv(if ya >= 0 { ya } else { ya - 399 }, 400);
    assert(ya == 400 * (ya / 400) + ya % 400 && 0 <= ya % 400 < 400);
    assert(era == ya / 400);
    let o = ya - era * 400;
    assert(o == ya % 400);
    assert(tdiv(o, 4) == o / 4 && tdiv(o, 100) == o / 100);
}

#[verifier::rlimit(50)]
#[verifier::spinoff_prover]
proof fn lemma_year_step(y: int)
    ensures
        year_start(y + 1) - year_start(y) == if is_leap(y + 1) { 366int } else { 365int },
{
    let q = y / 400;
    let o = y % 400;
    assert(y == 400 * q + o && 0 <= o < 400);
    if o < 399 {
        assert((y + 1) / 400 == q && (y + 1) % 400 == o + 1) by {
            assert(y + 1 == 400 * q + (o + 1));
        }
        assert((y + 1) % 4 == (o + 1) % 4) by {
            assert(y + 1 == 4 * (100 * q) + (o + 1));
        }
        assert((y + 1) % 100 == (o + 1) % 100) by {
            assert(y + 1 == 100 * (4 * q) + (o + 1));
        }
    } else {
        assert((y + 1) / 400 == q + 1 && (y + 1) % 400 == 0) by {
            assert(y + 1 == 400 * (q + 1));
        }
        assert((y + 1) % 4 == 0 && (y + 1) % 100 == 0) by {
            assert(y + 1 == 4 * (100 * (q + 1)));
            assert(y + 1 == 100 * (4 * (q + 1)));
        }
    }
}

/// Law: day numbers count from the Unix epoch (1970-01-01 is day 0), and the
/// day after any valid date, across month and year ends and leap days, is the
/// next day number.
pub proof fn lemma_day_after(y: int, m: int, d: int)
    requires
        1 <= m <= 12,
        1 <= d <= month_len(y, m),
    ensures
        days_civil(1970, 1, 1) == 0,
        days_civil(next_date(y, m, d).0, next_date(y, m, d).1, next_date(y, m, d).2) == days_civil(y, m, d) + 1,
{
    assert(tdiv(1969, 400) == 4);
    assert(tdiv(1969 - 4 * 400int, 4) == 92);
    assert(tdiv(1969 - 4 * 400int, 100) == 3);
    assert(tdiv(153 * 10int + 2, 5) == 306);
    let (y2, m2, d2) = next_date(y, m, d);
    lemma_days_split(y, m, d);
    lemma_days_split(y2, m2, d2);
    if d < month_len(y, m) {
    } else if m == 2 {
        lemma_year_step(y - 1);
    } else if m == 1 {
        assert(tdiv(153 * 10int + 2, 5) == 306 && tdiv(153 * 11int + 2, 5) == 337);
    } else if m == 3 {
        assert(tdiv(153 * 0int + 2, 5) == 0 && tdiv(153 * 1int + 2, 5) == 31);
    } else if m == 4 {
        assert(tdiv(153 * 1int + 2, 5) == 31 && tdiv(153 * 2int + 2, 5) == 61);
    } else if m == 5 {
        assert(tdiv(153 * 2int + 2, 5) == 61 && tdiv(153 * 3int + 2, 5) == 92);
    } else if m == 6 {
        assert(tdiv(153 * 3int + 2, 5) == 92 && tdiv(153 * 4int + 2, 5) == 122);
    } else if m == 7 {
        assert(tdiv(153 * 4int + 2, 5) == 122 && tdiv(153 * 5int + 2, 5) == 153);
    } else if m == 8 {
        assert(tdiv(153 * 5int + 2, 5) == 153 && tdiv(153 * 6int + 2, 5) == 184);
    } else if m == 9 {
        assert(tdiv(153 * 6int + 2, 5) == 184 && tdiv(153 * 7int + 2, 5) == 214);
    } else if m == 10 {
        assert(tdiv(153 * 7int + 2, 5) == 214 && tdiv(153 * 8int + 2, 5) == 245);
    } else if m == 11 {
        assert(tdiv(153 * 8int + 2, 5) == 245 && tdiv(153 * 9int + 2, 5) == 275);
    } else {
        assert(tdiv(153 * 9int + 2, 5) == 275 && tdiv(153 * 10int + 2, 5) == 306);
    }
}

/// `n` as `k` decimal digits, zero padded (its last `k` digits).
pub open spec fn padded(n: nat, k: nat) -> Seq<char>
    decreases k,
{
    if k == 0 { seq![] } else { padded(n / 10, (k - 1) as nat).push(digit_char(n % 10)) }
}

/// `YYYY-MM-DD`.
pub open spec fn date_text(y: nat, m: nat, d: nat) -> Seq<char> {
    padded(y, 4) + seq!['-'] + padded(m, 2) + seq!['-'] + padded(d, 2)
}

/// `THH:MM:SS`.
pub open spec fn time_text(hh: nat, mi: nat, ss: nat) -> Seq<char> {
    seq!['T'] + padded(hh, 2) + seq![':'] + padded(mi, 2) + seq![':'] + padded(ss, 2)
}

/// `Z`, or `+HH:MM` / `-HH:MM` for `Some((ahead of UTC, hours, minutes))`.
pub open spec fn zone_text(zone: Option<(bool, nat, nat)>) -> Seq<char> {
    match zone {
        None => seq!['Z'],
        Some((ahead, oh, om)) => seq![if ahead { '+' } else { '-' }] + padded(oh, 2) + seq![':'] + padded(om, 2),
    }
}

/// The seconds east of UTC of a zone.
pub open spec fn zone_offset(zone: Option<(bool, nat, nat)>) -> int {
    match zone {
        None => 0,
        Some((ahead, oh, om)) => (if ahead { 1int } else { -1int }) * (oh * 3600 + om * 60),
    }
}

proof fn lemma_padded(n: nat, k: nat)
    requires
        1 <= k <= 4,
        n < pow10(k),
    ensures
        padded(n, k).len() == k,
        all_digits(padded(n, k)),
        digits_value(padded(n, k)) == n,
        vstd::utf8::is_ascii_chars(padded(n, k)),
    decreases k,
{
    let p = padded(n, k);
    let q = padded(n / 10, (k - 1) as nat);
    assert(p.drop_last() =~= q);
    if k > 1 {
        assert(n / 10 < pow10((k - 1) as nat));
        lemma_padded(n / 10, (k - 1) as nat);
    } else {
        assert(n / 10 == 0);
        assert(digits_value(q) == 0);
    }
    assert(is_digit(digit_char(n % 10)));
    assert(digit_value(digit_char(n % 10)) == n % 10);
    assert forall|i: int| 0 <= i < p.len() implies is_digit(#[trigger] p[i]) by {
        if i < p.len() - 1 {
            assert(p[i] == q[i]);
        }
    }
}

proof fn lemma_parse_padded(n: nat, k: nat)
    requires
        1 <= k <= 4,
        n < pow10(k),
    ensures
        parse_signed(padded(n, k)) == Some(n as i64),
{
    lemma_padded(n, k);
    let p = padded(n, k);
    assert(is_digit(p[0]));
}

/// For an ASCII text, the bytes `lo..hi` read as characters are the
/// characters `lo..hi`, and both ends are character boundaries.
proof fn lemma_ascii_field(s: Seq<char>, lo: int, hi: int)
    requires
        vstd::utf8::is_ascii_chars(s),
        0 <= lo <= hi <= s.len(),
    ensures
        encode_utf8(s).len() == s.len(),
        byte_field(encode_utf8(s), lo, hi) == parse_signed(s.subrange(lo, hi)),
{
    let b = encode_utf8(s);
    vstd::utf8::is_ascii_chars_encode_utf8(s);
    lemma_ascii_boundary(s, lo);
    lemma_ascii_boundary(s, hi);
    assert forall|i: int| 0 <= i < hi - lo implies #[trigger] byte_chars(b.subrange(lo, hi))[i] == s.subrange(lo, hi)[i] by {
        assert(b[lo + i] == s[lo + i] as u8);
        assert('\0' <= s[lo + i] <= '\u{7f}');
        vstd::utf8::char_u32_cast(s[lo + i], s[lo + i] as u32);
    }
    assert(byte_chars(b.subrange(lo, hi)) =~= s.subrange(lo, hi));
}

proof fn lemma_ascii_boundary(s: Seq<char>, k: int)
    requires
        vstd::utf8::is_ascii_chars(s),
        0 <= k <= s.len(),
    ensures
        is_char_boundary(encode_utf8(s), k),
{
    let b = encode_utf8(s);
    vstd::utf8::is_ascii_chars_encode_utf8(s);
    vstd::utf8::encode_utf8_valid_utf8(s);
    if k == s.len() {
        vstd::utf8::is_char_boundary_start_end_of_seq(b);
    } else {
        assert(b[k] == s[k] as u8);
        assert('\0' <= s[k] <= '\u{7f}');
        vstd::utf8::is_char_boundary_iff_is_leading_byte(b, k);
    }
}

proof fn lemma_ascii_concat(a: Seq<char>, b: Seq<char>)
    requires
        vstd::utf8::is_ascii_chars(a),
        vstd::utf8::is_ascii_chars(b),
    ensures
        vstd::utf8::is_ascii_chars(a + b),
{
    assert forall|i: int| 0 <= i < (a + b).len() implies '\0' <= #[trigger] (a + b)[i] <= '\u{7f}' by {
        if i < a.len() {
            assert((a + b)[i] == a[i]);
        } else {
            assert((a + b)[i] == b[i - a.len()]);
        }
    }
}

/// For an ASCII text, decoding the bytes from `k` on gives the characters from `k` on.
proof fn lemma_ascii_tail(s: Seq<char>, k: int)
    requires
        vstd::utf8::is_ascii_chars(s),
        0 <= k <= s.len(),
    ensures
        decode_utf8(encode_utf8(s).subrange(k, encode_utf8(s).len() as int)) == s.skip(k),
{
    let b = encode_utf8(s);
    let t = s.skip(k);
    vstd::utf8::is_ascii_chars_encode_utf8(s);
    assert(vstd::utf8::is_ascii_chars(t)) by {
        assert forall|i: int| 0 <= i < t.len() implies '\0' <= #[trigger] t[i] <= '\u{7f}' by {
            assert(t[i] == s[i + k]);
        }
    }
    vstd::utf8::is_ascii_chars_encode_utf8(t);
    assert(encode_utf8(t) =~= b.subrange(k, b.len() as int)) by {
        assert forall|i: int| 0 <= i < t.len() implies #[trigger] encode_utf8(t)[i] == b.subrange(k, b.len() as int)[i] by {
            assert(t[i] == s[i + k]);
            assert(encode_utf8(t)[i] == t[i] as u8);
            assert(b[i + k] == s[i + k] as u8);
        }
    }
    vstd::utf8::encode_utf8_decode_utf8(t);
}

proof fn lemma_small_wrapping(a: i64, b: i64)
    requires
        -0x1000_0000 <= a <= 0x1000_0000,
        -0x1000_0000 <= b <= 0x1000_0000,
    ensures
        a.wrapping_mul(b) == a * b,
        a.wrapping_add(b) == a + b,
        a.wrapping_sub(b) == a - b,
{
    let x = a * b;
    assert(-0x100_0000_0000_0000 <= x <= 0x100_0000_0000_0000) by (nonlinear_arith)
        requires -0x1000_0000 <= a <= 0x1000_0000, -0x1000_0000 <= b <= 0x1000_0000, x == a * b;
    if x >= 0 {
        assert(x % 0x1_0000_0000_0000_0000int == x);
    } else {
        assert(x % 0x1_0000_0000_0000_0000int == x + 0x1_0000_0000_0000_0000int);
    }
}

/// The offset of a zone as the zone's text reads.
proof fn lemma_zone_bound(zone: Option<(bool, nat, nat)>)
    requires
        zone matches Some((_, oh, om)) ==> oh < 100 && om < 100,
    ensures
        -1_000_000 <= zone_offset(zone) <= 1_000_000,
{
    match zone {
        None => {},
        Some((ahead, oh, om)) => {
            assert(0 <= oh * 3600 + om * 60 <= 1_000_000) by (nonlinear_arith)
                requires oh < 100, om < 100;
            let x: int = (oh * 3600 + om * 60) as int;
            assert((if ahead { 1int } else { -1int }) * x == if ahead { x } else { -x }) by (nonlinear_arith);
        },
    }
}

proof fn lemma_zone(zone: Option<(bool, nat, nat)>)
    requires
        zone matches Some((_, oh, om)) ==> oh < 100 && om < 100,
    ensures
        vstd::utf8::is_ascii_chars(zone_text(zone)),
        zone_text(zone).len() > 0,
        zone_text(zone)[0] != '.',
        offset_seconds(zone_text(zone)) == Some(zone_offset(zone) as i64),
        -1_000_000 <= zone_offset(zone) <= 1_000_000,
{
    lemma_zone_bound(zone);
    let z = zone_text(zone);
    match zone {
        None => {
            assert(trim_start(z) == z);
            assert(trim_end(z) == z);
            assert(z =~= seq!['Z']);
        },
        Some((ahead, oh, om)) => {
            lemma_padded(oh, 2);
            lemma_padded(om, 2);
            lemma_parse_padded(oh, 2);
            lemma_parse_padded(om, 2);
            let ph = padded(oh, 2);
            let pm = padded(om, 2);
            lemma_ascii_concat(seq![if ahead { '+' } else { '-' }], ph);
            lemma_ascii_concat(seq![if ahead { '+' } else { '-' }] + ph, seq![':']);
            lemma_ascii_concat(seq![if ahead { '+' } else { '-' }] + ph + seq![':'], pm);
            assert(z.len() == 6);
            assert(z[5] == pm[1]);
            assert(is_digit(pm[1]));
            assert(trim_start(z) == z);
            assert(trim_end(z) == z);
            let rest = z.drop_first();
            assert(rest =~= ph + seq![':'] + pm);
            assert(rest[0] == ph[0] && rest[1] == ph[1] && rest[2] == ':');
            assert(is_digit(ph[0]) && is_digit(ph[1]));
            rest.index_of_first_ensures(':');
            match rest.index_of_first(':') {
                Some(i) => {
                    if i > 2 {
                        assert(rest[2] != ':');
                    }
                    assert(i == 2);
                },
                None => {
                    assert(rest.contains(':'));
                },
            }
            assert(rest.take(2) =~= ph);
            assert(rest.skip(3) =~= pm);
            let hh = oh as i64;
            let mm = om as i64;
            lemma_small_wrapping(hh, 3600);
            lemma_small_wrapping(mm, 60);
            lemma_small_wrapping((hh * 3600) as i64, (mm * 60) as i64);
            let sign: i64 = if ahead { 1i64 } else { -1i64 };
            assert(0 <= oh * 3600 + om * 60 <= 1_000_000) by (nonlinear_arith)
                requires oh < 100, om < 100;
            lemma_small_wrapping(sign, (hh * 3600 + mm * 60) as i64);
        },
    }
}

proof fn lemma_date_fields(t: Seq<char>, y: nat, m: nat, d: nat)
    requires
        y < 10000,
        m < 100,
        d < 100,
        vstd::utf8::is_ascii_chars(t),
        t.len() >= 10,
        t.subrange(0, 10) == date_text(y, m, d),
    ensures
        byte_field(encode_utf8(t), 0, 4) == Some(y as i64),
        byte_field(encode_utf8(t), 5, 7) == Some(m as i64),
        byte_field(encode_utf8(t), 8, 10) == Some(d as i64),
        encode_utf8(t).len() == t.len(),
{
    lemma_parse_padded(y, 4);
    lemma_parse_padded(m, 2);
    lemma_parse_padded(d, 2);
    lemma_padded(y, 4);
    lemma_padded(m, 2);
    lemma_padded(d, 2);
    let s = date_text(y, m, d);
    assert(s.len() == 10);
    assert(t.subrange(0, 4) =~= padded(y, 4)) by {
        assert forall|i: int| 0 <= i < 4 implies #[trigger] t.subrange(0, 4)[i] == padded(y, 4)[i] by {
            assert(t[i] == s[i]);
        }
    }
    assert(t.subrange(5, 7) =~= padded(m, 2)) by {
        assert forall|i: int| 0 <= i < 2 implies #[trigger] t.subrange(5, 7)[i] == padded(m, 2)[i] by {
            assert(t[5 + i] == s[5 + i]);
        }
    }
    assert(t.subrange(8, 10) =~= padded(d, 2)) by {
        assert forall|i: int| 0 <= i < 2 implies #[trigger] t.subrange(8, 10)[i] == padded(d, 2)[i] by {
            assert(t[8 + i] == s[8 + i]);
        }
    }
    lemma_ascii_field(t, 0, 4);
    lemma_ascii_field(t, 5, 7);
    lemma_ascii_field(t, 8, 10);
}

proof fn lemma_date_ascii(y: nat, m: nat, d: nat)
    requires
        y < 10000,
        m < 100,
        d < 100,
    ensures
        vstd::utf8::is_ascii_chars(date_text(y, m, d)),
        date_text(y, m, d).len() == 10,
{
    lemma_padded(y, 4);
    lemma_padded(m, 2);
    lemma_padded(d, 2);
    let py = padded(y, 4);
    let pmo = padded(m, 2);
    let pd = padded(d, 2);
    let dash = seq!['-'];
    lemma_ascii_concat(py, dash);
    lemma_ascii_concat(py + dash, pmo);
    lemma_ascii_concat(py + dash + pmo, dash);
    lemma_ascii_concat(py + dash + pmo + dash, pd);
}

proof fn lemma_time_ascii(hh: nat, mi: nat, ss: nat)
    requires
        hh < 100,
        mi < 100,
        ss < 100,
    ensures
        vstd::utf8::is_ascii_chars(time_text(hh, mi, ss)),
        time_text(hh, mi, ss).len() == 9,
        time_text(hh, mi, ss)[0] == 'T',
        time_text(hh, mi, ss).subrange(1, 3) == padded(hh, 2),
        time_text(hh, mi, ss).subrange(4, 6) == padded(mi, 2),
        time_text(hh, mi, ss).subrange(7, 9) == padded(ss, 2),
{
    lemma_padded(hh, 2);
    lemma_padded(mi, 2);
    lemma_padded(ss, 2);
    let ph = padded(hh, 2);
    let pmi = padded(mi, 2);
    let pss = padded(ss, 2);
    let tee = seq!['T'];
    let colon = seq![':'];
    lemma_ascii_concat(tee, ph);
    lemma_ascii_concat(tee + ph, colon);
    lemma_ascii_concat(tee + ph + colon, pmi);
    lemma_ascii_concat(tee + ph + colon + pmi, colon);
    lemma_ascii_concat(tee + ph + colon + pmi + colon, pss);
    let tm = time_text(hh, mi, ss);
    assert(tm =~= tee + ph + colon + pmi + colon + pss);
    assert(tm.subrange(1, 3) =~= ph);
    assert(tm.subrange(4, 6) =~= pmi);
    assert(tm.subrange(7, 9) =~= pss);
}

proof fn lemma_time_fields(t: Seq<char>, hh: nat, mi: nat, ss: nat)
    requires
        hh < 100,
        mi < 100,
        ss < 100,
        vstd::utf8::is_ascii_chars(t),
        t.len() >= 19,
        t.subrange(10, 19) == time_text(hh, mi, ss),
        t.len() > 19 ==> t[19] != '.',
    ensures
        encode_utf8(t)[10] == 84u8,
        byte_field(encode_utf8(t), 11, 13) == Some(hh as i64),
        byte_field(encode_utf8(t), 14, 16) == Some(mi as i64),
        byte_field(encode_utf8(t), 17, 19) == Some(ss as i64),
        zone_start(encode_utf8(t)) == 19,
        is_char_boundary(encode_utf8(t), 19),
        decode_utf8(encode_utf8(t).subrange(19, encode_utf8(t).len() as int)) == t.skip(19),
{
    lemma_time_ascii(hh, mi, ss);
    lemma_parse_padded(hh, 2);
    lemma_parse_padded(mi, 2);
    lemma_parse_padded(ss, 2);
    let tm = time_text(hh, mi, ss);
    assert(t.subrange(11, 13) =~= tm.subrange(1, 3)) by {
        assert forall|i: int| 0 <= i < 2 implies #[trigger] t.subrange(11, 13)[i] == tm.subrange(1, 3)[i] by {
            assert(t[11 + i] == tm[1 + i]);
        }
    }
    assert(t.subrange(14, 16) =~= tm.subrange(4, 6)) by {
        assert forall|i: int| 0 <= i < 2 implies #[trigger] t.subrange(14, 16)[i] == tm.subrange(4, 6)[i] by {
            assert(t[14 + i] == tm[4 + i]);
        }
    }
    assert(t.subrange(17, 19) =~= tm.subrange(7, 9)) by {
        assert forall|i: int| 0 <= i < 2 implies #[trigger] t.subrange(17, 19)[i] == tm.subrange(7, 9)[i] by {
            assert(t[17 + i] == tm[7 + i]);
        }
    }
    lemma_ascii_field(t, 11, 13);
    lemma_ascii_field(t, 14, 16);
    lemma_ascii_field(t, 17, 19);
    lemma_ascii_boundary(t, 19);
    lemma_ascii_tail(t, 19);
    let b = encode_utf8(t);
    vstd::utf8::is_ascii_chars_encode_utf8(t);
    assert(t[10] == tm[0]);
    assert(b[10] == t[10] as u8);
    vstd::utf8::char_u32_cast(t[10], t[10] as u32);
    if t.len() > 19 {
        assert(b[19] == t[19] as u8);
        assert('\0' <= t[19] <= '\u{7f}');
        vstd::utf8::char_u32_cast(t[19], t[19] as u32);
    }
}

proof fn lemma_epoch_plain(y: nat, m: nat, d: nat)
    requires
        y < 10000,
        m < 100,
        d < 100,
    ensures
        date_epoch(date_text(y, m, d)) matches Some(v) && v == days_civil(y as int, m as int, d as int) * 86400,
{
    let s = date_text(y, m, d);
    lemma_date_ascii(y, m, d);
    assert(s.subrange(0, 10) =~= s);
    lemma_date_fields(s, y, m, d);
    lemma_days_bound(y as int, m as int, d as int);
}

#[verifier::rlimit(40)]
proof fn lemma_epoch_timed(y: nat, m: nat, d: nat, hh: nat, mi: nat, ss: nat, zone: Option<(bool, nat, nat)>)
    requires
        y < 10000,
        m < 100,
        d < 100,
        hh < 100,
        mi < 100,
        ss < 100,
        zone matches Some((_, oh, om)) ==> oh < 100 && om < 100,
    ensures
        date_epoch(date_text(y, m, d) + time_text(hh, mi, ss) + zone_text(zone)) matches Some(v)
            && v == days_civil(y as int, m as int, d as int) * 86400 + hh * 3600 + mi * 60 + ss - zone_offset(zone),
{
    let s = date_text(y, m, d);
    lemma_date_ascii(y, m, d);
    lemma_days_bound(y as int, m as int, d as int);
    let tm = time_text(hh, mi, ss);
    let z = zone_text(zone);
    lemma_time_ascii(hh, mi, ss);
    lemma_zone(zone);
    lemma_ascii_concat(s, tm);
    lemma_ascii_concat(s + tm, z);
    let t = s + tm + z;
    assert(t.subrange(0, 10) =~= s);
    assert(t.subrange(10, 19) =~= tm);
    assert(t[19] == z[0]);
    assert(t.skip(19) =~= z);
    lemma_date_fields(t, y, m, d);
    lemma_time_fields(t, hh, mi, ss);
    let b = encode_utf8(t);
    let secs = days_civil(y as int, m as int, d as int) * 86400;
    let local = (secs + (hh as i64) * 3600 + (mi as i64) * 60 + (ss as i64)) as i64;
    assert(local == secs + hh * 3600 + mi * 60 + ss);
    assert(local.wrapping_sub(zone_offset(zone) as i64) == local - zone_offset(zone));
}

#[verifier::rlimit(40)]
proof fn lemma_epoch_unzoned(y: nat, m: nat, d: nat, hh: nat, mi: nat, ss: nat)
    requires
        y < 10000,
        m < 100,
        d < 100,
        hh < 100,
        mi < 100,
        ss < 100,
    ensures
        date_epoch(date_text(y, m, d) + time_text(hh, mi, ss)) matches Some(v)
            && v == days_civil(y as int, m as int, d as int) * 86400 + hh * 3600 + mi * 60 + ss,
{
    let s = date_text(y, m, d);
    lemma_date_ascii(y, m, d);
    lemma_days_bound(y as int, m as int, d as int);
    let tm = time_text(hh, mi, ss);
    lemma_time_ascii(hh, mi, ss);
    lemma_ascii_concat(s, tm);
    let t = s + tm;
    assert(t.subrange(0, 10) =~= s);
    assert(t.subrange(10, 19) =~= tm);
    assert(t.skip(19) =~= seq![]);
    lemma_date_fields(t, y, m, d);
    lemma_time_fields(t, hh, mi, ss);
    assert(trim_start(seq![]) == Seq::<char>::empty());
    assert(trim_end(seq![]) == Seq::<char>::empty());
    assert(offset_seconds(seq![]) == Some(0i64));
    let secs = days_civil(y as int, m as int, d as int) * 86400;
    let local = (secs + (hh as i64) * 3600 + (mi as i64) * 60 + (ss as i64)) as i64;
    assert(local == secs + hh * 3600 + mi * 60 + ss);
    assert(local.wrapping_sub(0i64) == local);
}

/// Law: dates with times and offsets read as the day count, plus the time of
/// day, less the zone's offset: `YYYY-MM-DD` is day `days_civil` at midnight
/// UTC, and `YYYY-MM-DDTHH:MM:SS` with `Z` or `±HH:MM` is
/// `days_civil · 86400 + HH · 3600 + MM · 60 + SS − offset`; with no zone at
/// all the time reads as UTC, as with `Z`.
pub proof fn lemma_date_epoch(y: nat, m: nat, d: nat, hh: nat, mi: nat, ss: nat, zone: Option<(bool, nat, nat)>)
    requires
        y < 10000,
        m < 100,
        d < 100,
        hh < 100,
        mi < 100,
        ss < 100,
        zone matches Some((_, oh, om)) ==> oh < 100 && om < 100,
    ensures
        date_epoch(date_text(y, m, d)) matches Some(v) && v == days_civil(y as int, m as int, d as int) * 86400,
        date_epoch(date_text(y, m, d) + time_text(hh, mi, ss) + zone_text(zone)) matches Some(v)
            && v == days_civil(y as int, m as int, d as int) * 86400 + hh * 3600 + mi * 60 + ss - zone_offset(zone),
        date_epoch(date_text(y, m, d) + time_text(hh, mi, ss)) matches Some(v)
            && v == days_civil(y as int, m as int, d as int) * 86400 + hh * 3600 + mi * 60 + ss,
{
    lemma_epoch_plain(y, m, d);
    lemma_epoch_timed(y, m, d, hh, mi, ss, zone);
    lemma_epoch_unzoned(y, m, d, hh, mi, ss);
}

/// The day count of small dates stays far inside `i64`.
proof fn lemma_days_bound(y: int, m: int, d: int)
    requires
        0 <= y < 10000,
        0 <= m < 100,
        0 <= d < 100,
    ensures
        -100_000_000 <= days_civil(y, m, d) <= 100_000_000,
{
    lemma_days_split(y, m, d);
    let ya = if m <= 2 { y - 1 } else { y };
    let mp = if m > 2 { m - 3 } else { m + 9 };
    assert(-1 <= ya < 10000);
    assert(ya / 400 >= -1 && ya / 400 <= 25);
    assert(0 <= ya % 400 < 400);
    assert(0 <= tdiv(153 * mp + 2, 5) <= 153 * 110);
}

/// Law: the next day of a month is the next day number.
pub proof fn lemma_next_day(y: int, m: int, d: int)
    ensures
        days_civil(y, m, d + 1) == days_civil(y, m, d) + 1,
{
}

/// Law: for years from 1 on, the same month and day a year later is a later
/// day, by 365 or 366 days.
pub proof fn lemma_next_year(y: int, m: int, d: int)
    requires
        1 <= y,
        1 <= m <= 12,
    ensures
        days_civil(y + 1, m, d) - days_civil(y, m, d) == 365 || days_civil(y + 1, m, d) - days_civil(y, m, d) == 366,
{
    let ya = if m <= 2 { y - 1 } else { y };
    let yb = ya + 1;
    assert(ya >= 0);
    assert(tdiv(ya, 400) == ya / 400);
    assert(tdiv(yb, 400) == yb / 400);
    let ea = ya / 400;
    let eb = yb / 400;
    let oa = ya - ea * 400;
    let ob = yb - eb * 400;
    assert(0 <= oa < 400 && 0 <= ob < 400);
    assert(tdiv(oa, 4) == oa / 4 && tdiv(oa, 100) == oa / 100);
    assert(tdiv(ob, 4) == ob / 4 && tdiv(ob, 100) == ob / 100);
    if eb == ea {
        assert(ob == oa + 1);
    } else {
        assert(eb == ea + 1);
        assert(oa == 399 && ob == 0);
    }
}

/// The first index at or after `k` where `p` occurs in `s`.
pub open spec fn find_text(s: Seq<char>, p: Seq<char>, k: int) -> Option<int>
    decreases s.len() - k,
{
    if k < 0 || k >= s.len() || k + p.len() > s.len() {
        None
    } else if s.subrange(k, k + p.len()) == p {
        Some(k)
    } else {
        find_text(s, p, k + 1)
    }
}

/// The text of the about page's source: after a leading `---\n` frontmatter
/// block closed by `\n---\n`, what follows that fence; otherwise all of it.
pub open spec fn about_text(raw: Seq<char>) -> Seq<char> {
    if has_prefix(raw, "---\n"@) {
        let after = raw.skip("---\n"@.len() as int);
        match find_text(after, "\n---\n"@, 0) {
            Some(i) => after.skip(i + "\n---\n"@.len()),
            None => raw,
        }
    } else {
        raw
    }
}

/// Strips a leading YAML frontmatter block from the about page's source (see
/// [`about_text`]).
pub fn about_body(raw: &str) -> (r: String)
    ensures
        r@ == about_text(raw@),
{
    let cs = chars_of(raw);
    if !starts_with_str(&cs, "---\n") {
        return string_of(&cs);
    }
    let open = chars_of("---\n").len();
    let after = slice_chars(&cs, open, cs.len());
    assert(after@ =~= raw@.skip("---\n"@.len() as int));
    let fence = chars_of("\n---\n");
    let n = fence.len();
    let mut k: usize = 0;
    while k < after.len() && n <= after.len() - k
        invariant
            k <= after@.len(),
            fence@ == "\n---\n"@,
            n == fence@.len(),
            after@ == raw@.skip("---\n"@.len() as int),
            has_prefix(raw@, "---\n"@),
            find_text(after@, fence@, 0) == find_text(after@, fence@, k as int),
        decreases after@.len() - k,
    {
        let piece = slice_chars(&after, k, k + n);
        if same_text(&piece, "\n---\n") {
            let rest = slice_chars(&after, k + n, after.len());
            assert(rest@ =~= after@.skip(k + "\n---\n"@.len()));
            return string_of(&rest);
        }
        k = k + 1;
    }
    proof {
        reveal_strlit("\n---\n");
    }
    string_of(&cs)
}

} // verus!
