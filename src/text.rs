//! Character-level helpers on header and cell text.
use vstd::prelude::*;

verus! {

/// The texts held by a sequence of strings.
pub open spec fn texts(v: Seq<String>) -> Seq<Seq<char>> {
    v.map_values(|s: String| s@)
}

/// Appending a string appends its text.
pub proof fn lemma_texts_push(v: Seq<String>, s: String)
    ensures
        texts(v.push(s)) == texts(v).push(s@),
{
    assert(texts(v.push(s)) =~= texts(v).push(s@));
}

/// ASCII lower-casing of one character; every other character is kept.
pub open spec fn ascii_lower(c: char) -> char {
    if 'A' <= c && c <= 'Z' {
        ((c as u32) + 32) as char
    } else {
        c
    }
}

/// Two texts match when they agree character by character up to ASCII case.
pub open spec fn ascii_ci_eq(a: Seq<char>, b: Seq<char>) -> bool {
    &&& a.len() == b.len()
    &&& forall|i: int| 0 <= i < a.len() ==> ascii_lower(#[trigger] a[i]) == ascii_lower(b[i])
}

/// The characters of `s`, in order.
pub fn chars_of(s: &str) -> (r: Vec<char>)
    ensures
        r@ == s@,
{
    let mut r: Vec<char> = Vec::new();
    for c in it: s.chars()
        invariant
            r@ == it.seq().take(it.index() as int),
    {
        r.push(c);
    }
    r
}

/// Exact `ascii_ci_eq` on two characters.
fn char_eq_ignore_ascii_case(x: char, y: char) -> (r: bool)
    ensures
        r == (ascii_lower(x) == ascii_lower(y)),
{
    if x == y {
        true
    } else if 'A' <= x && x <= 'Z' {
        y as u32 == x as u32 + 32
    } else if 'a' <= x && x <= 'z' {
        x as u32 == y as u32 + 32
    } else {
        false
    }
}

/// Whether `x` and `y` are equal up to ASCII case.
pub fn chars_eq_ignore_ascii_case(x: &Vec<char>, y: &Vec<char>) -> (r: bool)
    ensures
        r == ascii_ci_eq(x@, y@),
{
    if x.len() != y.len() {
        return false;
    }
    let mut i: usize = 0;
    while i < x.len()
        invariant
            x.len() == y.len(),
            i <= x.len(),
            forall|j: int| 0 <= j < i ==> ascii_lower(#[trigger] x@[j]) == ascii_lower(y@[j]),
        decreases x.len() - i,
    {
        if !char_eq_ignore_ascii_case(x[i], y[i]) {
            return false;
        }
        i += 1;
    }
    true
}

/// Whether `a` and `b` are equal up to ASCII case.
pub fn eq_ignore_ascii_case(a: &str, b: &str) -> (r: bool)
    ensures
        r == ascii_ci_eq(a@, b@),
{
    chars_eq_ignore_ascii_case(&chars_of(a), &chars_of(b))
}

pub open spec fn is_digit(c: char) -> bool {
    '0' <= c && c <= '9'
}

pub open spec fn all_digits(d: Seq<char>) -> bool {
    forall|i: int| 0 <= i < d.len() ==> is_digit(#[trigger] d[i])
}

/// The decimal value of a run of digits.
pub open spec fn digits_value(d: Seq<char>) -> int
    decreases d.len(),
{
    if d.len() == 0 {
        0
    } else {
        digits_value(d.drop_last()) * 10 + ((d.last() as u32) - ('0' as u32))
    }
}

pub open spec fn is_sign(c: char) -> bool {
    c == '+' || c == '-'
}

/// `s` without one leading sign character, if it has one.
pub open spec fn unsigned_part(s: Seq<char>) -> Seq<char> {
    if s.len() > 0 && is_sign(s[0]) {
        s.drop_first()
    } else {
        s
    }
}

/// Text that `i64`'s `FromStr` accepts: an optional sign, then one or more
/// decimal digits whose value fits in the signed 64-bit range.
pub open spec fn is_i64_text(s: Seq<char>) -> bool {
    let d = unsigned_part(s);
    &&& d.len() > 0
    &&& all_digits(d)
    &&& if s[0] == '-' {
        digits_value(d) <= 0x8000_0000_0000_0000
    } else {
        digits_value(d) <= 0x7fff_ffff_ffff_ffff
    }
}

proof fn lemma_digits_value_nonneg(d: Seq<char>)
    requires
        all_digits(d),
    ensures
        digits_value(d) >= 0,
    decreases d.len(),
{
    if d.len() > 0 {
        lemma_digits_value_nonneg(d.drop_last());
    }
}

/// A longer run of digits is worth at least as much as its prefix.
proof fn lemma_digits_value_prefix(d: Seq<char>, k: int)
    requires
        all_digits(d),
        0 <= k <= d.len(),
    ensures
        digits_value(d.take(k)) <= digits_value(d),
    decreases d.len(),
{
    if k < d.len() {
        let p = d.drop_last();
        lemma_digits_value_prefix(p, k);
        lemma_digits_value_nonneg(p);
        assert(p.take(k) =~= d.take(k));
    } else {
        assert(d.take(k) =~= d);
    }
}

/// Whether `d[lo..]` is a non-empty run of digits worth at most `limit`.
fn digits_within(d: &Vec<char>, lo: usize, limit: u64) -> (r: bool)
    requires
        lo <= d.len(),
    ensures
        r == ({
            let t = d@.skip(lo as int);
            t.len() > 0 && all_digits(t) && digits_value(t) <= limit
        }),
{
    let ghost t = d@.skip(lo as int);
    if lo == d.len() {
        return false;
    }
    let mut acc: u64 = 0;
    let mut i: usize = lo;
    while i < d.len()
        invariant
            lo <= i <= d.len(),
            t == d@.skip(lo as int),
            all_digits(t.take(i - lo)),
            acc as int == digits_value(t.take(i - lo)),
            acc <= limit,
        decreases d.len() - i,
    {
        let c = d[i];
        if !('0' <= c && c <= '9') {
            assert(!is_digit(t[i - lo]));
            return false;
        }
        let next: u128 = acc as u128 * 10 + (c as u32 - '0' as u32) as u128;
        assert(t.take(i - lo + 1).drop_last() =~= t.take(i - lo));
        if next > limit as u128 {
            proof {
                if all_digits(t) {
                    lemma_digits_value_prefix(t, i - lo + 1);
                }
            }
            return false;
        }
        acc = next as u64;
        i += 1;
    }
    assert(t.take(i - lo) =~= t);
    true
}

/// Exact check of `is_i64_text`.
pub fn is_i64_str(s: &str) -> (r: bool)
    ensures
        r == is_i64_text(s@),
{
    let c = chars_of(s);
    if c.len() == 0 {
        return false;
    }
    if c[0] == '-' {
        digits_within(&c, 1, 0x8000_0000_0000_0000)
    } else if c[0] == '+' {
        digits_within(&c, 1, 0x7fff_ffff_ffff_ffff)
    } else {
        assert(c@.skip(0) =~= c@);
        digits_within(&c, 0, 0x7fff_ffff_ffff_ffff)
    }
}

pub open spec fn is_exp_mark(c: char) -> bool {
    c == 'e' || c == 'E'
}

/// Digits with at most one decimal point, and at least one digit.
pub open spec fn is_mantissa(m: Seq<char>) -> bool {
    &&& forall|i: int| 0 <= i < m.len() ==> is_digit(#[trigger] m[i]) || m[i] == '.'
    &&& forall|i: int, j: int|
        0 <= i < m.len() && 0 <= j < m.len() && #[trigger] m[i] == '.' && #[trigger] m[j] == '.'
            ==> i == j
    &&& exists|i: int| 0 <= i < m.len() && is_digit(#[trigger] m[i])
}

/// What follows the exponent mark: an optional sign and one or more digits.
pub open spec fn is_exponent(x: Seq<char>) -> bool {
    let d = unsigned_part(x);
    d.len() > 0 && all_digits(d)
}

/// A decimal number, optionally followed by an exponent.
pub open spec fn is_decimal(b: Seq<char>) -> bool {
    ||| is_mantissa(b)
    ||| exists|e: int|
        0 <= e < b.len() && is_exp_mark(#[trigger] b[e]) && is_mantissa(b.take(e)) && is_exponent(
            b.skip(e + 1),
        )
}

/// Text that `f64`'s `FromStr` accepts: an optional sign, then `inf`,
/// `infinity`, `nan` (in any ASCII case) or a decimal number.
pub open spec fn is_f64_text(s: Seq<char>) -> bool {
    let b = unsigned_part(s);
    ||| ascii_ci_eq(b, seq!['i', 'n', 'f'])
    ||| ascii_ci_eq(b, seq!['i', 'n', 'f', 'i', 'n', 'i', 't', 'y'])
    ||| ascii_ci_eq(b, seq!['n', 'a', 'n'])
    ||| is_decimal(b)
}

/// Exact check of `is_mantissa` on `b[lo..hi]`.
fn mantissa_within(b: &Vec<char>, lo: usize, hi: usize) -> (r: bool)
    requires
        lo <= hi <= b.len(),
    ensures
        r == is_mantissa(b@.subrange(lo as int, hi as int)),
{
    let ghost m = b@.subrange(lo as int, hi as int);
    let mut dot: Option<usize> = None;
    let mut digit = false;
    let mut i: usize = lo;
    while i < hi
        invariant
            lo <= i <= hi <= b.len(),
            m == b@.subrange(lo as int, hi as int),
            forall|j: int| 0 <= j < i - lo ==> is_digit(#[trigger] m[j]) || m[j] == '.',
            match dot {
                None => forall|j: int| 0 <= j < i - lo ==> #[trigger] m[j] != '.',
                Some(p) => lo <= p < i && m[p - lo] == '.' && forall|j: int|
                    0 <= j < i - lo && #[trigger] m[j] == '.' ==> j == p - lo,
            },
            digit == exists|j: int| 0 <= j < i - lo && is_digit(#[trigger] m[j]),
        decreases hi - i,
    {
        let c = b[i];
        assert(c == m[i - lo]);
        if '0' <= c && c <= '9' {
            digit = true;
        } else if c == '.' {
            if dot.is_some() {
                return false;
            }
            dot = Some(i);
        } else {
            return false;
        }
        i += 1;
    }
    digit
}

/// Exact check of `is_exponent` on `b[lo..]`.
fn exponent_within(b: &Vec<char>, lo: usize) -> (r: bool)
    requires
        lo <= b.len(),
    ensures
        r == is_exponent(b@.skip(lo as int)),
{
    let ghost x = b@.skip(lo as int);
    let start = if lo < b.len() && (b[lo] == '+' || b[lo] == '-') {
        lo + 1
    } else {
        lo
    };
    assert(unsigned_part(x) =~= b@.skip(start as int));
    if start == b.len() {
        return false;
    }
    let mut i: usize = start;
    while i < b.len()
        invariant
            start <= i <= b.len(),
            x == b@.skip(lo as int),
            unsigned_part(x) == b@.skip(start as int),
            forall|j: int| start <= j < i ==> is_digit(#[trigger] b@[j]),
        decreases b.len() - i,
    {
        if !('0' <= b[i] && b[i] <= '9') {
            assert(!is_digit(b@.skip(start as int)[i - start]));
            assert(!all_digits(unsigned_part(x)));
            return false;
        }
        i += 1;
    }
    assert(all_digits(b@.skip(start as int)));
    true
}

/// Exact check of `is_decimal` on `b[lo..]`.
fn decimal_within(b: &Vec<char>, lo: usize) -> (r: bool)
    requires
        lo <= b.len(),
    ensures
        r == is_decimal(b@.skip(lo as int)),
{
    let ghost d = b@.skip(lo as int);
    let mut e: usize = lo;
    while e < b.len() && !(b[e] == 'e' || b[e] == 'E')
        invariant
            lo <= e <= b.len(),
            forall|j: int| lo <= j < e ==> !is_exp_mark(#[trigger] b@[j]),
        decreases b.len() - e,
    {
        e += 1;
    }
    if e == b.len() {
        let r = mantissa_within(b, lo, e);
        assert(b@.subrange(lo as int, e as int) =~= d);
        assert forall|k: int| 0 <= k < d.len() implies !is_exp_mark(#[trigger] d[k]) by {
            assert(d[k] == b@[lo + k]);
        }
        r
    } else {
        let k = e - lo;
        assert(is_exp_mark(d[k as int]));
        let m = mantissa_within(b, lo, e);
        let x = exponent_within(b, e + 1);
        assert(b@.subrange(lo as int, e as int) =~= d.take(k as int));
        assert(b@.skip(e + 1) =~= d.skip(k + 1));
        assert forall|e2: int|
            0 <= e2 < d.len() && is_exp_mark(#[trigger] d[e2]) && is_mantissa(d.take(e2)) implies e2
            == k by {
            if e2 < k {
                assert(d[e2] == b@[lo + e2]);
            } else if e2 > k {
                assert(d.take(e2)[k as int] == d[k as int]);
            }
        }
        m && x
    }
}

/// Exact check of `is_f64_text`.
pub fn is_f64_str(s: &str) -> (r: bool)
    ensures
        r == is_f64_text(s@),
{
    let c = chars_of(s);
    let start: usize = if c.len() > 0 && (c[0] == '+' || c[0] == '-') {
        1
    } else {
        0
    };
    let mut body: Vec<char> = Vec::new();
    let mut i: usize = start;
    while i < c.len()
        invariant
            start <= i <= c.len(),
            body@ == c@.subrange(start as int, i as int),
        decreases c.len() - i,
    {
        body.push(c[i]);
        i += 1;
    }
    assert(body@ =~= unsigned_part(s@));
    let inf = vec!['i', 'n', 'f'];
    let infinity = vec!['i', 'n', 'f', 'i', 'n', 'i', 't', 'y'];
    let nan = vec!['n', 'a', 'n'];
    assert(inf@ =~= seq!['i', 'n', 'f']);
    assert(infinity@ =~= seq!['i', 'n', 'f', 'i', 'n', 'i', 't', 'y']);
    assert(nan@ =~= seq!['n', 'a', 'n']);
    assert(c@.skip(start as int) =~= unsigned_part(s@));
    chars_eq_ignore_ascii_case(&body, &inf) || chars_eq_ignore_ascii_case(&body, &infinity)
        || chars_eq_ignore_ascii_case(&body, &nan) || decimal_within(&c, start)
}

/// The characters with the Unicode `White_Space` property.
pub open spec fn is_white_space(c: char) -> bool {
    let n = c as u32;
    ||| 0x09 <= n <= 0x0d
    ||| n == 0x20
    ||| n == 0x85
    ||| n == 0xa0
    ||| n == 0x1680
    ||| 0x2000 <= n <= 0x200a
    ||| n == 0x2028
    ||| n == 0x2029
    ||| n == 0x202f
    ||| n == 0x205f
    ||| n == 0x3000
}

/// `s[lo..hi]` is `s` with its leading and trailing white space removed.
pub open spec fn is_trim_of(s: Seq<char>, lo: int, hi: int) -> bool {
    &&& 0 <= lo <= hi <= s.len()
    &&& forall|i: int| 0 <= i < lo ==> is_white_space(#[trigger] s[i])
    &&& forall|i: int| hi <= i < s.len() ==> is_white_space(#[trigger] s[i])
    &&& lo < hi ==> !is_white_space(s[lo]) && !is_white_space(s[hi - 1])
}

fn char_is_white_space(c: char) -> (r: bool)
    ensures
        r == is_white_space(c),
{
    let n = c as u32;
    (0x09 <= n && n <= 0x0d) || n == 0x20 || n == 0x85 || n == 0xa0 || n == 0x1680 || (0x2000 <= n
        && n <= 0x200a) || n == 0x2028 || n == 0x2029 || n == 0x202f || n == 0x205f || n == 0x3000
}

/// The bounds of `c` without leading and trailing white space.
pub fn trim_bounds(c: &Vec<char>) -> (r: (usize, usize))
    ensures
        is_trim_of(c@, r.0 as int, r.1 as int),
{
    let mut lo: usize = 0;
    while lo < c.len() && char_is_white_space(c[lo])
        invariant
            lo <= c.len(),
            forall|i: int| 0 <= i < lo ==> is_white_space(#[trigger] c@[i]),
        decreases c.len() - lo,
    {
        lo += 1;
    }
    let mut hi: usize = c.len();
    while hi > lo && char_is_white_space(c[hi - 1])
        invariant
            lo <= hi <= c.len(),
            forall|i: int| hi <= i < c.len() ==> is_white_space(#[trigger] c@[i]),
        decreases hi,
    {
        hi -= 1;
    }
    (lo, hi)
}

/// `s` without one leading `+`, if it has one.
pub open spec fn unsigned_digits(s: Seq<char>) -> Seq<char> {
    if s.len() > 0 && s[0] == '+' {
        s.drop_first()
    } else {
        s
    }
}

/// Text that an unsigned integer type's `FromStr` accepts when its largest
/// value is `limit`: an optional `+`, then one or more decimal digits worth at
/// most `limit`.
pub open spec fn is_unsigned_text(s: Seq<char>, limit: int) -> bool {
    let d = unsigned_digits(s);
    d.len() > 0 && all_digits(d) && digits_value(d) <= limit
}

pub open spec fn is_u32_text(s: Seq<char>) -> bool {
    is_unsigned_text(s, u32::MAX as int)
}

pub open spec fn is_u64_text(s: Seq<char>) -> bool {
    is_unsigned_text(s, u64::MAX as int)
}

/// The value of a text that `is_unsigned_text` accepts.
pub open spec fn unsigned_text_value(s: Seq<char>) -> int {
    digits_value(unsigned_digits(s))
}

/// Parses `c[lo..hi]` as an unsigned integer of at most `limit`.
fn parse_unsigned(c: &Vec<char>, lo: usize, hi: usize, limit: u64) -> (r: Option<u64>)
    requires
        lo <= hi <= c.len(),
    ensures
        ({
            let t = c@.subrange(lo as int, hi as int);
            match r {
                Some(v) => is_unsigned_text(t, limit as int) && v == unsigned_text_value(t),
                None => !is_unsigned_text(t, limit as int),
            }
        }),
{
    let ghost t = c@.subrange(lo as int, hi as int);
    let start: usize = if lo < hi && c[lo] == '+' {
        lo + 1
    } else {
        lo
    };
    let ghost d = c@.subrange(start as int, hi as int);
    assert(d =~= unsigned_digits(t));
    if start == hi {
        return None;
    }
    let mut acc: u64 = 0;
    let mut i: usize = start;
    while i < hi
        invariant
            start <= i <= hi <= c.len(),
            t == c@.subrange(lo as int, hi as int),
            d == unsigned_digits(t),
            d == c@.subrange(start as int, hi as int),
            all_digits(d.take(i - start)),
            acc as int == digits_value(d.take(i - start)),
            acc <= limit,
        decreases hi - i,
    {
        let ch = c[i];
        if !('0' <= ch && ch <= '9') {
            assert(!is_digit(d[i - start]));
            return None;
        }
        let next: u128 = acc as u128 * 10 + (ch as u32 - '0' as u32) as u128;
        assert(d.take(i - start + 1).drop_last() =~= d.take(i - start));
        if next > limit as u128 {
            proof {
                if all_digits(d) {
                    lemma_digits_value_prefix(d, i - start + 1);
                }
            }
            return None;
        }
        acc = next as u64;
        i += 1;
    }
    assert(d.take(i - start) =~= d);
    Some(acc)
}

/// Parses `s` as a `u64`, as `u64`'s `FromStr` does.
pub fn parse_u64(s: &str) -> (r: Option<u64>)
    ensures
        match r {
            Some(v) => is_u64_text(s@) && v == unsigned_text_value(s@),
            None => !is_u64_text(s@),
        },
{
    let c = chars_of(s);
    assert(c@.subrange(0, c@.len() as int) =~= s@);
    parse_unsigned(&c, 0, c.len(), u64::MAX)
}

/// `v` is what `u32`'s `FromStr` makes of `s` with the white space around it
/// removed.
pub open spec fn is_u32_field(s: Seq<char>, v: u32) -> bool {
    exists|lo: int, hi: int|
        is_trim_of(s, lo, hi) && is_u32_text(#[trigger] s.subrange(lo, hi)) && v == unsigned_text_value(
            s.subrange(lo, hi),
        )
}

/// White space is removed from a text in one way only.
proof fn lemma_trim_unique(s: Seq<char>, lo1: int, hi1: int, lo2: int, hi2: int)
    requires
        is_trim_of(s, lo1, hi1),
        is_trim_of(s, lo2, hi2),
    ensures
        s.subrange(lo1, hi1) == s.subrange(lo2, hi2),
{
    if lo1 < hi1 && lo2 < hi2 {
        if lo1 < lo2 {
            assert(is_white_space(s[lo1]));
        }
        if lo2 < lo1 {
            assert(is_white_space(s[lo2]));
        }
        if hi1 < hi2 {
            assert(is_white_space(s[hi2 - 1]));
        }
        if hi2 < hi1 {
            assert(is_white_space(s[hi1 - 1]));
        }
    } else if lo1 < hi1 {
        assert(lo1 < lo2 || lo1 >= hi2);
        assert(is_white_space(s[lo1]));
    } else if lo2 < hi2 {
        assert(lo2 < lo1 || lo2 >= hi1);
        assert(is_white_space(s[lo2]));
    } else {
        assert(s.subrange(lo1, hi1) =~= s.subrange(lo2, hi2));
    }
}

/// Parses `s` as a `u32`, after removing white space around it.
pub fn parse_trimmed_u32(s: &str) -> (r: Option<u32>)
    ensures
        match r {
            Some(v) => is_u32_field(s@, v),
            None => forall|v: u32| !is_u32_field(s@, v),
        },
{
    let r = parse_trimmed_u32_at(s);
    proof {
        if r is None {
            assert forall|v: u32| !is_u32_field(s@, v) by {
                if is_u32_field(s@, v) {
                    let (lo2, hi2) = choose|lo2: int, hi2: int|
                        is_trim_of(s@, lo2, hi2) && is_u32_text(#[trigger] s@.subrange(lo2, hi2))
                            && v == unsigned_text_value(s@.subrange(lo2, hi2));
                    let (lo, hi) = choose|lo: int, hi: int|
                        is_trim_of(s@, lo, hi) && !is_u32_text(#[trigger] s@.subrange(lo, hi));
                    lemma_trim_unique(s@, lo, hi, lo2, hi2);
                }
            }
        }
    }
    r
}

/// `parse_trimmed_u32`, stated over the bounds the white space was removed at.
fn parse_trimmed_u32_at(s: &str) -> (r: Option<u32>)
    ensures
        ({
            let c = s@;
            exists|lo: int, hi: int|
                is_trim_of(c, lo, hi) && {
                    let t = #[trigger] c.subrange(lo, hi);
                    match r {
                        Some(v) => is_u32_text(t) && v == unsigned_text_value(t),
                        None => !is_u32_text(t),
                    }
                }
        }),
{
    let c = chars_of(s);
    let (lo, hi) = trim_bounds(&c);
    match parse_unsigned(&c, lo, hi, u32::MAX as u64) {
        Some(v) => Some(v as u32),
        None => None,
    }
}

} // verus!
