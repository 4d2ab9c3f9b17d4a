//! Character-level helpers: whitespace, letters, decimal integers.
use vstd::prelude::*;

verus! {

/// Unicode `White_Space`, the set that `str::trim` removes.
pub open spec fn is_ws(c: char) -> bool {
    let u = c as u32;
    (0x09 <= u && u <= 0x0D) || u == 0x20 || u == 0x85 || u == 0xA0 || u == 0x1680 || (0x2000 <= u
        && u <= 0x200A) || u == 0x2028 || u == 0x2029 || u == 0x202F || u == 0x205F || u == 0x3000
}

/// ASCII whitespace as `char::is_ascii_whitespace` defines it.
pub open spec fn is_ascii_ws(c: char) -> bool {
    c == ' ' || c == '\t' || c == '\n' || c == '\x0C' || c == '\r'
}

/// ASCII decimal digit.
pub open spec fn is_digit(c: char) -> bool {
    '0' <= c && c <= '9'
}

/// ASCII hexadecimal digit.
pub open spec fn is_hex_digit(c: char) -> bool {
    ('0' <= c && c <= '9') || ('a' <= c && c <= 'f') || ('A' <= c && c <= 'F')
}

/// ASCII letter.
pub open spec fn is_ascii_letter(c: char) -> bool {
    ('a' <= c && c <= 'z') || ('A' <= c && c <= 'Z')
}

/// `c` equals the upper-case ASCII letter or symbol `w` ignoring ASCII case.
pub open spec fn eq_ignore_case(c: char, w: char) -> bool {
    c == w || ('A' <= w && w <= 'Z' && c as u32 == w as u32 + 32)
}

/// What `char::is_alphabetic` answers for `c` (the Unicode `Alphabetic` property).
pub uninterp spec fn alphabetic(c: char) -> bool;

/// A letter as `char::is_alphabetic` has it: among ASCII characters exactly
/// the ASCII letters, beyond ASCII the Unicode `Alphabetic` property.
pub open spec fn is_letter(c: char) -> bool {
    if (c as u32) < 128 {
        is_ascii_letter(c)
    } else {
        alphabetic(c)
    }
}

/// Whether `c` is whitespace in the sense of `char::is_whitespace`.
pub fn char_is_ws(c: char) -> (r: bool)
    ensures
        r == is_ws(c),
{
    let u = c as u32;
    (0x09 <= u && u <= 0x0D) || u == 0x20 || u == 0x85 || u == 0xA0 || u == 0x1680 || (0x2000 <= u
        && u <= 0x200A) || u == 0x2028 || u == 0x2029 || u == 0x202F || u == 0x205F || u == 0x3000
}

/// Whether `c` is ASCII whitespace.
pub fn char_is_ascii_ws(c: char) -> (r: bool)
    ensures
        r == is_ascii_ws(c),
{
    c == ' ' || c == '\t' || c == '\n' || c == '\x0C' || c == '\r'
}

/// Whether `c` is an ASCII hexadecimal digit.
pub fn char_is_hex_digit(c: char) -> (r: bool)
    ensures
        r == is_hex_digit(c),
{
    ('0' <= c && c <= '9') || ('a' <= c && c <= 'f') || ('A' <= c && c <= 'F')
}

/// Whether `c` equals the upper-case letter or symbol `w` ignoring ASCII case.
pub fn char_eq_ignore_case(c: char, w: char) -> (r: bool)
    ensures
        r == eq_ignore_case(c, w),
{
    c == w || ('A' <= w && w <= 'Z' && c as u32 == w as u32 + 32)
}

/// Calls `char::is_alphabetic`. Claims the result is the `Alphabetic` property of
/// `c`, which holds for ASCII letters and for no other ASCII character.
#[verifier::external_body]
pub(crate) fn char_is_alphabetic(c: char) -> (r: bool)
    ensures
        r == alphabetic(c),
        (c as u32) < 128 ==> (r <==> is_ascii_letter(c)),
{
    c.is_alphabetic()
}

/// Calls `String::from_iter` over the characters. Claims the string holds
/// exactly those characters.
#[verifier::external_body]
pub(crate) fn string_from_chars(v: &[char]) -> (r: String)
    ensures
        r@ == v@,
{
    String::from_iter(v.iter())
}

/// What `{:?}` writes for a character: `char`'s `Debug` form, the character
/// quoted and escaped.
pub uninterp spec fn char_debug(c: char) -> Seq<char>;

/// What `{:?}` writes for a string: `str`'s `Debug` form, the text quoted and
/// escaped.
pub uninterp spec fn str_debug(s: Seq<char>) -> Seq<char>;

/// Calls `<char as Debug>::fmt` through `format!`. Claims the text depends on
/// `c` alone; what the escaping does to it is left unsaid.
#[verifier::external_body]
pub(crate) fn debug_char(c: char) -> (r: String)
    ensures
        r@ == char_debug(c),
{
    format!("{:?}", c)
}

/// Calls `<str as Debug>::fmt` through `format!`. Claims the text depends on
/// `s` alone; what the escaping does to it is left unsaid.
#[verifier::external_body]
pub(crate) fn debug_str(s: &str) -> (r: String)
    ensures
        r@ == str_debug(s@),
{
    format!("{:?}", s)
}

/// The characters of a string slice.
pub fn chars_of(s: &str) -> (r: Vec<char>)
    ensures
        r@ == s@,
{
    let mut out: Vec<char> = Vec::new();
    for c in it: s.chars()
        invariant
            out@ == it.seq().take(it.index() as int),
    {
        out.push(c);
    }
    out
}

/// Index of the first character at or after `p` that is not whitespace.
pub open spec fn skip_ws(s: Seq<char>, p: int) -> int
    decreases s.len() - p,
{
    if p < s.len() && p >= 0 && is_ws(s[p]) {
        skip_ws(s, p + 1)
    } else {
        p
    }
}

/// One past the last character before `e` that is not whitespace, but not below `lo`.
pub open spec fn trim_end(s: Seq<char>, lo: int, e: int) -> int
    decreases e - lo,
{
    if lo < e && e <= s.len() && is_ws(s[e - 1]) {
        trim_end(s, lo, e - 1)
    } else {
        e
    }
}

/// The characters of `s` with leading and trailing whitespace removed.
pub open spec fn trimmed(s: Seq<char>) -> Seq<char> {
    let a = skip_ws(s, 0);
    s.subrange(a, trim_end(s, a, s.len() as int))
}

pub proof fn lemma_skip_ws_bounds(s: Seq<char>, p: int)
    requires
        0 <= p <= s.len(),
    ensures
        p <= skip_ws(s, p) <= s.len(),
        forall|i: int| p <= i < skip_ws(s, p) ==> is_ws(#[trigger] s[i]),
        skip_ws(s, p) < s.len() ==> !is_ws(s[skip_ws(s, p)]),
    decreases s.len() - p,
{
    if p < s.len() && is_ws(s[p]) {
        lemma_skip_ws_bounds(s, p + 1);
    }
}

pub proof fn lemma_trim_end_bounds(s: Seq<char>, lo: int, e: int)
    requires
        0 <= lo <= e <= s.len(),
    ensures
        lo <= trim_end(s, lo, e) <= e,
        forall|i: int| trim_end(s, lo, e) <= i < e ==> is_ws(#[trigger] s[i]),
        trim_end(s, lo, e) > lo ==> !is_ws(s[trim_end(s, lo, e) - 1]),
    decreases e - lo,
{
    if lo < e && is_ws(s[e - 1]) {
        lemma_trim_end_bounds(s, lo, e - 1);
    }
}

/// Advances `p` over whitespace.
pub fn skip_whitespace(s: &[char], p: usize) -> (r: usize)
    requires
        p <= s@.len(),
    ensures
        r as int == skip_ws(s@, p as int),
        p <= r <= s@.len(),
{
    let mut i = p;
    proof {
        lemma_skip_ws_bounds(s@, p as int);
    }
    while i < s.len() && char_is_ws(s[i])
        invariant
            p <= i <= s@.len(),
            skip_ws(s@, i as int) == skip_ws(s@, p as int),
        decreases s@.len() - i,
    {
        i = i + 1;
    }
    i
}

/// A character that a WKT number may hold: a digit, `.`, `e`, `E`, `+` or `-`.
pub open spec fn is_num_char(c: char) -> bool {
    is_digit(c) || c == '.' || c == 'e' || c == 'E' || c == '+' || c == '-'
}

/// End of the run of number characters that starts at `p`.
pub open spec fn num_end(s: Seq<char>, p: int) -> int
    decreases s.len() - p,
{
    if 0 <= p < s.len() && is_num_char(s[p]) {
        num_end(s, p + 1)
    } else {
        p
    }
}

/// The number lexeme that starts at `p`.
pub open spec fn lexeme(s: Seq<char>, p: int) -> Seq<char> {
    s.subrange(p, num_end(s, p))
}

pub proof fn lemma_num_end_bounds(s: Seq<char>, p: int)
    requires
        0 <= p <= s.len(),
    ensures
        p <= num_end(s, p) <= s.len(),
    decreases s.len() - p,
{
    if p < s.len() && is_num_char(s[p]) {
        lemma_num_end_bounds(s, p + 1);
    }
}

/// Advances `p` over number characters.
pub fn scan_number(s: &[char], p: usize) -> (r: usize)
    requires
        p <= s@.len(),
    ensures
        r as int == num_end(s@, p as int),
        p <= r <= s@.len(),
{
    let mut i = p;
    proof {
        lemma_num_end_bounds(s@, p as int);
    }
    while i < s.len() && (('0' <= s[i] && s[i] <= '9') || s[i] == '.' || s[i] == 'e' || s[i] == 'E'
        || s[i] == '+' || s[i] == '-')
        invariant
            p <= i <= s@.len(),
            num_end(s@, i as int) == num_end(s@, p as int),
        decreases s@.len() - i,
    {
        i = i + 1;
    }
    i
}

/// The bounds `[start, end)` of `s` without leading and trailing whitespace.
pub fn trim_bounds(s: &[char]) -> (r: (usize, usize))
    ensures
        r.0 as int == skip_ws(s@, 0),
        r.1 as int == trim_end(s@, r.0 as int, s@.len() as int),
        r.0 <= r.1 <= s@.len(),
{
    let a = skip_whitespace(s, 0);
    let mut e = s.len();
    proof {
        lemma_trim_end_bounds(s@, a as int, s@.len() as int);
    }
    while a < e && char_is_ws(s[e - 1])
        invariant
            a <= e <= s@.len(),
            trim_end(s@, a as int, e as int) == trim_end(s@, a as int, s@.len() as int),
        decreases e,
    {
        e = e - 1;
    }
    (a, e)
}

/// The characters `s[a..e]`.
pub fn sub_chars(s: &[char], a: usize, e: usize) -> (r: Vec<char>)
    requires
        a <= e <= s@.len(),
    ensures
        r@ == s@.subrange(a as int, e as int),
{
    let mut out: Vec<char> = Vec::new();
    let mut i = a;
    while i < e
        invariant
            a <= i <= e <= s@.len(),
            out@ == s@.subrange(a as int, i as int),
        decreases e - i,
    {
        out.push(s[i]);
        assert(s@.subrange(a as int, i + 1) =~= s@.subrange(a as int, i as int).push(s@[i as int]));
        i = i + 1;
    }
    out
}

/// The characters of `s` without leading and trailing whitespace.
pub fn trim_chars(s: &str) -> (r: Vec<char>)
    ensures
        r@ == trimmed(s@),
{
    let c = chars_of(s);
    let (a, e) = trim_bounds(c.as_slice());
    sub_chars(c.as_slice(), a, e)
}

/// The character of a decimal digit.
pub open spec fn digit_char(d: nat) -> char {
    if d == 0 {
        '0'
    } else if d == 1 {
        '1'
    } else if d == 2 {
        '2'
    } else if d == 3 {
        '3'
    } else if d == 4 {
        '4'
    } else if d == 5 {
        '5'
    } else if d == 6 {
        '6'
    } else if d == 7 {
        '7'
    } else if d == 8 {
        '8'
    } else {
        '9'
    }
}

/// The decimal digits of `n`, without sign or leading zeros.
pub open spec fn spec_decimal(n: nat) -> Seq<char>
    decreases n,
{
    if n < 10 {
        seq![digit_char(n)]
    } else {
        spec_decimal(n / 10).push(digit_char(n % 10))
    }
}

fn digit_of(d: u32) -> (c: char)
    requires
        d < 10,
    ensures
        c == digit_char(d as nat),
{
    if d == 0 {
        '0'
    } else if d == 1 {
        '1'
    } else if d == 2 {
        '2'
    } else if d == 3 {
        '3'
    } else if d == 4 {
        '4'
    } else if d == 5 {
        '5'
    } else if d == 6 {
        '6'
    } else if d == 7 {
        '7'
    } else if d == 8 {
        '8'
    } else {
        '9'
    }
}

/// The decimal digits of `n`.
pub fn decimal(n: u32) -> (r: Vec<char>)
    ensures
        r@ == spec_decimal(n as nat),
    decreases n,
{
    if n < 10 {
        let mut v = Vec::new();
        v.push(digit_of(n));
        v
    } else {
        let mut v = decimal(n / 10);
        v.push(digit_of(n % 10));
        v
    }
}

/// The decimal digits of `n`.
pub fn decimal_usize(n: usize) -> (r: Vec<char>)
    ensures
        r@ == spec_decimal(n as nat),
    decreases n,
{
    if n < 10 {
        let mut v = Vec::new();
        v.push(digit_of((n as u32)));
        v
    } else {
        let mut v = decimal_usize(n / 10);
        v.push(digit_of((n % 10) as u32));
        v
    }
}

/// Value of a run of decimal digits.
pub open spec fn digits_value(s: Seq<char>) -> nat
    decreases s.len(),
{
    if s.len() == 0 {
        0
    } else {
        digits_value(s.drop_last()) * 10 + (s.last() as u32 - '0' as u32) as nat
    }
}

/// All characters are decimal digits.
pub open spec fn all_digits(s: Seq<char>) -> bool {
    forall|i: int| 0 <= i < s.len() ==> is_digit(#[trigger] s[i])
}

/// What `str::parse::<i32>` answers: an optional `+` or `-`, then one or more
/// decimal digits whose value fits in `i32`.
pub open spec fn spec_parse_i32(s: Seq<char>) -> Option<i32> {
    let neg = s.len() > 0 && s[0] == '-';
    let signed = s.len() > 0 && (s[0] == '-' || s[0] == '+');
    signed_digits_i32(neg, if signed { s.skip(1) } else { s })
}

/// The `i32` that a sign and a run of digits denote, if the run is non-empty,
/// all digits, and in range.
pub open spec fn signed_digits_i32(neg: bool, body: Seq<char>) -> Option<i32> {
    if body.len() == 0 || !all_digits(body) {
        None
    } else {
        let v: int = if neg {
            -(digits_value(body) as int)
        } else {
            digits_value(body) as int
        };
        if i32::MIN <= v && v <= i32::MAX {
            Some(v as i32)
        } else {
            None
        }
    }
}

pub proof fn lemma_digits_value_push(s: Seq<char>, c: char)
    ensures
        digits_value(s.push(c)) == digits_value(s) * 10 + (c as u32 - '0' as u32) as nat,
{
    assert(s.push(c).drop_last() =~= s);
}

/// Parses the characters `s[a..b]` as `str::parse::<i32>` does.
pub fn parse_i32(s: &[char], a: usize, b: usize) -> (r: Option<i32>)
    requires
        a <= b <= s@.len(),
    ensures
        r == spec_parse_i32(s@.subrange(a as int, b as int)),
{
    let ghost t = s@.subrange(a as int, b as int);
    let neg = a < b && s[a] == '-';
    let signed = a < b && (s[a] == '-' || s[a] == '+');
    let start = if signed {
        a + 1
    } else {
        a
    };
    assert(spec_parse_i32(t) == signed_digits_i32(neg, s@.subrange(start as int, b as int))) by {
        if signed {
            assert(t.skip(1) =~= s@.subrange(start as int, b as int));
        } else {
            assert(t =~= s@.subrange(start as int, b as int));
        }
    }
    if start == b {
        return None;
    }
    let mut v: i64 = 0;
    let mut i = start;
    while i < b
        invariant
            start <= i <= b <= s@.len(),
            spec_parse_i32(s@.subrange(a as int, b as int)) == signed_digits_i32(
                neg,
                s@.subrange(start as int, b as int),
            ),
            all_digits(s@.subrange(start as int, i as int)),
            v as int == digits_value(s@.subrange(start as int, i as int)),
            v <= 0x8000_0000i64,
        decreases b - i,
    {
        let ghost body = s@.subrange(start as int, b as int);
        let c = s[i];
        if !('0' <= c && c <= '9') {
            assert(!is_digit(body[i - start]));
            return None;
        }
        proof {
            lemma_digits_value_push(s@.subrange(start as int, i as int), c);
            assert(s@.subrange(start as int, i as int).push(c) =~= s@.subrange(
                start as int,
                i + 1,
            ));
        }
        let d = (c as u32 - '0' as u32) as i64;
        v = v * 10 + d;
        i = i + 1;
        if v > 0x8000_0000i64 {
            proof {
                assert(body.take(i - start) =~= s@.subrange(start as int, i as int));
                lemma_digits_prefix_grows(body, (i - start) as int);
            }
            return None;
        }
    }
    assert(s@.subrange(start as int, i as int) =~= s@.subrange(start as int, b as int));
    if neg {
        Some((-v) as i32)
    } else if v <= 0x7FFF_FFFFi64 {
        Some(v as i32)
    } else {
        None
    }
}

/// A digit run's value is at least that of any prefix.
pub proof fn lemma_digits_prefix_grows(s: Seq<char>, k: int)
    requires
        0 <= k <= s.len(),
        all_digits(s.take(k)),
    ensures
        all_digits(s) ==> digits_value(s) >= digits_value(s.take(k)),
    decreases s.len() - k,
{
    if k < s.len() && all_digits(s) {
        lemma_digits_prefix_grows(s, k + 1);
        assert(s.take(k + 1).drop_last() =~= s.take(k));
        assert(is_digit(s[k]));
    }
    if k == s.len() {
        assert(s.take(k) =~= s);
    }
}

// ---------------------------------------------------------------- laws

/// Whitespace is exactly the Unicode `White_Space` property, the characters
/// that `str::trim` removes: tab, line feed, vertical tab, form feed,
/// carriage return, space, next line, no-break space, ogham space mark, the
/// spaces U+2000 to U+200A, line and paragraph separators, narrow no-break
/// space, medium mathematical space and ideographic space.
pub proof fn law_whitespace(c: char)
    ensures
        is_ws(c) <==> ({
            let u = c as u32;
            (0x09 <= u <= 0x0D) || u == 0x20 || u == 0x85 || u == 0xA0 || u == 0x1680 || (0x2000
                <= u <= 0x200A) || u == 0x2028 || u == 0x2029 || u == 0x202F || u == 0x205F || u
                == 0x3000
        }),
        is_ws('\r') && is_ws('\n') && is_ws('\t') && is_ws(' '),
{
}

/// Skipping whitespace from `p` passes exactly the Unicode whitespace that
/// stands there: every character passed is whitespace, and the character it
/// stops at, if any, is not.
pub proof fn law_skip_whitespace(s: Seq<char>, p: int)
    requires
        0 <= p <= s.len(),
    ensures
        p <= skip_ws(s, p) <= s.len(),
        forall|i: int| p <= i < skip_ws(s, p) ==> ({
            let u = #[trigger] s[i] as u32;
            (0x09 <= u <= 0x0D) || u == 0x20 || u == 0x85 || u == 0xA0 || u == 0x1680 || (0x2000
                <= u <= 0x200A) || u == 0x2028 || u == 0x2029 || u == 0x202F || u == 0x205F || u
                == 0x3000
        }),
        skip_ws(s, p) < s.len() ==> !({
            let i = skip_ws(s, p);
            ({
            let u = s[i] as u32;
            (0x09 <= u <= 0x0D) || u == 0x20 || u == 0x85 || u == 0xA0 || u == 0x1680 || (0x2000
                <= u <= 0x200A) || u == 0x2028 || u == 0x2029 || u == 0x202F || u == 0x205F || u
                == 0x3000
        })
        }),
{
    lemma_skip_ws_bounds(s, p);
}

/// Trimming removes exactly the Unicode whitespace at both ends: the result
/// is a stretch of the text, everything before and after it is whitespace,
/// and it neither begins nor ends with whitespace.
pub proof fn law_trim(s: Seq<char>)
    ensures
        exists|a: int, b: int|
            0 <= a <= b <= s.len() && trimmed(s) == s.subrange(a, b) && (forall|i: int|
                0 <= i < a ==> ({
            let u = #[trigger] s[i] as u32;
            (0x09 <= u <= 0x0D) || u == 0x20 || u == 0x85 || u == 0xA0 || u == 0x1680 || (0x2000
                <= u <= 0x200A) || u == 0x2028 || u == 0x2029 || u == 0x202F || u == 0x205F || u
                == 0x3000
        })) && (forall|i: int| b <= i < s.len() ==> ({
            let u = #[trigger] s[i] as u32;
            (0x09 <= u <= 0x0D) || u == 0x20 || u == 0x85 || u == 0xA0 || u == 0x1680 || (0x2000
                <= u <= 0x200A) || u == 0x2028 || u == 0x2029 || u == 0x202F || u == 0x205F || u
                == 0x3000
        })) && (a < b
                ==> !({
                let i = a;
                ({
            let u = s[i] as u32;
            (0x09 <= u <= 0x0D) || u == 0x20 || u == 0x85 || u == 0xA0 || u == 0x1680 || (0x2000
                <= u <= 0x200A) || u == 0x2028 || u == 0x2029 || u == 0x202F || u == 0x205F || u
                == 0x3000
        })
            }) && !({
                let i = b - 1;
                ({
            let u = s[i] as u32;
            (0x09 <= u <= 0x0D) || u == 0x20 || u == 0x85 || u == 0xA0 || u == 0x1680 || (0x2000
                <= u <= 0x200A) || u == 0x2028 || u == 0x2029 || u == 0x202F || u == 0x205F || u
                == 0x3000
        })
            })),
{
    let a = skip_ws(s, 0);
    lemma_skip_ws_bounds(s, 0);
    let b = trim_end(s, a, s.len() as int);
    lemma_trim_end_bounds(s, a, s.len() as int);
    assert(0 <= a <= b <= s.len() && trimmed(s) == s.subrange(a, b));
}

/// A number lexeme is the longest run of digits, `.`, `e`, `E`, `+` and `-`
/// from its start: every character in it is one of these, and the character
/// after it, if any, is not. So `1e+20` and `+1.5` are read whole.
pub proof fn law_number_lexeme(s: Seq<char>, p: int)
    requires
        0 <= p <= s.len(),
    ensures
        p <= num_end(s, p) <= s.len(),
        lexeme(s, p) == s.subrange(p, num_end(s, p)),
        forall|i: int| p <= i < num_end(s, p) ==> ({
            let c = #[trigger] s[i];
            ('0' <= c <= '9') || c == '.' || c == 'e' || c == 'E' || c == '+' || c == '-'
        }),
        num_end(s, p) < s.len() ==> !({
            let i = num_end(s, p);
            ({
            let c = s[i];
            ('0' <= c <= '9') || c == '.' || c == 'e' || c == 'E' || c == '+' || c == '-'
        })
        }),
    decreases s.len() - p,
{
    if p < s.len() && is_num_char(s[p]) {
        law_number_lexeme(s, p + 1);
    }
}

} // verus!
