//! Hexadecimal text of byte strings.
use crate::error::{push_chars, wkb_error, Error, Fault, Result};
use crate::text::{chars_of, decimal_usize, is_hex_digit, spec_decimal, string_from_chars};
use vstd::prelude::*;

verus! {

/// Value of an ASCII hexadecimal digit.
pub open spec fn nibble(c: char) -> int {
    if '0' <= c && c <= '9' {
        c as int - '0' as int
    } else if 'a' <= c && c <= 'f' {
        c as int - 'a' as int + 10
    } else {
        c as int - 'A' as int + 10
    }
}

/// Upper-case digit of a value below 16.
pub open spec fn hex_digit(v: int) -> char {
    if v < 10 {
        (v + '0' as int) as char
    } else {
        (v - 10 + 'A' as int) as char
    }
}

/// Every character is a hexadecimal digit.
pub open spec fn all_hex(s: Seq<char>) -> bool {
    forall|i: int| 0 <= i < s.len() ==> is_hex_digit(#[trigger] s[i])
}

/// Text that hex decoding accepts: non-empty, of even length, hex digits only.
pub open spec fn is_hex_text(s: Seq<char>) -> bool {
    s.len() > 0 && s.len() % 2 == 0 && all_hex(s)
}

/// The bytes that pairs of hex digits denote.
pub open spec fn hex_bytes(s: Seq<char>) -> Seq<u8> {
    Seq::new(s.len() / 2, |i: int| (nibble(s[2 * i]) * 16 + nibble(s[2 * i + 1])) as u8)
}

/// Upper-case hex text of bytes, two digits per byte, high digit first.
pub open spec fn hex_of(b: Seq<u8>) -> Seq<char> {
    Seq::new(
        2 * b.len(),
        |i: int|
            if i % 2 == 0 {
                hex_digit(b[i / 2] as int / 16)
            } else {
                hex_digit(b[i / 2] as int % 16)
            },
    )
}

/// ASCII upper case of a hex digit.
pub open spec fn upper(c: char) -> char {
    if 'a' <= c && c <= 'f' {
        (c as int - 32) as char
    } else {
        c
    }
}

/// ASCII upper case of each character.
pub open spec fn upper_text(s: Seq<char>) -> Seq<char> {
    Seq::new(s.len(), |i: int| upper(s[i]))
}

fn digit_char(v: u8) -> (c: char)
    requires
        v < 16,
    ensures
        c == hex_digit(v as int),
{
    if v < 10 {
        let c = (v + 48) as char;
        assert(c == hex_digit(v as int));
        c
    } else {
        let c = (v - 10 + 65) as char;
        assert(c == hex_digit(v as int));
        c
    }
}

/// The entry of the nibble table for byte `i`: its hex value, or 0xFF.
pub open spec fn lut_entry(i: int) -> u8 {
    if 48 <= i <= 57 {
        (i - 48) as u8
    } else if 97 <= i <= 102 {
        (i - 87) as u8
    } else if 65 <= i <= 70 {
        (i - 55) as u8
    } else {
        0xFF
    }
}

/// The 256-entry table of hex digit values by byte, 0xFF where a byte is not
/// a hex digit.
pub fn build_hex_nibble_lut() -> (r: [u8; 256])
    ensures
        forall|i: int| 0 <= i < 256 ==> r@[i] == lut_entry(i),
{
    let mut lut = [0xFFu8; 256];
    let mut i: usize = 0;
    while i < 256
        invariant
            i <= 256,
            lut@.len() == 256,
            forall|j: int| 0 <= j < i ==> lut@[j] == lut_entry(j),
        decreases 256 - i,
    {
        let v: u8 = if 48 <= i && i <= 57 {
            (i - 48) as u8
        } else if 97 <= i && i <= 102 {
            (i - 87) as u8
        } else if 65 <= i && i <= 70 {
            (i - 55) as u8
        } else {
            0xFF
        };
        lut[i] = v;
        i = i + 1;
    }
    lut
}

/// Whether every character of `s` is a hex digit, and the index of the first
/// that is not.
fn first_non_hex(s: &[char]) -> (r: Option<usize>)
    ensures
        r is None <==> all_hex(s@),
        r matches Some(i) ==> i < s@.len() && !is_hex_digit(s@[i as int]) && all_hex(
            s@.take(i as int),
        ),
{
    let mut i: usize = 0;
    while i < s.len()
        invariant
            i <= s@.len(),
            all_hex(s@.take(i as int)),
        decreases s@.len() - i,
    {
        if !(('0' <= s[i] && s[i] <= '9') || ('a' <= s[i] && s[i] <= 'f') || ('A' <= s[i] && s[i]
            <= 'F')) {
            return Some(i);
        }
        assert(s@.take(i + 1) =~= s@.take(i as int).push(s@[i as int]));
        i = i + 1;
    }
    assert(s@ =~= s@.take(i as int));
    None
}

/// Decodes pairs of hex digits; the caller has checked the text.
fn decode_pairs(s: &[char]) -> (r: Vec<u8>)
    requires
        s@.len() % 2 == 0,
        all_hex(s@),
    ensures
        r@ == hex_bytes(s@),
{
    let lut = build_hex_nibble_lut();
    let mut out: Vec<u8> = Vec::new();
    let n = s.len() / 2;
    assert(2 * n == s@.len()) by (nonlinear_arith)
        requires
            n == s@.len() / 2,
            s@.len() % 2 == 0,
    ;
    let mut i: usize = 0;
    while i < n
        invariant
            n == s@.len() / 2,
            2 * n == s@.len(),
            s@.len() == s.len(),
            s@.len() % 2 == 0,
            all_hex(s@),
            forall|k: int| 0 <= k < 256 ==> lut@[k] == lut_entry(k),
            i <= n,
            out@ == hex_bytes(s@).take(i as int),
        decreases n - i,
    {
        let j = i + i;
        let ch = s[j];
        let cl = s[j + 1];
        assert(is_hex_digit(ch) && is_hex_digit(cl));
        assert((ch as u32) < 256 && (cl as u32) < 256);
        let hi = lut[ch as u32 as usize];
        let lo = lut[cl as u32 as usize];
        assert(lut@[ch as u32 as int] == lut_entry(ch as u32 as int));
        assert(lut@[cl as u32 as int] == lut_entry(cl as u32 as int));
        assert(hi as int == nibble(ch) && hi < 16);
        assert(lo as int == nibble(cl) && lo < 16);
        out.push(hi * 16 + lo);
        assert(hex_bytes(s@).take(i + 1) =~= hex_bytes(s@).take(i as int).push(
            (nibble(s@[2 * i]) * 16 + nibble(s@[2 * i + 1])) as u8,
        ));
        i = i + 1;
    }
    assert(hex_bytes(s@) =~= hex_bytes(s@).take(n as int));
    out
}

/// Hex digits are ASCII: hex text has one UTF-8 byte per character.
pub proof fn lemma_hex_utf8_len(s: Seq<char>)
    requires
        all_hex(s),
    ensures
        vstd::utf8::encode_utf8(s).len() == s.len(),
{
    assert(vstd::utf8::is_ascii_chars(s)) by {
        assert forall|i: int| 0 <= i < s.len() implies '\0' <= #[trigger] s[i] <= '\u{7f}' by {
            assert(is_hex_digit(s[i]));
        }
    }
    vstd::utf8::is_ascii_chars_encode_utf8(s);
}

/// The first character of `s` that is not a hex digit, when there is one.
pub open spec fn first_bad_hex(s: Seq<char>) -> int {
    choose|i: int| 0 <= i < s.len() && all_hex(s.take(i)) && !is_hex_digit(#[trigger] s[i])
}

/// Only one character is the first that is not a hex digit.
pub proof fn lemma_first_bad_hex(s: Seq<char>, i: int)
    requires
        0 <= i < s.len(),
        all_hex(s.take(i)),
        !is_hex_digit(s[i]),
    ensures
        first_bad_hex(s) == i,
{
    let j = first_bad_hex(s);
    assert(0 <= j < s.len() && all_hex(s.take(j)) && !is_hex_digit(s[j]));
    if j < i {
        assert(s.take(i)[j] == s[j]);
    } else if i < j {
        assert(s.take(j)[i] == s[i]);
    }
}

/// The error that decoding text `s` that is not hex text gives: `empty hex
/// string`, `hex string has odd length` (its UTF-8 bytes), or `invalid hex
/// digit at position <i>` for the first character that is no hex digit, the
/// hex digits before it making its index its byte offset.
pub open spec fn hex_fault(s: Seq<char>) -> Fault {
    if s.len() == 0 {
        Fault::Wkb("empty hex string"@)
    } else if vstd::utf8::encode_utf8(s).len() % 2 == 1 {
        Fault::Wkb("hex string has odd length"@)
    } else {
        Fault::Wkb("invalid hex digit at position "@ + spec_decimal(first_bad_hex(s) as nat))
    }
}

/// `r` holds the bytes that hex text `s` denotes, or the error `hex_fault`
/// gives when `s` is not hex text.
pub open spec fn hex_decoded(r: Result<Vec<u8>>, s: Seq<char>) -> bool {
    &&& is_hex_text(s) ==> (r matches Ok(b) && b@ == hex_bytes(s))
    &&& !is_hex_text(s) ==> (r matches Err(e) && e.fault() == hex_fault(s))
}

/// Decodes hex text. Fails with `InvalidWkb` on empty text (`empty hex
/// string`), on an odd number of UTF-8 bytes (`hex string has odd length`),
/// and otherwise on the first character that is not a hex digit (`invalid hex
/// digit at position <i>`, `i` its byte offset, which the hex digits before it
/// make its index).
pub fn decode_hex(hex: &str) -> (r: Result<Vec<u8>>)
    ensures
        hex_decoded(r, hex@),
{
    let s = chars_of(hex);
    if s.len() == 0 {
        return Err(wkb_error("empty hex string"));
    }
    let utf8 = hex.as_bytes();
    let nbytes = utf8.len();
    assert(nbytes == vstd::utf8::encode_utf8(hex@).len());
    if nbytes % 2 != 0 {
        proof {
            if all_hex(hex@) {
                lemma_hex_utf8_len(hex@);
            }
        }
        return Err(wkb_error("hex string has odd length"));
    }
    proof {
        if all_hex(hex@) {
            lemma_hex_utf8_len(hex@);
        }
    }
    match first_non_hex(s.as_slice()) {
        Some(i) => {
            proof {
                lemma_first_bad_hex(hex@, i as int);
            }
            let mut msg: Vec<char> = Vec::new();
            push_chars(&mut msg, "invalid hex digit at position ");
            let mut digits = decimal_usize(i);
            msg.append(&mut digits);
            let text = string_from_chars(msg.as_slice());
            Err(Error::InvalidWkb(text))
        },
        None => Ok(decode_pairs(s.as_slice())),
    }
}

/// Decodes `s` when it is hex text, `None` otherwise.
pub fn try_decode_hex(s: &[char]) -> (r: Option<Vec<u8>>)
    ensures
        is_hex_text(s@) ==> (r matches Some(b) && b@ == hex_bytes(s@)),
        !is_hex_text(s@) ==> r is None,
{
    if s.len() == 0 || s.len() % 2 != 0 {
        return None;
    }
    match first_non_hex(s) {
        Some(_) => None,
        None => Some(decode_pairs(s)),
    }
}

/// Upper-cases `s` when it is hex text, `None` otherwise.
pub fn try_normalize_hex_uppercase(s: &[char]) -> (r: Option<String>)
    ensures
        is_hex_text(s@) ==> (r matches Some(t) && t@ == upper_text(s@)),
        !is_hex_text(s@) ==> r is None,
{
    if s.len() == 0 || s.len() % 2 != 0 {
        return None;
    }
    if first_non_hex(s).is_some() {
        return None;
    }
    let mut out: Vec<char> = Vec::new();
    let mut i: usize = 0;
    while i < s.len()
        invariant
            i <= s@.len(),
            out@ == upper_text(s@).take(i as int),
        decreases s@.len() - i,
    {
        let c = s[i];
        let u = if 'a' <= c && c <= 'f' {
            ((c as u32) - 32) as u8 as char
        } else {
            c
        };
        assert(u == upper(c));
        out.push(u);
        assert(upper_text(s@).take(i + 1) =~= upper_text(s@).take(i as int).push(upper(s@[i as int])));
        i = i + 1;
    }
    assert(upper_text(s@) =~= upper_text(s@).take(s@.len() as int));
    Some(string_from_chars(out.as_slice()))
}

/// Upper-case hex text of `bytes`.
pub fn encode_hex(bytes: &[u8]) -> (r: String)
    requires
        2 * bytes@.len() <= usize::MAX,
    ensures
        r@ == hex_of(bytes@),
{
    let mut out: Vec<char> = Vec::new();
    let mut i: usize = 0;
    while i < bytes.len()
        invariant
            i <= bytes@.len(),
            out@ == hex_of(bytes@).take(2 * i as int),
        decreases bytes@.len() - i,
    {
        let b = bytes[i];
        let hi = digit_char(b / 16);
        let lo = digit_char(b % 16);
        out.push(hi);
        out.push(lo);
        assert(hex_of(bytes@).take(2 * (i + 1)) =~= hex_of(bytes@).take(2 * i as int).push(hi).push(
            lo,
        ));
        i = i + 1;
    }
    assert(hex_of(bytes@) =~= hex_of(bytes@).take(2 * bytes@.len() as int));
    string_from_chars(out.as_slice())
}

/// Hex text of bytes is upper-case hex digits, two per byte, and decodes back
/// to those bytes.
pub proof fn law_hex_round_trip(b: Seq<u8>)
    ensures
        all_hex(hex_of(b)),
        forall|i: int|
            0 <= i < hex_of(b).len() ==> ('0' <= #[trigger] hex_of(b)[i] <= '9') || ('A' <= hex_of(
                b,
            )[i] <= 'F'),
        hex_of(b).len() % 2 == 0,
        b.len() > 0 ==> is_hex_text(hex_of(b)),
        hex_bytes(hex_of(b)) == b,
{
    let h = hex_of(b);
    assert forall|i: int| 0 <= i < h.len() implies is_hex_digit(#[trigger] h[i]) by {
        let v: int = if i % 2 == 0 {
            b[i / 2] as int / 16
        } else {
            b[i / 2] as int % 16
        };
        assert(0 <= v < 16);
    }
    assert forall|i: int| 0 <= i < b.len() implies #[trigger] hex_bytes(h)[i] == b[i] by {
        let x = b[i] as int;
        assert(h[2 * i] == hex_digit(x / 16));
        assert(h[2 * i + 1] == hex_digit(x % 16));
        assert(nibble(hex_digit(x / 16)) == x / 16);
        assert(nibble(hex_digit(x % 16)) == x % 16);
        assert(x / 16 * 16 + x % 16 == x);
    }
    assert(hex_bytes(h) =~= b);
}

/// Hex text of the bytes that hex text denotes is that text in upper case:
/// decoding then encoding only upper-cases.
pub proof fn law_hex_upper(s: Seq<char>)
    requires
        all_hex(s),
        s.len() % 2 == 0,
    ensures
        hex_of(hex_bytes(s)) == upper_text(s),
{
    let b = hex_bytes(s);
    let h = hex_of(b);
    assert forall|i: int| 0 <= i < s.len() implies #[trigger] h[i] == upper(s[i]) by {
        let k = i / 2;
        let hi = nibble(s[2 * k]);
        let lo = nibble(s[2 * k + 1]);
        assert(is_hex_digit(s[2 * k]) && is_hex_digit(s[2 * k + 1]));
        assert(0 <= hi < 16 && 0 <= lo < 16);
        assert(b[k] as int == hi * 16 + lo);
        assert((hi * 16 + lo) / 16 == hi && (hi * 16 + lo) % 16 == lo) by (nonlinear_arith)
            requires
                0 <= hi < 16,
                0 <= lo < 16,
        ;
        assert(is_hex_digit(s[i]));
        assert(hex_digit(nibble(s[i])) == upper(s[i]));
        assert(i == 2 * k || i == 2 * k + 1);
    }
    assert(h =~= upper_text(s));
}

/// Decoding the hex text of non-empty bytes gives the bytes back.
pub proof fn law_decode_of_encode(b: Seq<u8>, r: Result<Vec<u8>>)
    requires
        b.len() > 0,
        hex_decoded(r, hex_of(b)),
    ensures
        r matches Ok(v) && v@ == b,
{
    law_hex_round_trip(b);
}

/// Encoding the bytes that hex text decodes to gives the text in upper case.
pub proof fn law_encode_of_decode(s: Seq<char>, r: Result<Vec<u8>>)
    requires
        hex_decoded(r, s),
        is_hex_text(s),
    ensures
        r matches Ok(v) && hex_of(v@) == upper_text(s),
{
    law_hex_upper(s);
}

/// An ASCII hexadecimal digit as a byte.
pub open spec fn is_hex_byte(b: u8) -> bool {
    (48 <= b <= 57) || (97 <= b <= 102) || (65 <= b <= 70)
}

/// The first byte of the UTF-8 encoding of a character that is not ASCII is
/// no ASCII byte; that of an ASCII character is the character itself.
pub proof fn lemma_first_byte(c: char)
    ensures
        vstd::utf8::encode_scalar(c as u32).len() > 0,
        (c as u32) < 128 ==> vstd::utf8::encode_scalar(c as u32)[0] == c as u32 as u8,
        (c as u32) >= 128 ==> vstd::utf8::encode_scalar(c as u32)[0] >= 128,
{
    let v = c as u32;
    vstd::utf8::char_is_scalar(c);
    if v <= 0x7F {
        assert((v & 0x7F) as u8 == v as u8) by (bit_vector)
            requires
                v <= 0x7F,
        ;
    } else if v <= 0x7FF {
        assert((0xC0 | ((v >> 6) & 0x1F) as u8) >= 128) by (bit_vector);
    } else if v <= 0xFFFF {
        assert((0xE0 | ((v >> 12) & 0x0F) as u8) >= 128) by (bit_vector);
    } else {
        assert((0xF0 | ((v >> 18) & 0x7) as u8) >= 128) by (bit_vector);
    }
}

/// An ASCII character whose byte is a hex digit is a hex digit.
pub proof fn lemma_hex_code(c: char)
    requires
        (c as u32) < 128,
        is_hex_byte((c as u32) as u8),
    ensures
        is_hex_digit(c),
{
    let v = c as u32;
    assert(v as u8 as u32 == v) by (bit_vector)
        requires
            v < 128,
    ;
    lemma_hex_code_range(c);
}

/// A character whose code is that of a hex digit is a hex digit.
pub proof fn lemma_hex_code_range(c: char)
    requires
        (48 <= (c as u32) <= 57) || (97 <= (c as u32) <= 102) || (65 <= (c as u32) <= 70),
    ensures
        is_hex_digit(c),
{
}

/// Text whose UTF-8 bytes are all ASCII hex digits is all hex digits.
pub proof fn lemma_hex_bytes_hex_chars(s: Seq<char>)
    requires
        forall|i: int|
            0 <= i < vstd::utf8::encode_utf8(s).len() ==> is_hex_byte(
                #[trigger] vstd::utf8::encode_utf8(s)[i],
            ),
    ensures
        all_hex(s),
    decreases s.len(),
{
    if s.len() > 0 {
        let c = s[0];
        let sc = vstd::utf8::encode_scalar(c as u32);
        let rest = vstd::utf8::encode_utf8(s.drop_first());
        let e = vstd::utf8::encode_utf8(s);
        assert(e == sc + rest);
        lemma_first_byte(c);
        assert(e[0] == sc[0]);
        assert(is_hex_byte(e[0]));
        lemma_hex_code(c);
        assert forall|i: int| 0 <= i < rest.len() implies is_hex_byte(#[trigger] rest[i]) by {
            assert(e[sc.len() + i] == rest[i]);
        }
        lemma_hex_bytes_hex_chars(s.drop_first());
        assert forall|i: int| 0 <= i < s.len() implies is_hex_digit(#[trigger] s[i]) by {
            if i > 0 {
                assert(s[i] == s.drop_first()[i - 1]);
            }
        }
    }
}

/// Decoding succeeds exactly on non-empty text of an even number of UTF-8
/// bytes that are all ASCII hex digits.
pub proof fn law_hex_text_bytes(s: Seq<char>)
    ensures
        is_hex_text(s) <==> ({
            let b = vstd::utf8::encode_utf8(s);
            &&& b.len() > 0
            &&& b.len() % 2 == 0
            &&& forall|i: int| 0 <= i < b.len() ==> is_hex_byte(#[trigger] b[i])
        }),
{
    let b = vstd::utf8::encode_utf8(s);
    if all_hex(s) {
        lemma_hex_utf8_len(s);
        assert(vstd::utf8::is_ascii_chars(s)) by {
            assert forall|i: int| 0 <= i < s.len() implies '\0' <= #[trigger] s[i] <= '\u{7f}' by {
                assert(is_hex_digit(s[i]));
            }
        }
        vstd::utf8::is_ascii_chars_encode_utf8(s);
        assert forall|i: int| 0 <= i < b.len() implies is_hex_byte(#[trigger] b[i]) by {
            assert(s[i] as u8 == b[i]);
            assert(is_hex_digit(s[i]));
        }
    }
    if b.len() > 0 && b.len() % 2 == 0 && forall|i: int| 0 <= i < b.len() ==> is_hex_byte(
        #[trigger] b[i],
    ) {
        lemma_hex_bytes_hex_chars(s);
        lemma_hex_utf8_len(s);
    }
}

} // verus!
