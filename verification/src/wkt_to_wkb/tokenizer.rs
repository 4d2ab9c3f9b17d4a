//! Reads the tokens of WKT/EWKT text.
use super::grammar::{
    digit_end, empty_kw, keyword_at, matches_word, p_char, p_dim, p_empty_or_lparen, p_num, p_sep,
    p_srid, p_try_empty, p_try_empty_or_lparen, p_type_dim, prefix_ci, srid_word, word_ends_at,
    Opening,
};
use crate::error::{push_chars, wkt_error, wkt_error_from, ErrorKind, Result};
use crate::text::{
    char_debug, char_is_alphabetic, char_is_ascii_ws, char_eq_ignore_case, chars_of, debug_char,
    debug_str, decimal_usize, is_digit, parse_i32, scan_number, skip_whitespace, skip_ws,
    spec_decimal, str_debug, string_from_chars,
};
use crate::types::{keyword_of, Dimension, GeomType};
use vstd::prelude::*;

use super::messages::{
    e_char, e_empty_or_lparen, e_eof, e_num, e_sep, e_try_empty, e_type_dim, wkt_fails,
};

verus! {

/// `r` is the outcome of reading `t` from the position the tokenizer stood at;
/// the tokenizer now stands at `pos`.
pub open spec fn read_as<T>(r: Result<T>, t: super::grammar::Tok<T>, pos: int) -> bool {
    match t {
        Some((v, e)) => r matches Ok(x) && x == v && pos == e,
        None => r matches Err(e) && e.kind() == ErrorKind::Wkt,
    }
}

/// The byte offset in the UTF-8 text of character position `i`.
pub open spec fn byte_pos(s: Seq<char>, i: int) -> nat {
    vstd::utf8::encode_utf8(s.take(i)).len()
}

/// `Some(<c>)` for the character `c` at `i`, `None` past the end, as `{:?}`
/// writes an `Option<char>`.
pub open spec fn got_char(s: Seq<char>, i: int) -> Seq<char> {
    if 0 <= i < s.len() {
        "Some("@ + char_debug(s[i]) + ")"@
    } else {
        "None"@
    }
}

/// At most `n` characters of `s` from `i`, as `{:?}` writes them.
pub open spec fn snippet_debug(s: Seq<char>, i: int, n: int) -> Seq<char> {
    str_debug(
        s.subrange(
            i,
            if i + n < s.len() {
                i + n
            } else {
                s.len() as int
            },
        ),
    )
}

/// `" at position <byte offset of i>"`.
pub open spec fn at_pos(s: Seq<char>, i: int) -> Seq<char> {
    " at position "@ + spec_decimal(byte_pos(s, i))
}

/// Appends `" at position <byte offset of i>"`.
pub(crate) fn push_at_pos(out: &mut Vec<char>, s: &[char], i: usize)
    requires
        i <= s@.len(),
    ensures
        final(out)@ == old(out)@ + at_pos(s@, i as int),
{
    push_chars(out, " at position ");
    let pre = vstd::slice::slice_subrange(s, 0, i);
    assert(pre@ =~= s@.take(i as int));
    let text = string_from_chars(pre);
    let n = text.as_str().as_bytes().len();
    let mut digits = decimal_usize(n);
    out.append(&mut digits);
}

/// Appends what `{:?}` writes for the character at `i`, if any.
fn push_got_char(out: &mut Vec<char>, s: &[char], i: usize)
    ensures
        final(out)@ == old(out)@ + got_char(s@, i as int),
{
    if i < s.len() {
        push_chars(out, "Some(");
        let d = debug_char(s[i]);
        push_chars(out, d.as_str());
        push_chars(out, ")");
    } else {
        push_chars(out, "None");
    }
}

/// Appends what `{:?}` writes for at most `n` characters of `s` from `i`.
fn push_snippet(out: &mut Vec<char>, s: &[char], i: usize, n: usize)
    requires
        i <= s@.len(),
    ensures
        final(out)@ == old(out)@ + snippet_debug(s@, i as int, n as int),
{
    let end = if n < s.len() - i {
        i + n
    } else {
        s.len()
    };
    let part = vstd::slice::slice_subrange(s, i, end);
    let text = string_from_chars(part);
    let d = debug_str(text.as_str());
    push_chars(out, d.as_str());
}

/// Whether no letter follows position `i`.
pub fn word_ends(s: &[char], i: usize) -> (r: bool)
    ensures
        r == word_ends_at(s@, i as int),
{
    if i < s.len() {
        !char_is_alphabetic(s[i])
    } else {
        true
    }
}

/// Whether the characters at `p` spell `w`, ignoring ASCII case.
pub fn prefix_at(s: &[char], p: usize, w: &str) -> (r: bool)
    ensures
        r == prefix_ci(s@, p as int, w@),
{
    let wc = chars_of(w);
    let slen = s.len();
    if p > slen || wc.len() > slen - p {
        return false;
    }
    let mut i: usize = 0;
    while i < wc.len()
        invariant
            slen == s@.len(),
            i <= wc@.len(),
            wc@ == w@,
            p + wc@.len() <= s@.len(),
            forall|j: int| 0 <= j < i ==> eq_ignore_case_at(s@, p as int, wc@, j),
        decreases wc@.len() - i,
    {
        if !char_eq_ignore_case(s[p + i], wc[i]) {
            assert(!eq_ignore_case_at(s@, p as int, wc@, i as int));
            return false;
        }
        i = i + 1;
    }
    assert forall|j: int| 0 <= j < w@.len() implies crate::text::eq_ignore_case(
        #[trigger] s@[p + j],
        w@[j],
    ) by {
        assert(eq_ignore_case_at(s@, p as int, wc@, j));
    }
    true
}

/// The character at `p + j` equals `w[j]` ignoring ASCII case.
pub open spec fn eq_ignore_case_at(s: Seq<char>, p: int, w: Seq<char>, j: int) -> bool {
    crate::text::eq_ignore_case(s[p + j], w[j])
}

/// Whether the word `w` stands at `p`.
pub fn word_at(s: &[char], p: usize, w: &str) -> (r: bool)
    ensures
        r == matches_word(s@, p as int, w@),
{
    let slen = s.len();
    if prefix_at(s, p, w) {
        let n = chars_of(w).len();
        assert(p + n <= slen);
        word_ends(s, p + n)
    } else {
        false
    }
}

/// Reads the tokens of one text.
pub struct Tokenizer {
    pub input: Vec<char>,
    pub pos: usize,
}

/// `expected '<c>' at position <p>, got <next character>` for position `q`.
pub open spec fn expected_char_message(s: Seq<char>, q: int, c: char) -> Seq<char> {
    "expected '"@ + seq![c] + "'"@ + at_pos(s, q) + ", got "@ + got_char(s, q)
}

/// The message for an SRID prefix at `q` that does not read: no digits, a
/// value out of range, or no `;` after it.
pub open spec fn srid_message(s: Seq<char>, q: int) -> Seq<char> {
    let a = q + 5;
    let b = if a < s.len() && s[a] == '-' {
        a + 1
    } else {
        a
    };
    let e = digit_end(s, b);
    if crate::text::spec_parse_i32(s.subrange(a, e)) is None {
        if e == b {
            "expected integer"@ + at_pos(s, a)
        } else {
            "integer out of u32 range: "@ + s.subrange(a, e)
        }
    } else {
        "expected ';' after SRID value"@
    }
}

impl Tokenizer {
    /// The tokenizer stands within its text.
    pub open spec fn wf(&self) -> bool {
        self.pos <= self.input@.len()
    }

    /// A tokenizer at the start of `input`.
    pub fn new(input: &str) -> (r: Self)
        ensures
            r.input@ == input@,
            r.pos == 0,
    {
        Tokenizer { input: chars_of(input), pos: 0 }
    }

    /// A tokenizer at the start of the given characters.
    pub fn from_chars(input: Vec<char>) -> (r: Self)
        ensures
            r.input@ == input@,
            r.pos == 0,
    {
        Tokenizer { input, pos: 0 }
    }

    /// Skips whitespace.
    pub fn skip_whitespace(&mut self)
        requires
            old(self).wf(),
        ensures
            final(self).wf(),
            final(self).input == old(self).input,
            final(self).pos == skip_ws(old(self).input@, old(self).pos as int),
            final(self).pos >= old(self).pos,
    {
        self.pos = skip_whitespace(self.input.as_slice(), self.pos);
    }

    /// Reads a `SRID=<n>;` prefix if present; an SRID that is not positive is
    /// read as no SRID.
    pub fn read_srid_prefix(&mut self) -> (r: Result<Option<i32>>)
        requires
            old(self).wf(),
        ensures
            final(self).wf(),
            final(self).input == old(self).input,
            final(self).pos >= old(self).pos,
            read_as(r, p_srid(old(self).input@, old(self).pos as int), final(self).pos as int),
            r is Err ==> wkt_fails(
                r,
                srid_message(old(self).input@, skip_ws(old(self).input@, old(self).pos as int)),
            ),
    {
        self.skip_whitespace();
        let ghost s = self.input@;
        let q = self.pos;
        proof {
            reveal_strlit("SRID=");
            assert("SRID="@ =~= srid_word());
        }
        if !prefix_at(self.input.as_slice(), q, "SRID=") {
            return Ok(None);
        }
        let n = self.input.len();
        assert(q + 5 <= n);
        let a = q + 5;
        let neg = a < self.input.len() && self.input[a] == '-';
        let b = if neg {
            a + 1
        } else {
            a
        };
        let e = self.scan_digits(b);
        proof {
            lemma_digit_end_bounds(s, b as int);
            let t = s.subrange(a as int, e as int);
            if neg {
                assert(t.skip(1) =~= s.subrange(b as int, e as int));
            } else if e > b {
                assert(is_digit(s[b as int]));
                assert(t[0] == s[b as int]);
            }
        }
        let v = match parse_i32(self.input.as_slice(), a, e) {
            Some(v) => v,
            None => {
                let mut msg: Vec<char> = Vec::new();
                if e == b {
                    push_chars(&mut msg, "expected integer");
                    push_at_pos(&mut msg, self.input.as_slice(), a);
                } else {
                    push_chars(&mut msg, "integer out of u32 range: ");
                    let mut digits = crate::text::sub_chars(self.input.as_slice(), a, e);
                    msg.append(&mut digits);
                }
                return Err(wkt_error_from(msg.as_slice()));
            },
        };
        let f = skip_whitespace(self.input.as_slice(), e);
        if f < self.input.len() && self.input[f] == ';' {
            self.pos = f + 1;
            if v > 0 {
                Ok(Some(v))
            } else {
                Ok(None)
            }
        } else {
            Err(wkt_error("expected ';' after SRID value"))
        }
    }

    /// Reads a geometry keyword and its optional dimension tag.
    pub fn read_type_and_dim(&mut self) -> (r: Result<(GeomType, Dimension)>)
        requires
            old(self).wf(),
        ensures
            final(self).wf(),
            final(self).input == old(self).input,
            final(self).pos >= old(self).pos,
            read_as(r, p_type_dim(old(self).input@, old(self).pos as int), final(self).pos as int),
            r is Err ==> wkt_fails(r, e_type_dim(old(self).input@, old(self).pos as int)),
    {
        self.skip_whitespace();
        let q = self.pos;
        let t = match self.keyword() {
            Some(t) => t,
            None => {
                let mut msg: Vec<char> = Vec::new();
                push_chars(&mut msg, "unknown geometry type");
                push_at_pos(&mut msg, self.input.as_slice(), q);
                push_chars(&mut msg, ": ");
                push_snippet(&mut msg, self.input.as_slice(), q, 20);
                return Err(wkt_error_from(msg.as_slice()));
            },
        };
        let n = chars_of(t.wkt_name()).len();
        let len = self.input.len();
        assert(q + n <= len);
        self.pos = q + n;
        let dim = self.read_dim_tag();
        Ok((t, dim))
    }

    /// The geometry keyword at the current position.
    fn keyword(&self) -> (r: Option<GeomType>)
        requires
            self.wf(),
        ensures
            r == keyword_at(self.input@, self.pos as int),
            r matches Some(t) ==> self.pos + keyword_of(t).len() <= self.input@.len(),
    {
        let s = self.input.as_slice();
        let p = self.pos;
        if word_at(s, p, GeomType::GeometryCollection.wkt_name()) {
            Some(GeomType::GeometryCollection)
        } else if word_at(s, p, GeomType::MultiLineString.wkt_name()) {
            Some(GeomType::MultiLineString)
        } else if word_at(s, p, GeomType::MultiPolygon.wkt_name()) {
            Some(GeomType::MultiPolygon)
        } else if word_at(s, p, GeomType::MultiPoint.wkt_name()) {
            Some(GeomType::MultiPoint)
        } else if word_at(s, p, GeomType::LineString.wkt_name()) {
            Some(GeomType::LineString)
        } else if word_at(s, p, GeomType::Polygon.wkt_name()) {
            Some(GeomType::Polygon)
        } else if word_at(s, p, GeomType::Point.wkt_name()) {
            Some(GeomType::Point)
        } else {
            None
        }
    }

    /// Reads an optional ` Z`, ` M` or ` ZM` tag after a keyword.
    fn read_dim_tag(&mut self) -> (r: Dimension)
        requires
            old(self).wf(),
        ensures
            final(self).wf(),
            final(self).input == old(self).input,
            final(self).pos >= old(self).pos,
            (r, final(self).pos as int) == p_dim(old(self).input@, old(self).pos as int),
    {
        let s = self.input.as_slice();
        let p = self.pos;
        let n = s.len();
        if !(p < n && char_is_ascii_ws(s[p])) {
            return Dimension::XY;
        }
        let q = skip_whitespace(s, p);
        if q < n && q + 1 < n && char_eq_ignore_case(s[q], 'Z') && char_eq_ignore_case(s[q + 1], 'M')
            && word_ends(s, q + 2) {
            self.pos = q + 2;
            Dimension::XYZM
        } else if q < n && char_eq_ignore_case(s[q], 'Z') && word_ends(s, q + 1) {
            self.pos = q + 1;
            Dimension::XYZ
        } else if q < n && char_eq_ignore_case(s[q], 'M') && word_ends(s, q + 1) {
            self.pos = q + 1;
            Dimension::XYM
        } else {
            Dimension::XY
        }
    }

    /// Reads a number lexeme and returns its position; whether it denotes a
    /// finite double is decided when the draft is filled.
    pub fn read_number(&mut self) -> (r: Result<u64>)
        requires
            old(self).wf(),
        ensures
            final(self).wf(),
            final(self).input == old(self).input,
            final(self).pos >= old(self).pos,
            read_as(r, p_num(old(self).input@, old(self).pos as int), final(self).pos as int),
            r is Err ==> wkt_fails(r, e_num(old(self).input@, old(self).pos as int)),
    {
        self.skip_whitespace();
        let q = self.pos;
        let e = scan_number(self.input.as_slice(), q);
        if e == q {
            let mut msg: Vec<char> = Vec::new();
            push_chars(&mut msg, "expected number");
            push_at_pos(&mut msg, self.input.as_slice(), q);
            push_chars(&mut msg, ", got ");
            push_snippet(&mut msg, self.input.as_slice(), q, 10);
            return Err(wkt_error_from(msg.as_slice()));
        }
        self.pos = e;
        Ok(q as u64)
    }

    /// Whether the next character after whitespace is `(`; consumes only the whitespace.
    pub fn peek_lparen(&mut self) -> (r: bool)
        requires
            old(self).wf(),
        ensures
            final(self).wf(),
            final(self).input == old(self).input,
            final(self).pos == skip_ws(old(self).input@, old(self).pos as int),
            r == (final(self).pos < final(self).input@.len() && final(self).input@[final(self).pos as int]
                == '('),
    {
        self.skip_whitespace();
        self.pos < self.input.len() && self.input[self.pos] == '('
    }

    /// Reads the character `c` after whitespace.
    pub fn expect_char(&mut self, c: char) -> (r: Result<()>)
        requires
            old(self).wf(),
        ensures
            final(self).wf(),
            final(self).input == old(self).input,
            final(self).pos >= old(self).pos,
            read_as(r, p_char(old(self).input@, old(self).pos as int, c), final(self).pos as int),
            r is Err ==> final(self).pos == skip_ws(old(self).input@, old(self).pos as int),
            r is Err ==> wkt_fails(r, e_char(old(self).input@, old(self).pos as int, c)),
    {
        self.skip_whitespace();
        if self.pos < self.input.len() && self.input[self.pos] == c {
            self.pos = self.pos + 1;
            Ok(())
        } else {
            let mut msg: Vec<char> = Vec::new();
            push_chars(&mut msg, "expected '");
            msg.push(c);
            push_chars(&mut msg, "'");
            push_at_pos(&mut msg, self.input.as_slice(), self.pos);
            push_chars(&mut msg, ", got ");
            push_got_char(&mut msg, self.input.as_slice(), self.pos);
            assert(msg@ =~= e_char(old(self).input@, old(self).pos as int, c));
            Err(wkt_error_from(msg.as_slice()))
        }
    }

    /// Reads `(`.
    pub fn expect_lparen(&mut self) -> (r: Result<()>)
        requires
            old(self).wf(),
        ensures
            final(self).wf(),
            final(self).input == old(self).input,
            final(self).pos >= old(self).pos,
            read_as(r, p_char(old(self).input@, old(self).pos as int, '('), final(self).pos as int),
            r is Err ==> final(self).pos == skip_ws(old(self).input@, old(self).pos as int),
            r is Err ==> wkt_fails(r, e_char(old(self).input@, old(self).pos as int, '(')),
    {
        self.expect_char('(')
    }

    /// Reads `)`.
    pub fn expect_rparen(&mut self) -> (r: Result<()>)
        requires
            old(self).wf(),
        ensures
            final(self).wf(),
            final(self).input == old(self).input,
            final(self).pos >= old(self).pos,
            read_as(r, p_char(old(self).input@, old(self).pos as int, ')'), final(self).pos as int),
            r is Err ==> final(self).pos == skip_ws(old(self).input@, old(self).pos as int),
            r is Err ==> wkt_fails(r, e_char(old(self).input@, old(self).pos as int, ')')),
    {
        self.expect_char(')')
    }

    /// Reads `,` (true: more items follow) or `)` (false: the list ends).
    pub fn read_comma_or_rparen(&mut self) -> (r: Result<bool>)
        requires
            old(self).wf(),
        ensures
            final(self).wf(),
            final(self).input == old(self).input,
            final(self).pos >= old(self).pos,
            final(self).pos > old(self).pos || r is Err,
            read_as(r, p_sep(old(self).input@, old(self).pos as int), final(self).pos as int),
            r is Err ==> final(self).pos == skip_ws(old(self).input@, old(self).pos as int),
            r is Err ==> wkt_fails(r, e_sep(old(self).input@, old(self).pos as int)),
    {
        self.skip_whitespace();
        if self.pos < self.input.len() && self.input[self.pos] == ',' {
            self.pos = self.pos + 1;
            Ok(true)
        } else if self.pos < self.input.len() && self.input[self.pos] == ')' {
            self.pos = self.pos + 1;
            Ok(false)
        } else {
            let mut msg: Vec<char> = Vec::new();
            push_chars(&mut msg, "expected ',' or ')'");
            push_at_pos(&mut msg, self.input.as_slice(), self.pos);
            push_chars(&mut msg, ", got ");
            push_got_char(&mut msg, self.input.as_slice(), self.pos);
            Err(wkt_error_from(msg.as_slice()))
        }
    }

    /// Reads `EMPTY` if it stands next; letters right after it are an error.
    pub fn try_read_empty(&mut self) -> (r: Result<bool>)
        requires
            old(self).wf(),
        ensures
            final(self).wf(),
            final(self).input == old(self).input,
            final(self).pos >= old(self).pos,
            read_as(r, p_try_empty(old(self).input@, old(self).pos as int), final(self).pos as int),
            r is Err ==> wkt_fails(r, e_try_empty(old(self).input@, old(self).pos as int)),
            r matches Ok(false) ==> final(self).pos == skip_ws(old(self).input@, old(self).pos as int),
    {
        self.skip_whitespace();
        let q = self.pos;
        proof {
            reveal_strlit("EMPTY");
            assert("EMPTY"@ =~= empty_kw());
        }
        if !prefix_at(self.input.as_slice(), q, "EMPTY") {
            return Ok(false);
        }
        let n = self.input.len();
        assert(q + 5 <= n);
        if word_ends(self.input.as_slice(), q + 5) {
            self.pos = q + 5;
            Ok(true)
        } else {
            let mut msg: Vec<char> = Vec::new();
            push_chars(&mut msg, "expected delimiter after EMPTY");
            push_at_pos(&mut msg, self.input.as_slice(), q + 5);
            Err(wkt_error_from(msg.as_slice()))
        }
    }

    /// Reads `EMPTY` (true) or `(` (false).
    pub fn read_empty_or_lparen(&mut self) -> (r: Result<bool>)
        requires
            old(self).wf(),
        ensures
            final(self).wf(),
            final(self).input == old(self).input,
            final(self).pos >= old(self).pos,
            read_as(
                r,
                p_empty_or_lparen(old(self).input@, old(self).pos as int),
                final(self).pos as int,
            ),
            r matches Ok(false) ==> final(self).pos > old(self).pos,
            r is Err ==> wkt_fails(r, e_empty_or_lparen(old(self).input@, old(self).pos as int)),
    {
        match self.try_read_empty() {
            Ok(true) => Ok(true),
            Ok(false) => {
                if self.pos < self.input.len() && self.input[self.pos] == '(' {
                    self.pos = self.pos + 1;
                    Ok(false)
                } else {
                    let mut msg: Vec<char> = Vec::new();
                    push_chars(&mut msg, "expected 'EMPTY' or '('");
                    push_at_pos(&mut msg, self.input.as_slice(), self.pos);
                    push_chars(&mut msg, ", got ");
                    push_snippet(&mut msg, self.input.as_slice(), self.pos, 10);
                    Err(wkt_error_from(msg.as_slice()))
                }
            },
            Err(e) => Err(e),
        }
    }

    /// Reads `EMPTY` or `(`, or reads nothing when neither stands next.
    pub fn try_read_empty_or_lparen(&mut self) -> (r: Result<Opening>)
        requires
            old(self).wf(),
        ensures
            final(self).wf(),
            final(self).input == old(self).input,
            final(self).pos >= old(self).pos,
            read_as(
                r,
                p_try_empty_or_lparen(old(self).input@, old(self).pos as int),
                final(self).pos as int,
            ),
            r is Err ==> wkt_fails(r, e_try_empty(old(self).input@, old(self).pos as int)),
    {
        match self.try_read_empty() {
            Ok(true) => Ok(Opening::Empty),
            Ok(false) => {
                if self.pos < self.input.len() && self.input[self.pos] == '(' {
                    self.pos = self.pos + 1;
                    Ok(Opening::Lparen)
                } else {
                    Ok(Opening::Bare)
                }
            },
            Err(e) => Err(e),
        }
    }

    /// Fails unless only whitespace remains.
    pub fn expect_eof(&mut self) -> (r: Result<()>)
        requires
            old(self).wf(),
        ensures
            final(self).wf(),
            final(self).input == old(self).input,
            r is Ok <==> skip_ws(old(self).input@, old(self).pos as int) == old(self).input@.len(),
            r is Err ==> wkt_fails(r, e_eof(old(self).input@, old(self).pos as int)),
    {
        self.skip_whitespace();
        if self.pos == self.input.len() {
            Ok(())
        } else {
            let mut msg: Vec<char> = Vec::new();
            push_chars(&mut msg, "unexpected trailing content");
            push_at_pos(&mut msg, self.input.as_slice(), self.pos);
            push_chars(&mut msg, ": ");
            push_snippet(&mut msg, self.input.as_slice(), self.pos, 20);
            Err(wkt_error_from(msg.as_slice()))
        }
    }

    /// Advances over ASCII digits from `b`.
    fn scan_digits(&self, b: usize) -> (r: usize)
        requires
            self.wf(),
            b <= self.input@.len(),
        ensures
            r as int == digit_end(self.input@, b as int),
            b <= r <= self.input@.len(),
    {
        let mut i = b;
        proof {
            lemma_digit_end_bounds(self.input@, b as int);
        }
        while i < self.input.len() && '0' <= self.input[i] && self.input[i] <= '9'
            invariant
                b <= i <= self.input@.len(),
                digit_end(self.input@, i as int) == digit_end(self.input@, b as int),
            decreases self.input@.len() - i,
        {
            i = i + 1;
        }
        i
    }
}

pub proof fn lemma_digit_end_bounds(s: Seq<char>, p: int)
    requires
        0 <= p <= s.len(),
    ensures
        p <= digit_end(s, p) <= s.len(),
        forall|i: int| p <= i < digit_end(s, p) ==> is_digit(#[trigger] s[i]),
    decreases s.len() - p,
{
    if p < s.len() && is_digit(s[p]) {
        lemma_digit_end_bounds(s, p + 1);
    }
}

} // verus!
