//! The WKT/EWKT grammar that the parser accepts, as spec functions over the
//! characters of the input.
//!
//! Each function reads from a position and yields a value and the position
//! after it, or `None` when the text does not fit. A parsed geometry is a
//! [`Shape`] whose coordinates are the positions of their number lexemes.
use crate::model::{shape_dim, Shape};
use crate::text::{
    eq_ignore_case, is_letter, is_ascii_ws, is_digit, num_end, signed_digits_i32, skip_ws,
};
use crate::types::{dim_size, keyword_of, Dimension, GeomType};
use vstd::prelude::*;

verus! {

/// A value read at a position, and the position after it.
pub type Tok<T> = Option<(T, int)>;

/// Nesting depth at which WKT parsing stops.
pub const MAX_GEOMETRY_DEPTH: usize = 128;

/// No letter follows position `i`.
pub open spec fn word_ends_at(s: Seq<char>, i: int) -> bool {
    !(0 <= i < s.len()) || !is_letter(s[i])
}

/// The characters at `p` spell `w`, ignoring ASCII case.
pub open spec fn prefix_ci(s: Seq<char>, p: int, w: Seq<char>) -> bool {
    0 <= p && p + w.len() <= s.len() && forall|i: int|
        0 <= i < w.len() ==> eq_ignore_case(#[trigger] s[p + i], w[i])
}

/// The characters at `p` spell the word `w`, ignoring ASCII case, and no letter follows.
pub open spec fn matches_word(s: Seq<char>, p: int, w: Seq<char>) -> bool {
    prefix_ci(s, p, w) && word_ends_at(s, p + w.len())
}

/// The geometry keyword at `p`, if any.
pub open spec fn keyword_at(s: Seq<char>, p: int) -> Option<GeomType> {
    if matches_word(s, p, keyword_of(GeomType::GeometryCollection)) {
        Some(GeomType::GeometryCollection)
    } else if matches_word(s, p, keyword_of(GeomType::MultiLineString)) {
        Some(GeomType::MultiLineString)
    } else if matches_word(s, p, keyword_of(GeomType::MultiPolygon)) {
        Some(GeomType::MultiPolygon)
    } else if matches_word(s, p, keyword_of(GeomType::MultiPoint)) {
        Some(GeomType::MultiPoint)
    } else if matches_word(s, p, keyword_of(GeomType::LineString)) {
        Some(GeomType::LineString)
    } else if matches_word(s, p, keyword_of(GeomType::Polygon)) {
        Some(GeomType::Polygon)
    } else if matches_word(s, p, keyword_of(GeomType::Point)) {
        Some(GeomType::Point)
    } else {
        None
    }
}

/// The optional dimension tag after a keyword ending at `p`. A tag must be
/// separated from the keyword by ASCII whitespace; without a tag the position
/// stays at `p`.
pub open spec fn p_dim(s: Seq<char>, p: int) -> (Dimension, int) {
    if 0 <= p < s.len() && is_ascii_ws(s[p]) {
        let q = skip_ws(s, p);
        if q + 1 < s.len() && eq_ignore_case(s[q], 'Z') && eq_ignore_case(s[q + 1], 'M')
            && word_ends_at(s, q + 2) {
            (Dimension::XYZM, q + 2)
        } else if q < s.len() && eq_ignore_case(s[q], 'Z') && word_ends_at(s, q + 1) {
            (Dimension::XYZ, q + 1)
        } else if q < s.len() && eq_ignore_case(s[q], 'M') && word_ends_at(s, q + 1) {
            (Dimension::XYM, q + 1)
        } else {
            (Dimension::XY, p)
        }
    } else {
        (Dimension::XY, p)
    }
}

/// A geometry keyword and its dimension tag.
pub open spec fn p_type_dim(s: Seq<char>, p: int) -> Tok<(GeomType, Dimension)> {
    let q = skip_ws(s, p);
    match keyword_at(s, q) {
        Some(t) => {
            let (d, e) = p_dim(s, q + keyword_of(t).len());
            Some(((t, d), e))
        },
        None => None,
    }
}

/// End of the run of ASCII digits that starts at `p`.
pub open spec fn digit_end(s: Seq<char>, p: int) -> int
    decreases s.len() - p,
{
    if 0 <= p < s.len() && is_digit(s[p]) {
        digit_end(s, p + 1)
    } else {
        p
    }
}

/// `SRID=`
pub open spec fn srid_word() -> Seq<char> {
    seq!['S', 'R', 'I', 'D', '=']
}

/// An optional `SRID=<n>;` prefix. An SRID that is not positive denotes no SRID.
pub open spec fn p_srid(s: Seq<char>, p: int) -> Tok<Option<i32>> {
    let q = skip_ws(s, p);
    if prefix_ci(s, q, srid_word()) {
        let a = q + 5;
        let neg = a < s.len() && s[a] == '-';
        let b = if neg {
            a + 1
        } else {
            a
        };
        let e = digit_end(s, b);
        match signed_digits_i32(neg, s.subrange(b, e)) {
            Some(v) => {
                let f = skip_ws(s, e);
                if f < s.len() && s[f] == ';' {
                    Some(
                        (
                            if v > 0 {
                                Some(v)
                            } else {
                                None
                            },
                            f + 1,
                        ),
                    )
                } else {
                    None
                }
            },
            None => None,
        }
    } else {
        Some((None, q))
    }
}

/// A number lexeme; its value is its position.
pub open spec fn p_num(s: Seq<char>, p: int) -> Tok<u64> {
    let q = skip_ws(s, p);
    let e = num_end(s, q);
    if e > q {
        Some((q as u64, e))
    } else {
        None
    }
}

/// The character `c`.
pub open spec fn p_char(s: Seq<char>, p: int, c: char) -> Tok<()> {
    let q = skip_ws(s, p);
    if 0 <= q < s.len() && s[q] == c {
        Some(((), q + 1))
    } else {
        None
    }
}

/// A list separator: `,` (true, more items follow) or `)` (false, the list ends).
pub open spec fn p_sep(s: Seq<char>, p: int) -> Tok<bool> {
    let q = skip_ws(s, p);
    if 0 <= q < s.len() && s[q] == ',' {
        Some((true, q + 1))
    } else if 0 <= q < s.len() && s[q] == ')' {
        Some((false, q + 1))
    } else {
        None
    }
}

/// `EMPTY`
pub open spec fn empty_kw() -> Seq<char> {
    seq!['E', 'M', 'P', 'T', 'Y']
}

/// An optional `EMPTY`; letters right after it are an error.
pub open spec fn p_try_empty(s: Seq<char>, p: int) -> Tok<bool> {
    let q = skip_ws(s, p);
    if prefix_ci(s, q, empty_kw()) {
        if word_ends_at(s, q + 5) {
            Some((true, q + 5))
        } else {
            None
        }
    } else {
        Some((false, q))
    }
}

/// `EMPTY` (true) or `(` (false), consumed.
pub open spec fn p_empty_or_lparen(s: Seq<char>, p: int) -> Tok<bool> {
    match p_try_empty(s, p) {
        Some((true, q)) => Some((true, q)),
        Some((false, q)) => if 0 <= q < s.len() && s[q] == '(' {
            Some((false, q + 1))
        } else {
            None
        },
        None => None,
    }
}

/// What opens a MultiPoint member.
#[derive(Debug, Clone, Copy, PartialEq, Eq, Structural)]
pub enum Opening {
    /// The word `EMPTY`.
    Empty,
    /// A `(`.
    Lparen,
    /// Neither: a bare coordinate tuple follows.
    Bare,
}

/// `EMPTY` or `(`, consumed, or neither.
pub open spec fn p_try_empty_or_lparen(s: Seq<char>, p: int) -> Tok<Opening> {
    match p_try_empty(s, p) {
        Some((true, q)) => Some((Opening::Empty, q)),
        Some((false, q)) => if 0 <= q < s.len() && s[q] == '(' {
            Some((Opening::Lparen, q + 1))
        } else {
            Some((Opening::Bare, q))
        },
        None => None,
    }
}

/// `n` numbers.
pub open spec fn p_tuple(s: Seq<char>, p: int, n: nat) -> Tok<Seq<u64>>
    decreases n,
{
    if n == 0 {
        Some((seq![], p))
    } else {
        match p_tuple(s, p, (n - 1) as nat) {
            Some((c, q)) => match p_num(s, q) {
                Some((v, e)) => Some((c.push(v), e)),
                None => None,
            },
            None => None,
        }
    }
}

/// A list read is at most `u32::MAX` items long.
pub open spec fn bounded<T>(r: Tok<Seq<T>>) -> Tok<Seq<T>> {
    match r {
        Some((v, e)) => if v.len() <= u32::MAX {
            Some((v, e))
        } else {
            None
        },
        None => None,
    }
}

/// `acc` put before the list that `r` read.
pub open spec fn prepend<T>(acc: Seq<T>, r: Tok<Seq<T>>) -> Tok<Seq<T>> {
    match r {
        Some((v, e)) => Some((acc + v, e)),
        None => None,
    }
}

/// Tuples separated by `,` up to and including `)`.
pub open spec fn p_coord_seq(s: Seq<char>, p: int, cs: nat) -> Tok<Seq<Seq<u64>>>
    decreases s.len() - p,
{
    match p_tuple(s, p, cs) {
        Some((c, q)) => match p_sep(s, q) {
            Some((true, q2)) => if p < q2 <= s.len() {
                prepend(seq![c], p_coord_seq(s, q2, cs))
            } else {
                None
            },
            Some((false, q2)) => Some((seq![c], q2)),
            None => None,
        },
        None => None,
    }
}

/// Parenthesised rings separated by `,` up to and including `)`.
pub open spec fn p_rings(s: Seq<char>, p: int, cs: nat) -> Tok<Seq<Seq<Seq<u64>>>>
    decreases s.len() - p,
{
    match p_char(s, p, '(') {
        Some((_, q)) => match bounded(p_coord_seq(s, q, cs)) {
            Some((ring, q1)) => match p_sep(s, q1) {
                Some((true, q2)) => if p < q2 <= s.len() {
                    prepend(seq![ring], p_rings(s, q2, cs))
                } else {
                    None
                },
                Some((false, q2)) => Some((seq![ring], q2)),
                None => None,
            },
            None => None,
        },
        None => None,
    }
}

/// One MultiPoint member: `EMPTY`, a parenthesised tuple or a bare tuple.
pub open spec fn p_mp_member(s: Seq<char>, p: int, cs: nat) -> Tok<Seq<u64>> {
    match p_try_empty_or_lparen(s, p) {
        Some((k, q)) => if k == Opening::Empty {
            Some((seq![], q))
        } else if k == Opening::Lparen {
            match p_tuple(s, q, cs) {
                Some((c, q1)) => match p_char(s, q1, ')') {
                    Some((_, q2)) => Some((c, q2)),
                    None => None,
                },
                None => None,
            }
        } else {
            p_tuple(s, q, cs)
        },
        None => None,
    }
}

/// MultiPoint members separated by `,` up to and including `)`.
pub open spec fn p_mp_members(s: Seq<char>, p: int, cs: nat) -> Tok<Seq<Seq<u64>>>
    decreases s.len() - p,
{
    match p_mp_member(s, p, cs) {
        Some((m, q)) => match p_sep(s, q) {
            Some((true, q2)) => if p < q2 <= s.len() {
                prepend(seq![m], p_mp_members(s, q2, cs))
            } else {
                None
            },
            Some((false, q2)) => Some((seq![m], q2)),
            None => None,
        },
        None => None,
    }
}

/// One MultiLineString member: `EMPTY` or a parenthesised tuple list.
pub open spec fn p_mls_member(s: Seq<char>, p: int, cs: nat) -> Tok<Seq<Seq<u64>>> {
    match p_empty_or_lparen(s, p) {
        Some((true, q)) => Some((seq![], q)),
        Some((false, q)) => bounded(p_coord_seq(s, q, cs)),
        None => None,
    }
}

/// MultiLineString members separated by `,` up to and including `)`.
pub open spec fn p_mls_members(s: Seq<char>, p: int, cs: nat) -> Tok<Seq<Seq<Seq<u64>>>>
    decreases s.len() - p,
{
    match p_mls_member(s, p, cs) {
        Some((m, q)) => match p_sep(s, q) {
            Some((true, q2)) => if p < q2 <= s.len() {
                prepend(seq![m], p_mls_members(s, q2, cs))
            } else {
                None
            },
            Some((false, q2)) => Some((seq![m], q2)),
            None => None,
        },
        None => None,
    }
}

/// One MultiPolygon member: `EMPTY` or a parenthesised ring list.
pub open spec fn p_mpoly_member(s: Seq<char>, p: int, cs: nat) -> Tok<Seq<Seq<Seq<u64>>>> {
    match p_empty_or_lparen(s, p) {
        Some((true, q)) => Some((seq![], q)),
        Some((false, q)) => bounded(p_rings(s, q, cs)),
        None => None,
    }
}

/// MultiPolygon members separated by `,` up to and including `)`.
pub open spec fn p_mpoly_members(s: Seq<char>, p: int, cs: nat) -> Tok<Seq<Seq<Seq<Seq<u64>>>>>
    decreases s.len() - p,
{
    match p_mpoly_member(s, p, cs) {
        Some((m, q)) => match p_sep(s, q) {
            Some((true, q2)) => if p < q2 <= s.len() {
                prepend(seq![m], p_mpoly_members(s, q2, cs))
            } else {
                None
            },
            Some((false, q2)) => Some((seq![m], q2)),
            None => None,
        },
        None => None,
    }
}

/// The body of a geometry that is not a collection, after its keyword and tag.
pub open spec fn p_simple_body(s: Seq<char>, p: int, t: GeomType, d: Dimension) -> Tok<Shape> {
    let cs = dim_size(d);
    match p_empty_or_lparen(s, p) {
        None => None,
        Some((true, q)) => Some(
            (
                match t {
                    GeomType::Point => Shape::Point(d, seq![]),
                    GeomType::LineString => Shape::LineString(d, seq![]),
                    GeomType::Polygon => Shape::Polygon(d, seq![]),
                    GeomType::MultiPoint => Shape::MultiPoint(d, seq![]),
                    GeomType::MultiLineString => Shape::MultiLineString(d, seq![]),
                    GeomType::MultiPolygon => Shape::MultiPolygon(d, seq![]),
                    GeomType::GeometryCollection => Shape::Collection(d, seq![]),
                },
                q,
            ),
        ),
        Some((false, q)) => match t {
            GeomType::Point => match p_tuple(s, q, cs) {
                Some((c, q1)) => match p_char(s, q1, ')') {
                    Some((_, q2)) => Some((Shape::Point(d, c), q2)),
                    None => None,
                },
                None => None,
            },
            GeomType::LineString => match bounded(p_coord_seq(s, q, cs)) {
                Some((pts, e)) => Some((Shape::LineString(d, pts), e)),
                None => None,
            },
            GeomType::Polygon => match bounded(p_rings(s, q, cs)) {
                Some((rs, e)) => Some((Shape::Polygon(d, rs), e)),
                None => None,
            },
            GeomType::MultiPoint => match bounded(p_mp_members(s, q, cs)) {
                Some((ms, e)) => Some((Shape::MultiPoint(d, ms), e)),
                None => None,
            },
            GeomType::MultiLineString => match bounded(p_mls_members(s, q, cs)) {
                Some((ms, e)) => Some((Shape::MultiLineString(d, ms), e)),
                None => None,
            },
            GeomType::MultiPolygon => match bounded(p_mpoly_members(s, q, cs)) {
                Some((ms, e)) => Some((Shape::MultiPolygon(d, ms), e)),
                None => None,
            },
            GeomType::GeometryCollection => None,
        },
    }
}

/// One geometry with keyword at nesting depth `depth`.
pub open spec fn p_geometry(s: Seq<char>, p: int, depth: nat) -> Tok<Shape>
    decreases s.len() - p, 1nat,
{
    if depth >= 128 {
        None
    } else {
        match p_type_dim(s, p) {
            Some(((t, d), q)) => if t == GeomType::GeometryCollection {
                match p_empty_or_lparen(s, q) {
                    Some((true, q1)) => Some((Shape::Collection(d, seq![]), q1)),
                    Some((false, q1)) => if p < q1 <= s.len() {
                        match bounded(p_members(s, q1, d, depth)) {
                            Some((ms, e)) => Some((Shape::Collection(d, ms), e)),
                            None => None,
                        }
                    } else {
                        None
                    },
                    None => None,
                }
            } else {
                p_simple_body(s, q, t, d)
            },
            None => None,
        }
    }
}

/// Members of a collection of dimension `d` at depth `depth`, separated by `,`
/// up to and including `)`. Unless `d` is XY, members share its dimension.
pub open spec fn p_members(s: Seq<char>, p: int, d: Dimension, depth: nat) -> Tok<Seq<Shape>>
    decreases s.len() - p, 2nat,
{
    match p_geometry(s, p, depth + 1) {
        Some((g, q)) => if d != Dimension::XY && shape_dim(g) != d {
            None
        } else {
            match p_sep(s, q) {
                Some((true, q2)) => if p < q2 <= s.len() {
                    prepend(seq![g], p_members(s, q2, d, depth))
                } else {
                    None
                },
                Some((false, q2)) => Some((seq![g], q2)),
                None => None,
            }
        },
        None => None,
    }
}

/// A whole WKT/EWKT text: optional SRID prefix, one geometry, then only whitespace.
pub open spec fn parse_wkt(s: Seq<char>) -> Option<(Shape, Option<i32>)> {
    match p_srid(s, 0) {
        Some((sr, q)) => match p_geometry(s, q, 0) {
            Some((g, e)) => if skip_ws(s, e) == s.len() {
                Some((g, sr))
            } else {
                None
            },
            None => None,
        },
        None => None,
    }
}

} // verus!
