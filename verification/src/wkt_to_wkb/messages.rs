//! The message of the error that parsing WKT text gives, as spec functions
//! that follow the grammar to the point where it fails. Each is meaningful
//! where the grammar function of the same name yields `None`.
use super::grammar::{
    bounded, p_coord_seq, p_empty_or_lparen, p_geometry, p_mls_member, p_mp_member,
    p_mpoly_member, p_sep, p_char, p_srid, p_try_empty, p_try_empty_or_lparen,
    p_tuple, p_type_dim, Opening,
};
use super::tokenizer::{at_pos, expected_char_message, got_char, snippet_debug, srid_message};
use crate::error::Fault;
use crate::model::shape_dim;
use crate::text::skip_ws;
use crate::types::{dim_label, dim_size, Dimension, GeomType};
use vstd::prelude::*;

verus! {

/// `r` failed with the WKT error whose message is `m`.
pub open spec fn wkt_fails<T>(r: crate::error::Result<T>, m: Seq<char>) -> bool {
    r matches Err(e) && e.fault() == Fault::Wkt(m)
}

/// `too many <what>`
pub open spec fn too_many(what: Seq<char>) -> Seq<char> {
    "too many "@ + what
}

/// No number after whitespace from `p`.
pub open spec fn e_num(s: Seq<char>, p: int) -> Seq<char> {
    let q = skip_ws(s, p);
    "expected number"@ + at_pos(s, q) + ", got "@ + snippet_debug(s, q, 10)
}

/// No `c` after whitespace from `p`.
pub open spec fn e_char(s: Seq<char>, p: int, c: char) -> Seq<char> {
    expected_char_message(s, skip_ws(s, p), c)
}

/// Neither `,` nor `)` after whitespace from `p`.
pub open spec fn e_sep(s: Seq<char>, p: int) -> Seq<char> {
    let q = skip_ws(s, p);
    "expected ',' or ')'"@ + at_pos(s, q) + ", got "@ + got_char(s, q)
}

/// `EMPTY` followed by a letter.
pub open spec fn e_try_empty(s: Seq<char>, p: int) -> Seq<char> {
    "expected delimiter after EMPTY"@ + at_pos(s, skip_ws(s, p) + 5)
}

/// Neither `EMPTY` nor `(`.
pub open spec fn e_empty_or_lparen(s: Seq<char>, p: int) -> Seq<char> {
    match p_try_empty(s, p) {
        Some((_, q)) => "expected 'EMPTY' or '('"@ + at_pos(s, q) + ", got "@ + snippet_debug(
            s,
            q,
            10,
        ),
        None => e_try_empty(s, p),
    }
}

/// No geometry keyword.
pub open spec fn e_type_dim(s: Seq<char>, p: int) -> Seq<char> {
    let q = skip_ws(s, p);
    "unknown geometry type"@ + at_pos(s, q) + ": "@ + snippet_debug(s, q, 20)
}

/// Something other than whitespace after the geometry.
pub open spec fn e_eof(s: Seq<char>, p: int) -> Seq<char> {
    let q = skip_ws(s, p);
    "unexpected trailing content"@ + at_pos(s, q) + ": "@ + snippet_debug(s, q, 20)
}

/// A collection member whose dimension is not the collection's.
pub open spec fn e_dim(d: Dimension, md: Dimension) -> Seq<char> {
    "GeometryCollection "@ + dim_label(d) + " member has incompatible dimension "@ + dim_label(md)
}

/// Geometry nested deeper than WKT reading allows.
pub open spec fn e_depth() -> Seq<char> {
    "geometry nesting exceeds maximum depth of 128"@
}

/// Fewer than `n` numbers.
pub open spec fn e_tuple(s: Seq<char>, p: int, n: nat) -> Seq<char>
    decreases n,
{
    if n == 0 {
        seq![]
    } else {
        match p_tuple(s, p, (n - 1) as nat) {
            Some((_, q)) => e_num(s, q),
            None => e_tuple(s, p, (n - 1) as nat),
        }
    }
}

/// A tuple list from `p`, `k` tuples having been read before.
pub open spec fn e_coord_seq(s: Seq<char>, p: int, cs: nat, k: nat) -> Seq<char>
    decreases s.len() - p,
{
    match p_tuple(s, p, cs) {
        None => e_tuple(s, p, cs),
        Some((_, q)) => if k >= u32::MAX {
            too_many("coordinate tuples"@)
        } else {
            match p_sep(s, q) {
                None => e_sep(s, q),
                Some((true, q2)) => if p < q2 <= s.len() {
                    e_coord_seq(s, q2, cs, k + 1)
                } else {
                    seq![]
                },
                Some((false, _)) => seq![],
            }
        },
    }
}

/// A ring list from `p`, `k` rings having been read before.
pub open spec fn e_rings(s: Seq<char>, p: int, cs: nat, k: nat) -> Seq<char>
    decreases s.len() - p,
{
    match p_char(s, p, '(') {
        None => e_char(s, p, '('),
        Some((_, q)) => match bounded(p_coord_seq(s, q, cs)) {
            None => e_coord_seq(s, q, cs, 0),
            Some((_, q1)) => if k >= u32::MAX {
                too_many("polygon rings"@)
            } else {
                match p_sep(s, q1) {
                    None => e_sep(s, q1),
                    Some((true, q2)) => if p < q2 <= s.len() {
                        e_rings(s, q2, cs, k + 1)
                    } else {
                        seq![]
                    },
                    Some((false, _)) => seq![],
                }
            },
        },
    }
}

/// One MultiPoint member.
pub open spec fn e_mp_member(s: Seq<char>, p: int, cs: nat) -> Seq<char> {
    match p_try_empty_or_lparen(s, p) {
        None => e_try_empty(s, p),
        Some((o, q)) => if o == Opening::Empty {
            seq![]
        } else if o == Opening::Lparen {
            match p_tuple(s, q, cs) {
                None => e_tuple(s, q, cs),
                Some((_, q1)) => e_char(s, q1, ')'),
            }
        } else {
            e_tuple(s, q, cs)
        },
    }
}

/// MultiPoint members from `p`, `k` members having been read before.
pub open spec fn e_mp_members(s: Seq<char>, p: int, cs: nat, k: nat) -> Seq<char>
    decreases s.len() - p,
{
    match p_mp_member(s, p, cs) {
        None => e_mp_member(s, p, cs),
        Some((_, q)) => if k >= u32::MAX {
            too_many("MultiPoint members"@)
        } else {
            match p_sep(s, q) {
                None => e_sep(s, q),
                Some((true, q2)) => if p < q2 <= s.len() {
                    e_mp_members(s, q2, cs, k + 1)
                } else {
                    seq![]
                },
                Some((false, _)) => seq![],
            }
        },
    }
}

/// One MultiLineString member.
pub open spec fn e_mls_member(s: Seq<char>, p: int, cs: nat) -> Seq<char> {
    match p_empty_or_lparen(s, p) {
        None => e_empty_or_lparen(s, p),
        Some((true, _)) => seq![],
        Some((false, q)) => e_coord_seq(s, q, cs, 0),
    }
}

/// MultiLineString members from `p`, `k` members having been read before.
pub open spec fn e_mls_members(s: Seq<char>, p: int, cs: nat, k: nat) -> Seq<char>
    decreases s.len() - p,
{
    match p_mls_member(s, p, cs) {
        None => e_mls_member(s, p, cs),
        Some((_, q)) => if k >= u32::MAX {
            too_many("MultiLineString members"@)
        } else {
            match p_sep(s, q) {
                None => e_sep(s, q),
                Some((true, q2)) => if p < q2 <= s.len() {
                    e_mls_members(s, q2, cs, k + 1)
                } else {
                    seq![]
                },
                Some((false, _)) => seq![],
            }
        },
    }
}

/// One MultiPolygon member.
pub open spec fn e_mpoly_member(s: Seq<char>, p: int, cs: nat) -> Seq<char> {
    match p_empty_or_lparen(s, p) {
        None => e_empty_or_lparen(s, p),
        Some((true, _)) => seq![],
        Some((false, q)) => e_rings(s, q, cs, 0),
    }
}

/// MultiPolygon members from `p`, `k` members having been read before.
pub open spec fn e_mpoly_members(s: Seq<char>, p: int, cs: nat, k: nat) -> Seq<char>
    decreases s.len() - p,
{
    match p_mpoly_member(s, p, cs) {
        None => e_mpoly_member(s, p, cs),
        Some((_, q)) => if k >= u32::MAX {
            too_many("MultiPolygon members"@)
        } else {
            match p_sep(s, q) {
                None => e_sep(s, q),
                Some((true, q2)) => if p < q2 <= s.len() {
                    e_mpoly_members(s, q2, cs, k + 1)
                } else {
                    seq![]
                },
                Some((false, _)) => seq![],
            }
        },
    }
}

/// The body of a geometry that is not a collection.
pub open spec fn e_simple_body(s: Seq<char>, p: int, t: GeomType, d: Dimension) -> Seq<char> {
    let cs = dim_size(d);
    match p_empty_or_lparen(s, p) {
        None => e_empty_or_lparen(s, p),
        Some((true, _)) => seq![],
        Some((false, q)) => match t {
            GeomType::Point => match p_tuple(s, q, cs) {
                None => e_tuple(s, q, cs),
                Some((_, q1)) => e_char(s, q1, ')'),
            },
            GeomType::LineString => e_coord_seq(s, q, cs, 0),
            GeomType::Polygon => e_rings(s, q, cs, 0),
            GeomType::MultiPoint => e_mp_members(s, q, cs, 0),
            GeomType::MultiLineString => e_mls_members(s, q, cs, 0),
            GeomType::MultiPolygon => e_mpoly_members(s, q, cs, 0),
            GeomType::GeometryCollection => seq![],
        },
    }
}

/// One geometry at nesting depth `depth`.
pub open spec fn e_geometry(s: Seq<char>, p: int, depth: nat) -> Seq<char>
    decreases s.len() - p, 1nat,
{
    if depth >= 128 {
        e_depth()
    } else {
        match p_type_dim(s, p) {
            None => e_type_dim(s, p),
            Some(((t, d), q)) => if t == GeomType::GeometryCollection {
                match p_empty_or_lparen(s, q) {
                    None => e_empty_or_lparen(s, q),
                    Some((true, _)) => seq![],
                    Some((false, q1)) => if p < q1 <= s.len() {
                        e_members(s, q1, d, depth, 0)
                    } else {
                        seq![]
                    },
                }
            } else {
                e_simple_body(s, q, t, d)
            },
        }
    }
}

/// Collection members from `p`, `k` members having been read before.
pub open spec fn e_members(s: Seq<char>, p: int, d: Dimension, depth: nat, k: nat) -> Seq<char>
    decreases s.len() - p, 2nat,
{
    match p_geometry(s, p, depth + 1) {
        None => e_geometry(s, p, depth + 1),
        Some((g, q)) => if d != Dimension::XY && shape_dim(g) != d {
            e_dim(d, shape_dim(g))
        } else if k >= u32::MAX {
            too_many("GeometryCollection members"@)
        } else {
            match p_sep(s, q) {
                None => e_sep(s, q),
                Some((true, q2)) => if p < q2 <= s.len() {
                    e_members(s, q2, d, depth, k + 1)
                } else {
                    seq![]
                },
                Some((false, _)) => seq![],
            }
        },
    }
}

/// The message of the error that parsing the whole text `s` gives.
pub open spec fn e_parse(s: Seq<char>) -> Seq<char> {
    match p_srid(s, 0) {
        None => srid_message(s, skip_ws(s, 0)),
        Some((_, q)) => match p_geometry(s, q, 0) {
            None => e_geometry(s, q, 0),
            Some((_, e)) => e_eof(s, e),
        },
    }
}

/// The error that converting WKT text `s` that does not parse gives.
pub open spec fn wkt_fault(s: Seq<char>) -> Fault {
    Fault::Wkt(e_parse(s))
}

} // verus!
