//! What the WKT grammar guarantees of the geometries it reads, and the laws
//! that follow for the conversions of WKT text.
use crate::laws::{
    encodable, law_decode_encode, point_ok, points_ok, polys_sized, rings_sized, tuples_sized,
};
use crate::model::{
    all_nan, encode, flatten, flatten_bits, is_nan, num_payloads, Cell, Shape, shape_dim,
};
use crate::text::{lemma_num_end_bounds, lemma_skip_ws_bounds, skip_ws};
use crate::types::{dim_size, keyword_of, out_srid, Dimension, GeomType, SridMode};
use crate::wkb_to_wkt::reader::decode;
use crate::wkt_to_wkb::grammar::{
    bounded, keyword_at, p_char, p_coord_seq, p_dim, p_empty_or_lparen, p_geometry, p_members,
    p_mls_member, p_mls_members, p_mp_member, p_mp_members, p_mpoly_member, p_mpoly_members, p_num,
    p_rings, p_sep, p_simple_body, p_srid, p_try_empty, p_try_empty_or_lparen, p_tuple, p_type_dim,
    parse_wkt, prefix_ci,
};
use crate::wkt_to_wkb::wkt_result;
use crate::error::Fault;
use crate::render_laws::{rings_filled, wkt_readable};
use vstd::prelude::*;

verus! {

/// Every value is below `n`.
pub open spec fn below(c: Seq<u64>, n: int) -> bool {
    forall|i: int| 0 <= i < c.len() ==> (#[trigger] c[i] as int) < n
}

/// Texts short enough that no lexeme position is the bit pattern of a NaN.
pub open spec fn short_text(s: Seq<char>) -> bool {
    s.len() < 0x10_0000_0000_0000
}

pub proof fn lemma_below_not_nan(c: Seq<u64>, n: int)
    requires
        n <= 0x10_0000_0000_0000,
        c.len() > 0,
        below(c, n),
    ensures
        !all_nan(c),
{
    assert(!is_nan(c[0]));
}

pub proof fn lemma_p_num(s: Seq<char>, p: int)
    requires
        0 <= p <= s.len(),
        short_text(s),
    ensures
        p_num(s, p) matches Some((v, e)) ==> p <= v < e <= s.len(),
{
    lemma_skip_ws_bounds(s, p);
    lemma_num_end_bounds(s, skip_ws(s, p));
}

pub proof fn lemma_p_char(s: Seq<char>, p: int, c: char)
    requires
        0 <= p <= s.len(),
    ensures
        p_char(s, p, c) matches Some((_, e)) ==> p < e <= s.len(),
        p_sep(s, p) matches Some((_, e)) ==> p < e <= s.len(),
        p_try_empty(s, p) matches Some((_, e)) ==> p <= e <= s.len(),
        p_empty_or_lparen(s, p) matches Some((_, e)) ==> p <= e <= s.len(),
        p_try_empty_or_lparen(s, p) matches Some((_, e)) ==> p <= e <= s.len(),
{
    lemma_skip_ws_bounds(s, p);
}

pub proof fn lemma_p_tuple(s: Seq<char>, p: int, n: nat)
    requires
        0 <= p <= s.len(),
        short_text(s),
    ensures
        p_tuple(s, p, n) matches Some((c, e)) ==> c.len() == n && below(c, s.len() as int) && p
            <= e <= s.len(),
    decreases n,
{
    if n > 0 {
        lemma_p_tuple(s, p, (n - 1) as nat);
        match p_tuple(s, p, (n - 1) as nat) {
            Some((c, q)) => {
                lemma_p_num(s, q);
            },
            None => {},
        }
    }
}

pub proof fn lemma_p_coord_seq(s: Seq<char>, p: int, cs: nat)
    requires
        0 <= p <= s.len(),
        short_text(s),
    ensures
        p_coord_seq(s, p, cs) matches Some((pts, e)) ==> tuples_sized(pts, cs) && p <= e <= s.len(),
    decreases s.len() - p,
{
    lemma_p_tuple(s, p, cs);
    match p_tuple(s, p, cs) {
        Some((c, q)) => {
            lemma_p_char(s, q, ')');
            match p_sep(s, q) {
                Some((true, q2)) => {
                    if p < q2 <= s.len() {
                        lemma_p_coord_seq(s, q2, cs);
                        match p_coord_seq(s, q2, cs) {
                            Some((rest, e)) => {
                                assert forall|i: int| 0 <= i < (seq![c] + rest).len() implies (#[trigger] (
                                seq![c] + rest)[i]).len() == cs by {
                                    if i > 0 {
                                        assert((seq![c] + rest)[i] == rest[i - 1]);
                                    }
                                }
                            },
                            None => {},
                        }
                    }
                },
                _ => {},
            }
        },
        None => {},
    }
}

pub proof fn lemma_p_rings(s: Seq<char>, p: int, cs: nat)
    requires
        0 <= p <= s.len(),
        short_text(s),
    ensures
        p_rings(s, p, cs) matches Some((rs, e)) ==> rings_sized(rs, cs) && p <= e <= s.len(),
    decreases s.len() - p,
{
    lemma_p_char(s, p, '(');
    match p_char(s, p, '(') {
        Some((_, q)) => {
            lemma_p_coord_seq(s, q, cs);
            match bounded(p_coord_seq(s, q, cs)) {
                Some((ring, q1)) => {
                    lemma_p_char(s, q1, ')');
                    match p_sep(s, q1) {
                        Some((true, q2)) => {
                            if p < q2 <= s.len() {
                                lemma_p_rings(s, q2, cs);
                                match p_rings(s, q2, cs) {
                                    Some((rest, e)) => {
                                        assert forall|i: int|
                                            0 <= i < (seq![ring] + rest).len() implies tuples_sized(
                                            #[trigger] (seq![ring] + rest)[i],
                                            cs,
                                        ) && (seq![ring] + rest)[i].len() <= u32::MAX by {
                                            if i > 0 {
                                                assert((seq![ring] + rest)[i] == rest[i - 1]);
                                            }
                                        }
                                    },
                                    None => {},
                                }
                            }
                        },
                        _ => {},
                    }
                },
                None => {},
            }
        },
        None => {},
    }
}

pub proof fn lemma_p_mp_member(s: Seq<char>, p: int, cs: nat)
    requires
        0 <= p <= s.len(),
        short_text(s),
    ensures
        p_mp_member(s, p, cs) matches Some((m, e)) ==> (m.len() == 0 || (m.len() == cs && below(
            m,
            s.len() as int,
        ))) && p <= e <= s.len(),
{
    lemma_p_char(s, p, '(');
    match p_try_empty_or_lparen(s, p) {
        Some((k, q)) => {
            lemma_p_tuple(s, q, cs);
            match p_tuple(s, q, cs) {
                Some((c, q1)) => {
                    lemma_p_char(s, q1, ')');
                },
                None => {},
            }
        },
        None => {},
    }
}

pub proof fn lemma_p_mp_members(s: Seq<char>, p: int, dim: Dimension)
    requires
        0 <= p <= s.len(),
        short_text(s),
    ensures
        p_mp_members(s, p, dim_size(dim)) matches Some((ms, e)) ==> points_ok(ms, dim) && p <= e
            <= s.len(),
    decreases s.len() - p,
{
    let cs = dim_size(dim);
    lemma_p_mp_member(s, p, cs);
    match p_mp_member(s, p, cs) {
        Some((m, q)) => {
            if m.len() > 0 {
                lemma_below_not_nan(m, s.len() as int);
            }
            assert(point_ok(m, dim));
            lemma_p_char(s, q, ')');
            match p_sep(s, q) {
                Some((true, q2)) => {
                    if p < q2 <= s.len() {
                        lemma_p_mp_members(s, q2, dim);
                        match p_mp_members(s, q2, cs) {
                            Some((rest, e)) => {
                                assert forall|i: int| 0 <= i < (seq![m] + rest).len() implies point_ok(
                                    #[trigger] (seq![m] + rest)[i],
                                    dim,
                                ) by {
                                    if i > 0 {
                                        assert((seq![m] + rest)[i] == rest[i - 1]);
                                    }
                                }
                            },
                            None => {},
                        }
                    }
                },
                _ => {},
            }
        },
        None => {},
    }
}

pub proof fn lemma_p_mls_members(s: Seq<char>, p: int, cs: nat)
    requires
        0 <= p <= s.len(),
        short_text(s),
    ensures
        p_mls_members(s, p, cs) matches Some((ms, e)) ==> rings_sized(ms, cs) && p <= e <= s.len(),
    decreases s.len() - p,
{
    lemma_p_char(s, p, '(');
    match p_mls_member(s, p, cs) {
        Some((m, q)) => {
            match p_empty_or_lparen(s, p) {
                Some((false, q0)) => {
                    lemma_p_coord_seq(s, q0, cs);
                },
                _ => {},
            }
            assert(tuples_sized(m, cs) && m.len() <= u32::MAX);
            lemma_p_char(s, q, ')');
            match p_sep(s, q) {
                Some((true, q2)) => {
                    if p < q2 <= s.len() {
                        lemma_p_mls_members(s, q2, cs);
                        match p_mls_members(s, q2, cs) {
                            Some((rest, e)) => {
                                assert forall|i: int|
                                    0 <= i < (seq![m] + rest).len() implies tuples_sized(
                                    #[trigger] (seq![m] + rest)[i],
                                    cs,
                                ) && (seq![m] + rest)[i].len() <= u32::MAX by {
                                    if i > 0 {
                                        assert((seq![m] + rest)[i] == rest[i - 1]);
                                    }
                                }
                            },
                            None => {},
                        }
                    }
                },
                _ => {},
            }
        },
        None => {},
    }
}

pub proof fn lemma_p_mpoly_members(s: Seq<char>, p: int, cs: nat)
    requires
        0 <= p <= s.len(),
        short_text(s),
    ensures
        p_mpoly_members(s, p, cs) matches Some((ms, e)) ==> polys_sized(ms, cs) && p <= e <= s.len(),
    decreases s.len() - p,
{
    lemma_p_char(s, p, '(');
    match p_mpoly_member(s, p, cs) {
        Some((m, q)) => {
            match p_empty_or_lparen(s, p) {
                Some((false, q0)) => {
                    lemma_p_rings(s, q0, cs);
                },
                _ => {},
            }
            assert(rings_sized(m, cs) && m.len() <= u32::MAX);
            lemma_p_char(s, q, ')');
            match p_sep(s, q) {
                Some((true, q2)) => {
                    if p < q2 <= s.len() {
                        lemma_p_mpoly_members(s, q2, cs);
                        match p_mpoly_members(s, q2, cs) {
                            Some((rest, e)) => {
                                assert forall|i: int|
                                    0 <= i < (seq![m] + rest).len() implies rings_sized(
                                    #[trigger] (seq![m] + rest)[i],
                                    cs,
                                ) && (seq![m] + rest)[i].len() <= u32::MAX by {
                                    if i > 0 {
                                        assert((seq![m] + rest)[i] == rest[i - 1]);
                                    }
                                }
                            },
                            None => {},
                        }
                    }
                },
                _ => {},
            }
        },
        None => {},
    }
}

pub proof fn lemma_p_type_dim(s: Seq<char>, p: int)
    requires
        0 <= p <= s.len(),
    ensures
        p_type_dim(s, p) matches Some((_, e)) ==> p <= e <= s.len(),
{
    lemma_skip_ws_bounds(s, p);
    let q = skip_ws(s, p);
    match keyword_at(s, q) {
        Some(t) => {
            assert(crate::wkt_to_wkb::grammar::matches_word(s, q, keyword_of(t)));
            let k = q + keyword_of(t).len();
            assert(k <= s.len());
            if 0 <= k < s.len() && crate::text::is_ascii_ws(s[k]) {
                lemma_skip_ws_bounds(s, k);
            }
            let (d, e) = p_dim(s, k);
            assert(k <= e <= s.len());
        },
        None => {},
    }
}

pub proof fn lemma_p_simple_body(s: Seq<char>, p: int, t: GeomType, d: Dimension, depth: nat)
    requires
        0 <= p <= s.len(),
        short_text(s),
        depth < 128,
        t != GeomType::GeometryCollection,
    ensures
        p_simple_body(s, p, t, d) matches Some((g, e)) ==> encodable(g, depth) && p <= e <= s.len()
            && shape_dim(g) == d,
{
    let cs = dim_size(d);
    lemma_p_char(s, p, '(');
    match p_empty_or_lparen(s, p) {
        Some((false, q)) => {
            match t {
                GeomType::Point => {
                    lemma_p_tuple(s, q, cs);
                    match p_tuple(s, q, cs) {
                        Some((c, q1)) => {
                            lemma_p_char(s, q1, ')');
                            lemma_below_not_nan(c, s.len() as int);
                        },
                        None => {},
                    }
                },
                GeomType::LineString => lemma_p_coord_seq(s, q, cs),
                GeomType::Polygon => lemma_p_rings(s, q, cs),
                GeomType::MultiPoint => lemma_p_mp_members(s, q, d),
                GeomType::MultiLineString => lemma_p_mls_members(s, q, cs),
                GeomType::MultiPolygon => lemma_p_mpoly_members(s, q, cs),
                GeomType::GeometryCollection => {},
            }
        },
        _ => {},
    }
}

pub proof fn lemma_p_geometry(s: Seq<char>, p: int, depth: nat)
    requires
        0 <= p <= s.len(),
        short_text(s),
    ensures
        p_geometry(s, p, depth) matches Some((g, e)) ==> encodable(g, depth) && p <= e <= s.len(),
    decreases s.len() - p, 1nat,
{
    if depth < 128 {
        lemma_p_type_dim(s, p);
        match p_type_dim(s, p) {
            Some(((t, d), q)) => {
                if t == GeomType::GeometryCollection {
                    lemma_p_char(s, q, '(');
                    match p_empty_or_lparen(s, q) {
                        Some((false, q1)) => {
                            if p < q1 <= s.len() {
                                lemma_p_members(s, q1, d, depth);
                            }
                        },
                        _ => {},
                    }
                } else {
                    lemma_p_simple_body(s, q, t, d, depth);
                }
            },
            None => {},
        }
    }
}

pub proof fn lemma_p_members(s: Seq<char>, p: int, d: Dimension, depth: nat)
    requires
        0 <= p <= s.len(),
        short_text(s),
    ensures
        p_members(s, p, d, depth) matches Some((ms, e)) ==> (forall|i: int|
            0 <= i < ms.len() ==> encodable(#[trigger] ms[i], depth + 1)) && p <= e <= s.len(),
    decreases s.len() - p, 2nat,
{
    lemma_p_geometry(s, p, depth + 1);
    match p_geometry(s, p, depth + 1) {
        Some((g, q)) => {
            lemma_p_char(s, q, ')');
            match p_sep(s, q) {
                Some((true, q2)) => {
                    if p < q2 <= s.len() {
                        lemma_p_members(s, q2, d, depth);
                        match p_members(s, q2, d, depth) {
                            Some((rest, e)) => {
                                assert forall|i: int| 0 <= i < (seq![g] + rest).len() implies encodable(
                                    #[trigger] (seq![g] + rest)[i],
                                    depth + 1,
                                ) by {
                                    if i > 0 {
                                        assert((seq![g] + rest)[i] == rest[i - 1]);
                                    }
                                }
                            },
                            None => {},
                        }
                    }
                },
                _ => {},
            }
        },
        None => {},
    }
}

/// Every geometry that WKT text holds can be written as WKB and read back.
pub proof fn lemma_parsed_encodable(s: Seq<char>)
    requires
        short_text(s),
        parse_wkt(s) is Some,
    ensures
        encodable(parse_wkt(s).unwrap().0, 0),
        parse_wkt(s).unwrap().1 matches Some(n) ==> n > 0,
{
    lemma_skip_ws_bounds(s, 0);
    let (sr, q) = p_srid(s, 0).unwrap();
    assert(0 <= q <= s.len()) by {
        lemma_skip_ws_bounds(s, 0);
        if prefix_ci(s, skip_ws(s, 0), crate::wkt_to_wkb::grammar::srid_word()) {
            lemma_digit_bounds(s);
        }
    }
    lemma_p_geometry(s, q, 0);
}

/// Positions after an SRID prefix stay within the text.
pub proof fn lemma_digit_bounds(s: Seq<char>)
    ensures
        p_srid(s, 0) matches Some((_, q)) ==> 0 <= q <= s.len(),
{
    lemma_skip_ws_bounds(s, 0);
    let q = skip_ws(s, 0);
    if prefix_ci(s, q, crate::wkt_to_wkb::grammar::srid_word()) {
        let a = q + 5;
        let neg = a < s.len() && s[a] == '-';
        let b = if neg {
            a + 1
        } else {
            a
        };
        crate::wkt_to_wkb::tokenizer::lemma_digit_end_bounds(s, b);
        let e = crate::wkt_to_wkb::grammar::digit_end(s, b);
        lemma_skip_ws_bounds(s, e);
    }
}

/// Bytes written with each number cell's own payload as its value.
pub proof fn lemma_flatten_payloads(c: Seq<Cell>, vals: Seq<u64>)
    requires
        vals.len() >= crate::model::num_count(c),
        vals.take(crate::model::num_count(c) as int) == num_payloads(c),
    ensures
        flatten(c, vals) == flatten_bits(c),
    decreases c.len(),
{
    if c.len() > 0 {
        let c0 = c.drop_last();
        lemma_payloads_len(c0);
        lemma_payloads_len(c);
        let k = crate::model::num_count(c0);
        assert(vals.take(k as int) =~= vals.take(crate::model::num_count(c) as int).take(k as int));
        assert(num_payloads(c).take(k as int) =~= num_payloads(c0));
        lemma_flatten_payloads(c0, vals);
        match c.last() {
            crate::model::Cell::Num(v) => {
                assert(vals[k as int] == num_payloads(c)[k as int]);
            },
            crate::model::Cell::Byte(_) => {},
        }
    }
}

pub proof fn lemma_payloads_len(c: Seq<Cell>)
    ensures
        num_payloads(c).len() == crate::model::num_count(c),
    decreases c.len(),
{
    if c.len() > 0 {
        lemma_payloads_len(c.drop_last());
    }
}

/// The WKB that WKT text converts to, each number written as the position of
/// its lexeme, decodes back to the geometry the text holds with the SRID that
/// the mode chooses: reading WKB inverts parsing WKT into it.
pub proof fn law_wkt_to_wkb_decodes_back(s: Seq<char>, mode: SridMode)
    requires
        short_text(s),
        parse_wkt(s) is Some,
    ensures
        ({
            let (g, sr) = parse_wkt(s).unwrap();
            let cells = wkt_result(s, mode).unwrap().0;
            &&& decode(flatten_bits(cells)) == Ok::<(Shape, Option<i32>), Fault>(
                (g, out_srid(mode, sr)),
            )
            &&& decode(flatten(cells, num_payloads(cells))) == Ok::<(Shape, Option<i32>), Fault>(
                (g, out_srid(mode, sr)),
            )
        }),
{
    let (g, sr) = parse_wkt(s).unwrap();
    lemma_parsed_encodable(s);
    let srid = out_srid(mode, sr);
    law_decode_encode(g, srid);
    let cells = encode(g, srid);
    lemma_payloads_len(cells);
    assert(num_payloads(cells).take(crate::model::num_count(cells) as int) =~= num_payloads(cells));
    lemma_flatten_payloads(cells, num_payloads(cells));
}

// ---------------------------------------------------------------- readable geometries

/// A tuple list read up to `)` holds at least one tuple.
pub proof fn lemma_p_coord_seq_filled(s: Seq<char>, p: int, cs: nat)
    ensures
        p_coord_seq(s, p, cs) matches Some((pts, _)) ==> pts.len() >= 1,
{
    match p_tuple(s, p, cs) {
        Some((c, q)) => match p_sep(s, q) {
            Some((true, q2)) => {
                if p < q2 <= s.len() {
                    match p_coord_seq(s, q2, cs) {
                        Some((rest, e)) => assert((seq![c] + rest).len() >= 1),
                        None => {},
                    }
                }
            },
            _ => {},
        },
        None => {},
    }
}

/// Every ring of a ring list holds a point.
pub proof fn lemma_p_rings_filled(s: Seq<char>, p: int, cs: nat)
    ensures
        p_rings(s, p, cs) matches Some((rs, _)) ==> rings_filled(rs),
    decreases s.len() - p,
{
    match p_char(s, p, '(') {
        Some((_, q)) => {
            lemma_p_coord_seq_filled(s, q, cs);
            match bounded(p_coord_seq(s, q, cs)) {
                Some((ring, q1)) => match p_sep(s, q1) {
                    Some((true, q2)) => {
                        if p < q2 <= s.len() {
                            lemma_p_rings_filled(s, q2, cs);
                            match p_rings(s, q2, cs) {
                                Some((rest, e)) => {
                                    assert forall|i: int| 0 <= i < (seq![ring] + rest).len() implies (
                                    #[trigger] (seq![ring] + rest)[i]).len() >= 1 by {
                                        if i > 0 {
                                            assert((seq![ring] + rest)[i] == rest[i - 1]);
                                        }
                                    }
                                },
                                None => {},
                            }
                        }
                    },
                    _ => {},
                },
                None => {},
            }
        },
        None => {},
    }
}

/// Every ring of every polygon of a MultiPolygon member list holds a point.
pub proof fn lemma_p_mpoly_members_filled(s: Seq<char>, p: int, cs: nat)
    ensures
        p_mpoly_members(s, p, cs) matches Some((ms, _)) ==> forall|i: int|
            0 <= i < ms.len() ==> rings_filled(#[trigger] ms[i]),
    decreases s.len() - p,
{
    match p_empty_or_lparen(s, p) {
        Some((false, q)) => lemma_p_rings_filled(s, q, cs),
        _ => {},
    }
    match p_mpoly_member(s, p, cs) {
        Some((m, q)) => {
            assert(rings_filled(m));
            match p_sep(s, q) {
                Some((true, q2)) => {
                    if p < q2 <= s.len() {
                        lemma_p_mpoly_members_filled(s, q2, cs);
                        match p_mpoly_members(s, q2, cs) {
                            Some((rest, e)) => {
                                assert forall|i: int| 0 <= i < (seq![m] + rest).len() implies rings_filled(
                                    #[trigger] (seq![m] + rest)[i],
                                ) by {
                                    if i > 0 {
                                        assert((seq![m] + rest)[i] == rest[i - 1]);
                                    }
                                }
                            },
                            None => {},
                        }
                    }
                },
                _ => {},
            }
        },
        None => {},
    }
}

/// Every geometry that WKT text holds is one whose WKT reads back.
pub proof fn lemma_p_geometry_readable(s: Seq<char>, p: int, depth: nat)
    ensures
        p_geometry(s, p, depth) matches Some((g, _)) ==> wkt_readable(g),
    decreases s.len() - p, 1nat,
{
    if depth < 128 {
        match p_type_dim(s, p) {
            Some(((t, d), q)) => {
                if t == GeomType::GeometryCollection {
                    match p_empty_or_lparen(s, q) {
                        Some((false, q1)) => {
                            if p < q1 <= s.len() {
                                lemma_p_members_readable(s, q1, d, depth);
                            }
                        },
                        _ => {},
                    }
                } else {
                    let cs = dim_size(d);
                    match p_empty_or_lparen(s, q) {
                        Some((false, q1)) => {
                            lemma_p_rings_filled(s, q1, cs);
                            lemma_p_mpoly_members_filled(s, q1, cs);
                        },
                        _ => {},
                    }
                }
            },
            None => {},
        }
    }
}

pub proof fn lemma_p_members_readable(s: Seq<char>, p: int, d: Dimension, depth: nat)
    ensures
        p_members(s, p, d, depth) matches Some((ms, _)) ==> forall|i: int|
            0 <= i < ms.len() ==> (d == Dimension::XY || shape_dim(#[trigger] ms[i]) == d)
                && wkt_readable(ms[i]),
    decreases s.len() - p, 2nat,
{
    lemma_p_geometry_readable(s, p, depth + 1);
    match p_geometry(s, p, depth + 1) {
        Some((g, q)) => {
            match p_sep(s, q) {
                Some((true, q2)) => {
                    if p < q2 <= s.len() {
                        lemma_p_members_readable(s, q2, d, depth);
                        match p_members(s, q2, d, depth) {
                            Some((rest, e)) => if d == Dimension::XY || shape_dim(g) == d {
                                assert forall|i: int| 0 <= i < (seq![g] + rest).len() implies (d
                                    == Dimension::XY || shape_dim(#[trigger] (seq![g] + rest)[i]) == d)
                                    && wkt_readable((seq![g] + rest)[i]) by {
                                    if i > 0 {
                                        assert((seq![g] + rest)[i] == rest[i - 1]);
                                    }
                                }
                            },
                            None => {},
                        }
                    }
                },
                _ => {},
            }
        },
        None => {},
    }
}

/// Every geometry that WKT text holds is one whose WKT reads back.
pub proof fn lemma_parsed_readable(s: Seq<char>)
    requires
        parse_wkt(s) is Some,
    ensures
        wkt_readable(parse_wkt(s).unwrap().0),
{
    let (sr, q) = p_srid(s, 0).unwrap();
    lemma_p_geometry_readable(s, q, 0);
}

} // verus!
