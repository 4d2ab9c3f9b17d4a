//! Laws on WKT that the library writes: text rendered from a geometry, its
//! numbers formatted as number lexemes, parses back to that geometry.
use crate::error::Fault;
use crate::laws::{encodable, law_decode_encode, point_ok, polys_sized, rings_sized, tuples_sized};
use crate::model::{
    comma_sep, coord_count, coords_of, empty_word, encode, flatten, lit, num_payloads, r_body,
    r_empty, r_geom_body, r_members, r_mls_member, r_mls_members, r_mp_member, r_mp_members,
    r_mpoly_member, r_mpoly_members, r_paren, r_ring, r_rings, r_tuple, r_tuples, render,
    render_text, shape_dim, shape_type, Shape, WktPart,
};
use crate::text::{
    all_digits, digit_char, digits_value, is_digit, is_num_char, is_ws, lexeme, num_end, skip_ws,
    spec_decimal,
};
use crate::types::{dim_size, dim_tag, keyword_of, Dimension, GeomType, SridMode};
use crate::value_laws::{map_members, map_polys, map_rings, map_shape, map_tuple, map_tuples};
use crate::wkb_to_wkt::reader::decode;
use crate::wkt_to_wkb::grammar::{
    digit_end, empty_kw, keyword_at, matches_word, p_char, p_dim, p_empty_or_lparen, p_geometry,
    p_members, p_num, p_sep, p_srid, p_try_empty, p_try_empty_or_lparen, p_type_dim, parse_wkt,
    prefix_ci, srid_word, Opening,
};
use crate::wkt_to_wkb::wkt_result;
use vstd::prelude::*;

verus! {

// ---------------------------------------------------------------- texts of parts

/// The text of parts, each coordinate `v` written as `fmt(v)`.
pub open spec fn text_of(p: Seq<WktPart>, fmt: spec_fn(u64) -> Seq<char>) -> Seq<char> {
    render_text(p, coords_of(p).map_values(fmt))
}

/// Every character is ASCII.
pub open spec fn ascii(w: Seq<char>) -> bool {
    forall|i: int| 0 <= i < w.len() ==> (#[trigger] w[i] as u32) < 128
}

/// A number lexeme as the parser delimits it: one or more number characters.
pub open spec fn lexeme_ok(x: Seq<char>) -> bool {
    x.len() > 0 && forall|i: int| 0 <= i < x.len() ==> is_num_char(#[trigger] x[i])
}

/// The characters `x` stand in `s` at position `p`.
pub open spec fn stands(s: Seq<char>, p: int, x: Seq<char>) -> bool {
    0 <= p && p + x.len() <= s.len() && s.subrange(p, p + x.len()) == x
}

pub proof fn lemma_render_text_prefix(p: Seq<WktPart>, a: Seq<Seq<char>>, b: Seq<Seq<char>>)
    requires
        forall|i: int| 0 <= i < coord_count(p) ==> #[trigger] a[i] == b[i],
    ensures
        render_text(p, a) == render_text(p, b),
    decreases p.len(),
{
    if p.len() > 0 {
        let p0 = p.drop_last();
        assert forall|i: int| 0 <= i < coord_count(p0) implies #[trigger] a[i] == b[i] by {
            assert(a[i] == b[i]);
        }
        lemma_render_text_prefix(p0, a, b);
    }
}

pub proof fn lemma_coords_add(a: Seq<WktPart>, b: Seq<WktPart>)
    ensures
        coords_of(a + b) == coords_of(a) + coords_of(b),
    decreases b.len(),
{
    if b.len() == 0 {
        assert(a + b =~= a);
        assert(coords_of(a) + coords_of(b) =~= coords_of(a));
    } else {
        lemma_coords_add(a, b.drop_last());
        assert((a + b).drop_last() =~= a + b.drop_last());
        assert(coords_of(a + b) =~= coords_of(a) + coords_of(b));
    }
}

/// The text of concatenated parts is the concatenation of their texts.
pub proof fn lemma_text_add(a: Seq<WktPart>, b: Seq<WktPart>, fmt: spec_fn(u64) -> Seq<char>)
    ensures
        text_of(a + b, fmt) == text_of(a, fmt) + text_of(b, fmt),
    decreases b.len(),
{
    if b.len() == 0 {
        assert(a + b =~= a);
        assert(text_of(a, fmt) + text_of(b, fmt) =~= text_of(a, fmt));
    } else {
        let b0 = b.drop_last();
        let ab = a + b;
        assert(ab.drop_last() =~= a + b0);
        lemma_text_add(a, b0, fmt);
        lemma_coords_add(a, b);
        lemma_coords_add(a, b0);
        crate::draft::lemma_coords_len(a + b0);
        crate::draft::lemma_coords_len(b0);
        crate::draft::lemma_coords_len(a);
        let fa = coords_of(ab).map_values(fmt);
        assert forall|i: int| 0 <= i < coord_count(a + b0) implies #[trigger] fa[i] == coords_of(
            a + b0,
        ).map_values(fmt)[i] by {}
        lemma_render_text_prefix(a + b0, fa, coords_of(a + b0).map_values(fmt));
        let fb = coords_of(b).map_values(fmt);
        assert(b.drop_last() == b0);
        assert(coords_of(b) == coords_of(b0) + match b.last() {
            WktPart::Coord(v) => seq![v],
            WktPart::Char(_) => seq![],
        });
        assert forall|i: int| 0 <= i < coord_count(b0) implies #[trigger] fb[i] == coords_of(
            b0,
        ).map_values(fmt)[i] by {}
        lemma_render_text_prefix(b0, fb, coords_of(b0).map_values(fmt));
        match b.last() {
            WktPart::Coord(v) => {
                assert(fa[coord_count(a + b0) as int] == fmt(v));
                assert(fb[coord_count(b0) as int] == fmt(v));
            },
            WktPart::Char(_) => {},
        }
        assert(text_of(ab, fmt) =~= text_of(a, fmt) + text_of(b, fmt));
    }
}

/// The text of literal ASCII characters is those characters.
pub proof fn lemma_text_lit(w: Seq<char>, fmt: spec_fn(u64) -> Seq<char>)
    requires
        ascii(w),
    ensures
        text_of(lit(w), fmt) == w,
    decreases w.len(),
{
    if w.len() > 0 {
        let w0 = w.drop_last();
        let c = w.last();
        assert(ascii(w0)) by {
            assert forall|i: int| 0 <= i < w0.len() implies (#[trigger] w0[i] as u32) < 128 by {
                assert(w0[i] == w[i]);
            }
        }
        lemma_text_lit(w0, fmt);
        assert(w0.push(c) =~= w);
        crate::model::lemma_text_push(w0, c);
        lemma_text_add(lit(w0), seq![WktPart::Char(c as u8)], fmt);
        assert(lit(w0) + seq![WktPart::Char(c as u8)] =~= lit(w0).push(WktPart::Char(c as u8)));
        assert((c as u32) < 128);
        lemma_ascii_cast(c);
        let one = seq![WktPart::Char(c as u8)];
        let e = Seq::<WktPart>::empty();
        assert(one.drop_last() =~= e);
        assert(coords_of(e) == Seq::<u64>::empty());
        assert(coords_of(one) =~= Seq::<u64>::empty());
        assert(render_text(e, coords_of(one).map_values(fmt)) == Seq::<char>::empty());
        assert(text_of(one, fmt) =~= seq![c]);
        assert(w0 + seq![c] =~= w);
    }
}

pub proof fn lemma_ascii_cast(c: char)
    requires
        (c as u32) < 128,
    ensures
        ((c as u8) as char) == c,
{
    assert((c as u8) as int == c as int);
}

/// The text of one coordinate is its formatted value.
pub proof fn lemma_text_coord(v: u64, fmt: spec_fn(u64) -> Seq<char>)
    ensures
        text_of(seq![WktPart::Coord(v)], fmt) == fmt(v),
{
    let p = seq![WktPart::Coord(v)];
    let e = Seq::<WktPart>::empty();
    assert(p.drop_last() =~= e);
    assert(coords_of(e) == Seq::<u64>::empty());
    assert(coord_count(e) == 0);
    assert(coords_of(p) =~= seq![v]);
    assert(render_text(e, coords_of(p).map_values(fmt)) == Seq::<char>::empty());
    assert(text_of(p, fmt) =~= fmt(v));
}

// ---------------------------------------------------------------- reading texts back

/// No number character stands at `i`.
pub open spec fn no_num_at(s: Seq<char>, i: int) -> bool {
    !(0 <= i < s.len()) || !is_num_char(s[i])
}

/// Every value is formatted as a number lexeme.
pub open spec fn formats(fmt: spec_fn(u64) -> Seq<char>) -> bool {
    forall|v: u64| lexeme_ok(#[trigger] fmt(v))
}

/// `val` reads back every value `fmt` writes.
pub open spec fn inverts(val: spec_fn(Seq<char>) -> u64, fmt: spec_fn(u64) -> Seq<char>) -> bool {
    forall|v: u64| val(#[trigger] fmt(v)) == v
}

/// The value `val` reads from the text `fmt` writes for a value.
pub open spec fn composed(val: spec_fn(Seq<char>) -> u64, fmt: spec_fn(u64) -> Seq<char>) -> spec_fn(u64) -> u64 {
    |v: u64| val(fmt(v))
}

/// The value of the lexeme at each position of `s`, as `val` reads it.
pub open spec fn read_value(s: Seq<char>, val: spec_fn(Seq<char>) -> u64) -> spec_fn(u64) -> u64 {
    |k: u64| val(lexeme(s, k as int))
}

pub proof fn lemma_stands_split(s: Seq<char>, q: int, a: Seq<char>, b: Seq<char>)
    requires
        stands(s, q, a + b),
    ensures
        stands(s, q, a),
        stands(s, q + a.len(), b),
{
    let w = s.subrange(q, q + a.len() + b.len());
    assert forall|i: int| 0 <= i < a.len() implies #[trigger] s.subrange(q, q + a.len())[i]
        == a[i] by {
        assert(w[i] == (a + b)[i]);
    }
    assert(s.subrange(q, q + a.len()) =~= a);
    assert forall|i: int| 0 <= i < b.len() implies #[trigger] s.subrange(
        q + a.len(),
        q + a.len() + b.len(),
    )[i] == b[i] by {
        assert(w[a.len() + i] == (a + b)[a.len() + i]);
    }
    assert(s.subrange(q + a.len(), q + a.len() + b.len()) =~= b);
}

pub proof fn lemma_stands_join(s: Seq<char>, q: int, a: Seq<char>, b: Seq<char>)
    requires
        stands(s, q, a),
        stands(s, q + a.len(), b),
    ensures
        stands(s, q, a + b),
{
    assert forall|i: int| 0 <= i < (a + b).len() implies #[trigger] s.subrange(q, q + a.len() + b.len())[i]
        == (a + b)[i] by {
        if i < a.len() {
            assert(s.subrange(q, q + a.len())[i] == a[i]);
        } else {
            assert(s.subrange(q + a.len(), q + a.len() + b.len())[i - a.len()] == b[i - a.len()]);
        }
    }
    assert(s.subrange(q, q + a.len() + b.len()) =~= a + b);
}

pub proof fn lemma_stands_at(s: Seq<char>, q: int, x: Seq<char>, i: int)
    requires
        stands(s, q, x),
        0 <= i < x.len(),
    ensures
        s[q + i] == x[i],
{
    assert(s.subrange(q, q + x.len())[i] == s[q + i]);
}

pub proof fn lemma_skip_none(s: Seq<char>, p: int)
    requires
        0 <= p,
        !(p < s.len()) || !is_ws(s[p]),
    ensures
        skip_ws(s, p) == p,
{
}

pub proof fn lemma_skip_one(s: Seq<char>, p: int)
    requires
        0 <= p < s.len(),
        is_ws(s[p]),
        !(p + 1 < s.len()) || !is_ws(s[p + 1]),
    ensures
        skip_ws(s, p) == p + 1,
{
    lemma_skip_none(s, p + 1);
}

pub proof fn lemma_num_end_run(s: Seq<char>, p: int, e: int)
    requires
        0 <= p <= e <= s.len(),
        forall|i: int| p <= i < e ==> is_num_char(#[trigger] s[i]),
        no_num_at(s, e),
    ensures
        num_end(s, p) == e,
    decreases e - p,
{
    if p < e {
        lemma_num_end_run(s, p + 1, e);
    }
}

/// A formatted number read where it stands.
pub proof fn lemma_p_num_at(s: Seq<char>, p: int, q: int, x: Seq<char>)
    requires
        skip_ws(s, p) == q,
        stands(s, q, x),
        lexeme_ok(x),
        no_num_at(s, q + x.len()),
        s.len() <= u64::MAX,
    ensures
        p_num(s, p) == Some(((q as u64), q + x.len())),
        lexeme(s, q) == x,
{
    assert forall|i: int| q <= i < q + x.len() implies is_num_char(#[trigger] s[i]) by {
        lemma_stands_at(s, q, x, i - q);
    }
    lemma_num_end_run(s, q, q + x.len());
}

pub proof fn lemma_lit_space()
    ensures
        lit(seq![' ']) == seq![WktPart::Char(32u8)],
{
    assert(seq![' '].drop_last() =~= Seq::<char>::empty());
    assert((' ' as u8) as int == ' ' as int);
    assert((' ' as u8) == 32u8);
    assert(lit(Seq::<char>::empty()) == Seq::<WktPart>::empty());
    assert(lit(seq![' ']) == lit(Seq::<char>::empty()).push(WktPart::Char(' ' as u8)));
    assert(lit(seq![' ']) =~= seq![WktPart::Char(32u8)]);
}

/// A tuple's text reads back as its values.
pub proof fn lemma_read_tuple_text(
    s: Seq<char>,
    p: int,
    q: int,
    c: Seq<u64>,
    fmt: spec_fn(u64) -> Seq<char>,
    val: spec_fn(Seq<char>) -> u64,
)
    requires
        c.len() >= 1,
        skip_ws(s, p) == q,
        stands(s, q, text_of(r_tuple(c), fmt)),
        no_num_at(s, q + text_of(r_tuple(c), fmt).len()),
        formats(fmt),
        s.len() <= u64::MAX,
    ensures
        crate::wkt_to_wkb::grammar::p_tuple(s, p, c.len()) matches Some((lab, e)) && e == q
            + text_of(r_tuple(c), fmt).len() && map_tuple(lab, read_value(s, val)) == map_tuple(c, composed(val, fmt)),
    decreases c.len(),
{
    let f = read_value(s, val);
    let vt = composed(val, fmt);
    if c.len() == 1 {
        assert(r_tuple(c) == seq![WktPart::Coord(c[0])]);
        lemma_text_coord(c[0], fmt);
        assert(lexeme_ok(fmt(c[0])));
        lemma_p_num_at(s, p, q, fmt(c[0]));
        assert(crate::wkt_to_wkb::grammar::p_tuple(s, p, 0) == Some((Seq::<u64>::empty(), p)));
        let lab = seq![q as u64];
        assert(f(q as u64) == val(fmt(c[0])));
        assert(map_tuple(lab, f) =~= map_tuple(c, vt));
    } else {
        let c0 = c.drop_last();
        let v = c.last();
        let t0 = text_of(r_tuple(c0), fmt);
        assert(r_tuple(c) == r_tuple(c0) + seq![WktPart::Char(32u8), WktPart::Coord(v)]);
        lemma_lit_space();
        assert(seq![WktPart::Char(32u8), WktPart::Coord(v)] =~= lit(seq![' ']) + seq![WktPart::Coord(v)]);
        lemma_text_add(lit(seq![' ']), seq![WktPart::Coord(v)], fmt);
        lemma_text_lit(seq![' '], fmt);
        lemma_text_coord(v, fmt);
        lemma_text_add(r_tuple(c0), seq![WktPart::Char(32u8), WktPart::Coord(v)], fmt);
        let tail = seq![' '] + fmt(v);
        assert(text_of(r_tuple(c), fmt) == t0 + tail);
        lemma_stands_split(s, q, t0, tail);
        lemma_stands_at(s, q + t0.len(), tail, 0);
        lemma_read_tuple_text(s, p, q, c0, fmt, val);
        let (lab0, e0) = crate::wkt_to_wkb::grammar::p_tuple(s, p, c0.len()).unwrap();
        assert(lexeme_ok(fmt(v)));
        lemma_stands_split(s, e0, seq![' '], fmt(v));
        lemma_stands_at(s, e0 + 1, fmt(v), 0);
        lemma_skip_one(s, e0);
        lemma_p_num_at(s, e0, e0 + 1, fmt(v));
        assert(c.len() - 1 == c0.len());
        let lab = lab0.push((e0 + 1) as u64);
        assert(f((e0 + 1) as u64) == val(fmt(v)));
        assert(map_tuple(lab, f) =~= map_tuple(lab0, f).push(vt(v)));
        assert(map_tuple(c0, vt).push(vt(v)) =~= map_tuple(c, vt));
    }
}

/// `, ` as text.
pub proof fn lemma_text_comma(fmt: spec_fn(u64) -> Seq<char>)
    ensures
        text_of(comma_sep(), fmt) == seq![',', ' '],
{
    lemma_text_lit(seq![',', ' '], fmt);
}

/// A tuple's text starts with its first value's text.
pub proof fn lemma_tuple_text_first(c: Seq<u64>, fmt: spec_fn(u64) -> Seq<char>)
    requires
        c.len() >= 1,
        formats(fmt),
    ensures
        text_of(r_tuple(c), fmt).len() > 0,
        text_of(r_tuple(c), fmt)[0] == fmt(c[0])[0],
    decreases c.len(),
{
    assert(lexeme_ok(fmt(c[0])));
    if c.len() == 1 {
        assert(r_tuple(c) == seq![WktPart::Coord(c[0])]);
        lemma_text_coord(c[0], fmt);
    } else {
        let c0 = c.drop_last();
        lemma_tuple_text_first(c0, fmt);
        lemma_text_add(r_tuple(c0), seq![WktPart::Char(32u8), WktPart::Coord(c.last())], fmt);
        assert(c0[0] == c[0]);
    }
}

/// Tuples listed from the front: the first, `, `, the rest.
pub proof fn lemma_r_tuples_front(pts: Seq<Seq<u64>>)
    requires
        pts.len() >= 2,
    ensures
        r_tuples(pts) == r_tuple(pts[0]) + comma_sep() + r_tuples(pts.skip(1)),
    decreases pts.len(),
{
    let rest = pts.skip(1);
    if pts.len() == 2 {
        assert(pts.drop_last() =~= seq![pts[0]]);
        assert(rest =~= seq![pts[1]]);
        assert(r_tuples(pts.drop_last()) == r_tuple(pts[0]));
        assert(r_tuples(rest) == r_tuple(pts[1]));
    } else {
        let p0 = pts.drop_last();
        lemma_r_tuples_front(p0);
        assert(p0.skip(1) =~= rest.drop_last());
        assert(rest.last() == pts.last());
        assert(r_tuples(pts) =~= r_tuple(pts[0]) + comma_sep() + r_tuples(rest));
    }
}

/// A tuple list's text starts with a number character.
pub proof fn lemma_tuples_text_first(pts: Seq<Seq<u64>>, fmt: spec_fn(u64) -> Seq<char>)
    requires
        pts.len() >= 1,
        pts[0].len() >= 1,
        formats(fmt),
    ensures
        text_of(r_tuples(pts), fmt).len() > 0,
        is_num_char(text_of(r_tuples(pts), fmt)[0]),
{
    lemma_tuple_text_first(pts[0], fmt);
    assert(lexeme_ok(fmt(pts[0][0])));
    if pts.len() >= 2 {
        lemma_r_tuples_front(pts);
        lemma_text_add(r_tuple(pts[0]) + comma_sep(), r_tuples(pts.skip(1)), fmt);
        lemma_text_add(r_tuple(pts[0]), comma_sep(), fmt);
    }
}

/// A comma-separated tuple list and its closing `)` read back as its tuples.
pub proof fn lemma_read_coord_seq_text(
    s: Seq<char>,
    p: int,
    q: int,
    pts: Seq<Seq<u64>>,
    cs: nat,
    fmt: spec_fn(u64) -> Seq<char>,
    val: spec_fn(Seq<char>) -> u64,
)
    requires
        pts.len() >= 1,
        cs >= 1,
        tuples_sized(pts, cs),
        skip_ws(s, p) == q,
        stands(s, q, text_of(r_tuples(pts), fmt) + seq![')']),
        formats(fmt),
        s.len() <= u64::MAX,
    ensures
        crate::wkt_to_wkb::grammar::p_coord_seq(s, p, cs) matches Some((labs, e)) && e == q
            + text_of(r_tuples(pts), fmt).len() + 1 && map_tuples(labs, read_value(s, val)) == map_tuples(pts, composed(val, fmt)),
    decreases pts.len(),
{
    let f = read_value(s, val);
    let vt = composed(val, fmt);
    let t = text_of(r_tuples(pts), fmt);
    lemma_stands_split(s, q, t, seq![')']);
    lemma_stands_at(s, q + t.len(), seq![')'], 0);
    assert(pts[0].len() == cs);
    if pts.len() == 1 {
        assert(r_tuples(pts) == r_tuple(pts[0]));
        lemma_read_tuple_text(s, p, q, pts[0], fmt, val);
        let (lab, e) = crate::wkt_to_wkb::grammar::p_tuple(s, p, cs).unwrap();
        lemma_skip_none(s, e);
        assert(map_tuples(seq![lab], f) =~= map_tuples(pts, vt));
    } else {
        let rest = pts.skip(1);
        let t0 = text_of(r_tuple(pts[0]), fmt);
        let t1 = text_of(r_tuples(rest), fmt);
        lemma_r_tuples_front(pts);
        lemma_text_add(r_tuple(pts[0]) + comma_sep(), r_tuples(rest), fmt);
        lemma_text_add(r_tuple(pts[0]), comma_sep(), fmt);
        lemma_text_comma(fmt);
        assert(t =~= t0 + seq![',', ' '] + t1);
        assert(t + seq![')'] =~= t0 + (seq![',', ' '] + (t1 + seq![')'])));
        lemma_stands_split(s, q, t0, seq![',', ' '] + (t1 + seq![')']));
        lemma_stands_split(s, q + t0.len(), seq![',', ' '], t1 + seq![')']);
        lemma_stands_at(s, q + t0.len(), seq![',', ' '], 0);
        lemma_stands_at(s, q + t0.len(), seq![',', ' '], 1);
        lemma_read_tuple_text(s, p, q, pts[0], fmt, val);
        let (lab, e) = crate::wkt_to_wkb::grammar::p_tuple(s, p, cs).unwrap();
        lemma_skip_none(s, e);
        assert(tuples_sized(rest, cs)) by {
            assert forall|i: int| 0 <= i < rest.len() implies (#[trigger] rest[i]).len() == cs by {
                assert(rest[i] == pts[i + 1]);
            }
        }
        assert(rest[0] == pts[1]);
        lemma_tuples_text_first(rest, fmt);
        lemma_stands_split(s, e + 2, t1, seq![')']);
        lemma_stands_at(s, e + 2, t1, 0);
        lemma_skip_one(s, e + 1);
        crate::text::lemma_skip_ws_bounds(s, p);
        lemma_read_coord_seq_text(s, e + 1, e + 2, rest, cs, fmt, val);
        let (labs1, e1) = crate::wkt_to_wkb::grammar::p_coord_seq(s, e + 1, cs).unwrap();
        assert(map_tuples(labs1, f) == map_tuples(rest, vt));
        assert(map_tuple(lab, f) == map_tuple(pts[0], vt));
        assert(map_tuples(labs1, f).len() == labs1.len() && map_tuples(rest, vt).len() == rest.len());
        assert(labs1.len() == rest.len());
        assert forall|i: int| 0 <= i < pts.len() implies #[trigger] map_tuples(seq![lab] + labs1, f)[i]
            == map_tuples(pts, vt)[i] by {
            if i > 0 {
                assert((seq![lab] + labs1)[i] == labs1[i - 1]);
                assert(map_tuples(labs1, f)[i - 1] == map_tuples(rest, vt)[i - 1]);
            }
        }
        assert(map_tuples(seq![lab] + labs1, f) =~= map_tuples(pts, vt));
    }
}

/// Every ring holds at least one point.
pub open spec fn rings_filled(rs: Seq<Seq<Seq<u64>>>) -> bool {
    forall|i: int| 0 <= i < rs.len() ==> (#[trigger] rs[i]).len() >= 1
}

/// The text of a ring: `(`, its tuples, `)`.
pub proof fn lemma_ring_text(r: Seq<Seq<u64>>, fmt: spec_fn(u64) -> Seq<char>)
    ensures
        text_of(r_ring(r), fmt) == seq!['('] + text_of(r_tuples(r), fmt) + seq![')'],
{
    lemma_text_add(lit(seq!['(']) + r_tuples(r), lit(seq![')']), fmt);
    lemma_text_add(lit(seq!['(']), r_tuples(r), fmt);
    lemma_text_lit(seq!['('], fmt);
    lemma_text_lit(seq![')'], fmt);
}

/// Rings listed from the front: the first, `, `, the rest.
pub proof fn lemma_r_rings_front(rs: Seq<Seq<Seq<u64>>>)
    requires
        rs.len() >= 2,
    ensures
        r_rings(rs) == r_ring(rs[0]) + comma_sep() + r_rings(rs.skip(1)),
    decreases rs.len(),
{
    let rest = rs.skip(1);
    if rs.len() == 2 {
        assert(rs.drop_last() =~= seq![rs[0]]);
        assert(rest =~= seq![rs[1]]);
        assert(r_rings(rs.drop_last()) == r_ring(rs[0]));
        assert(r_rings(rest) == r_ring(rs[1]));
    } else {
        let r0 = rs.drop_last();
        lemma_r_rings_front(r0);
        assert(r0.skip(1) =~= rest.drop_last());
        assert(rest.last() == rs.last());
        assert(r_rings(rs) =~= r_ring(rs[0]) + comma_sep() + r_rings(rest));
    }
}

/// A ring list's text starts with `(`.
pub proof fn lemma_rings_text_first(rs: Seq<Seq<Seq<u64>>>, fmt: spec_fn(u64) -> Seq<char>)
    requires
        rs.len() >= 1,
    ensures
        text_of(r_rings(rs), fmt).len() > 0,
        text_of(r_rings(rs), fmt)[0] == '(',
{
    lemma_ring_text(rs[0], fmt);
    if rs.len() >= 2 {
        lemma_r_rings_front(rs);
        lemma_text_add(r_ring(rs[0]) + comma_sep(), r_rings(rs.skip(1)), fmt);
        lemma_text_add(r_ring(rs[0]), comma_sep(), fmt);
    } else {
        assert(r_rings(rs) == r_ring(rs[0]));
    }
}

/// A comma-separated ring list and its closing `)` read back as its rings.
pub proof fn lemma_read_rings_text(
    s: Seq<char>,
    p: int,
    q: int,
    rs: Seq<Seq<Seq<u64>>>,
    cs: nat,
    fmt: spec_fn(u64) -> Seq<char>,
    val: spec_fn(Seq<char>) -> u64,
)
    requires
        rs.len() >= 1,
        cs >= 1,
        rings_sized(rs, cs),
        rings_filled(rs),
        skip_ws(s, p) == q,
        stands(s, q, text_of(r_rings(rs), fmt) + seq![')']),
        formats(fmt),
        s.len() <= u64::MAX,
    ensures
        crate::wkt_to_wkb::grammar::p_rings(s, p, cs) matches Some((labs, e)) && e == q
            + text_of(r_rings(rs), fmt).len() + 1 && map_rings(labs, read_value(s, val)) == map_rings(rs, composed(val, fmt)),
    decreases rs.len(),
{
    let f = read_value(s, val);
    let vt = composed(val, fmt);
    let t = text_of(r_rings(rs), fmt);
    let r = rs[0];
    let tr = text_of(r_tuples(r), fmt);
    lemma_stands_split(s, q, t, seq![')']);
    lemma_stands_at(s, q + t.len(), seq![')'], 0);
    lemma_ring_text(r, fmt);
    assert(r.len() >= 1);
    assert(tuples_sized(r, cs));
    assert(r[0].len() == cs);
    lemma_tuples_text_first(r, fmt);
    let rest = rs.skip(1);
    let t1 = text_of(r_rings(rest), fmt);
    let tail = if rs.len() == 1 {
        seq![')']
    } else {
        seq![',', ' '] + (t1 + seq![')'])
    };
    if rs.len() == 1 {
        assert(r_rings(rs) == r_ring(r));
    } else {
        lemma_r_rings_front(rs);
        lemma_text_add(r_ring(r) + comma_sep(), r_rings(rest), fmt);
        lemma_text_add(r_ring(r), comma_sep(), fmt);
        lemma_text_comma(fmt);
    }
    assert(t + seq![')'] =~= seq!['('] + ((tr + seq![')']) + tail));
    lemma_stands_split(s, q, seq!['('], (tr + seq![')']) + tail);
    lemma_stands_split(s, q + 1, tr + seq![')'], tail);
    lemma_stands_at(s, q, seq!['('], 0);
    lemma_stands_split(s, q + 1, tr, seq![')']);
    lemma_stands_at(s, q + 1, tr, 0);
    lemma_skip_none(s, q + 1);
    lemma_read_coord_seq_text(s, q + 1, q + 1, r, cs, fmt, val);
    let (lab, e1) = crate::wkt_to_wkb::grammar::p_coord_seq(s, q + 1, cs).unwrap();
    assert(map_tuples(lab, f) == map_tuples(r, vt));
    assert(map_tuples(lab, f).len() == lab.len() && map_tuples(r, vt).len() == r.len());
    assert(lab.len() == r.len());
    assert(e1 == q + 1 + (tr + seq![')']).len());
    lemma_stands_at(s, e1, tail, 0);
    lemma_skip_none(s, e1);
    if rs.len() == 1 {
        assert(map_rings(seq![lab], f) =~= map_rings(rs, vt));
    } else {
        lemma_stands_split(s, e1, seq![',', ' '], t1 + seq![')']);
        lemma_stands_at(s, e1, seq![',', ' '], 1);
        lemma_rings_text_first(rest, fmt);
        lemma_stands_split(s, e1 + 2, t1, seq![')']);
        lemma_stands_at(s, e1 + 2, t1, 0);
        lemma_skip_one(s, e1 + 1);
        crate::text::lemma_skip_ws_bounds(s, p);
        assert(rings_sized(rest, cs) && rings_filled(rest)) by {
            assert forall|i: int| 0 <= i < rest.len() implies tuples_sized(#[trigger] rest[i], cs)
                && rest[i].len() <= u32::MAX && rest[i].len() >= 1 by {
                assert(rest[i] == rs[i + 1]);
            }
        }
        lemma_read_rings_text(s, e1 + 1, e1 + 2, rest, cs, fmt, val);
        let (labs1, e2) = crate::wkt_to_wkb::grammar::p_rings(s, e1 + 1, cs).unwrap();
        assert(map_rings(labs1, f) == map_rings(rest, vt));
        assert(map_rings(labs1, f).len() == labs1.len() && map_rings(rest, vt).len() == rest.len());
        assert(labs1.len() == rest.len());
        assert forall|i: int| 0 <= i < rs.len() implies #[trigger] map_rings(seq![lab] + labs1, f)[i]
            == map_rings(rs, vt)[i] by {
            if i > 0 {
                assert((seq![lab] + labs1)[i] == labs1[i - 1]);
                assert(map_rings(labs1, f)[i - 1] == map_rings(rest, vt)[i - 1]);
            }
        }
        assert(map_rings(seq![lab] + labs1, f) =~= map_rings(rs, vt));
    }
}

// ---------------------------------------------------------------- EMPTY and `(`

/// No letter stands at `i`.
pub open spec fn no_letter_at(s: Seq<char>, i: int) -> bool {
    !(0 <= i < s.len()) || !crate::text::is_letter(s[i])
}

/// `EMPTY` where it stands, no letter after it.
pub proof fn lemma_opening_empty(s: Seq<char>, p: int, q: int)
    requires
        skip_ws(s, p) == q,
        stands(s, q, empty_word()),
        no_letter_at(s, q + 5),
    ensures
        p_try_empty(s, p) == Some((true, q + 5)),
        p_empty_or_lparen(s, p) == Some((true, q + 5)),
        p_try_empty_or_lparen(s, p) == Some((Opening::Empty, q + 5)),
{
    assert forall|i: int| 0 <= i < empty_kw().len() implies crate::text::eq_ignore_case(
        #[trigger] s[q + i],
        empty_kw()[i],
    ) by {
        lemma_stands_at(s, q, empty_word(), i);
    }
    assert(prefix_ci(s, q, empty_kw()));
}

/// `(` where it stands.
pub proof fn lemma_opening_paren(s: Seq<char>, p: int, q: int)
    requires
        skip_ws(s, p) == q,
        0 <= q < s.len(),
        s[q] == '(',
    ensures
        p_try_empty(s, p) == Some((false, q)),
        p_empty_or_lparen(s, p) == Some((false, q + 1)),
        p_try_empty_or_lparen(s, p) == Some((Opening::Lparen, q + 1)),
        p_char(s, p, '(') == Some(((), q + 1)),
{
    assert(!crate::text::eq_ignore_case(s[q + 0], empty_kw()[0]));
    assert(!prefix_ci(s, q, empty_kw()));
}

/// `EMPTY` as text.
pub proof fn lemma_text_empty(fmt: spec_fn(u64) -> Seq<char>)
    ensures
        text_of(lit(empty_word()), fmt) == empty_word(),
{
    lemma_text_lit(empty_word(), fmt);
}

/// A list separator where it stands: `,` continues, `)` ends.
pub proof fn lemma_sep_at(s: Seq<char>, e: int)
    requires
        0 <= e < s.len(),
        s[e] == ',' || s[e] == ')',
    ensures
        p_sep(s, e) == Some((s[e] == ',', e + 1)),
{
    lemma_skip_none(s, e);
}

/// A list item separated from the next by `, `: the next item starts after the space.
pub proof fn lemma_after_comma(s: Seq<char>, e: int)
    requires
        0 <= e,
        e + 2 < s.len(),
        s[e] == ',',
        s[e + 1] == ' ',
        !is_ws(s[e + 2]),
    ensures
        p_sep(s, e) == Some((true, e + 1)),
        skip_ws(s, e + 1) == e + 2,
{
    lemma_skip_none(s, e);
    lemma_skip_one(s, e + 1);
}

// ---------------------------------------------------------------- MultiPoint

/// The text of a MultiPoint member.
pub proof fn lemma_mp_member_text(c: Seq<u64>, fmt: spec_fn(u64) -> Seq<char>)
    ensures
        c.len() == 0 ==> text_of(r_mp_member(c), fmt) == empty_word(),
        c.len() > 0 ==> text_of(r_mp_member(c), fmt) == seq!['('] + text_of(r_tuple(c), fmt)
            + seq![')'],
{
    if c.len() == 0 {
        lemma_text_empty(fmt);
    } else {
        lemma_text_add(lit(seq!['(']) + r_tuple(c), lit(seq![')']), fmt);
        lemma_text_add(lit(seq!['(']), r_tuple(c), fmt);
        lemma_text_lit(seq!['('], fmt);
        lemma_text_lit(seq![')'], fmt);
    }
}

/// A MultiPoint member's text reads back as its tuple.
pub proof fn lemma_read_mp_member_text(
    s: Seq<char>,
    p: int,
    q: int,
    c: Seq<u64>,
    cs: nat,
    x: char,
    fmt: spec_fn(u64) -> Seq<char>,
    val: spec_fn(Seq<char>) -> u64,
)
    requires
        c.len() == 0 || c.len() == cs,
        cs >= 1,
        x == ',' || x == ')',
        skip_ws(s, p) == q,
        stands(s, q, text_of(r_mp_member(c), fmt) + seq![x]),
        formats(fmt),
        s.len() <= u64::MAX,
    ensures
        crate::wkt_to_wkb::grammar::p_mp_member(s, p, cs) matches Some((lab, e)) && e == q
            + text_of(r_mp_member(c), fmt).len() && map_tuple(lab, read_value(s, val)) == map_tuple(c, composed(val, fmt)),
{
    let f = read_value(s, val);
    let vt = composed(val, fmt);
    let t = text_of(r_mp_member(c), fmt);
    lemma_mp_member_text(c, fmt);
    lemma_stands_split(s, q, t, seq![x]);
    lemma_stands_at(s, q + t.len(), seq![x], 0);
    if c.len() == 0 {
        lemma_opening_empty(s, p, q);
        assert(map_tuple(Seq::<u64>::empty(), f) =~= map_tuple(c, vt));
    } else {
        let tc = text_of(r_tuple(c), fmt);
        assert(t =~= seq!['('] + (tc + seq![')']));
        lemma_stands_split(s, q, seq!['('], tc + seq![')']);
        lemma_stands_at(s, q, seq!['('], 0);
        lemma_opening_paren(s, p, q);
        lemma_stands_split(s, q + 1, tc, seq![')']);
        lemma_tuple_text_first(c, fmt);
        lemma_stands_at(s, q + 1, tc, 0);
        lemma_skip_none(s, q + 1);
        lemma_stands_at(s, q + 1 + tc.len(), seq![')'], 0);
        lemma_read_tuple_text(s, q + 1, q + 1, c, fmt, val);
        let (lab, e) = crate::wkt_to_wkb::grammar::p_tuple(s, q + 1, cs).unwrap();
        lemma_skip_none(s, e);
    }
}

// ---------------------------------------------------------------- MultiLineString, MultiPolygon

/// `(`, the text of `inner`, `)`.
pub proof fn lemma_paren_text(inner: Seq<WktPart>, fmt: spec_fn(u64) -> Seq<char>)
    ensures
        text_of(lit(seq!['(']) + inner + lit(seq![')']), fmt) == seq!['('] + text_of(inner, fmt)
            + seq![')'],
{
    lemma_text_add(lit(seq!['(']) + inner, lit(seq![')']), fmt);
    lemma_text_add(lit(seq!['(']), inner, fmt);
    lemma_text_lit(seq!['('], fmt);
    lemma_text_lit(seq![')'], fmt);
}

/// A MultiLineString member's text reads back as its tuples.
pub proof fn lemma_read_mls_member_text(
    s: Seq<char>,
    p: int,
    q: int,
    pts: Seq<Seq<u64>>,
    cs: nat,
    x: char,
    fmt: spec_fn(u64) -> Seq<char>,
    val: spec_fn(Seq<char>) -> u64,
)
    requires
        tuples_sized(pts, cs),
        pts.len() <= u32::MAX,
        cs >= 1,
        x == ',' || x == ')',
        skip_ws(s, p) == q,
        stands(s, q, text_of(r_mls_member(pts), fmt) + seq![x]),
        formats(fmt),
        s.len() <= u64::MAX,
    ensures
        crate::wkt_to_wkb::grammar::p_mls_member(s, p, cs) matches Some((lab, e)) && e == q
            + text_of(r_mls_member(pts), fmt).len() && map_tuples(lab, read_value(s, val)) == map_tuples(pts, composed(val, fmt)),
{
    let f = read_value(s, val);
    let vt = composed(val, fmt);
    let t = text_of(r_mls_member(pts), fmt);
    lemma_stands_split(s, q, t, seq![x]);
    lemma_stands_at(s, q + t.len(), seq![x], 0);
    if pts.len() == 0 {
        lemma_text_empty(fmt);
        lemma_opening_empty(s, p, q);
        assert(map_tuples(Seq::<Seq<u64>>::empty(), f) =~= map_tuples(pts, vt));
    } else {
        let ti = text_of(r_tuples(pts), fmt);
        lemma_paren_text(r_tuples(pts), fmt);
        assert(t =~= seq!['('] + (ti + seq![')']));
        lemma_stands_split(s, q, seq!['('], ti + seq![')']);
        lemma_stands_at(s, q, seq!['('], 0);
        lemma_opening_paren(s, p, q);
        assert(pts[0].len() == cs);
        lemma_tuples_text_first(pts, fmt);
        lemma_stands_split(s, q + 1, ti, seq![')']);
        lemma_stands_at(s, q + 1, ti, 0);
        lemma_skip_none(s, q + 1);
        lemma_read_coord_seq_text(s, q + 1, q + 1, pts, cs, fmt, val);
        let (lab, e) = crate::wkt_to_wkb::grammar::p_coord_seq(s, q + 1, cs).unwrap();
        assert(map_tuples(lab, f).len() == lab.len() && map_tuples(pts, vt).len() == pts.len());
        assert(lab.len() == pts.len());
    }
}

/// A MultiPolygon member's text reads back as its rings.
pub proof fn lemma_read_mpoly_member_text(
    s: Seq<char>,
    p: int,
    q: int,
    rs: Seq<Seq<Seq<u64>>>,
    cs: nat,
    x: char,
    fmt: spec_fn(u64) -> Seq<char>,
    val: spec_fn(Seq<char>) -> u64,
)
    requires
        rings_sized(rs, cs),
        rings_filled(rs),
        rs.len() <= u32::MAX,
        cs >= 1,
        x == ',' || x == ')',
        skip_ws(s, p) == q,
        stands(s, q, text_of(r_mpoly_member(rs), fmt) + seq![x]),
        formats(fmt),
        s.len() <= u64::MAX,
    ensures
        crate::wkt_to_wkb::grammar::p_mpoly_member(s, p, cs) matches Some((lab, e)) && e == q
            + text_of(r_mpoly_member(rs), fmt).len() && map_rings(lab, read_value(s, val)) == map_rings(rs, composed(val, fmt)),
{
    let f = read_value(s, val);
    let vt = composed(val, fmt);
    let t = text_of(r_mpoly_member(rs), fmt);
    lemma_stands_split(s, q, t, seq![x]);
    lemma_stands_at(s, q + t.len(), seq![x], 0);
    if rs.len() == 0 {
        lemma_text_empty(fmt);
        lemma_opening_empty(s, p, q);
        assert(map_rings(Seq::<Seq<Seq<u64>>>::empty(), f) =~= map_rings(rs, vt));
    } else {
        let ti = text_of(r_rings(rs), fmt);
        lemma_paren_text(r_rings(rs), fmt);
        assert(t =~= seq!['('] + (ti + seq![')']));
        lemma_stands_split(s, q, seq!['('], ti + seq![')']);
        lemma_stands_at(s, q, seq!['('], 0);
        lemma_opening_paren(s, p, q);
        lemma_rings_text_first(rs, fmt);
        lemma_stands_split(s, q + 1, ti, seq![')']);
        lemma_stands_at(s, q + 1, ti, 0);
        lemma_skip_none(s, q + 1);
        lemma_read_rings_text(s, q + 1, q + 1, rs, cs, fmt, val);
        let (lab, e) = crate::wkt_to_wkb::grammar::p_rings(s, q + 1, cs).unwrap();
        assert(map_rings(lab, f).len() == lab.len() && map_rings(rs, vt).len() == rs.len());
        assert(lab.len() == rs.len());
    }
}

/// The first character of a member's text: `E` of `EMPTY`, or `(`.
pub proof fn lemma_member_texts_first(
    c: Seq<u64>,
    pts: Seq<Seq<u64>>,
    rs: Seq<Seq<Seq<u64>>>,
    fmt: spec_fn(u64) -> Seq<char>,
)
    ensures
        text_of(r_mp_member(c), fmt).len() > 0,
        !is_ws(text_of(r_mp_member(c), fmt)[0]),
        text_of(r_mls_member(pts), fmt).len() > 0,
        !is_ws(text_of(r_mls_member(pts), fmt)[0]),
        text_of(r_mpoly_member(rs), fmt).len() > 0,
        !is_ws(text_of(r_mpoly_member(rs), fmt)[0]),
{
    lemma_mp_member_text(c, fmt);
    lemma_text_empty(fmt);
    lemma_paren_text(r_tuples(pts), fmt);
    lemma_paren_text(r_rings(rs), fmt);
}

/// MultiPoint members listed from the front: the first, `, `, the rest.
pub proof fn lemma_r_mp_members_front(ms: Seq<Seq<u64>>)
    requires
        ms.len() >= 2,
    ensures
        r_mp_members(ms) == r_mp_member(ms[0]) + comma_sep() + r_mp_members(ms.skip(1)),
    decreases ms.len(),
{
    let rest = ms.skip(1);
    if ms.len() == 2 {
        assert(ms.drop_last() =~= seq![ms[0]]);
        assert(rest =~= seq![ms[1]]);
        assert(r_mp_members(ms.drop_last()) == r_mp_member(ms[0]));
        assert(r_mp_members(rest) == r_mp_member(ms[1]));
    } else {
        let m0 = ms.drop_last();
        lemma_r_mp_members_front(m0);
        assert(m0.skip(1) =~= rest.drop_last());
        assert(rest.last() == ms.last());
        assert(r_mp_members(ms) =~= r_mp_member(ms[0]) + comma_sep() + r_mp_members(rest));
    }
}

/// MultiPoint members and their closing `)` read back as the members.
pub proof fn lemma_read_mp_members_text(
    s: Seq<char>,
    p: int,
    q: int,
    ms: Seq<Seq<u64>>,
    cs: nat,
    fmt: spec_fn(u64) -> Seq<char>,
    val: spec_fn(Seq<char>) -> u64,
)
    requires
        ms.len() >= 1,
        cs >= 1,
        forall|i: int| 0 <= i < ms.len() ==> (#[trigger] ms[i]).len() == 0 || ms[i].len() == cs,
        skip_ws(s, p) == q,
        stands(s, q, text_of(r_mp_members(ms), fmt) + seq![')']),
        formats(fmt),
        s.len() <= u64::MAX,
    ensures
        crate::wkt_to_wkb::grammar::p_mp_members(s, p, cs) matches Some((labs, e)) && e == q
            + text_of(r_mp_members(ms), fmt).len() + 1 && map_tuples(labs, read_value(s, val)) == map_tuples(ms, composed(val, fmt)),
    decreases ms.len(),
{
    let f = read_value(s, val);
    let vt = composed(val, fmt);
    let t = text_of(r_mp_members(ms), fmt);
    let m = ms[0];
    let tm = text_of(r_mp_member(m), fmt);
    assert(m.len() == 0 || m.len() == cs);
    let rest = ms.skip(1);
    let t1 = text_of(r_mp_members(rest), fmt);
    if ms.len() == 1 {
        assert(r_mp_members(ms) == r_mp_member(m));
        assert(t + seq![')'] =~= tm + seq![')']);
        lemma_read_mp_member_text(s, p, q, m, cs, ')', fmt, val);
        let (lab, e) = crate::wkt_to_wkb::grammar::p_mp_member(s, p, cs).unwrap();
        lemma_stands_split(s, q, tm, seq![')']);
        lemma_stands_at(s, q + tm.len(), seq![')'], 0);
        lemma_sep_at(s, e);
        assert(map_tuples(seq![lab], f) =~= map_tuples(ms, vt));
    } else {
        lemma_r_mp_members_front(ms);
        lemma_text_add(r_mp_member(m) + comma_sep(), r_mp_members(rest), fmt);
        lemma_text_add(r_mp_member(m), comma_sep(), fmt);
        lemma_text_comma(fmt);
        assert(t + seq![')'] =~= tm + (seq![',', ' '] + (t1 + seq![')'])));
        assert(tm + (seq![',', ' '] + (t1 + seq![')'])) =~= (tm + seq![',']) + (seq![' '] + (t1
            + seq![')'])));
        lemma_stands_split(s, q, tm + seq![','], seq![' '] + (t1 + seq![')']));
        lemma_read_mp_member_text(s, p, q, m, cs, ',', fmt, val);
        let (lab, e) = crate::wkt_to_wkb::grammar::p_mp_member(s, p, cs).unwrap();
        lemma_stands_split(s, q, tm, seq![',']);
        lemma_stands_at(s, q + tm.len(), seq![','], 0);
        lemma_stands_split(s, e + 1, seq![' '], t1 + seq![')']);
        lemma_stands_at(s, e + 1, seq![' '], 0);
        lemma_stands_split(s, e + 2, t1, seq![')']);
        assert(rest[0] == ms[1]);
        lemma_member_texts_first(rest[0], seq![], seq![], fmt);
        if rest.len() >= 2 {
            lemma_r_mp_members_front(rest);
            lemma_text_add(r_mp_member(rest[0]) + comma_sep(), r_mp_members(rest.skip(1)), fmt);
            lemma_text_add(r_mp_member(rest[0]), comma_sep(), fmt);
        } else {
            assert(r_mp_members(rest) == r_mp_member(rest[0]));
        }
        lemma_stands_at(s, e + 2, t1, 0);
        lemma_after_comma(s, e);
        crate::text::lemma_skip_ws_bounds(s, p);
        assert(forall|i: int| 0 <= i < rest.len() ==> (#[trigger] rest[i]).len() == 0 || rest[i].len() == cs) by {
            assert forall|i: int| 0 <= i < rest.len() implies (#[trigger] rest[i]).len() == 0 || rest[i].len() == cs by {
                assert(rest[i] == ms[i + 1]);
            }
        }
        lemma_read_mp_members_text(s, e + 1, e + 2, rest, cs, fmt, val);
        let (labs1, e2) = crate::wkt_to_wkb::grammar::p_mp_members(s, e + 1, cs).unwrap();
        assert(map_tuples(labs1, f) == map_tuples(rest, vt));
        assert(map_tuples(labs1, f).len() == labs1.len() && map_tuples(rest, vt).len() == rest.len());
        assert(labs1.len() == rest.len());
        assert forall|i: int| 0 <= i < ms.len() implies #[trigger] map_tuples(seq![lab] + labs1, f)[i]
            == map_tuples(ms, vt)[i] by {
            if i > 0 {
                assert((seq![lab] + labs1)[i] == labs1[i - 1]);
                assert(map_tuples(labs1, f)[i - 1] == map_tuples(rest, vt)[i - 1]);
            }
        }
        assert(map_tuples(seq![lab] + labs1, f) =~= map_tuples(ms, vt));
    }
}

/// MultiLineString members listed from the front: the first, `, `, the rest.
pub proof fn lemma_r_mls_members_front(ms: Seq<Seq<Seq<u64>>>)
    requires
        ms.len() >= 2,
    ensures
        r_mls_members(ms) == r_mls_member(ms[0]) + comma_sep() + r_mls_members(ms.skip(1)),
    decreases ms.len(),
{
    let rest = ms.skip(1);
    if ms.len() == 2 {
        assert(ms.drop_last() =~= seq![ms[0]]);
        assert(rest =~= seq![ms[1]]);
        assert(r_mls_members(ms.drop_last()) == r_mls_member(ms[0]));
        assert(r_mls_members(rest) == r_mls_member(ms[1]));
    } else {
        let m0 = ms.drop_last();
        lemma_r_mls_members_front(m0);
        assert(m0.skip(1) =~= rest.drop_last());
        assert(rest.last() == ms.last());
        assert(r_mls_members(ms) =~= r_mls_member(ms[0]) + comma_sep() + r_mls_members(rest));
    }
}

/// MultiLineString members and their closing `)` read back as the members.
pub proof fn lemma_read_mls_members_text(
    s: Seq<char>,
    p: int,
    q: int,
    ms: Seq<Seq<Seq<u64>>>,
    cs: nat,
    fmt: spec_fn(u64) -> Seq<char>,
    val: spec_fn(Seq<char>) -> u64,
)
    requires
        ms.len() >= 1,
        cs >= 1,
        rings_sized(ms, cs),
        skip_ws(s, p) == q,
        stands(s, q, text_of(r_mls_members(ms), fmt) + seq![')']),
        formats(fmt),
        s.len() <= u64::MAX,
    ensures
        crate::wkt_to_wkb::grammar::p_mls_members(s, p, cs) matches Some((labs, e)) && e == q
            + text_of(r_mls_members(ms), fmt).len() + 1 && map_rings(labs, read_value(s, val)) == map_rings(ms, composed(val, fmt)),
    decreases ms.len(),
{
    let f = read_value(s, val);
    let vt = composed(val, fmt);
    let t = text_of(r_mls_members(ms), fmt);
    let m = ms[0];
    let tm = text_of(r_mls_member(m), fmt);
    assert(tuples_sized(m, cs) && m.len() <= u32::MAX);
    let rest = ms.skip(1);
    let t1 = text_of(r_mls_members(rest), fmt);
    if ms.len() == 1 {
        assert(r_mls_members(ms) == r_mls_member(m));
        assert(t + seq![')'] =~= tm + seq![')']);
        lemma_read_mls_member_text(s, p, q, m, cs, ')', fmt, val);
        let (lab, e) = crate::wkt_to_wkb::grammar::p_mls_member(s, p, cs).unwrap();
        lemma_stands_split(s, q, tm, seq![')']);
        lemma_stands_at(s, q + tm.len(), seq![')'], 0);
        lemma_sep_at(s, e);
        assert(map_rings(seq![lab], f) =~= map_rings(ms, vt));
    } else {
        lemma_r_mls_members_front(ms);
        lemma_text_add(r_mls_member(m) + comma_sep(), r_mls_members(rest), fmt);
        lemma_text_add(r_mls_member(m), comma_sep(), fmt);
        lemma_text_comma(fmt);
        assert(t + seq![')'] =~= tm + (seq![',', ' '] + (t1 + seq![')'])));
        assert(tm + (seq![',', ' '] + (t1 + seq![')'])) =~= (tm + seq![',']) + (seq![' '] + (t1
            + seq![')'])));
        lemma_stands_split(s, q, tm + seq![','], seq![' '] + (t1 + seq![')']));
        lemma_read_mls_member_text(s, p, q, m, cs, ',', fmt, val);
        let (lab, e) = crate::wkt_to_wkb::grammar::p_mls_member(s, p, cs).unwrap();
        lemma_stands_split(s, q, tm, seq![',']);
        lemma_stands_at(s, q + tm.len(), seq![','], 0);
        lemma_stands_split(s, e + 1, seq![' '], t1 + seq![')']);
        lemma_stands_at(s, e + 1, seq![' '], 0);
        lemma_stands_split(s, e + 2, t1, seq![')']);
        assert(rest[0] == ms[1]);
        lemma_member_texts_first(seq![], rest[0], seq![], fmt);
        if rest.len() >= 2 {
            lemma_r_mls_members_front(rest);
            lemma_text_add(r_mls_member(rest[0]) + comma_sep(), r_mls_members(rest.skip(1)), fmt);
            lemma_text_add(r_mls_member(rest[0]), comma_sep(), fmt);
        } else {
            assert(r_mls_members(rest) == r_mls_member(rest[0]));
        }
        lemma_stands_at(s, e + 2, t1, 0);
        lemma_after_comma(s, e);
        crate::text::lemma_skip_ws_bounds(s, p);
        assert(rings_sized(rest, cs)) by {
            assert forall|i: int| 0 <= i < rest.len() implies tuples_sized(#[trigger] rest[i], cs) && rest[i].len() <= u32::MAX by {
                assert(rest[i] == ms[i + 1]);
            }
        }
        lemma_read_mls_members_text(s, e + 1, e + 2, rest, cs, fmt, val);
        let (labs1, e2) = crate::wkt_to_wkb::grammar::p_mls_members(s, e + 1, cs).unwrap();
        assert(map_rings(labs1, f) == map_rings(rest, vt));
        assert(map_rings(labs1, f).len() == labs1.len() && map_rings(rest, vt).len() == rest.len());
        assert(labs1.len() == rest.len());
        assert forall|i: int| 0 <= i < ms.len() implies #[trigger] map_rings(seq![lab] + labs1, f)[i]
            == map_rings(ms, vt)[i] by {
            if i > 0 {
                assert((seq![lab] + labs1)[i] == labs1[i - 1]);
                assert(map_rings(labs1, f)[i - 1] == map_rings(rest, vt)[i - 1]);
            }
        }
        assert(map_rings(seq![lab] + labs1, f) =~= map_rings(ms, vt));
    }
}

/// MultiPolygon members listed from the front: the first, `, `, the rest.
pub proof fn lemma_r_mpoly_members_front(ms: Seq<Seq<Seq<Seq<u64>>>>)
    requires
        ms.len() >= 2,
    ensures
        r_mpoly_members(ms) == r_mpoly_member(ms[0]) + comma_sep() + r_mpoly_members(ms.skip(1)),
    decreases ms.len(),
{
    let rest = ms.skip(1);
    if ms.len() == 2 {
        assert(ms.drop_last() =~= seq![ms[0]]);
        assert(rest =~= seq![ms[1]]);
        assert(r_mpoly_members(ms.drop_last()) == r_mpoly_member(ms[0]));
        assert(r_mpoly_members(rest) == r_mpoly_member(ms[1]));
    } else {
        let m0 = ms.drop_last();
        lemma_r_mpoly_members_front(m0);
        assert(m0.skip(1) =~= rest.drop_last());
        assert(rest.last() == ms.last());
        assert(r_mpoly_members(ms) =~= r_mpoly_member(ms[0]) + comma_sep() + r_mpoly_members(rest));
    }
}

/// MultiPolygon members and their closing `)` read back as the members.
#[verifier::spinoff_prover]
#[verifier::rlimit(80)]
pub proof fn lemma_read_mpoly_members_text(
    s: Seq<char>,
    p: int,
    q: int,
    ms: Seq<Seq<Seq<Seq<u64>>>>,
    cs: nat,
    fmt: spec_fn(u64) -> Seq<char>,
    val: spec_fn(Seq<char>) -> u64,
)
    requires
        ms.len() >= 1,
        cs >= 1,
        polys_sized(ms, cs),
        forall|i: int| 0 <= i < ms.len() ==> rings_filled(#[trigger] ms[i]),
        skip_ws(s, p) == q,
        stands(s, q, text_of(r_mpoly_members(ms), fmt) + seq![')']),
        formats(fmt),
        s.len() <= u64::MAX,
    ensures
        crate::wkt_to_wkb::grammar::p_mpoly_members(s, p, cs) matches Some((labs, e)) && e == q
            + text_of(r_mpoly_members(ms), fmt).len() + 1 && map_polys(labs, read_value(s, val)) == map_polys(ms, composed(val, fmt)),
    decreases ms.len(),
{
    let f = read_value(s, val);
    let vt = composed(val, fmt);
    let t = text_of(r_mpoly_members(ms), fmt);
    let m = ms[0];
    let tm = text_of(r_mpoly_member(m), fmt);
    assert(rings_sized(m, cs) && m.len() <= u32::MAX && rings_filled(m));
    let rest = ms.skip(1);
    let t1 = text_of(r_mpoly_members(rest), fmt);
    if ms.len() == 1 {
        assert(r_mpoly_members(ms) == r_mpoly_member(m));
        assert(t + seq![')'] =~= tm + seq![')']);
        lemma_read_mpoly_member_text(s, p, q, m, cs, ')', fmt, val);
        let (lab, e) = crate::wkt_to_wkb::grammar::p_mpoly_member(s, p, cs).unwrap();
        lemma_stands_split(s, q, tm, seq![')']);
        lemma_stands_at(s, q + tm.len(), seq![')'], 0);
        lemma_sep_at(s, e);
        assert(map_polys(seq![lab], f) =~= map_polys(ms, vt));
    } else {
        lemma_r_mpoly_members_front(ms);
        lemma_text_add(r_mpoly_member(m) + comma_sep(), r_mpoly_members(rest), fmt);
        lemma_text_add(r_mpoly_member(m), comma_sep(), fmt);
        lemma_text_comma(fmt);
        assert(t + seq![')'] =~= tm + (seq![',', ' '] + (t1 + seq![')'])));
        assert(tm + (seq![',', ' '] + (t1 + seq![')'])) =~= (tm + seq![',']) + (seq![' '] + (t1
            + seq![')'])));
        lemma_stands_split(s, q, tm + seq![','], seq![' '] + (t1 + seq![')']));
        lemma_read_mpoly_member_text(s, p, q, m, cs, ',', fmt, val);
        let (lab, e) = crate::wkt_to_wkb::grammar::p_mpoly_member(s, p, cs).unwrap();
        lemma_stands_split(s, q, tm, seq![',']);
        lemma_stands_at(s, q + tm.len(), seq![','], 0);
        lemma_stands_split(s, e + 1, seq![' '], t1 + seq![')']);
        lemma_stands_at(s, e + 1, seq![' '], 0);
        lemma_stands_split(s, e + 2, t1, seq![')']);
        assert(rest[0] == ms[1]);
        lemma_member_texts_first(seq![], seq![], rest[0], fmt);
        if rest.len() >= 2 {
            lemma_r_mpoly_members_front(rest);
            lemma_text_add(r_mpoly_member(rest[0]) + comma_sep(), r_mpoly_members(rest.skip(1)), fmt);
            lemma_text_add(r_mpoly_member(rest[0]), comma_sep(), fmt);
        } else {
            assert(r_mpoly_members(rest) == r_mpoly_member(rest[0]));
        }
        lemma_stands_at(s, e + 2, t1, 0);
        lemma_after_comma(s, e);
        crate::text::lemma_skip_ws_bounds(s, p);
        assert(polys_sized(rest, cs) && forall|i: int| 0 <= i < rest.len() ==> rings_filled(#[trigger] rest[i])) by {
            assert forall|i: int| 0 <= i < rest.len() implies rings_sized(#[trigger] rest[i], cs) && rest[i].len() <= u32::MAX && rings_filled(rest[i]) by {
                assert(rest[i] == ms[i + 1]);
            }
        }
        lemma_read_mpoly_members_text(s, e + 1, e + 2, rest, cs, fmt, val);
        let (labs1, e2) = crate::wkt_to_wkb::grammar::p_mpoly_members(s, e + 1, cs).unwrap();
        assert(map_polys(labs1, f) == map_polys(rest, vt));
        assert(map_polys(labs1, f).len() == labs1.len() && map_polys(rest, vt).len() == rest.len());
        assert(labs1.len() == rest.len());
        assert forall|i: int| 0 <= i < ms.len() implies #[trigger] map_polys(seq![lab] + labs1, f)[i]
            == map_polys(ms, vt)[i] by {
            if i > 0 {
                assert((seq![lab] + labs1)[i] == labs1[i - 1]);
                assert(map_polys(labs1, f)[i - 1] == map_polys(rest, vt)[i - 1]);
            }
        }
        assert(map_polys(seq![lab] + labs1, f) =~= map_polys(ms, vt));
    }
}

// ---------------------------------------------------------------- bodies

/// A geometry whose WKT the parser reads back: every ring holds a point, and
/// the members of a collection with Z or M declare its dimension.
pub open spec fn wkt_readable(g: Shape) -> bool
    decreases g,
{
    match g {
        Shape::Polygon(_, rs) => rings_filled(rs),
        Shape::MultiPolygon(_, ms) => forall|i: int| 0 <= i < ms.len() ==> rings_filled(#[trigger] ms[i]),
        Shape::Collection(d, ms) => forall|i: int|
            0 <= i < ms.len() ==> (d == Dimension::XY || shape_dim(#[trigger] ms[i]) == d)
                && wkt_readable(ms[i]),
        _ => true,
    }
}

pub proof fn lemma_map_shape_dim(g: Shape, f: spec_fn(u64) -> u64)
    ensures
        shape_dim(map_shape(g, f)) == shape_dim(g),
        shape_type(map_shape(g, f)) == shape_type(g),
{
}

/// ` EMPTY` and ` (`, `inner`, `)` as text.
pub proof fn lemma_wrap_texts(inner: Seq<WktPart>, fmt: spec_fn(u64) -> Seq<char>)
    ensures
        text_of(r_empty(), fmt) == seq![' '] + empty_word(),
        text_of(r_paren(inner), fmt) == seq![' ', '('] + text_of(inner, fmt) + seq![')'],
{
    lemma_text_add(lit(seq![' ']), lit(empty_word()), fmt);
    lemma_text_lit(seq![' '], fmt);
    lemma_text_empty(fmt);
    lemma_text_add(lit(seq![' ', '(']) + inner, lit(seq![')']), fmt);
    lemma_text_add(lit(seq![' ', '(']), inner, fmt);
    lemma_text_lit(seq![' ', '('], fmt);
    lemma_text_lit(seq![')'], fmt);
}

/// The body ` EMPTY` where it stands.
pub proof fn lemma_read_empty_body(s: Seq<char>, p: int)
    requires
        stands(s, p, seq![' '] + empty_word()),
        no_letter_at(s, p + 6),
    ensures
        p_empty_or_lparen(s, p) == Some((true, p + 6)),
{
    lemma_stands_split(s, p, seq![' '], empty_word());
    lemma_stands_at(s, p, seq![' '], 0);
    lemma_stands_at(s, p + 1, empty_word(), 0);
    lemma_skip_one(s, p);
    lemma_opening_empty(s, p, p + 1);
}

/// The body ` (`, `t`, `)` where it stands: `(` read, `t` next.
pub proof fn lemma_read_paren_body(s: Seq<char>, p: int, t: Seq<char>)
    requires
        stands(s, p, seq![' ', '('] + t + seq![')']),
    ensures
        p_empty_or_lparen(s, p) == Some((false, p + 2)),
        stands(s, p + 2, t + seq![')']),
{
    assert(seq![' ', '('] + t + seq![')'] =~= seq![' ', '('] + (t + seq![')']));
    lemma_stands_split(s, p, seq![' ', '('], t + seq![')']);
    lemma_stands_at(s, p, seq![' ', '('], 0);
    lemma_stands_at(s, p, seq![' ', '('], 1);
    lemma_skip_one(s, p);
    lemma_opening_paren(s, p, p + 1);
}

/// The body of a geometry that is not a collection reads back as the geometry.
#[verifier::spinoff_prover]
#[verifier::rlimit(100)]
pub proof fn lemma_read_body_text(
    s: Seq<char>,
    p: int,
    g: Shape,
    depth: nat,
    fmt: spec_fn(u64) -> Seq<char>,
    val: spec_fn(Seq<char>) -> u64,
)
    requires
        !(g is Collection),
        encodable(g, depth),
        wkt_readable(g),
        stands(s, p, text_of(r_body(g), fmt)),
        no_letter_at(s, p + text_of(r_body(g), fmt).len()),
        formats(fmt),
        s.len() <= u64::MAX,
    ensures
        crate::wkt_to_wkb::grammar::p_simple_body(s, p, shape_type(g), shape_dim(g)) matches Some(
            (h, e),
        ) && e == p + text_of(r_body(g), fmt).len() && map_shape(h, read_value(s, val)) == map_shape(g, composed(val, fmt)),
{
    let f = read_value(s, val);
    let vt = composed(val, fmt);
    let d = shape_dim(g);
    let cs = dim_size(d);
    assert(cs >= 2);
    match g {
        Shape::Point(_, c) => {
            if c.len() == 0 {
                lemma_wrap_texts(seq![], fmt);
                lemma_read_empty_body(s, p);
                assert(map_shape(Shape::Point(d, seq![]), f) == map_shape(g, vt)) by {
                    assert(map_tuple(Seq::<u64>::empty(), f) =~= map_tuple(c, vt));
                }
            } else {
                let t = text_of(r_tuple(c), fmt);
                lemma_wrap_texts(r_tuple(c), fmt);
                lemma_read_paren_body(s, p, t);
                lemma_tuple_text_first(c, fmt);
                assert(lexeme_ok(fmt(c[0])));
                lemma_stands_split(s, p + 2, t, seq![')']);
                lemma_stands_at(s, p + 2, t, 0);
                lemma_stands_at(s, p + 2 + t.len(), seq![')'], 0);
                lemma_skip_none(s, p + 2);
                lemma_read_tuple_text(s, p + 2, p + 2, c, fmt, val);
                let (lab, e) = crate::wkt_to_wkb::grammar::p_tuple(s, p + 2, cs).unwrap();
                lemma_skip_none(s, e);
            }
        },
        Shape::LineString(_, pts) => {
            if pts.len() == 0 {
                lemma_wrap_texts(seq![], fmt);
                lemma_read_empty_body(s, p);
                assert(map_tuples(Seq::<Seq<u64>>::empty(), f) =~= map_tuples(pts, vt));
            } else {
                let t = text_of(r_tuples(pts), fmt);
                lemma_wrap_texts(r_tuples(pts), fmt);
                lemma_read_paren_body(s, p, t);
                assert(pts[0].len() == cs);
                lemma_tuples_text_first(pts, fmt);
                lemma_stands_split(s, p + 2, t, seq![')']);
                lemma_stands_at(s, p + 2, t, 0);
                lemma_skip_none(s, p + 2);
                lemma_read_coord_seq_text(s, p + 2, p + 2, pts, cs, fmt, val);
                let (labs, e) = crate::wkt_to_wkb::grammar::p_coord_seq(s, p + 2, cs).unwrap();
                assert(map_tuples(labs, f).len() == labs.len() && map_tuples(pts, vt).len() == pts.len());
                assert(labs.len() == pts.len());
            }
        },
        Shape::Polygon(_, rs) => {
            if rs.len() == 0 {
                lemma_wrap_texts(seq![], fmt);
                lemma_read_empty_body(s, p);
                assert(map_rings(Seq::<Seq<Seq<u64>>>::empty(), f) =~= map_rings(rs, vt));
            } else {
                let t = text_of(r_rings(rs), fmt);
                lemma_wrap_texts(r_rings(rs), fmt);
                lemma_read_paren_body(s, p, t);
                lemma_rings_text_first(rs, fmt);
                lemma_stands_split(s, p + 2, t, seq![')']);
                lemma_stands_at(s, p + 2, t, 0);
                lemma_skip_none(s, p + 2);
                lemma_read_rings_text(s, p + 2, p + 2, rs, cs, fmt, val);
                let (labs, e) = crate::wkt_to_wkb::grammar::p_rings(s, p + 2, cs).unwrap();
                assert(map_rings(labs, f).len() == labs.len() && map_rings(rs, vt).len() == rs.len());
                assert(labs.len() == rs.len());
            }
        },
        Shape::MultiPoint(_, ms) => {
            if ms.len() == 0 {
                lemma_wrap_texts(seq![], fmt);
                lemma_read_empty_body(s, p);
                assert(map_tuples(Seq::<Seq<u64>>::empty(), f) =~= map_tuples(ms, vt));
            } else {
                let t = text_of(r_mp_members(ms), fmt);
                lemma_wrap_texts(r_mp_members(ms), fmt);
                lemma_read_paren_body(s, p, t);
                assert forall|i: int| 0 <= i < ms.len() implies (#[trigger] ms[i]).len() == 0
                    || ms[i].len() == cs by {
                    assert(point_ok(ms[i], d));
                }
                lemma_member_texts_first(ms[0], seq![], seq![], fmt);
                if ms.len() >= 2 {
                    lemma_r_mp_members_front(ms);
                    lemma_text_add(r_mp_member(ms[0]) + comma_sep(), r_mp_members(ms.skip(1)), fmt);
                    lemma_text_add(r_mp_member(ms[0]), comma_sep(), fmt);
                } else {
                    assert(r_mp_members(ms) == r_mp_member(ms[0]));
                }
                lemma_stands_split(s, p + 2, t, seq![')']);
                lemma_stands_at(s, p + 2, t, 0);
                lemma_skip_none(s, p + 2);
                lemma_read_mp_members_text(s, p + 2, p + 2, ms, cs, fmt, val);
                let (labs, e) = crate::wkt_to_wkb::grammar::p_mp_members(s, p + 2, cs).unwrap();
                assert(map_tuples(labs, f).len() == labs.len() && map_tuples(ms, vt).len() == ms.len());
                assert(labs.len() == ms.len());
            }
        },
        Shape::MultiLineString(_, ms) => {
            if ms.len() == 0 {
                lemma_wrap_texts(seq![], fmt);
                lemma_read_empty_body(s, p);
                assert(map_rings(Seq::<Seq<Seq<u64>>>::empty(), f) =~= map_rings(ms, vt));
            } else {
                let t = text_of(r_mls_members(ms), fmt);
                lemma_wrap_texts(r_mls_members(ms), fmt);
                lemma_read_paren_body(s, p, t);
                lemma_member_texts_first(seq![], ms[0], seq![], fmt);
                if ms.len() >= 2 {
                    lemma_r_mls_members_front(ms);
                    lemma_text_add(r_mls_member(ms[0]) + comma_sep(), r_mls_members(ms.skip(1)), fmt);
                    lemma_text_add(r_mls_member(ms[0]), comma_sep(), fmt);
                } else {
                    assert(r_mls_members(ms) == r_mls_member(ms[0]));
                }
                lemma_stands_split(s, p + 2, t, seq![')']);
                lemma_stands_at(s, p + 2, t, 0);
                lemma_skip_none(s, p + 2);
                lemma_read_mls_members_text(s, p + 2, p + 2, ms, cs, fmt, val);
                let (labs, e) = crate::wkt_to_wkb::grammar::p_mls_members(s, p + 2, cs).unwrap();
                assert(map_rings(labs, f).len() == labs.len() && map_rings(ms, vt).len() == ms.len());
                assert(labs.len() == ms.len());
            }
        },
        Shape::MultiPolygon(_, ms) => {
            if ms.len() == 0 {
                lemma_wrap_texts(seq![], fmt);
                lemma_read_empty_body(s, p);
                assert(map_polys(Seq::<Seq<Seq<Seq<u64>>>>::empty(), f) =~= map_polys(ms, vt));
            } else {
                let t = text_of(r_mpoly_members(ms), fmt);
                lemma_wrap_texts(r_mpoly_members(ms), fmt);
                lemma_read_paren_body(s, p, t);
                lemma_member_texts_first(seq![], seq![], ms[0], fmt);
                if ms.len() >= 2 {
                    lemma_r_mpoly_members_front(ms);
                    lemma_text_add(r_mpoly_member(ms[0]) + comma_sep(), r_mpoly_members(ms.skip(1)), fmt);
                    lemma_text_add(r_mpoly_member(ms[0]), comma_sep(), fmt);
                } else {
                    assert(r_mpoly_members(ms) == r_mpoly_member(ms[0]));
                }
                lemma_stands_split(s, p + 2, t, seq![')']);
                lemma_stands_at(s, p + 2, t, 0);
                lemma_skip_none(s, p + 2);
                lemma_read_mpoly_members_text(s, p + 2, p + 2, ms, cs, fmt, val);
                let (labs, e) = crate::wkt_to_wkb::grammar::p_mpoly_members(s, p + 2, cs).unwrap();
                assert(map_polys(labs, f).len() == labs.len() && map_polys(ms, vt).len() == ms.len());
                assert(labs.len() == ms.len());
            }
        },
        Shape::Collection(..) => {},
    }
}

// ---------------------------------------------------------------- keywords and tags

/// The word `w` does not stand at `q`: its `i`-th letter differs.
pub proof fn lemma_not_word(s: Seq<char>, q: int, w: Seq<char>, i: int)
    requires
        0 <= i < w.len(),
        0 <= q,
        q + i < s.len(),
        !crate::text::eq_ignore_case(s[q + i], w[i]),
    ensures
        !matches_word(s, q, w),
{
}

/// A keyword where it stands, a space after it.
#[verifier::spinoff_prover]
pub proof fn lemma_keyword_text(s: Seq<char>, q: int, t: GeomType)
    requires
        stands(s, q, keyword_of(t) + seq![' ']),
    ensures
        keyword_at(s, q) == Some(t),
{
    let w = keyword_of(t);
    lemma_stands_split(s, q, w, seq![' ']);
    lemma_stands_at(s, q + w.len(), seq![' '], 0);
    assert forall|i: int| 0 <= i < w.len() implies crate::text::eq_ignore_case(#[trigger] s[q + i], w[i]) by {
        lemma_stands_at(s, q, w, i);
    }
    assert(matches_word(s, q, w));
    lemma_stands_at(s, q, w, 0);
    let gc = keyword_of(GeomType::GeometryCollection);
    let mls = keyword_of(GeomType::MultiLineString);
    let mpoly = keyword_of(GeomType::MultiPolygon);
    let mp = keyword_of(GeomType::MultiPoint);
    let ls = keyword_of(GeomType::LineString);
    let poly = keyword_of(GeomType::Polygon);
    match t {
        GeomType::GeometryCollection => {},
        GeomType::MultiLineString => {
            lemma_not_word(s, q, gc, 0);
        },
        GeomType::MultiPolygon => {
            lemma_not_word(s, q, gc, 0);
            lemma_stands_at(s, q, w, 5);
            lemma_not_word(s, q, mls, 5);
        },
        GeomType::MultiPoint => {
            lemma_not_word(s, q, gc, 0);
            lemma_stands_at(s, q, w, 5);
            lemma_not_word(s, q, mls, 5);
            lemma_stands_at(s, q, w, 7);
            lemma_not_word(s, q, mpoly, 7);
        },
        GeomType::LineString => {
            lemma_not_word(s, q, gc, 0);
            lemma_not_word(s, q, mls, 0);
            lemma_not_word(s, q, mpoly, 0);
            lemma_not_word(s, q, mp, 0);
        },
        GeomType::Polygon => {
            lemma_not_word(s, q, gc, 0);
            lemma_not_word(s, q, mls, 0);
            lemma_not_word(s, q, mpoly, 0);
            lemma_not_word(s, q, mp, 0);
            lemma_not_word(s, q, ls, 0);
        },
        GeomType::Point => {
            lemma_not_word(s, q, gc, 0);
            lemma_not_word(s, q, mls, 0);
            lemma_not_word(s, q, mpoly, 0);
            lemma_not_word(s, q, mp, 0);
            lemma_not_word(s, q, ls, 0);
            lemma_stands_at(s, q, w, 2);
            lemma_not_word(s, q, poly, 2);
        },
    }
}

/// A dimension tag where it stands, then a space and `E` or `(`.
pub proof fn lemma_dim_text(s: Seq<char>, e: int, d: Dimension, x: char)
    requires
        x == 'E' || x == '(',
        stands(s, e, dim_tag(d) + seq![' ', x]),
    ensures
        p_dim(s, e) == (d, e + dim_tag(d).len()),
{
    let w = dim_tag(d) + seq![' ', x];
    lemma_stands_at(s, e, w, 0);
    lemma_stands_at(s, e, w, 1);
    if dim_tag(d).len() >= 1 {
        lemma_stands_at(s, e, w, 2);
    }
    if dim_tag(d).len() >= 2 {
        lemma_stands_at(s, e, w, 3);
    }
    lemma_skip_one(s, e);
}

// ---------------------------------------------------------------- geometries

pub proof fn lemma_word_texts(t: GeomType, d: Dimension, fmt: spec_fn(u64) -> Seq<char>)
    ensures
        text_of(lit(keyword_of(t)), fmt) == keyword_of(t),
        text_of(lit(dim_tag(d)), fmt) == dim_tag(d),
        keyword_of(t).len() > 0,
        !is_ws(keyword_of(t)[0]),
{
    lemma_text_lit(keyword_of(t), fmt);
    lemma_text_lit(dim_tag(d), fmt);
}

/// The text of a geometry: keyword, dimension tag, body.
pub proof fn lemma_render_text(g: Shape, fmt: spec_fn(u64) -> Seq<char>)
    ensures
        text_of(render(g), fmt) == keyword_of(shape_type(g)) + dim_tag(shape_dim(g)) + text_of(
            r_geom_body(g),
            fmt,
        ),
        text_of(render(g), fmt).len() > 0,
        !is_ws(text_of(render(g), fmt)[0]),
{
    crate::model::lemma_render_split(g);
    let kw = lit(keyword_of(shape_type(g)));
    let tag = lit(dim_tag(shape_dim(g)));
    lemma_text_add(kw + tag, r_geom_body(g), fmt);
    lemma_text_add(kw, tag, fmt);
    lemma_word_texts(shape_type(g), shape_dim(g), fmt);
}

/// The body of a geometry as text: ` EMPTY`, or ` (` and more.
pub proof fn lemma_geom_body_text(g: Shape, fmt: spec_fn(u64) -> Seq<char>)
    ensures
        text_of(r_geom_body(g), fmt).len() >= 2,
        text_of(r_geom_body(g), fmt)[0] == ' ',
        text_of(r_geom_body(g), fmt)[1] == 'E' || text_of(r_geom_body(g), fmt)[1] == '(',
{
    let b = r_geom_body(g);
    match g {
        Shape::Point(_, c) => lemma_wrap_texts(r_tuple(c), fmt),
        Shape::LineString(_, pts) => lemma_wrap_texts(r_tuples(pts), fmt),
        Shape::Polygon(_, rs) => lemma_wrap_texts(r_rings(rs), fmt),
        Shape::MultiPoint(_, ms) => lemma_wrap_texts(r_mp_members(ms), fmt),
        Shape::MultiLineString(_, ms) => lemma_wrap_texts(r_mls_members(ms), fmt),
        Shape::MultiPolygon(_, ms) => lemma_wrap_texts(r_mpoly_members(ms), fmt),
        Shape::Collection(_, ms) => lemma_wrap_texts(r_members(ms), fmt),
    }
}

/// Collection members listed from the front: the first, `, `, the rest.
pub proof fn lemma_r_members_front(ms: Seq<Shape>)
    requires
        ms.len() >= 2,
    ensures
        r_members(ms) == render(ms[0]) + comma_sep() + r_members(ms.skip(1)),
    decreases ms.len(),
{
    let rest = ms.skip(1);
    if ms.len() == 2 {
        assert(ms.drop_last() =~= seq![ms[0]]);
        assert(rest =~= seq![ms[1]]);
        assert(r_members(ms.drop_last()) == render(ms[0]));
        assert(r_members(rest) == render(ms[1]));
    } else {
        let m0 = ms.drop_last();
        lemma_r_members_front(m0);
        assert(m0.skip(1) =~= rest.drop_last());
        assert(rest.last() == ms.last());
        assert(r_members(ms) =~= render(ms[0]) + comma_sep() + r_members(rest));
    }
}

/// The text of collection members starts where the first member's does.
pub proof fn lemma_members_text_first(ms: Seq<Shape>, fmt: spec_fn(u64) -> Seq<char>)
    requires
        ms.len() >= 1,
    ensures
        text_of(r_members(ms), fmt).len() > 0,
        !is_ws(text_of(r_members(ms), fmt)[0]),
{
    lemma_render_text(ms[0], fmt);
    if ms.len() >= 2 {
        lemma_r_members_front(ms);
        lemma_text_add(render(ms[0]) + comma_sep(), r_members(ms.skip(1)), fmt);
        lemma_text_add(render(ms[0]), comma_sep(), fmt);
    } else {
        assert(r_members(ms) == render(ms[0]));
    }
}

/// A geometry's text reads back as the geometry.
#[verifier::spinoff_prover]
#[verifier::rlimit(100)]
pub proof fn lemma_read_geometry_text(
    s: Seq<char>,
    p: int,
    q: int,
    g: Shape,
    depth: nat,
    fmt: spec_fn(u64) -> Seq<char>,
    val: spec_fn(Seq<char>) -> u64,
)
    requires
        encodable(g, depth),
        wkt_readable(g),
        skip_ws(s, p) == q,
        stands(s, q, text_of(render(g), fmt)),
        no_letter_at(s, q + text_of(render(g), fmt).len()),
        formats(fmt),
        s.len() <= u64::MAX,
    ensures
        p_geometry(s, p, depth) matches Some((h, e)) && e == q + text_of(render(g), fmt).len()
            && map_shape(h, read_value(s, val)) == map_shape(g, composed(val, fmt)),
    decreases g, 1nat,
{
    let f = read_value(s, val);
    let vt = composed(val, fmt);
    let t = shape_type(g);
    let d = shape_dim(g);
    let kw = keyword_of(t);
    let tag = dim_tag(d);
    let b = text_of(r_geom_body(g), fmt);
    lemma_render_text(g, fmt);
    lemma_geom_body_text(g, fmt);
    lemma_word_texts(t, d, fmt);
    let e = q + kw.len() + tag.len();
    lemma_stands_split(s, q, kw + tag, b);
    lemma_stands_split(s, q, kw, tag);
    assert(b =~= seq![' ', b[1]] + b.subrange(2, b.len() as int));
    lemma_stands_split(s, e, seq![' ', b[1]], b.subrange(2, b.len() as int));
    lemma_stands_join(s, q + kw.len(), tag, seq![' ', b[1]]);
    lemma_stands_at(s, q + kw.len(), tag + seq![' ', b[1]], 0);
    assert(s[q + kw.len()] == ' ');
    assert(stands(s, q + kw.len(), seq![' '])) by {
        assert(s.subrange(q + kw.len(), q + kw.len() + 1) =~= seq![' ']);
    }
    lemma_stands_join(s, q, kw, seq![' ']);
    lemma_keyword_text(s, q, t);
    lemma_dim_text(s, q + kw.len(), d, b[1]);
    assert(p_type_dim(s, p) == Some(((t, d), e)));
    match g {
        Shape::Collection(_, ms) => {
            if ms.len() == 0 {
                lemma_wrap_texts(seq![], fmt);
                lemma_read_empty_body(s, e);
                lemma_map_members_empty(f);
                assert(ms =~= Seq::<Shape>::empty());
            } else {
                let tm = text_of(r_members(ms), fmt);
                lemma_wrap_texts(r_members(ms), fmt);
                lemma_read_paren_body(s, e, tm);
                lemma_members_text_first(ms, fmt);
                lemma_stands_split(s, e + 2, tm, seq![')']);
                lemma_stands_at(s, e + 2, tm, 0);
                lemma_skip_none(s, e + 2);
                crate::text::lemma_skip_ws_bounds(s, p);
                assert forall|i: int| 0 <= i < ms.len() implies encodable(#[trigger] ms[i], depth + 1)
                    && wkt_readable(ms[i]) && (d == Dimension::XY || shape_dim(ms[i]) == d) by {}
                lemma_read_members_text(s, e + 2, e + 2, ms, d, depth, fmt, val);
                let (hs, e2) = p_members(s, e + 2, d, depth).unwrap();
                crate::value_laws::lemma_map_members_len(hs, f);
                crate::value_laws::lemma_map_members_len(ms, vt);
                crate::value_laws::lemma_map_members_len(hs, f);
                assert(hs.len() == ms.len());
            }
        },
        _ => {
            lemma_read_body_text(s, e, g, depth, fmt, val);
        },
    }
}

pub proof fn lemma_map_members_empty(f: spec_fn(u64) -> u64)
    ensures
        map_members(Seq::<Shape>::empty(), f) == Seq::<Shape>::empty(),
{
}

/// Collection members and their closing `)` read back as the members.
#[verifier::spinoff_prover]
pub proof fn lemma_read_members_text(
    s: Seq<char>,
    p: int,
    q: int,
    ms: Seq<Shape>,
    d: Dimension,
    depth: nat,
    fmt: spec_fn(u64) -> Seq<char>,
    val: spec_fn(Seq<char>) -> u64,
)
    requires
        ms.len() >= 1,
        forall|i: int|
            0 <= i < ms.len() ==> encodable(#[trigger] ms[i], depth + 1) && wkt_readable(ms[i])
                && (d == Dimension::XY || shape_dim(ms[i]) == d),
        skip_ws(s, p) == q,
        stands(s, q, text_of(r_members(ms), fmt) + seq![')']),
        formats(fmt),
        s.len() <= u64::MAX,
    ensures
        p_members(s, p, d, depth) matches Some((hs, e)) && e == q + text_of(r_members(ms), fmt).len()
            + 1 && map_members(hs, read_value(s, val)) == map_members(ms, composed(val, fmt)),
    decreases ms, 0nat,
{
    let f = read_value(s, val);
    let vt = composed(val, fmt);
    let t = text_of(r_members(ms), fmt);
    let m = ms[0];
    let tm = text_of(render(m), fmt);
    let rest = ms.skip(1);
    let t1 = text_of(r_members(rest), fmt);
    assert(encodable(m, depth + 1) && wkt_readable(m));
    if ms.len() == 1 {
        assert(r_members(ms) == render(m));
        lemma_stands_split(s, q, tm, seq![')']);
        lemma_stands_at(s, q + tm.len(), seq![')'], 0);
        lemma_read_geometry_text(s, p, q, m, depth + 1, fmt, val);
        let (h, e) = p_geometry(s, p, depth + 1).unwrap();
        lemma_map_shape_dim(h, f);
        lemma_map_shape_dim(m, vt);
        lemma_sep_at(s, e);
        crate::value_laws::lemma_map_members_len(seq![h], f);
        crate::value_laws::lemma_map_members_len(ms, vt);
        assert(map_members(seq![h], f) =~= map_members(ms, vt));
    } else {
        lemma_r_members_front(ms);
        lemma_text_add(render(m) + comma_sep(), r_members(rest), fmt);
        lemma_text_add(render(m), comma_sep(), fmt);
        lemma_text_comma(fmt);
        assert(t + seq![')'] =~= (tm + seq![',']) + (seq![' '] + (t1 + seq![')'])));
        lemma_stands_split(s, q, tm + seq![','], seq![' '] + (t1 + seq![')']));
        lemma_stands_split(s, q, tm, seq![',']);
        lemma_stands_at(s, q + tm.len(), seq![','], 0);
        lemma_read_geometry_text(s, p, q, m, depth + 1, fmt, val);
        let (h, e) = p_geometry(s, p, depth + 1).unwrap();
        lemma_map_shape_dim(h, f);
        lemma_map_shape_dim(m, vt);
        lemma_stands_split(s, e + 1, seq![' '], t1 + seq![')']);
        lemma_stands_at(s, e + 1, seq![' '], 0);
        lemma_stands_split(s, e + 2, t1, seq![')']);
        lemma_members_text_first(rest, fmt);
        lemma_stands_at(s, e + 2, t1, 0);
        lemma_after_comma(s, e);
        crate::text::lemma_skip_ws_bounds(s, p);
        assert forall|i: int| 0 <= i < rest.len() implies encodable(#[trigger] rest[i], depth + 1)
            && wkt_readable(rest[i]) && (d == Dimension::XY || shape_dim(rest[i]) == d) by {
            assert(rest[i] == ms[i + 1]);
        }
        assert(rest.len() < ms.len());
        lemma_read_members_text(s, e + 1, e + 2, rest, d, depth, fmt, val);
        let (hs1, e2) = p_members(s, e + 1, d, depth).unwrap();
        crate::value_laws::lemma_map_members_len(hs1, f);
        crate::value_laws::lemma_map_members_len(seq![h] + hs1, f);
        crate::value_laws::lemma_map_members_len(rest, vt);
        crate::value_laws::lemma_map_members_len(ms, vt);
        assert(hs1.len() == rest.len());
        assert forall|i: int| 0 <= i < ms.len() implies #[trigger] map_members(seq![h] + hs1, f)[i]
            == map_members(ms, vt)[i] by {
            if i > 0 {
                assert((seq![h] + hs1)[i] == hs1[i - 1]);
                assert(map_members(hs1, f)[i - 1] == map_members(rest, vt)[i - 1]);
                assert(rest[i - 1] == ms[i]);
            }
        }
        assert(map_members(seq![h] + hs1, f) =~= map_members(ms, vt));
    }
}

// ---------------------------------------------------------------- whole texts

pub proof fn lemma_decimal(n: nat)
    ensures
        spec_decimal(n).len() >= 1,
        all_digits(spec_decimal(n)),
        digits_value(spec_decimal(n)) == n,
        ascii(spec_decimal(n)),
    decreases n,
{
    let d = n % 10;
    lemma_digit_char(d);
    if n < 10 {
        let x = spec_decimal(n);
        assert(x.drop_last() =~= Seq::<char>::empty());
        assert(digits_value(Seq::<char>::empty()) == 0);
        assert(digits_value(x) == digits_value(x.drop_last()) * 10 + (x.last() as u32 - '0' as u32) as nat);
    } else {
        lemma_decimal(n / 10);
        let x0 = spec_decimal(n / 10);
        crate::text::lemma_digits_value_push(x0, digit_char(d));
        let x = spec_decimal(n);
        assert(x == x0.push(digit_char(d)));
        assert(digits_value(x) == (n / 10) * 10 + d);
        assert forall|i: int| 0 <= i < x.len() implies is_digit(#[trigger] x[i]) by {
            if i < x0.len() {
                assert(x[i] == x0[i]);
            }
        }
        assert forall|i: int| 0 <= i < x.len() implies (#[trigger] x[i] as u32) < 128 by {
            if i < x0.len() {
                assert(x[i] == x0[i]);
            }
        }
    }
}

pub proof fn lemma_digit_char(d: nat)
    requires
        d < 10,
    ensures
        is_digit(digit_char(d)),
        digit_char(d) as u32 - '0' as u32 == d,
        (digit_char(d) as u32) < 128,
{
}

pub proof fn lemma_digit_end_run(s: Seq<char>, p: int, e: int)
    requires
        0 <= p <= e <= s.len(),
        forall|i: int| p <= i < e ==> is_digit(#[trigger] s[i]),
        !(e < s.len()) || !is_digit(s[e]),
    ensures
        digit_end(s, p) == e,
    decreases e - p,
{
    if p < e {
        lemma_digit_end_run(s, p + 1, e);
    }
}

/// The text of an SRID prefix: `SRID=`, the digits, `;`.
pub proof fn lemma_srid_prefix_text(n: i32, fmt: spec_fn(u64) -> Seq<char>)
    requires
        n > 0,
    ensures
        text_of(crate::model::srid_prefix(n), fmt) == srid_word() + spec_decimal(n as nat) + seq![';'],
{
    lemma_decimal(n as nat);
    let a = lit(seq!['S', 'R', 'I', 'D', '=']);
    let b = lit(spec_decimal(n as nat));
    lemma_text_add(a + b, lit(seq![';']), fmt);
    lemma_text_add(a, b, fmt);
    lemma_text_lit(seq!['S', 'R', 'I', 'D', '='], fmt);
    lemma_text_lit(spec_decimal(n as nat), fmt);
    lemma_text_lit(seq![';'], fmt);
}

/// An SRID prefix where the text starts reads back as its SRID.
pub proof fn lemma_read_srid_prefix(s: Seq<char>, n: i32)
    requires
        n > 0,
        stands(s, 0, srid_word() + spec_decimal(n as nat) + seq![';']),
    ensures
        p_srid(s, 0) == Some((Some(n), 5 + spec_decimal(n as nat).len() as int + 1)),
{
    let x = spec_decimal(n as nat);
    lemma_decimal(n as nat);
    let k: int = 5 + x.len() as int;
    lemma_stands_split(s, 0, srid_word() + x, seq![';']);
    lemma_stands_split(s, 0, srid_word(), x);
    lemma_stands_at(s, 0, srid_word(), 0);
    lemma_skip_none(s, 0);
    assert forall|i: int| 0 <= i < srid_word().len() implies crate::text::eq_ignore_case(
        #[trigger] s[0 + i],
        srid_word()[i],
    ) by {
        lemma_stands_at(s, 0, srid_word(), i);
    }
    assert(prefix_ci(s, 0, srid_word()));
    lemma_stands_at(s, 5, x, 0);
    assert forall|i: int| 5 <= i < k implies is_digit(#[trigger] s[i]) by {
        lemma_stands_at(s, 5, x, i - 5);
    }
    lemma_stands_at(s, k, seq![';'], 0);
    lemma_digit_end_run(s, 5, k);
    assert(s.subrange(5, k) == x);
    lemma_skip_none(s, k);
}

/// The SRID prefix of written WKT reads back as the SRID; the geometry's
/// text follows it, at the position returned.
pub proof fn lemma_read_prefix(g: Shape, srid: Option<i32>, fmt: spec_fn(u64) -> Seq<char>) -> (q: int)
    requires
        srid matches Some(n) ==> n > 0,
    ensures
        ({
            let s = text_of(crate::wkb_to_wkt::wkt_parts(g, srid), fmt);
            &&& p_srid(s, 0) == Some((srid, q))
            &&& stands(s, q, text_of(render(g), fmt))
            &&& q + text_of(render(g), fmt).len() == s.len()
        }),
{
    let s = text_of(crate::wkb_to_wkt::wkt_parts(g, srid), fmt);
    let tg = text_of(render(g), fmt);
    lemma_render_text(g, fmt);
    let q: int = match srid {
        Some(n) => 5 + spec_decimal(n as nat).len() as int + 1,
        None => 0,
    };
    match srid {
        Some(n) => {
            let pre = srid_word() + spec_decimal(n as nat) + seq![';'];
            lemma_text_add(crate::model::srid_prefix(n), render(g), fmt);
            lemma_srid_prefix_text(n, fmt);
            assert(s == pre + tg);
            assert(s.subrange(0, s.len() as int) =~= pre + tg);
            lemma_stands_split(s, 0, pre, tg);
            lemma_read_srid_prefix(s, n);
        },
        None => {
            assert(s == tg);
            assert(s.subrange(0, tg.len() as int) =~= tg);
            lemma_word_texts(shape_type(g), shape_dim(g), fmt);
            let rest = dim_tag(shape_dim(g)) + text_of(r_geom_body(g), fmt);
            assert(tg =~= keyword_of(shape_type(g)) + rest);
            lemma_stands_split(s, 0, keyword_of(shape_type(g)), rest);
            lemma_stands_at(s, 0, keyword_of(shape_type(g)), 0);
            assert(!crate::text::eq_ignore_case(s[0int + 0int], srid_word()[0]));
            assert(!prefix_ci(s, 0, srid_word()));
            lemma_skip_none(s, 0);
        },
    }
    q
}

/// Values passed through a function that keeps each of them: the geometry itself.
pub proof fn lemma_map_shape_id(g: Shape, f: spec_fn(u64) -> u64)
    requires
        forall|v: u64| #[trigger] f(v) == v,
    ensures
        map_shape(g, f) == g,
    decreases g,
{
    lemma_map_seqs_id(f);
    match g {
        Shape::Collection(d, ms) => {
            crate::value_laws::lemma_map_members_len(ms, f);
            assert forall|i: int| 0 <= i < ms.len() implies #[trigger] map_members(ms, f)[i]
                == ms[i] by {
                lemma_map_shape_id(ms[i], f);
            }
            assert(map_members(ms, f) =~= ms);
        },
        _ => {},
    }
}

pub proof fn lemma_map_seqs_id(f: spec_fn(u64) -> u64)
    requires
        forall|v: u64| #[trigger] f(v) == v,
    ensures
        forall|c: Seq<u64>| #[trigger] map_tuple(c, f) == c,
        forall|c: Seq<Seq<u64>>| #[trigger] map_tuples(c, f) == c,
        forall|c: Seq<Seq<Seq<u64>>>| #[trigger] map_rings(c, f) == c,
        forall|c: Seq<Seq<Seq<Seq<u64>>>>| #[trigger] map_polys(c, f) == c,
{
    assert forall|c: Seq<u64>| #[trigger] map_tuple(c, f) == c by {
        assert(map_tuple(c, f) =~= c);
    }
    assert forall|c: Seq<Seq<u64>>| #[trigger] map_tuples(c, f) == c by {
        assert(map_tuples(c, f) =~= c);
    }
    assert forall|c: Seq<Seq<Seq<u64>>>| #[trigger] map_rings(c, f) == c by {
        assert(map_rings(c, f) =~= c);
    }
    assert forall|c: Seq<Seq<Seq<Seq<u64>>>>| #[trigger] map_polys(c, f) == c by {
        assert(map_polys(c, f) =~= c);
    }
}

/// Written WKT parses to a geometry of the same shape, whose values read
/// through `val` are those `val` reads from the formatted values.
pub proof fn lemma_written_wkt_parses(
    g: Shape,
    srid: Option<i32>,
    fmt: spec_fn(u64) -> Seq<char>,
    val: spec_fn(Seq<char>) -> u64,
)
    requires
        encodable(g, 0),
        wkt_readable(g),
        srid matches Some(n) ==> n > 0,
        formats(fmt),
        text_of(crate::wkb_to_wkt::wkt_parts(g, srid), fmt).len() <= u64::MAX,
    ensures
        ({
            let s = text_of(crate::wkb_to_wkt::wkt_parts(g, srid), fmt);
            parse_wkt(s) matches Some((h, sr)) && sr == srid && map_shape(h, read_value(s, val))
                == map_shape(g, composed(val, fmt))
        }),
{
    let s = text_of(crate::wkb_to_wkt::wkt_parts(g, srid), fmt);
    let tg = text_of(render(g), fmt);
    let q = lemma_read_prefix(g, srid, fmt);
    lemma_render_text(g, fmt);
    assert(stands(s, q, tg));
    lemma_stands_at(s, q, tg, 0);
    lemma_skip_none(s, q);
    lemma_read_geometry_text(s, q, q, g, 0, fmt, val);
    lemma_skip_none(s, s.len() as int);
}

/// WKT that the library writes for a geometry and its SRID, each number
/// formatted as a number lexeme, parses back to the geometry and the SRID:
/// reading each lexeme with a reader that inverts the formatting gives back
/// every value. The geometry is one that WKB can hold, whose rings hold a
/// point each and whose collections with Z or M hold members of their
/// dimension; the formatting is stated for every value, as only the values
/// of the geometry reach the text.
pub proof fn law_written_wkt_reads_back(
    g: Shape,
    srid: Option<i32>,
    fmt: spec_fn(u64) -> Seq<char>,
    val: spec_fn(Seq<char>) -> u64,
)
    requires
        encodable(g, 0),
        wkt_readable(g),
        srid matches Some(n) ==> n > 0,
        formats(fmt),
        inverts(val, fmt),
        text_of(crate::wkb_to_wkt::wkt_parts(g, srid), fmt).len() <= u64::MAX,
    ensures
        ({
            let s = text_of(crate::wkb_to_wkt::wkt_parts(g, srid), fmt);
            parse_wkt(s) matches Some((h, sr)) && sr == srid && map_shape(h, read_value(s, val)) == g
        }),
{
    lemma_written_wkt_parses(g, srid, fmt, val);
    assert forall|v: u64| #[trigger] composed(val, fmt)(v) == v by {
        assert(val(fmt(v)) == v);
    }
    lemma_map_shape_id(g, composed(val, fmt));
}

/// WKB → WKT → WKB: WKT that the library writes for a geometry and its SRID,
/// converted back to WKB with each number written as the value its lexeme
/// reads as, decodes to the geometry and the SRID. The conditions are those of
/// [`law_written_wkt_reads_back`].
pub proof fn law_written_wkt_converts_back(
    g: Shape,
    srid: Option<i32>,
    fmt: spec_fn(u64) -> Seq<char>,
    val: spec_fn(Seq<char>) -> u64,
)
    requires
        encodable(g, 0),
        wkt_readable(g),
        srid matches Some(n) ==> n > 0,
        formats(fmt),
        inverts(val, fmt),
        text_of(crate::wkb_to_wkt::wkt_parts(g, srid), fmt).len() <= u64::MAX,
    ensures
        ({
            let s = text_of(crate::wkb_to_wkt::wkt_parts(g, srid), fmt);
            wkt_result(s, SridMode::Auto) matches Some((cells, sr)) && sr == srid && decode(
                flatten(cells, num_payloads(cells).map_values(read_value(s, val))),
            ) == Ok::<(Shape, Option<i32>), Fault>((g, srid))
        }),
{
    let s = text_of(crate::wkb_to_wkt::wkt_parts(g, srid), fmt);
    let f = read_value(s, val);
    law_written_wkt_reads_back(g, srid, fmt, val);
    let (h, sr) = parse_wkt(s).unwrap();
    let cells = encode(h, srid);
    crate::value_laws::lemma_map_encode(h, srid, f);
    crate::parse_laws::lemma_payloads_len(cells);
    crate::value_laws::lemma_flatten_mapped(cells, f, num_payloads(cells).map_values(f));
    law_decode_encode(g, srid);
}

} // verus!
