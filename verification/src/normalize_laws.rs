//! Laws on normalising WKT: the normalised text holds the values of the
//! input, and normalising it again gives it back unchanged.
use crate::model::{
    comma_sep, coords_of, lit, r_empty, r_geom_body, r_members, r_mls_member, r_mls_members,
    r_mp_member, r_mp_members, r_mpoly_member, r_mpoly_members, r_paren, r_ring, r_rings, r_tuple,
    r_tuples, render, render_text, Shape, WktPart,
};
use crate::parse_laws::{lemma_parsed_encodable, lemma_parsed_readable, short_text};
use crate::render_laws::{
    composed, formats, inverts, lemma_srid_prefix_text, lemma_text_add, lemma_written_wkt_parses,
    lexeme_ok, read_value, text_of,
};
use crate::text::lexeme;
use crate::types::{out_srid, SridMode};
use crate::value_laws::{
    lemma_map_members_len, map_members, map_polys, map_rings, map_shape, map_tuple, map_tuples,
};
use crate::wkb_to_wkt::wkt_parts;
use crate::wkt_to_wkb::grammar::parse_wkt;
use vstd::prelude::*;

verus! {

// ---------------------------------------------------------------- parts with values given

/// A part with a coordinate `v` replaced by `f(v)`.
pub open spec fn map_part(x: WktPart, f: spec_fn(u64) -> u64) -> WktPart {
    match x {
        WktPart::Char(c) => WktPart::Char(c),
        WktPart::Coord(v) => WktPart::Coord(f(v)),
    }
}

/// Parts with each coordinate `v` replaced by `f(v)`.
pub open spec fn map_parts(p: Seq<WktPart>, f: spec_fn(u64) -> u64) -> Seq<WktPart> {
    p.map_values(|x: WktPart| map_part(x, f))
}

/// `fmt` applied after `f`.
pub open spec fn after(fmt: spec_fn(u64) -> Seq<char>, f: spec_fn(u64) -> u64) -> spec_fn(u64) -> Seq<char> {
    |v: u64| fmt(f(v))
}

pub proof fn lemma_map_parts_add(a: Seq<WktPart>, b: Seq<WktPart>, f: spec_fn(u64) -> u64)
    ensures
        map_parts(a + b, f) == map_parts(a, f) + map_parts(b, f),
{
    assert(map_parts(a + b, f) =~= map_parts(a, f) + map_parts(b, f));
}

pub proof fn lemma_map_parts_lit(w: Seq<char>, f: spec_fn(u64) -> u64)
    ensures
        map_parts(lit(w), f) == lit(w),
    decreases w.len(),
{
    if w.len() > 0 {
        lemma_map_parts_lit(w.drop_last(), f);
        assert(lit(w).drop_last() =~= lit(w.drop_last()));
        assert(map_parts(lit(w), f) =~= map_parts(lit(w.drop_last()), f).push(
            WktPart::Char(w.last() as u8),
        ));
    }
}

pub proof fn lemma_map_parts_comma(f: spec_fn(u64) -> u64)
    ensures
        map_parts(comma_sep(), f) == comma_sep(),
{
    lemma_map_parts_lit(seq![',', ' '], f);
}

/// `open`, `inner`, `close` with values given.
pub proof fn lemma_map_parts_wrap(open: Seq<char>, inner: Seq<WktPart>, close: Seq<char>, f: spec_fn(u64) -> u64)
    ensures
        map_parts(lit(open) + inner + lit(close), f) == lit(open) + map_parts(inner, f) + lit(close),
{
    lemma_map_parts_add(lit(open) + inner, lit(close), f);
    lemma_map_parts_add(lit(open), inner, f);
    lemma_map_parts_lit(open, f);
    lemma_map_parts_lit(close, f);
}

/// A list joined by `, ` with values given.
pub proof fn lemma_map_parts_join(a: Seq<WktPart>, b: Seq<WktPart>, f: spec_fn(u64) -> u64)
    ensures
        map_parts(a + comma_sep() + b, f) == map_parts(a, f) + comma_sep() + map_parts(b, f),
{
    lemma_map_parts_add(a + comma_sep(), b, f);
    lemma_map_parts_add(a, comma_sep(), f);
    lemma_map_parts_comma(f);
}

pub proof fn lemma_render_map_tuple(c: Seq<u64>, f: spec_fn(u64) -> u64)
    ensures
        map_parts(r_tuple(c), f) == r_tuple(map_tuple(c, f)),
    decreases c.len(),
{
    if c.len() == 1 {
        assert(map_parts(r_tuple(c), f) =~= r_tuple(map_tuple(c, f)));
    } else if c.len() > 1 {
        let c0 = c.drop_last();
        lemma_render_map_tuple(c0, f);
        assert(map_tuple(c, f).drop_last() =~= map_tuple(c0, f));
        let tail = seq![WktPart::Char(32u8), WktPart::Coord(c.last())];
        lemma_map_parts_add(r_tuple(c0), tail, f);
        assert(map_parts(tail, f) =~= seq![WktPart::Char(32u8), WktPart::Coord(f(c.last()))]);
    } else {
        assert(map_parts(r_tuple(c), f) =~= r_tuple(map_tuple(c, f)));
    }
}

pub proof fn lemma_render_map_tuples(ms: Seq<Seq<u64>>, f: spec_fn(u64) -> u64)
    ensures
        map_parts(r_tuples(ms), f) == r_tuples(map_tuples(ms, f)),
    decreases ms.len(),
{
    let mm = map_tuples(ms, f);
    if ms.len() == 0 {
        assert(map_parts(r_tuples(ms), f) =~= r_tuples(mm));
    } else if ms.len() == 1 {
        lemma_render_map_tuple(ms[0], f);
        assert(mm[0] == map_tuple(ms[0], f));
    } else {
        let m0 = ms.drop_last();
        lemma_render_map_tuples(m0, f);
        lemma_render_map_tuple(ms.last(), f);
        assert(mm.drop_last() =~= map_tuples(m0, f));
        assert(mm.last() == map_tuple(ms.last(), f));
        lemma_map_parts_join(r_tuples(m0), r_tuple(ms.last()), f);
    }
}

pub proof fn lemma_render_map_ring(r: Seq<Seq<u64>>, f: spec_fn(u64) -> u64)
    ensures
        map_parts(r_ring(r), f) == r_ring(map_tuples(r, f)),
{
    lemma_render_map_tuples(r, f);
    lemma_map_parts_wrap(seq!['('], r_tuples(r), seq![')'], f);
}

pub proof fn lemma_render_map_rings(ms: Seq<Seq<Seq<u64>>>, f: spec_fn(u64) -> u64)
    ensures
        map_parts(r_rings(ms), f) == r_rings(map_rings(ms, f)),
    decreases ms.len(),
{
    let mm = map_rings(ms, f);
    if ms.len() == 0 {
        assert(map_parts(r_rings(ms), f) =~= r_rings(mm));
    } else if ms.len() == 1 {
        lemma_render_map_ring(ms[0], f);
        assert(mm[0] == map_tuples(ms[0], f));
    } else {
        let m0 = ms.drop_last();
        lemma_render_map_rings(m0, f);
        lemma_render_map_ring(ms.last(), f);
        assert(mm.drop_last() =~= map_rings(m0, f));
        assert(mm.last() == map_tuples(ms.last(), f));
        lemma_map_parts_join(r_rings(m0), r_ring(ms.last()), f);
    }
}

pub proof fn lemma_render_map_mp_member(c: Seq<u64>, f: spec_fn(u64) -> u64)
    ensures
        map_parts(r_mp_member(c), f) == r_mp_member(map_tuple(c, f)),
{
    lemma_map_parts_lit(crate::model::empty_word(), f);
    lemma_render_map_tuple(c, f);
    lemma_map_parts_wrap(seq!['('], r_tuple(c), seq![')'], f);
}

pub proof fn lemma_render_map_mls_member(pts: Seq<Seq<u64>>, f: spec_fn(u64) -> u64)
    ensures
        map_parts(r_mls_member(pts), f) == r_mls_member(map_tuples(pts, f)),
{
    lemma_map_parts_lit(crate::model::empty_word(), f);
    lemma_render_map_tuples(pts, f);
    lemma_map_parts_wrap(seq!['('], r_tuples(pts), seq![')'], f);
}

pub proof fn lemma_render_map_mpoly_member(rs: Seq<Seq<Seq<u64>>>, f: spec_fn(u64) -> u64)
    ensures
        map_parts(r_mpoly_member(rs), f) == r_mpoly_member(map_rings(rs, f)),
{
    lemma_map_parts_lit(crate::model::empty_word(), f);
    lemma_render_map_rings(rs, f);
    lemma_map_parts_wrap(seq!['('], r_rings(rs), seq![')'], f);
}

pub proof fn lemma_render_map_mp_members(ms: Seq<Seq<u64>>, f: spec_fn(u64) -> u64)
    ensures
        map_parts(r_mp_members(ms), f) == r_mp_members(map_tuples(ms, f)),
    decreases ms.len(),
{
    let mm = map_tuples(ms, f);
    if ms.len() == 0 {
        assert(map_parts(r_mp_members(ms), f) =~= r_mp_members(mm));
    } else if ms.len() == 1 {
        lemma_render_map_mp_member(ms[0], f);
        assert(mm[0] == map_tuple(ms[0], f));
    } else {
        let m0 = ms.drop_last();
        lemma_render_map_mp_members(m0, f);
        lemma_render_map_mp_member(ms.last(), f);
        assert(mm.drop_last() =~= map_tuples(m0, f));
        assert(mm.last() == map_tuple(ms.last(), f));
        lemma_map_parts_join(r_mp_members(m0), r_mp_member(ms.last()), f);
    }
}

pub proof fn lemma_render_map_mls_members(ms: Seq<Seq<Seq<u64>>>, f: spec_fn(u64) -> u64)
    ensures
        map_parts(r_mls_members(ms), f) == r_mls_members(map_rings(ms, f)),
    decreases ms.len(),
{
    let mm = map_rings(ms, f);
    if ms.len() == 0 {
        assert(map_parts(r_mls_members(ms), f) =~= r_mls_members(mm));
    } else if ms.len() == 1 {
        lemma_render_map_mls_member(ms[0], f);
        assert(mm[0] == map_tuples(ms[0], f));
    } else {
        let m0 = ms.drop_last();
        lemma_render_map_mls_members(m0, f);
        lemma_render_map_mls_member(ms.last(), f);
        assert(mm.drop_last() =~= map_rings(m0, f));
        assert(mm.last() == map_tuples(ms.last(), f));
        lemma_map_parts_join(r_mls_members(m0), r_mls_member(ms.last()), f);
    }
}

pub proof fn lemma_render_map_mpoly_members(ms: Seq<Seq<Seq<Seq<u64>>>>, f: spec_fn(u64) -> u64)
    ensures
        map_parts(r_mpoly_members(ms), f) == r_mpoly_members(map_polys(ms, f)),
    decreases ms.len(),
{
    let mm = map_polys(ms, f);
    if ms.len() == 0 {
        assert(map_parts(r_mpoly_members(ms), f) =~= r_mpoly_members(mm));
    } else if ms.len() == 1 {
        lemma_render_map_mpoly_member(ms[0], f);
        assert(mm[0] == map_rings(ms[0], f));
    } else {
        let m0 = ms.drop_last();
        lemma_render_map_mpoly_members(m0, f);
        lemma_render_map_mpoly_member(ms.last(), f);
        assert(mm.drop_last() =~= map_polys(m0, f));
        assert(mm.last() == map_rings(ms.last(), f));
        lemma_map_parts_join(r_mpoly_members(m0), r_mpoly_member(ms.last()), f);
    }
}

/// ` EMPTY` and ` (`, `inner`, `)` with values given.
pub proof fn lemma_map_parts_bodies(inner: Seq<WktPart>, f: spec_fn(u64) -> u64)
    ensures
        map_parts(r_empty(), f) == r_empty(),
        map_parts(r_paren(inner), f) == r_paren(map_parts(inner, f)),
{
    lemma_map_parts_add(lit(seq![' ']), lit(crate::model::empty_word()), f);
    lemma_map_parts_lit(seq![' '], f);
    lemma_map_parts_lit(crate::model::empty_word(), f);
    lemma_map_parts_wrap(seq![' ', '('], inner, seq![')'], f);
}

/// Rendering commutes with giving the coordinates values.
pub proof fn lemma_render_map(g: Shape, f: spec_fn(u64) -> u64)
    ensures
        map_parts(render(g), f) == render(map_shape(g, f)),
    decreases g, 1nat,
{
    let h = map_shape(g, f);
    crate::model::lemma_render_split(g);
    crate::model::lemma_render_split(h);
    crate::render_laws::lemma_map_shape_dim(g, f);
    let kw = lit(crate::types::keyword_of(crate::model::shape_type(g)));
    let tag = lit(crate::types::dim_tag(crate::model::shape_dim(g)));
    lemma_map_parts_add(kw + tag, r_geom_body(g), f);
    lemma_map_parts_add(kw, tag, f);
    lemma_map_parts_lit(crate::types::keyword_of(crate::model::shape_type(g)), f);
    lemma_map_parts_lit(crate::types::dim_tag(crate::model::shape_dim(g)), f);
    match g {
        Shape::Point(_, c) => {
            lemma_render_map_tuple(c, f);
            lemma_map_parts_bodies(r_tuple(c), f);
        },
        Shape::LineString(_, pts) => {
            lemma_render_map_tuples(pts, f);
            lemma_map_parts_bodies(r_tuples(pts), f);
        },
        Shape::Polygon(_, rs) => {
            lemma_render_map_rings(rs, f);
            lemma_map_parts_bodies(r_rings(rs), f);
        },
        Shape::MultiPoint(_, ms) => {
            lemma_render_map_mp_members(ms, f);
            lemma_map_parts_bodies(r_mp_members(ms), f);
        },
        Shape::MultiLineString(_, ms) => {
            lemma_render_map_mls_members(ms, f);
            lemma_map_parts_bodies(r_mls_members(ms), f);
        },
        Shape::MultiPolygon(_, ms) => {
            lemma_render_map_mpoly_members(ms, f);
            lemma_map_parts_bodies(r_mpoly_members(ms), f);
        },
        Shape::Collection(_, ms) => {
            lemma_render_map_members(ms, f);
            lemma_map_parts_bodies(r_members(ms), f);
            lemma_map_members_len(ms, f);
        },
    }
}

pub proof fn lemma_render_map_members(ms: Seq<Shape>, f: spec_fn(u64) -> u64)
    ensures
        map_parts(r_members(ms), f) == r_members(map_members(ms, f)),
    decreases ms, 0nat,
{
    let mm = map_members(ms, f);
    lemma_map_members_len(ms, f);
    if ms.len() == 0 {
        assert(map_parts(r_members(ms), f) =~= r_members(mm));
    } else if ms.len() == 1 {
        lemma_render_map(ms[0], f);
    } else {
        let m0 = ms.drop_last();
        lemma_render_map_members(m0, f);
        lemma_render_map(ms.last(), f);
        lemma_map_members_len(m0, f);
        assert(mm.drop_last() =~= map_members(m0, f));
        lemma_map_parts_join(r_members(m0), render(ms.last()), f);
    }
}

pub proof fn lemma_coords_map(p: Seq<WktPart>, f: spec_fn(u64) -> u64)
    ensures
        coords_of(map_parts(p, f)) == coords_of(p).map_values(f),
    decreases p.len(),
{
    if p.len() > 0 {
        let p0 = p.drop_last();
        lemma_coords_map(p0, f);
        assert(map_parts(p, f).drop_last() =~= map_parts(p0, f));
        assert(coords_of(map_parts(p, f)) =~= coords_of(p).map_values(f));
    } else {
        assert(coords_of(map_parts(p, f)) =~= coords_of(p).map_values(f));
    }
}

pub proof fn lemma_render_text_map(p: Seq<WktPart>, f: spec_fn(u64) -> u64, l: Seq<Seq<char>>)
    ensures
        render_text(map_parts(p, f), l) == render_text(p, l),
    decreases p.len(),
{
    if p.len() > 0 {
        let p0 = p.drop_last();
        lemma_render_text_map(p0, f, l);
        assert(map_parts(p, f).drop_last() =~= map_parts(p0, f));
        lemma_coords_map(p0, f);
        crate::draft::lemma_coords_len(p0);
        crate::draft::lemma_coords_len(map_parts(p0, f));
    }
}

/// The text of parts with values given is their text formatted after the values.
pub proof fn lemma_text_map(p: Seq<WktPart>, f: spec_fn(u64) -> u64, fmt: spec_fn(u64) -> Seq<char>)
    ensures
        text_of(map_parts(p, f), fmt) == text_of(p, after(fmt, f)),
{
    lemma_coords_map(p, f);
    lemma_render_text_map(p, f, coords_of(p).map_values(f).map_values(fmt));
    assert(coords_of(p).map_values(f).map_values(fmt) =~= coords_of(p).map_values(after(fmt, f)));
}

// ---------------------------------------------------------------- normalising

/// The text for each number of `s`: `fmt` of the value `val` reads from its lexeme.
pub open spec fn number_texts(
    s: Seq<char>,
    fmt: spec_fn(u64) -> Seq<char>,
    val: spec_fn(Seq<char>) -> u64,
) -> spec_fn(u64) -> Seq<char> {
    after(fmt, read_value(s, val))
}

/// The text that normalising WKT `s` under `mode` gives: the WKT of its
/// geometry with the SRID the mode chooses, each number written as `fmt` of
/// the value `val` reads from its lexeme.
pub open spec fn normalized(
    s: Seq<char>,
    mode: SridMode,
    fmt: spec_fn(u64) -> Seq<char>,
    val: spec_fn(Seq<char>) -> u64,
) -> Seq<char> {
    let (g, sr) = parse_wkt(s).unwrap();
    text_of(wkt_parts(g, out_srid(mode, sr)), number_texts(s, fmt, val))
}

/// Normalised WKT holds the values of the input: it parses to a geometry
/// whose numbers read as the numbers of the input read, with the SRID the
/// mode chooses. (Its text is in memory, so it has at most `u64::MAX`
/// characters.)
pub proof fn law_normalized_keeps_values(
    s: Seq<char>,
    mode: SridMode,
    fmt: spec_fn(u64) -> Seq<char>,
    val: spec_fn(Seq<char>) -> u64,
)
    requires
        short_text(s),
        parse_wkt(s) is Some,
        formats(fmt),
        inverts(val, fmt),
        normalized(s, mode, fmt, val).len() <= u64::MAX,
    ensures
        ({
            let (g, sr) = parse_wkt(s).unwrap();
            let t = normalized(s, mode, fmt, val);
            parse_wkt(t) matches Some((h, sr2)) && sr2 == out_srid(mode, sr) && map_shape(
                h,
                read_value(t, val),
            ) == map_shape(g, read_value(s, val))
        }),
{
    let (g, sr) = parse_wkt(s).unwrap();
    let srid2 = out_srid(mode, sr);
    lemma_parsed_encodable(s);
    lemma_parsed_readable(s);
    let nt = number_texts(s, fmt, val);
    assert(formats(nt)) by {
        assert forall|k: u64| lexeme_ok(#[trigger] nt(k)) by {
            assert(lexeme_ok(fmt(read_value(s, val)(k))));
        }
    }
    lemma_written_wkt_parses(g, srid2, nt, val);
    assert(composed(val, nt) =~= read_value(s, val)) by {
        assert forall|k: u64| #[trigger] composed(val, nt)(k) == read_value(s, val)(k) by {
            assert(val(fmt(read_value(s, val)(k))) == read_value(s, val)(k));
        }
    }
}

/// Normalising normalised WKT gives it back unchanged.
pub proof fn law_normalize_idempotent(
    s: Seq<char>,
    mode: SridMode,
    fmt: spec_fn(u64) -> Seq<char>,
    val: spec_fn(Seq<char>) -> u64,
)
    requires
        short_text(s),
        parse_wkt(s) is Some,
        formats(fmt),
        inverts(val, fmt),
        normalized(s, mode, fmt, val).len() <= u64::MAX,
    ensures
        normalized(normalized(s, mode, fmt, val), mode, fmt, val) == normalized(s, mode, fmt, val),
{
    let (g, sr) = parse_wkt(s).unwrap();
    let t = normalized(s, mode, fmt, val);
    law_normalized_keeps_values(s, mode, fmt, val);
    let (h, sr2) = parse_wkt(t).unwrap();
    let srid2 = out_srid(mode, sr);
    assert(out_srid(mode, sr2) == srid2);
    let fs = read_value(s, val);
    let ft = read_value(t, val);
    lemma_text_map(render(h), ft, fmt);
    lemma_text_map(render(g), fs, fmt);
    lemma_render_map(h, ft);
    lemma_render_map(g, fs);
    assert(text_of(render(h), number_texts(t, fmt, val)) == text_of(render(g), number_texts(s, fmt, val)));
    match srid2 {
        Some(n) => {
            lemma_text_add(crate::model::srid_prefix(n), render(h), number_texts(t, fmt, val));
            lemma_text_add(crate::model::srid_prefix(n), render(g), number_texts(s, fmt, val));
            lemma_parsed_encodable(s);
            lemma_srid_prefix_text(n, number_texts(t, fmt, val));
            lemma_srid_prefix_text(n, number_texts(s, fmt, val));
        },
        None => {},
    }
}

/// WKT text is never hex: its keyword starts with a letter that is no hex digit.
pub proof fn lemma_wkt_not_hex(s: Seq<char>)
    requires
        parse_wkt(s) is Some,
    ensures
        !crate::hex::is_hex_text(s),
{
    let (sr, q0) = crate::wkt_to_wkb::grammar::p_srid(s, 0).unwrap();
    let q = crate::text::skip_ws(s, q0);
    let t = crate::wkt_to_wkb::grammar::keyword_at(s, q).unwrap();
    let w = crate::types::keyword_of(t);
    assert(crate::text::eq_ignore_case(s[q + 0], w[0]));
    assert(!crate::text::is_hex_digit(s[q]));
}

/// The draft that `to_wkt` gives for WKT text it normalises, each coordinate
/// written as `fmt` of the value `val` reads from its lexeme in the text, is
/// the normalised text.
pub proof fn law_to_wkt_normalizes(
    r: crate::Result<crate::WktText>,
    s: Seq<char>,
    mode: SridMode,
    fmt: spec_fn(u64) -> Seq<char>,
    val: spec_fn(Seq<char>) -> u64,
)
    requires
        short_text(s),
        parse_wkt(s) is Some,
        crate::text_to_wkt(r, s, mode, true),
    ensures
        r matches Ok(crate::WktText::Draft(w)) && (w.source matches Some(src) && src@ == s)
            && text_of(w.parts@, number_texts(s, fmt, val)) == normalized(s, mode, fmt, val),
{
    lemma_wkt_not_hex(s);
    crate::parse_laws::law_wkt_to_wkb_decodes_back(s, mode);
}

} // verus!
