//! Laws on the values of numbers: parsing labels each number of WKT text by
//! the position of its lexeme, and the caller gives each label a value. These
//! laws follow the labels through to the bytes the values are written as.
use crate::laws::{encodable, law_decode_encode, point_ok, rings_sized, tuples_sized};
use crate::model::{
    byte_cells, enc_count, enc_header, enc_members, enc_mls_members, enc_mp_members,
    enc_mpoly_members, enc_nan_tuple, enc_point_body, enc_rings, enc_tuple, enc_tuples, encode,
    flatten, flatten_bits, is_finite, is_nan, num_count, num_payloads, Cell, Shape,
};
use crate::parse_laws::{lemma_parsed_encodable, lemma_payloads_len, short_text};
use crate::types::{dim_size, out_srid, Dimension, GeomType, SridMode};
use crate::wkb_to_wkt::reader::decode;
use crate::wkt_to_wkb::grammar::parse_wkt;
use crate::wkt_to_wkb::wkt_result;
use crate::error::Fault;
use vstd::prelude::*;

verus! {

// ---------------------------------------------------------------- giving labels values

/// A tuple with each value `v` replaced by `f(v)`.
pub open spec fn map_tuple(c: Seq<u64>, f: spec_fn(u64) -> u64) -> Seq<u64> {
    c.map_values(f)
}

/// Tuples with each value `v` replaced by `f(v)`.
pub open spec fn map_tuples(pts: Seq<Seq<u64>>, f: spec_fn(u64) -> u64) -> Seq<Seq<u64>> {
    pts.map_values(|c: Seq<u64>| map_tuple(c, f))
}

/// Rings with each value `v` replaced by `f(v)`.
pub open spec fn map_rings(rs: Seq<Seq<Seq<u64>>>, f: spec_fn(u64) -> u64) -> Seq<Seq<Seq<u64>>> {
    rs.map_values(|r: Seq<Seq<u64>>| map_tuples(r, f))
}

/// Polygons with each value `v` replaced by `f(v)`.
pub open spec fn map_polys(ms: Seq<Seq<Seq<Seq<u64>>>>, f: spec_fn(u64) -> u64) -> Seq<
    Seq<Seq<Seq<u64>>>,
> {
    ms.map_values(|p: Seq<Seq<Seq<u64>>>| map_rings(p, f))
}

/// A geometry with each coordinate value `v` replaced by `f(v)`.
pub open spec fn map_shape(g: Shape, f: spec_fn(u64) -> u64) -> Shape
    decreases g,
{
    match g {
        Shape::Point(d, c) => Shape::Point(d, map_tuple(c, f)),
        Shape::LineString(d, pts) => Shape::LineString(d, map_tuples(pts, f)),
        Shape::Polygon(d, rs) => Shape::Polygon(d, map_rings(rs, f)),
        Shape::MultiPoint(d, ms) => Shape::MultiPoint(d, map_tuples(ms, f)),
        Shape::MultiLineString(d, ms) => Shape::MultiLineString(d, map_rings(ms, f)),
        Shape::MultiPolygon(d, ms) => Shape::MultiPolygon(d, map_polys(ms, f)),
        Shape::Collection(d, ms) => Shape::Collection(d, map_members(ms, f)),
    }
}

/// Collection members with each coordinate value `v` replaced by `f(v)`.
pub open spec fn map_members(ms: Seq<Shape>, f: spec_fn(u64) -> u64) -> Seq<Shape>
    decreases ms,
{
    if ms.len() == 0 {
        seq![]
    } else {
        map_members(ms.drop_last(), f).push(map_shape(ms.last(), f))
    }
}

/// A cell with a number's value `v` replaced by `f(v)`.
pub open spec fn map_cell(x: Cell, f: spec_fn(u64) -> u64) -> Cell {
    match x {
        Cell::Byte(b) => Cell::Byte(b),
        Cell::Num(v) => Cell::Num(f(v)),
    }
}

/// Cells with each number's value `v` replaced by `f(v)`.
pub open spec fn map_cells(c: Seq<Cell>, f: spec_fn(u64) -> u64) -> Seq<Cell> {
    c.map_values(|x: Cell| map_cell(x, f))
}

// ---------------------------------------------------------------- cells

pub proof fn lemma_map_cells_add(a: Seq<Cell>, b: Seq<Cell>, f: spec_fn(u64) -> u64)
    ensures
        map_cells(a + b, f) == map_cells(a, f) + map_cells(b, f),
{
    assert(map_cells(a + b, f) =~= map_cells(a, f) + map_cells(b, f));
}

pub proof fn lemma_map_byte_cells(b: Seq<u8>, f: spec_fn(u64) -> u64)
    ensures
        map_cells(byte_cells(b), f) == byte_cells(b),
    decreases b.len(),
{
    if b.len() > 0 {
        lemma_map_byte_cells(b.drop_last(), f);
        assert(map_cells(byte_cells(b), f) =~= map_cells(byte_cells(b.drop_last()), f).push(
            Cell::Byte(b.last()),
        ));
    }
}

pub proof fn lemma_map_nan_tuple(n: nat, f: spec_fn(u64) -> u64)
    ensures
        map_cells(enc_nan_tuple(n), f) == enc_nan_tuple(n),
    decreases n,
{
    if n > 0 {
        lemma_map_nan_tuple((n - 1) as nat, f);
        let b = byte_cells(crate::model::le8(crate::model::nan_bits()));
        lemma_map_cells_add(enc_nan_tuple((n - 1) as nat), b, f);
        lemma_map_byte_cells(crate::model::le8(crate::model::nan_bits()), f);
    }
}

pub proof fn lemma_map_header(t: GeomType, d: Dimension, srid: Option<i32>, f: spec_fn(u64) -> u64)
    ensures
        map_cells(enc_header(t, d, srid), f) == enc_header(t, d, srid),
{
    lemma_map_byte_cells(
        seq![1u8] + crate::model::le4(crate::model::type_word(t, d, srid.is_some())) + match srid {
            Some(s) => crate::model::le4(s as u32),
            None => seq![],
        },
        f,
    );
}

pub proof fn lemma_map_count(n: nat, f: spec_fn(u64) -> u64)
    ensures
        map_cells(enc_count(n), f) == enc_count(n),
{
    lemma_map_byte_cells(crate::model::le4(n as u32), f);
}

pub proof fn lemma_map_tuple(c: Seq<u64>, f: spec_fn(u64) -> u64)
    ensures
        map_cells(enc_tuple(c), f) == enc_tuple(map_tuple(c, f)),
    decreases c.len(),
{
    if c.len() > 0 {
        lemma_map_tuple(c.drop_last(), f);
        assert(map_tuple(c, f).drop_last() =~= map_tuple(c.drop_last(), f));
        assert(map_cells(enc_tuple(c), f) =~= map_cells(enc_tuple(c.drop_last()), f).push(
            Cell::Num(f(c.last())),
        ));
    }
}

pub proof fn lemma_map_point_body(d: Dimension, c: Seq<u64>, f: spec_fn(u64) -> u64)
    ensures
        map_cells(enc_point_body(d, c), f) == enc_point_body(d, map_tuple(c, f)),
{
    if c.len() == 0 {
        lemma_map_nan_tuple(dim_size(d), f);
    } else {
        lemma_map_tuple(c, f);
    }
}

pub proof fn lemma_map_tuples(pts: Seq<Seq<u64>>, f: spec_fn(u64) -> u64)
    ensures
        map_cells(enc_tuples(pts), f) == enc_tuples(map_tuples(pts, f)),
    decreases pts.len(),
{
    if pts.len() > 0 {
        lemma_map_tuples(pts.drop_last(), f);
        lemma_map_tuple(pts.last(), f);
        lemma_map_cells_add(enc_tuples(pts.drop_last()), enc_tuple(pts.last()), f);
        assert(map_tuples(pts, f).drop_last() =~= map_tuples(pts.drop_last(), f));
    }
}

pub proof fn lemma_map_rings(rs: Seq<Seq<Seq<u64>>>, f: spec_fn(u64) -> u64)
    ensures
        map_cells(enc_rings(rs), f) == enc_rings(map_rings(rs, f)),
    decreases rs.len(),
{
    if rs.len() > 0 {
        let r0 = rs.drop_last();
        let r = rs.last();
        lemma_map_rings(r0, f);
        lemma_map_tuples(r, f);
        lemma_map_count(r.len(), f);
        lemma_map_cells_add(enc_rings(r0) + enc_count(r.len()), enc_tuples(r), f);
        lemma_map_cells_add(enc_rings(r0), enc_count(r.len()), f);
        assert(map_rings(rs, f).drop_last() =~= map_rings(r0, f));
    }
}

pub proof fn lemma_map_mp_members(d: Dimension, ms: Seq<Seq<u64>>, f: spec_fn(u64) -> u64)
    ensures
        map_cells(enc_mp_members(d, ms), f) == enc_mp_members(d, map_tuples(ms, f)),
    decreases ms.len(),
{
    if ms.len() > 0 {
        let m0 = ms.drop_last();
        let m = ms.last();
        let h = enc_header(GeomType::Point, d, None);
        lemma_map_mp_members(d, m0, f);
        lemma_map_header(GeomType::Point, d, None, f);
        lemma_map_point_body(d, m, f);
        lemma_map_cells_add(enc_mp_members(d, m0) + h, enc_point_body(d, m), f);
        lemma_map_cells_add(enc_mp_members(d, m0), h, f);
        assert(map_tuples(ms, f).drop_last() =~= map_tuples(m0, f));
    }
}

pub proof fn lemma_map_mls_members(d: Dimension, ms: Seq<Seq<Seq<u64>>>, f: spec_fn(u64) -> u64)
    ensures
        map_cells(enc_mls_members(d, ms), f) == enc_mls_members(d, map_rings(ms, f)),
    decreases ms.len(),
{
    if ms.len() > 0 {
        let m0 = ms.drop_last();
        let m = ms.last();
        let h = enc_header(GeomType::LineString, d, None);
        let k = enc_count(m.len());
        lemma_map_mls_members(d, m0, f);
        lemma_map_header(GeomType::LineString, d, None, f);
        lemma_map_count(m.len(), f);
        lemma_map_tuples(m, f);
        lemma_map_cells_add(enc_mls_members(d, m0) + h + k, enc_tuples(m), f);
        lemma_map_cells_add(enc_mls_members(d, m0) + h, k, f);
        lemma_map_cells_add(enc_mls_members(d, m0), h, f);
        assert(map_rings(ms, f).drop_last() =~= map_rings(m0, f));
    }
}

pub proof fn lemma_map_mpoly_members(
    d: Dimension,
    ms: Seq<Seq<Seq<Seq<u64>>>>,
    f: spec_fn(u64) -> u64,
)
    ensures
        map_cells(enc_mpoly_members(d, ms), f) == enc_mpoly_members(d, map_polys(ms, f)),
    decreases ms.len(),
{
    if ms.len() > 0 {
        let m0 = ms.drop_last();
        let m = ms.last();
        let h = enc_header(GeomType::Polygon, d, None);
        let k = enc_count(m.len());
        lemma_map_mpoly_members(d, m0, f);
        lemma_map_header(GeomType::Polygon, d, None, f);
        lemma_map_count(m.len(), f);
        lemma_map_rings(m, f);
        lemma_map_cells_add(enc_mpoly_members(d, m0) + h + k, enc_rings(m), f);
        lemma_map_cells_add(enc_mpoly_members(d, m0) + h, k, f);
        lemma_map_cells_add(enc_mpoly_members(d, m0), h, f);
        assert(map_polys(ms, f).drop_last() =~= map_polys(m0, f));
    }
}

/// Encoding commutes with giving the numbers values.
pub proof fn lemma_map_encode(g: Shape, srid: Option<i32>, f: spec_fn(u64) -> u64)
    ensures
        map_cells(encode(g, srid), f) == encode(map_shape(g, f), srid),
    decreases g, 1nat,
{
    let h = enc_header(crate::model::shape_type(g), crate::model::shape_dim(g), srid);
    lemma_map_header(crate::model::shape_type(g), crate::model::shape_dim(g), srid, f);
    match g {
        Shape::Point(d, c) => {
            lemma_map_point_body(d, c, f);
            lemma_map_cells_add(h, enc_point_body(d, c), f);
        },
        Shape::LineString(d, pts) => {
            lemma_map_count(pts.len(), f);
            lemma_map_tuples(pts, f);
            lemma_map_cells_add(h + enc_count(pts.len()), enc_tuples(pts), f);
            lemma_map_cells_add(h, enc_count(pts.len()), f);
        },
        Shape::Polygon(d, rs) => {
            lemma_map_count(rs.len(), f);
            lemma_map_rings(rs, f);
            lemma_map_cells_add(h + enc_count(rs.len()), enc_rings(rs), f);
            lemma_map_cells_add(h, enc_count(rs.len()), f);
        },
        Shape::MultiPoint(d, ms) => {
            lemma_map_count(ms.len(), f);
            lemma_map_mp_members(d, ms, f);
            lemma_map_cells_add(h + enc_count(ms.len()), enc_mp_members(d, ms), f);
            lemma_map_cells_add(h, enc_count(ms.len()), f);
        },
        Shape::MultiLineString(d, ms) => {
            lemma_map_count(ms.len(), f);
            lemma_map_mls_members(d, ms, f);
            lemma_map_cells_add(h + enc_count(ms.len()), enc_mls_members(d, ms), f);
            lemma_map_cells_add(h, enc_count(ms.len()), f);
        },
        Shape::MultiPolygon(d, ms) => {
            lemma_map_count(ms.len(), f);
            lemma_map_mpoly_members(d, ms, f);
            lemma_map_cells_add(h + enc_count(ms.len()), enc_mpoly_members(d, ms), f);
            lemma_map_cells_add(h, enc_count(ms.len()), f);
        },
        Shape::Collection(d, ms) => {
            lemma_map_count(ms.len(), f);
            lemma_map_members(ms, f);
            lemma_map_members_len(ms, f);
            lemma_map_cells_add(h + enc_count(ms.len()), enc_members(ms), f);
            lemma_map_cells_add(h, enc_count(ms.len()), f);
        },
    }
}

pub proof fn lemma_map_members(ms: Seq<Shape>, f: spec_fn(u64) -> u64)
    ensures
        map_cells(enc_members(ms), f) == enc_members(map_members(ms, f)),
    decreases ms, 0nat,
{
    if ms.len() > 0 {
        lemma_map_members(ms.drop_last(), f);
        lemma_map_encode(ms.last(), None, f);
        lemma_map_cells_add(enc_members(ms.drop_last()), encode(ms.last(), None), f);
        assert(map_members(ms, f).drop_last() =~= map_members(ms.drop_last(), f));
    }
}

pub proof fn lemma_map_members_len(ms: Seq<Shape>, f: spec_fn(u64) -> u64)
    ensures
        map_members(ms, f).len() == ms.len(),
        forall|i: int| 0 <= i < ms.len() ==> #[trigger] map_members(ms, f)[i] == map_shape(ms[i], f),
    decreases ms.len(),
{
    if ms.len() > 0 {
        lemma_map_members_len(ms.drop_last(), f);
    }
}

// ---------------------------------------------------------------- bytes

/// Writing each number cell's value through the `j`-th value, where the
/// `j`-th value is `f` of the `j`-th label, writes the relabelled cells.
pub proof fn lemma_flatten_mapped(c: Seq<Cell>, f: spec_fn(u64) -> u64, vals: Seq<u64>)
    requires
        vals.len() >= num_count(c),
        forall|j: int| 0 <= j < num_count(c) ==> vals[j] == f(#[trigger] num_payloads(c)[j]),
    ensures
        flatten(c, vals) == flatten_bits(map_cells(c, f)),
    decreases c.len(),
{
    if c.len() > 0 {
        let c0 = c.drop_last();
        lemma_payloads_len(c0);
        lemma_payloads_len(c);
        assert forall|j: int| 0 <= j < num_count(c0) implies vals[j] == f(
            #[trigger] num_payloads(c0)[j],
        ) by {
            assert(num_payloads(c)[j] == num_payloads(c0)[j]);
        }
        lemma_flatten_mapped(c0, f, vals);
        assert(map_cells(c, f).drop_last() =~= map_cells(c0, f));
        match c.last() {
            Cell::Num(v) => {
                let k = num_count(c0) as int;
                assert(num_payloads(c)[k] == v);
                assert(vals[k] == f(v));
            },
            Cell::Byte(_) => {},
        }
    }
}

// ---------------------------------------------------------------- round trips

/// Finite values: no value of `f` is a NaN or an infinity.
pub open spec fn finite_values(f: spec_fn(u64) -> u64) -> bool {
    forall|v: u64| is_finite(#[trigger] f(v))
}

pub proof fn lemma_map_tuples_sized(pts: Seq<Seq<u64>>, cs: nat, f: spec_fn(u64) -> u64)
    requires
        tuples_sized(pts, cs),
    ensures
        tuples_sized(map_tuples(pts, f), cs),
{
    assert forall|i: int| 0 <= i < map_tuples(pts, f).len() implies (#[trigger] map_tuples(pts, f)[i]).len()
        == cs by {
        assert(map_tuples(pts, f)[i] == map_tuple(pts[i], f));
    }
}

pub proof fn lemma_map_rings_sized(rs: Seq<Seq<Seq<u64>>>, cs: nat, f: spec_fn(u64) -> u64)
    requires
        rings_sized(rs, cs),
    ensures
        rings_sized(map_rings(rs, f), cs),
{
    assert forall|i: int| 0 <= i < map_rings(rs, f).len() implies tuples_sized(
        #[trigger] map_rings(rs, f)[i],
        cs,
    ) && map_rings(rs, f)[i].len() <= u32::MAX by {
        assert(map_rings(rs, f)[i] == map_tuples(rs[i], f));
        lemma_map_tuples_sized(rs[i], cs, f);
    }
}

pub proof fn lemma_map_point_ok(c: Seq<u64>, d: Dimension, f: spec_fn(u64) -> u64)
    requires
        point_ok(c, d),
        finite_values(f),
    ensures
        point_ok(map_tuple(c, f), d),
{
    if c.len() > 0 {
        assert(is_finite(f(c[0])));
        assert(!is_nan(map_tuple(c, f)[0]));
    }
}

/// Giving finite values to the numbers of a geometry keeps it encodable.
pub proof fn lemma_map_encodable(g: Shape, depth: nat, f: spec_fn(u64) -> u64)
    requires
        encodable(g, depth),
        finite_values(f),
    ensures
        encodable(map_shape(g, f), depth),
    decreases g,
{
    match g {
        Shape::Point(d, c) => lemma_map_point_ok(c, d, f),
        Shape::LineString(d, pts) => lemma_map_tuples_sized(pts, dim_size(d), f),
        Shape::Polygon(d, rs) => lemma_map_rings_sized(rs, dim_size(d), f),
        Shape::MultiPoint(d, ms) => {
            assert forall|i: int| 0 <= i < map_tuples(ms, f).len() implies point_ok(
                #[trigger] map_tuples(ms, f)[i],
                d,
            ) by {
                assert(map_tuples(ms, f)[i] == map_tuple(ms[i], f));
                assert(point_ok(ms[i], d));
                lemma_map_point_ok(ms[i], d, f);
            }
        },
        Shape::MultiLineString(d, ms) => lemma_map_rings_sized(ms, dim_size(d), f),
        Shape::MultiPolygon(d, ms) => {
            assert forall|i: int| 0 <= i < map_polys(ms, f).len() implies rings_sized(
                #[trigger] map_polys(ms, f)[i],
                dim_size(d),
            ) && map_polys(ms, f)[i].len() <= u32::MAX by {
                assert(map_polys(ms, f)[i] == map_rings(ms[i], f));
                assert(rings_sized(ms[i], dim_size(d)));
                lemma_map_rings_sized(ms[i], dim_size(d), f);
            }
        },
        Shape::Collection(d, ms) => {
            lemma_map_members_len(ms, f);
            assert forall|i: int| 0 <= i < map_members(ms, f).len() implies encodable(
                #[trigger] map_members(ms, f)[i],
                depth + 1,
            ) by {
                assert(encodable(ms[i], depth + 1));
                lemma_map_encodable(ms[i], depth + 1, f);
            }
        },
    }
}

/// WKT text converted to WKB, each number then written as the finite value
/// `f` gives its lexeme's position, decodes to the geometry the text holds
/// with each number replaced by its value, and to the SRID the mode chooses:
/// a WKB reader gets back every value the WKB writer was given.
pub proof fn law_wkt_values_decode_back(s: Seq<char>, mode: SridMode, f: spec_fn(u64) -> u64)
    requires
        short_text(s),
        parse_wkt(s) is Some,
        finite_values(f),
    ensures
        ({
            let (g, sr) = parse_wkt(s).unwrap();
            let cells = wkt_result(s, mode).unwrap().0;
            decode(flatten(cells, num_payloads(cells).map_values(f))) == Ok::<
                (Shape, Option<i32>),
                Fault,
            >((map_shape(g, f), out_srid(mode, sr)))
        }),
{
    let (g, sr) = parse_wkt(s).unwrap();
    let srid = out_srid(mode, sr);
    let cells = encode(g, srid);
    lemma_parsed_encodable(s);
    lemma_map_encodable(g, 0, f);
    lemma_map_encode(g, srid, f);
    law_decode_encode(map_shape(g, f), srid);
    lemma_payloads_len(cells);
    lemma_flatten_mapped(cells, f, num_payloads(cells).map_values(f));
}

} // verus!
