//! The mathematical model both directions are specified against.
//!
//! A geometry is a [`Shape`] whose coordinates are 64-bit numbers: IEEE-754
//! bit patterns when read from WKB, lexeme indices when parsed from WKT.
//! WKB is specified as a sequence of [`Cell`]s (bytes and 8-byte numbers),
//! WKT as a sequence of [`WktPart`]s (characters and coordinates).
use crate::types::{dim_flags, dim_size, dim_tag, keyword_of, type_code, Dimension, GeomType};
use vstd::prelude::*;

verus! {

/// One element of an encoded WKB draft: a byte, or an 8-byte little-endian number.
#[derive(Debug, Clone, Copy, PartialEq, Eq, Structural)]
pub enum Cell {
    Byte(u8),
    Num(u64),
}

/// One element of a WKT draft: an ASCII character, or a coordinate to be
/// formatted.
#[derive(Debug, Clone, Copy, PartialEq, Eq, Structural)]
pub enum WktPart {
    Char(u8),
    Coord(u64),
}

/// A geometry. A coordinate tuple is a `Seq<u64>`; an empty tuple is an
/// EMPTY point.
pub enum Shape {
    Point(Dimension, Seq<u64>),
    LineString(Dimension, Seq<Seq<u64>>),
    Polygon(Dimension, Seq<Seq<Seq<u64>>>),
    MultiPoint(Dimension, Seq<Seq<u64>>),
    MultiLineString(Dimension, Seq<Seq<Seq<u64>>>),
    MultiPolygon(Dimension, Seq<Seq<Seq<Seq<u64>>>>),
    Collection(Dimension, Seq<Shape>),
}

/// The declared dimension of a geometry.
pub open spec fn shape_dim(g: Shape) -> Dimension {
    match g {
        Shape::Point(d, _) => d,
        Shape::LineString(d, _) => d,
        Shape::Polygon(d, _) => d,
        Shape::MultiPoint(d, _) => d,
        Shape::MultiLineString(d, _) => d,
        Shape::MultiPolygon(d, _) => d,
        Shape::Collection(d, _) => d,
    }
}

/// The geometry type of a geometry.
pub open spec fn shape_type(g: Shape) -> GeomType {
    match g {
        Shape::Point(..) => GeomType::Point,
        Shape::LineString(..) => GeomType::LineString,
        Shape::Polygon(..) => GeomType::Polygon,
        Shape::MultiPoint(..) => GeomType::MultiPoint,
        Shape::MultiLineString(..) => GeomType::MultiLineString,
        Shape::MultiPolygon(..) => GeomType::MultiPolygon,
        Shape::Collection(..) => GeomType::GeometryCollection,
    }
}

// ---------------------------------------------------------------- bytes

/// Little-endian bytes of a `u32`.
pub open spec fn le4(v: u32) -> Seq<u8> {
    seq![
        (v % 256) as u8,
        ((v / 256) % 256) as u8,
        ((v / 65536) % 256) as u8,
        ((v / 16777216) % 256) as u8
    ]
}

/// Big-endian bytes of a `u32`.
pub open spec fn be4(v: u32) -> Seq<u8> {
    seq![
        ((v / 16777216) % 256) as u8,
        ((v / 65536) % 256) as u8,
        ((v / 256) % 256) as u8,
        (v % 256) as u8
    ]
}

/// Bytes of a `u32` in the given byte order.
pub open spec fn bytes4(v: u32, le: bool) -> Seq<u8> {
    if le {
        le4(v)
    } else {
        be4(v)
    }
}

/// Little-endian bytes of a `u64`.
pub open spec fn le8(v: u64) -> Seq<u8> {
    le4((v % 0x1_0000_0000) as u32) + le4((v / 0x1_0000_0000) as u32)
}

/// The `u32` that four bytes denote in the given byte order.
pub open spec fn u32_from(b: Seq<u8>, le: bool) -> u32 {
    if le {
        (b[0] as int + b[1] as int * 256 + b[2] as int * 65536 + b[3] as int * 16777216) as u32
    } else {
        (b[3] as int + b[2] as int * 256 + b[1] as int * 65536 + b[0] as int * 16777216) as u32
    }
}

/// The `u64` that eight bytes denote in the given byte order.
pub open spec fn u64_from(b: Seq<u8>, le: bool) -> u64 {
    if le {
        (u32_from(b.subrange(0, 4), true) as int + u32_from(b.subrange(4, 8), true) as int
            * 0x1_0000_0000) as u64
    } else {
        (u32_from(b.subrange(4, 8), false) as int + u32_from(b.subrange(0, 4), false) as int
            * 0x1_0000_0000) as u64
    }
}

/// The bit pattern of `f64::NAN`.
pub open spec fn nan_bits() -> u64 {
    0x7FF8_0000_0000_0000u64
}

/// The bit pattern denotes a NaN: all exponent bits set, non-zero fraction.
pub open spec fn is_nan(b: u64) -> bool {
    (b / 0x10_0000_0000_0000) % 0x800 == 0x7FF && b % 0x10_0000_0000_0000 != 0
}

/// The bit pattern denotes a finite number: not all exponent bits set.
pub open spec fn is_finite(b: u64) -> bool {
    (b / 0x10_0000_0000_0000) % 0x800 != 0x7FF
}

/// Every value of the tuple is NaN.
pub open spec fn all_nan(c: Seq<u64>) -> bool {
    forall|i: int| 0 <= i < c.len() ==> is_nan(#[trigger] c[i])
}

// ---------------------------------------------------------------- cells

/// Cells of plain bytes.
pub open spec fn byte_cells(b: Seq<u8>) -> Seq<Cell>
    decreases b.len(),
{
    if b.len() == 0 {
        seq![]
    } else {
        byte_cells(b.drop_last()).push(Cell::Byte(b.last()))
    }
}

/// Number of number cells.
pub open spec fn num_count(c: Seq<Cell>) -> nat
    decreases c.len(),
{
    if c.len() == 0 {
        0
    } else {
        num_count(c.drop_last()) + match c.last() {
            Cell::Num(_) => 1nat,
            Cell::Byte(_) => 0nat,
        }
    }
}

/// The payloads of the number cells, in order.
pub open spec fn num_payloads(c: Seq<Cell>) -> Seq<u64>
    decreases c.len(),
{
    if c.len() == 0 {
        seq![]
    } else {
        num_payloads(c.drop_last()) + match c.last() {
            Cell::Num(v) => seq![v],
            Cell::Byte(_) => seq![],
        }
    }
}

/// Bytes of a cell sequence, the `j`-th number cell written as `vals[j]`.
pub open spec fn flatten(c: Seq<Cell>, vals: Seq<u64>) -> Seq<u8>
    decreases c.len(),
{
    if c.len() == 0 {
        seq![]
    } else {
        flatten(c.drop_last(), vals) + match c.last() {
            Cell::Byte(b) => seq![b],
            Cell::Num(_) => le8(vals[num_count(c.drop_last()) as int]),
        }
    }
}

/// Bytes of a cell sequence whose numbers are bit patterns.
pub open spec fn flatten_bits(c: Seq<Cell>) -> Seq<u8>
    decreases c.len(),
{
    if c.len() == 0 {
        seq![]
    } else {
        flatten_bits(c.drop_last()) + match c.last() {
            Cell::Byte(b) => seq![b],
            Cell::Num(k) => le8(k),
        }
    }
}

// ---------------------------------------------------------------- encoding

/// The EWKB type word of a header.
pub open spec fn type_word(t: GeomType, d: Dimension, has_srid: bool) -> u32 {
    (type_code(t) + dim_flags(d) + if has_srid {
        0x2000_0000u32
    } else {
        0u32
    }) as u32
}

/// A little-endian EWKB header; the SRID field is present when `srid` is.
pub open spec fn enc_header(t: GeomType, d: Dimension, srid: Option<i32>) -> Seq<Cell> {
    byte_cells(
        seq![1u8] + le4(type_word(t, d, srid.is_some())) + match srid {
            Some(s) => le4(s as u32),
            None => seq![],
        },
    )
}

/// A count field.
pub open spec fn enc_count(n: nat) -> Seq<Cell> {
    byte_cells(le4(n as u32))
}

/// A coordinate tuple: one number cell per value.
pub open spec fn enc_tuple(c: Seq<u64>) -> Seq<Cell>
    decreases c.len(),
{
    if c.len() == 0 {
        seq![]
    } else {
        enc_tuple(c.drop_last()).push(Cell::Num(c.last()))
    }
}

/// The body of an EMPTY point: NaN for every ordinate.
pub open spec fn enc_nan_tuple(n: nat) -> Seq<Cell>
    decreases n,
{
    if n == 0 {
        seq![]
    } else {
        enc_nan_tuple((n - 1) as nat) + byte_cells(le8(nan_bits()))
    }
}

/// The body of a point: its tuple, or NaNs when EMPTY.
pub open spec fn enc_point_body(d: Dimension, c: Seq<u64>) -> Seq<Cell> {
    if c.len() == 0 {
        enc_nan_tuple(dim_size(d))
    } else {
        enc_tuple(c)
    }
}

/// Consecutive coordinate tuples.
pub open spec fn enc_tuples(pts: Seq<Seq<u64>>) -> Seq<Cell>
    decreases pts.len(),
{
    if pts.len() == 0 {
        seq![]
    } else {
        enc_tuples(pts.drop_last()) + enc_tuple(pts.last())
    }
}

/// Consecutive rings, each with its point count.
pub open spec fn enc_rings(rings: Seq<Seq<Seq<u64>>>) -> Seq<Cell>
    decreases rings.len(),
{
    if rings.len() == 0 {
        seq![]
    } else {
        enc_rings(rings.drop_last()) + enc_count(rings.last().len()) + enc_tuples(rings.last())
    }
}

/// Members of a MultiPoint, each a full Point geometry.
pub open spec fn enc_mp_members(d: Dimension, ms: Seq<Seq<u64>>) -> Seq<Cell>
    decreases ms.len(),
{
    if ms.len() == 0 {
        seq![]
    } else {
        enc_mp_members(d, ms.drop_last()) + enc_header(GeomType::Point, d, None) + enc_point_body(
            d,
            ms.last(),
        )
    }
}

/// Members of a MultiLineString, each a full LineString geometry.
pub open spec fn enc_mls_members(d: Dimension, ms: Seq<Seq<Seq<u64>>>) -> Seq<Cell>
    decreases ms.len(),
{
    if ms.len() == 0 {
        seq![]
    } else {
        enc_mls_members(d, ms.drop_last()) + enc_header(GeomType::LineString, d, None) + enc_count(
            ms.last().len(),
        ) + enc_tuples(ms.last())
    }
}

/// Members of a MultiPolygon, each a full Polygon geometry.
pub open spec fn enc_mpoly_members(d: Dimension, ms: Seq<Seq<Seq<Seq<u64>>>>) -> Seq<Cell>
    decreases ms.len(),
{
    if ms.len() == 0 {
        seq![]
    } else {
        enc_mpoly_members(d, ms.drop_last()) + enc_header(GeomType::Polygon, d, None) + enc_count(
            ms.last().len(),
        ) + enc_rings(ms.last())
    }
}

/// The EWKB cells of a geometry; `srid` goes into the top-level header only.
pub open spec fn encode(g: Shape, srid: Option<i32>) -> Seq<Cell>
    decreases g,
{
    match g {
        Shape::Point(d, c) => enc_header(GeomType::Point, d, srid) + enc_point_body(d, c),
        Shape::LineString(d, pts) => enc_header(GeomType::LineString, d, srid) + enc_count(pts.len())
            + enc_tuples(pts),
        Shape::Polygon(d, rings) => enc_header(GeomType::Polygon, d, srid) + enc_count(rings.len())
            + enc_rings(rings),
        Shape::MultiPoint(d, ms) => enc_header(GeomType::MultiPoint, d, srid) + enc_count(ms.len())
            + enc_mp_members(d, ms),
        Shape::MultiLineString(d, ms) => enc_header(GeomType::MultiLineString, d, srid) + enc_count(
            ms.len(),
        ) + enc_mls_members(d, ms),
        Shape::MultiPolygon(d, ms) => enc_header(GeomType::MultiPolygon, d, srid) + enc_count(
            ms.len(),
        ) + enc_mpoly_members(d, ms),
        Shape::Collection(d, ms) => enc_header(GeomType::GeometryCollection, d, srid) + enc_count(
            ms.len(),
        ) + enc_members(ms),
    }
}

/// Members of a GeometryCollection, each a full geometry without SRID.
pub open spec fn enc_members(ms: Seq<Shape>) -> Seq<Cell>
    decreases ms,
{
    if ms.len() == 0 {
        seq![]
    } else {
        enc_members(ms.drop_last()) + encode(ms.last(), None)
    }
}

// ---------------------------------------------------------------- rendering

/// Parts of literal text.
pub open spec fn lit(s: Seq<char>) -> Seq<WktPart>
    decreases s.len(),
{
    if s.len() == 0 {
        seq![]
    } else {
        lit(s.drop_last()).push(WktPart::Char(s.last() as u8))
    }
}

/// `, `
pub open spec fn comma_sep() -> Seq<WktPart> {
    lit(seq![',', ' '])
}

/// A coordinate tuple: values separated by single spaces.
pub open spec fn r_tuple(c: Seq<u64>) -> Seq<WktPart>
    decreases c.len(),
{
    if c.len() == 0 {
        seq![]
    } else if c.len() == 1 {
        seq![WktPart::Coord(c[0])]
    } else {
        r_tuple(c.drop_last()) + seq![WktPart::Char(32u8), WktPart::Coord(c.last())]
    }
}

/// Coordinate tuples separated by `, `.
pub open spec fn r_tuples(pts: Seq<Seq<u64>>) -> Seq<WktPart>
    decreases pts.len(),
{
    if pts.len() == 0 {
        seq![]
    } else if pts.len() == 1 {
        r_tuple(pts[0])
    } else {
        r_tuples(pts.drop_last()) + comma_sep() + r_tuple(pts.last())
    }
}

/// A parenthesised ring.
pub open spec fn r_ring(ring: Seq<Seq<u64>>) -> Seq<WktPart> {
    lit(seq!['(']) + r_tuples(ring) + lit(seq![')'])
}

/// Rings separated by `, `.
pub open spec fn r_rings(rings: Seq<Seq<Seq<u64>>>) -> Seq<WktPart>
    decreases rings.len(),
{
    if rings.len() == 0 {
        seq![]
    } else if rings.len() == 1 {
        r_ring(rings[0])
    } else {
        r_rings(rings.drop_last()) + comma_sep() + r_ring(rings.last())
    }
}

/// `EMPTY`
pub open spec fn empty_word() -> Seq<char> {
    seq!['E', 'M', 'P', 'T', 'Y']
}

/// A MultiPoint member: `EMPTY` or a parenthesised tuple.
pub open spec fn r_mp_member(c: Seq<u64>) -> Seq<WktPart> {
    if c.len() == 0 {
        lit(empty_word())
    } else {
        lit(seq!['(']) + r_tuple(c) + lit(seq![')'])
    }
}

/// A MultiLineString member: `EMPTY` or a parenthesised tuple list.
pub open spec fn r_mls_member(pts: Seq<Seq<u64>>) -> Seq<WktPart> {
    if pts.len() == 0 {
        lit(empty_word())
    } else {
        lit(seq!['(']) + r_tuples(pts) + lit(seq![')'])
    }
}

/// A MultiPolygon member: `EMPTY` or a parenthesised ring list.
pub open spec fn r_mpoly_member(rings: Seq<Seq<Seq<u64>>>) -> Seq<WktPart> {
    if rings.len() == 0 {
        lit(empty_word())
    } else {
        lit(seq!['(']) + r_rings(rings) + lit(seq![')'])
    }
}

/// MultiPoint members separated by `, `.
pub open spec fn r_mp_members(ms: Seq<Seq<u64>>) -> Seq<WktPart>
    decreases ms.len(),
{
    if ms.len() == 0 {
        seq![]
    } else if ms.len() == 1 {
        r_mp_member(ms[0])
    } else {
        r_mp_members(ms.drop_last()) + comma_sep() + r_mp_member(ms.last())
    }
}

/// MultiLineString members separated by `, `.
pub open spec fn r_mls_members(ms: Seq<Seq<Seq<u64>>>) -> Seq<WktPart>
    decreases ms.len(),
{
    if ms.len() == 0 {
        seq![]
    } else if ms.len() == 1 {
        r_mls_member(ms[0])
    } else {
        r_mls_members(ms.drop_last()) + comma_sep() + r_mls_member(ms.last())
    }
}

/// MultiPolygon members separated by `, `.
pub open spec fn r_mpoly_members(ms: Seq<Seq<Seq<Seq<u64>>>>) -> Seq<WktPart>
    decreases ms.len(),
{
    if ms.len() == 0 {
        seq![]
    } else if ms.len() == 1 {
        r_mpoly_member(ms[0])
    } else {
        r_mpoly_members(ms.drop_last()) + comma_sep() + r_mpoly_member(ms.last())
    }
}

/// ` EMPTY`
pub open spec fn r_empty() -> Seq<WktPart> {
    lit(seq![' ']) + lit(empty_word())
}

/// ` (` + inner + `)`
pub open spec fn r_paren(inner: Seq<WktPart>) -> Seq<WktPart> {
    lit(seq![' ', '(']) + inner + lit(seq![')'])
}

/// Everything after the keyword and dimension tag of a non-collection geometry.
pub open spec fn r_body(g: Shape) -> Seq<WktPart> {
    match g {
        Shape::Point(_, c) => if c.len() == 0 {
            r_empty()
        } else {
            r_paren(r_tuple(c))
        },
        Shape::LineString(_, pts) => if pts.len() == 0 {
            r_empty()
        } else {
            r_paren(r_tuples(pts))
        },
        Shape::Polygon(_, rings) => if rings.len() == 0 {
            r_empty()
        } else {
            r_paren(r_rings(rings))
        },
        Shape::MultiPoint(_, ms) => if ms.len() == 0 {
            r_empty()
        } else {
            r_paren(r_mp_members(ms))
        },
        Shape::MultiLineString(_, ms) => if ms.len() == 0 {
            r_empty()
        } else {
            r_paren(r_mls_members(ms))
        },
        Shape::MultiPolygon(_, ms) => if ms.len() == 0 {
            r_empty()
        } else {
            r_paren(r_mpoly_members(ms))
        },
        Shape::Collection(_, _) => seq![],
    }
}

/// The WKT of a geometry, without SRID prefix.
pub open spec fn render(g: Shape) -> Seq<WktPart>
    decreases g,
{
    lit(keyword_of(shape_type(g))) + lit(dim_tag(shape_dim(g))) + match g {
        Shape::Collection(_, ms) => if ms.len() == 0 {
            r_empty()
        } else {
            r_paren(r_members(ms))
        },
        _ => r_body(g),
    }
}

/// Everything after the keyword and dimension tag of a geometry.
pub open spec fn r_geom_body(g: Shape) -> Seq<WktPart> {
    match g {
        Shape::Collection(_, ms) => if ms.len() == 0 {
            r_empty()
        } else {
            r_paren(r_members(ms))
        },
        _ => r_body(g),
    }
}

pub proof fn lemma_render_split(g: Shape)
    ensures
        render(g) == lit(keyword_of(shape_type(g))) + lit(dim_tag(shape_dim(g))) + r_geom_body(g),
{
}

/// Collection members separated by `, `.
pub open spec fn r_members(ms: Seq<Shape>) -> Seq<WktPart>
    decreases ms,
{
    if ms.len() == 0 {
        seq![]
    } else if ms.len() == 1 {
        render(ms[0])
    } else {
        r_members(ms.drop_last()) + comma_sep() + render(ms.last())
    }
}

/// `SRID=<n>;`
pub open spec fn srid_prefix(n: i32) -> Seq<WktPart> {
    lit(seq!['S', 'R', 'I', 'D', '=']) + lit(crate::text::spec_decimal(n as nat)) + lit(seq![';'])
}

/// Number of coordinates in a part sequence.
pub open spec fn coord_count(p: Seq<WktPart>) -> nat
    decreases p.len(),
{
    if p.len() == 0 {
        0
    } else {
        coord_count(p.drop_last()) + match p.last() {
            WktPart::Coord(_) => 1nat,
            WktPart::Char(_) => 0nat,
        }
    }
}

/// The text of a part sequence, the `j`-th coordinate written as `fmt[j]`.
pub open spec fn render_text(p: Seq<WktPart>, fmt: Seq<Seq<char>>) -> Seq<char>
    decreases p.len(),
{
    if p.len() == 0 {
        seq![]
    } else {
        render_text(p.drop_last(), fmt) + match p.last() {
            WktPart::Char(c) => seq![c as char],
            WktPart::Coord(_) => fmt[coord_count(p.drop_last()) as int],
        }
    }
}

/// The coordinates of a part sequence, in order.
pub open spec fn coords_of(p: Seq<WktPart>) -> Seq<u64>
    decreases p.len(),
{
    if p.len() == 0 {
        seq![]
    } else {
        coords_of(p.drop_last()) + match p.last() {
            WktPart::Coord(v) => seq![v],
            WktPart::Char(_) => seq![],
        }
    }
}

// ---------------------------------------------------------------- lemmas

pub proof fn lemma_text(s: Seq<char>)
    ensures
        lit(s).len() == s.len(),
        forall|i: int| 0 <= i < s.len() ==> #[trigger] lit(s)[i] == WktPart::Char(s[i] as u8),
    decreases s.len(),
{
    if s.len() > 0 {
        lemma_text(s.drop_last());
    }
}

pub proof fn lemma_text_push(a: Seq<char>, c: char)
    ensures
        lit(a.push(c)) == lit(a).push(WktPart::Char(c as u8)),
{
    assert(a.push(c).drop_last() =~= a);
}

pub proof fn lemma_byte_cells(b: Seq<u8>)
    ensures
        byte_cells(b).len() == b.len(),
        forall|i: int| 0 <= i < b.len() ==> #[trigger] byte_cells(b)[i] == Cell::Byte(b[i]),
    decreases b.len(),
{
    if b.len() > 0 {
        lemma_byte_cells(b.drop_last());
    }
}

pub proof fn lemma_byte_cells_concat(a: Seq<u8>, b: Seq<u8>)
    ensures
        byte_cells(a + b) == byte_cells(a) + byte_cells(b),
{
    lemma_byte_cells(a);
    lemma_byte_cells(b);
    lemma_byte_cells(a + b);
    assert(byte_cells(a + b) =~= byte_cells(a) + byte_cells(b));
}

pub proof fn lemma_enc_tuple(c: Seq<u64>)
    ensures
        enc_tuple(c).len() == c.len(),
        forall|i: int| 0 <= i < c.len() ==> #[trigger] enc_tuple(c)[i] == Cell::Num(c[i]),
    decreases c.len(),
{
    if c.len() > 0 {
        lemma_enc_tuple(c.drop_last());
    }
}

} // verus!
