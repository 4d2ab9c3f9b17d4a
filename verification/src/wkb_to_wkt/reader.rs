//! Reads WKB/EWKB bytes and writes the WKT draft of the geometry they hold.
use super::builder::WktBuilder;
use crate::error::{push_chars, wkb_error, wkb_error_with, Error, Fault, Result};
use crate::text::{decimal, spec_decimal, string_from_chars};
use crate::model::{
    all_nan, is_nan, r_body, r_empty, r_members, r_mp_member, r_mp_members, r_mls_member,
    r_mls_members, r_mpoly_member, r_mpoly_members, r_paren, r_ring, r_rings, r_geom_body,
    lemma_render_split, r_tuples, render, shape_dim, shape_type, u32_from, u64_from, Shape,
};
use crate::types::{dim_size, geom_label, geom_label_str, type_of_code, Dimension, GeomType};
use vstd::prelude::*;

verus! {

/// Outcome of reading a value at a position: the value and the position after
/// it, or the error.
pub type Dec<T> = core::result::Result<(T, int), Fault>;

/// Nesting depth at which WKB parsing stops.
pub const MAX_DEPTH: usize = 128;

/// Reads one byte.
pub open spec fn rd_u8(d: Seq<u8>, p: int) -> Dec<u8> {
    if 0 <= p < d.len() {
        Ok((d[p], p + 1))
    } else {
        Err(Fault::Wkb("unexpected end of data"@))
    }
}

/// Reads a `u32` in the given byte order.
pub open spec fn rd_u32(d: Seq<u8>, p: int, le: bool) -> Dec<u32> {
    if 0 <= p && p + 4 <= d.len() {
        Ok((u32_from(d.subrange(p, p + 4), le), p + 4))
    } else {
        Err(Fault::Wkb("unexpected end of data reading u32"@))
    }
}

/// Reads the bit pattern of an `f64` in the given byte order.
pub open spec fn rd_f64(d: Seq<u8>, p: int, le: bool) -> Dec<u64> {
    if 0 <= p && p + 8 <= d.len() {
        Ok((u64_from(d.subrange(p, p + 8), le), p + 8))
    } else {
        Err(Fault::Wkb("unexpected end of data reading f64"@))
    }
}

/// Reads a byte-order marker: 1 is little-endian, 0 big-endian.
pub open spec fn rd_byte_order(d: Seq<u8>, p: int) -> Dec<bool> {
    match rd_u8(d, p) {
        Ok((b, q)) => if b == 0 {
            Ok((false, q))
        } else if b == 1 {
            Ok((true, q))
        } else {
            Err(Fault::Wkb("invalid byte order marker: "@ + spec_decimal(b as nat)))
        },
        Err(k) => Err(k),
    }
}

/// The EWKB Z flag is set.
pub open spec fn has_z(raw: u32) -> bool {
    raw >= 0x8000_0000
}

/// The EWKB M flag is set.
pub open spec fn has_m(raw: u32) -> bool {
    (raw / 0x4000_0000) % 2 == 1
}

/// The EWKB SRID flag is set.
pub open spec fn has_srid(raw: u32) -> bool {
    (raw / 0x2000_0000) % 2 == 1
}

/// Geometry code and dimension of a type word, EWKB flags first, then the ISO
/// offsets 1000, 2000 and 3000 on the lower 16 bits.
pub open spec fn split_type(raw: u32) -> (u32, Dimension) {
    let base = raw % 0x10000;
    if has_z(raw) || has_m(raw) {
        (
            base,
            if has_z(raw) && has_m(raw) {
                Dimension::XYZM
            } else if has_z(raw) {
                Dimension::XYZ
            } else {
                Dimension::XYM
            },
        )
    } else if base > 3000 {
        ((base - 3000) as u32, Dimension::XYZM)
    } else if base > 2000 {
        ((base - 2000) as u32, Dimension::XYM)
    } else if base > 1000 {
        ((base - 1000) as u32, Dimension::XYZ)
    } else {
        (base, Dimension::XY)
    }
}

/// Reads a type word and, if its SRID flag is set, the SRID field.
pub open spec fn rd_type(d: Seq<u8>, p: int, le: bool) -> Dec<(GeomType, Dimension, Option<u32>)> {
    match rd_u32(d, p, le) {
        Err(k) => Err(k),
        Ok((raw, q)) => {
            let (code, dim) = split_type(raw);
            match type_of_code(code) {
                None => Err(Fault::Unsupported(code)),
                Some(t) => if has_srid(raw) {
                    match rd_u32(d, q, le) {
                        Ok((s, q2)) => Ok(((t, dim, Some(s)), q2)),
                        Err(k) => Err(k),
                    }
                } else {
                    Ok(((t, dim, None), q))
                },
            }
        },
    }
}

/// Reads `n` coordinate values.
pub open spec fn rd_tuple(d: Seq<u8>, p: int, le: bool, n: nat) -> Dec<Seq<u64>>
    decreases n,
{
    if n == 0 {
        Ok((seq![], p))
    } else {
        match rd_tuple(d, p, le, (n - 1) as nat) {
            Ok((c, q)) => match rd_f64(d, q, le) {
                Ok((v, q2)) => Ok((c.push(v), q2)),
                Err(k) => Err(k),
            },
            Err(k) => Err(k),
        }
    }
}

/// A point tuple as WKT shows it: empty when every value is NaN.
pub open spec fn point_value(c: Seq<u64>) -> Seq<u64> {
    if all_nan(c) {
        seq![]
    } else {
        c
    }
}

/// Reads `n` coordinate tuples of `cs` values each.
pub open spec fn rd_tuples(d: Seq<u8>, p: int, le: bool, cs: nat, n: nat) -> Dec<Seq<Seq<u64>>>
    decreases n,
{
    if n == 0 {
        Ok((seq![], p))
    } else {
        match rd_tuples(d, p, le, cs, (n - 1) as nat) {
            Ok((pts, q)) => match rd_tuple(d, q, le, cs) {
                Ok((c, q2)) => Ok((pts.push(c), q2)),
                Err(k) => Err(k),
            },
            Err(k) => Err(k),
        }
    }
}

/// Reads a counted list of coordinate tuples.
pub open spec fn rd_counted_tuples(d: Seq<u8>, p: int, le: bool, cs: nat) -> Dec<Seq<Seq<u64>>> {
    match rd_u32(d, p, le) {
        Ok((n, q)) => rd_tuples(d, q, le, cs, n as nat),
        Err(k) => Err(k),
    }
}

/// Reads `n` rings, each a counted list of tuples.
pub open spec fn rd_rings(d: Seq<u8>, p: int, le: bool, cs: nat, n: nat) -> Dec<Seq<Seq<Seq<u64>>>>
    decreases n,
{
    if n == 0 {
        Ok((seq![], p))
    } else {
        match rd_rings(d, p, le, cs, (n - 1) as nat) {
            Ok((rs, q)) => match rd_counted_tuples(d, q, le, cs) {
                Ok((r, q2)) => Ok((rs.push(r), q2)),
                Err(k) => Err(k),
            },
            Err(k) => Err(k),
        }
    }
}

/// Reads a counted list of rings.
pub open spec fn rd_counted_rings(d: Seq<u8>, p: int, le: bool, cs: nat) -> Dec<Seq<Seq<Seq<u64>>>> {
    match rd_u32(d, p, le) {
        Ok((n, q)) => rd_rings(d, q, le, cs, n as nat),
        Err(k) => Err(k),
    }
}

/// Reads the byte order and type of a member geometry, which must have type `t`.
pub open spec fn rd_member_header(d: Seq<u8>, p: int, t: GeomType) -> Dec<(bool, Dimension)> {
    match rd_byte_order(d, p) {
        Err(k) => Err(k),
        Ok((le, q)) => match rd_type(d, q, le) {
            Err(k) => Err(k),
            Ok(((mt, md, _), q2)) => if mt == t {
                Ok(((le, md), q2))
            } else {
                Err(Fault::Wkb(member_type_message(t, mt)))
            },
        },
    }
}

/// The message for a member of a multi geometry of type `t` where type
/// `expected` belongs.
pub open spec fn member_type_message(expected: GeomType, t: GeomType) -> Seq<char> {
    "expected "@ + geom_label(expected) + " sub-geometry in Multi"@ + geom_label(expected)
        + ", got type code "@ + geom_label(t)
}

/// Reads one MultiPoint member.
pub open spec fn rd_mp_member(d: Seq<u8>, p: int) -> Dec<Seq<u64>> {
    match rd_member_header(d, p, GeomType::Point) {
        Err(k) => Err(k),
        Ok(((le, md), q)) => match rd_tuple(d, q, le, dim_size(md)) {
            Ok((c, q2)) => Ok((point_value(c), q2)),
            Err(k) => Err(k),
        },
    }
}

/// Reads one MultiLineString member.
pub open spec fn rd_mls_member(d: Seq<u8>, p: int) -> Dec<Seq<Seq<u64>>> {
    match rd_member_header(d, p, GeomType::LineString) {
        Err(k) => Err(k),
        Ok(((le, md), q)) => rd_counted_tuples(d, q, le, dim_size(md)),
    }
}

/// Reads one MultiPolygon member.
pub open spec fn rd_mpoly_member(d: Seq<u8>, p: int) -> Dec<Seq<Seq<Seq<u64>>>> {
    match rd_member_header(d, p, GeomType::Polygon) {
        Err(k) => Err(k),
        Ok(((le, md), q)) => rd_counted_rings(d, q, le, dim_size(md)),
    }
}

/// Reads `n` MultiPoint members.
pub open spec fn rd_mp_members(d: Seq<u8>, p: int, n: nat) -> Dec<Seq<Seq<u64>>>
    decreases n,
{
    if n == 0 {
        Ok((seq![], p))
    } else {
        match rd_mp_members(d, p, (n - 1) as nat) {
            Ok((ms, q)) => match rd_mp_member(d, q) {
                Ok((m, q2)) => Ok((ms.push(m), q2)),
                Err(k) => Err(k),
            },
            Err(k) => Err(k),
        }
    }
}

/// Reads `n` MultiLineString members.
pub open spec fn rd_mls_members(d: Seq<u8>, p: int, n: nat) -> Dec<Seq<Seq<Seq<u64>>>>
    decreases n,
{
    if n == 0 {
        Ok((seq![], p))
    } else {
        match rd_mls_members(d, p, (n - 1) as nat) {
            Ok((ms, q)) => match rd_mls_member(d, q) {
                Ok((m, q2)) => Ok((ms.push(m), q2)),
                Err(k) => Err(k),
            },
            Err(k) => Err(k),
        }
    }
}

/// Reads `n` MultiPolygon members.
pub open spec fn rd_mpoly_members(d: Seq<u8>, p: int, n: nat) -> Dec<Seq<Seq<Seq<Seq<u64>>>>>
    decreases n,
{
    if n == 0 {
        Ok((seq![], p))
    } else {
        match rd_mpoly_members(d, p, (n - 1) as nat) {
            Ok((ms, q)) => match rd_mpoly_member(d, q) {
                Ok((m, q2)) => Ok((ms.push(m), q2)),
                Err(k) => Err(k),
            },
            Err(k) => Err(k),
        }
    }
}

/// Reads a counted list of MultiPoint members.
pub open spec fn rd_counted_mp_members(d: Seq<u8>, p: int, le: bool) -> Dec<Seq<Seq<u64>>> {
    match rd_u32(d, p, le) {
        Ok((n, q)) => rd_mp_members(d, q, n as nat),
        Err(k) => Err(k),
    }
}

/// Reads a counted list of MultiLineString members.
pub open spec fn rd_counted_mls_members(d: Seq<u8>, p: int, le: bool) -> Dec<Seq<Seq<Seq<u64>>>> {
    match rd_u32(d, p, le) {
        Ok((n, q)) => rd_mls_members(d, q, n as nat),
        Err(k) => Err(k),
    }
}

/// Reads a counted list of MultiPolygon members.
pub open spec fn rd_counted_mpoly_members(d: Seq<u8>, p: int, le: bool) -> Dec<
    Seq<Seq<Seq<Seq<u64>>>>,
> {
    match rd_u32(d, p, le) {
        Ok((n, q)) => rd_mpoly_members(d, q, n as nat),
        Err(k) => Err(k),
    }
}

/// Reads a geometry header: byte order, type word and optional SRID field.
pub open spec fn rd_head(d: Seq<u8>, p: int) -> Dec<(bool, GeomType, Dimension, Option<u32>)> {
    match rd_byte_order(d, p) {
        Err(k) => Err(k),
        Ok((le, q)) => match rd_type(d, q, le) {
            Err(k) => Err(k),
            Ok(((t, dim, sr), q2)) => Ok(((le, t, dim, sr), q2)),
        },
    }
}

/// Reads the body of a non-collection geometry of type `t`.
pub open spec fn rd_simple_body(d: Seq<u8>, p: int, le: bool, t: GeomType, dim: Dimension) -> Dec<
    Shape,
> {
    let cs = dim_size(dim);
    match t {
        GeomType::Point => match rd_tuple(d, p, le, cs) {
            Ok((c, q)) => Ok((Shape::Point(dim, point_value(c)), q)),
            Err(k) => Err(k),
        },
        GeomType::LineString => match rd_counted_tuples(d, p, le, cs) {
            Ok((pts, q)) => Ok((Shape::LineString(dim, pts), q)),
            Err(k) => Err(k),
        },
        GeomType::Polygon => match rd_counted_rings(d, p, le, cs) {
            Ok((rs, q)) => Ok((Shape::Polygon(dim, rs), q)),
            Err(k) => Err(k),
        },
        GeomType::MultiPoint => match rd_counted_mp_members(d, p, le) {
            Ok((ms, q)) => Ok((Shape::MultiPoint(dim, ms), q)),
            Err(k) => Err(k),
        },
        GeomType::MultiLineString => match rd_counted_mls_members(d, p, le) {
            Ok((ms, q)) => Ok((Shape::MultiLineString(dim, ms), q)),
            Err(k) => Err(k),
        },
        GeomType::MultiPolygon => match rd_counted_mpoly_members(d, p, le) {
            Ok((ms, q)) => Ok((Shape::MultiPolygon(dim, ms), q)),
            Err(k) => Err(k),
        },
        GeomType::GeometryCollection => Err(Fault::Wkb(depth_message())),
    }
}

/// Reads the body of a geometry of type `t` whose header stands at depth `depth`.
pub open spec fn rd_body(d: Seq<u8>, p: int, le: bool, t: GeomType, dim: Dimension, depth: nat) -> Dec<
    Shape,
>
    decreases 129 - depth, 0nat,
{
    if t == GeomType::GeometryCollection {
        if depth >= 128 {
            Err(Fault::Wkb(depth_message()))
        } else {
            match rd_u32(d, p, le) {
                Err(k) => Err(k),
                Ok((n, q)) => match rd_members(d, q, n as nat, depth + 1) {
                    Ok((ms, q2)) => Ok((Shape::Collection(dim, ms), q2)),
                    Err(k) => Err(k),
                },
            }
        }
    } else {
        rd_simple_body(d, p, le, t, dim)
    }
}

/// Reads one geometry at nesting depth `depth`; also yields the raw SRID field
/// of its header.
pub open spec fn rd_geometry(d: Seq<u8>, p: int, depth: nat) -> Dec<(Shape, Option<u32>)>
    decreases 129 - depth, 1nat,
{
    if depth >= 128 {
        Err(Fault::Wkb(depth_message()))
    } else {
        match rd_head(d, p) {
            Err(k) => Err(k),
            Ok(((le, t, dim, sr), q2)) => match rd_body(d, q2, le, t, dim, depth) {
                Ok((g, q3)) => Ok(((g, sr), q3)),
                Err(k) => Err(k),
            },
        }
    }
}

/// Reads `n` collection members at depth `cd`.
pub open spec fn rd_members(d: Seq<u8>, p: int, n: nat, cd: nat) -> Dec<Seq<Shape>>
    decreases 129 - cd, n + 2,
{
    if n == 0 {
        Ok((seq![], p))
    } else {
        match rd_members(d, p, (n - 1) as nat, cd) {
            Ok((ms, q)) => match rd_geometry(d, q, cd) {
                Ok(((m, _), q2)) => Ok((ms.push(m), q2)),
                Err(k) => Err(k),
            },
            Err(k) => Err(k),
        }
    }
}

/// The SRID a raw SRID field denotes: values that are not positive as `i32`
/// mean an unknown SRID.
pub open spec fn srid_value(raw: Option<u32>) -> Option<i32> {
    match raw {
        Some(v) => if (v as i32) > 0 {
            Some(v as i32)
        } else {
            None
        },
        None => None,
    }
}

/// Reads a whole WKB buffer: one geometry and nothing after it.
pub open spec fn decode(d: Seq<u8>) -> core::result::Result<(Shape, Option<i32>), Fault> {
    match rd_geometry(d, 0, 0) {
        Err(k) => Err(k),
        Ok(((g, sr), q)) => if q == d.len() {
            Ok((g, srid_value(sr)))
        } else {
            Err(Fault::Wkb("trailing bytes after geometry"@))
        },
    }
}

/// `r` is the exec counterpart of `s`, the reader now standing at `pos`.
pub open spec fn agrees<T>(r: Result<T>, s: Dec<T>, pos: int) -> bool {
    match s {
        Ok((v, q)) => r matches Ok(x) && x == v && pos == q,
        Err(k) => r matches Err(e) && e.fault() == k,
    }
}

/// The message for geometry nested deeper than WKB reading allows.
pub open spec fn depth_message() -> Seq<char> {
    "geometry nesting exceeds maximum depth of 128"@
}

pub struct WkbReader<'a> {
    pub data: &'a [u8],
    pub pos: usize,
    pub little_endian: bool,
}

impl<'a> WkbReader<'a> {
    pub open spec fn wf(&self) -> bool {
        self.pos <= self.data@.len()
    }

    pub fn new(data: &'a [u8]) -> (r: Self)
        ensures
            r.data@ == data@,
            r.pos == 0,
            r.wf(),
    {
        WkbReader { data, pos: 0, little_endian: true }
    }

    fn remaining(&self) -> (r: usize)
        requires
            self.wf(),
        ensures
            r == self.data@.len() - self.pos,
    {
        self.data.len() - self.pos
    }

    fn read_u8(&mut self) -> (r: Result<u8>)
        requires
            old(self).wf(),
        ensures
            final(self).wf(),
            final(self).data == old(self).data,
            final(self).little_endian == old(self).little_endian,
            agrees(r, rd_u8(old(self).data@, old(self).pos as int), final(self).pos as int),
    {
        if self.pos >= self.data.len() {
            return Err(wkb_error("unexpected end of data"));
        }
        let v = self.data[self.pos];
        self.pos = self.pos + 1;
        Ok(v)
    }

    fn read_u32(&mut self) -> (r: Result<u32>)
        requires
            old(self).wf(),
        ensures
            final(self).wf(),
            final(self).data == old(self).data,
            final(self).little_endian == old(self).little_endian,
            agrees(
                r,
                rd_u32(old(self).data@, old(self).pos as int, old(self).little_endian),
                final(self).pos as int,
            ),
    {
        if self.remaining() < 4 {
            return Err(wkb_error("unexpected end of data reading u32"));
        }
        let p = self.pos;
        let b0 = self.data[p] as u32;
        let b1 = self.data[p + 1] as u32;
        let b2 = self.data[p + 2] as u32;
        let b3 = self.data[p + 3] as u32;
        self.pos = p + 4;
        let ghost sub = self.data@.subrange(p as int, p + 4);
        assert(sub[0] == b0 && sub[1] == b1 && sub[2] == b2 && sub[3] == b3);
        if self.little_endian {
            Ok(b0 + b1 * 256 + b2 * 65536 + b3 * 16777216)
        } else {
            Ok(b3 + b2 * 256 + b1 * 65536 + b0 * 16777216)
        }
    }

    fn read_f64(&mut self) -> (r: Result<u64>)
        requires
            old(self).wf(),
        ensures
            final(self).wf(),
            final(self).data == old(self).data,
            final(self).little_endian == old(self).little_endian,
            agrees(
                r,
                rd_f64(old(self).data@, old(self).pos as int, old(self).little_endian),
                final(self).pos as int,
            ),
    {
        if self.remaining() < 8 {
            return Err(wkb_error("unexpected end of data reading f64"));
        }
        let p = self.pos;
        let ghost sub = self.data@.subrange(p as int, p + 8);
        let lo = (self.data[p] as u64) + (self.data[p + 1] as u64) * 256 + (self.data[p + 2] as u64)
            * 65536 + (self.data[p + 3] as u64) * 16777216;
        let hi = (self.data[p + 4] as u64) + (self.data[p + 5] as u64) * 256 + (self.data[p
            + 6] as u64) * 65536 + (self.data[p + 7] as u64) * 16777216;
        self.pos = p + 8;
        assert(sub.subrange(0, 4) =~= self.data@.subrange(p as int, p + 4));
        assert(sub.subrange(4, 8) =~= self.data@.subrange(p + 4, p + 8));
        if self.little_endian {
            Ok(lo + hi * 0x1_0000_0000)
        } else {
            let blo = (self.data[p + 7] as u64) + (self.data[p + 6] as u64) * 256 + (self.data[p
                + 5] as u64) * 65536 + (self.data[p + 4] as u64) * 16777216;
            let bhi = (self.data[p + 3] as u64) + (self.data[p + 2] as u64) * 256 + (self.data[p
                + 1] as u64) * 65536 + (self.data[p] as u64) * 16777216;
            Ok(blo + bhi * 0x1_0000_0000)
        }
    }

    fn read_byte_order(&mut self) -> (r: Result<()>)
        requires
            old(self).wf(),
        ensures
            final(self).wf(),
            final(self).data == old(self).data,
            match rd_byte_order(old(self).data@, old(self).pos as int) {
                Ok((le, q)) => r is Ok && final(self).little_endian == le && final(self).pos == q,
                Err(k) => r matches Err(e) && e.fault() == k,
            },
    {
        let b = match self.read_u8() {
            Ok(b) => b,
            Err(e) => return Err(e),
        };
        if b == 0 {
            self.little_endian = false;
            Ok(())
        } else if b == 1 {
            self.little_endian = true;
            Ok(())
        } else {
            Err(wkb_error_with("invalid byte order marker: ", decimal(b as u32)))
        }
    }

    /// Decodes the 4-byte type code, handling both ISO WKB and EWKB encodings.
    #[verifier::rlimit(40)]
    fn read_type(&mut self) -> (r: Result<(GeomType, Dimension, Option<u32>)>)
        requires
            old(self).wf(),
        ensures
            final(self).wf(),
            final(self).data == old(self).data,
            final(self).little_endian == old(self).little_endian,
            agrees(
                r,
                rd_type(old(self).data@, old(self).pos as int, old(self).little_endian),
                final(self).pos as int,
            ),
    {
        let raw = match self.read_u32() {
            Ok(v) => v,
            Err(e) => return Err(e),
        };
        let z = raw >= 0x8000_0000;
        let m = (raw / 0x4000_0000) % 2 == 1;
        let s = (raw / 0x2000_0000) % 2 == 1;
        let base = raw % 0x10000;
        let (code, dim) = if z || m {
            (
                base,
                if z && m {
                    Dimension::XYZM
                } else if z {
                    Dimension::XYZ
                } else {
                    Dimension::XYM
                },
            )
        } else if base > 3000 {
            (base - 3000, Dimension::XYZM)
        } else if base > 2000 {
            (base - 2000, Dimension::XYM)
        } else if base > 1000 {
            (base - 1000, Dimension::XYZ)
        } else {
            (base, Dimension::XY)
        };
        let t = match GeomType::from_u32(code) {
            Ok(t) => t,
            Err(e) => return Err(e),
        };
        if s {
            match self.read_u32() {
                Ok(v) => Ok((t, dim, Some(v))),
                Err(e) => Err(e),
            }
        } else {
            Ok((t, dim, None))
        }
    }

    /// Reads `n` coordinate values.
    #[verifier::rlimit(40)]
    fn read_tuple(&mut self, n: usize) -> (r: Result<Vec<u64>>)
        requires
            old(self).wf(),
        ensures
            final(self).wf(),
            final(self).data == old(self).data,
            final(self).little_endian == old(self).little_endian,
            match rd_tuple(old(self).data@, old(self).pos as int, old(self).little_endian, n as nat) {
                Ok((c, q)) => r matches Ok(v) && v@ == c && final(self).pos == q,
                Err(k) => r matches Err(e) && e.fault() == k,
            },
    {
        let mut coords: Vec<u64> = Vec::with_capacity(n);
        let mut i: usize = 0;
        while i < n
            invariant
                i <= n,
                self.wf(),
                self.data == old(self).data,
                self.little_endian == old(self).little_endian,
                rd_tuple(self.data@, old(self).pos as int, self.little_endian, i as nat) == Dec::Ok(
                    (coords@, self.pos as int),
                ),
            decreases n - i,
        {
            let v = match self.read_f64() {
                Ok(v) => v,
                Err(e) => {
                    proof {
                        lemma_rd_tuple_err(self.data@, old(self).pos as int, self.little_endian, (i + 1) as nat, n as nat);
                    }
                    return Err(e);
                },
            };
            coords.push(v);
            i = i + 1;
        }
        Ok(coords)
    }

    #[verifier::rlimit(40)]
    fn read_point_body(&mut self, out: &mut WktBuilder, dim: Dimension) -> (r: Result<()>)
        requires
            old(self).wf(),
        ensures
            final(self).wf(),
            final(self).data == old(self).data,
            match rd_simple_body(
                old(self).data@,
                old(self).pos as int,
                old(self).little_endian,
                GeomType::Point,
                dim,
            ) {
                Ok((g, q)) => r is Ok && final(self).pos == q && final(out).parts@ == old(out).parts@
                    + r_body(g),
                Err(k) => r matches Err(e) && e.fault() == k,
            },
    {
        let coords = match self.read_tuple(dim.coord_size()) {
            Ok(c) => c,
            Err(e) => return Err(e),
        };
        if all_nan_exec(&coords) {
            out.push_empty();
        } else {
            out.push_space_open();
            out.push_coord(&coords);
            out.push_char(')');
            proof {
                assert(coords@.len() > 0);
            }
        }
        Ok(())
    }

    /// Reads `num_pts` tuples and writes them separated by `, `.
    #[verifier::rlimit(40)]
    fn read_coord_seq(&mut self, out: &mut WktBuilder, dim: Dimension, num_pts: u32) -> (r: Result<
        (),
    >)
        requires
            old(self).wf(),
        ensures
            final(self).wf(),
            final(self).data == old(self).data,
            final(self).little_endian == old(self).little_endian,
            match rd_tuples(
                old(self).data@,
                old(self).pos as int,
                old(self).little_endian,
                dim_size(dim),
                num_pts as nat,
            ) {
                Ok((pts, q)) => r is Ok && final(self).pos == q && pts.len() == num_pts
                    && final(out).parts@ == old(out).parts@ + r_tuples(pts),
                Err(k) => r matches Err(e) && e.fault() == k,
            },
    {
        let cs = dim.coord_size();
        let mut i: u32 = 0;
        let ghost mut pts: Seq<Seq<u64>> = seq![];
        while i < num_pts
            invariant
                i <= num_pts,
                self.wf(),
                self.data == old(self).data,
                self.little_endian == old(self).little_endian,
                cs == dim_size(dim),
                pts.len() == i,
                rd_tuples(self.data@, old(self).pos as int, self.little_endian, cs as nat, i as nat)
                    == Dec::Ok((pts, self.pos as int)),
                out.parts@ == old(out).parts@ + r_tuples(pts),
            decreases num_pts - i,
        {
            if i > 0 {
                out.push_comma();
            }
            let c = match self.read_tuple(cs) {
                Ok(c) => c,
                Err(e) => {
                    proof {
                        lemma_rd_tuples_err(
                            self.data@,
                            old(self).pos as int,
                            self.little_endian,
                            cs as nat,
                            (i + 1) as nat,
                            num_pts as nat,
                        );
                    }
                    return Err(e);
                },
            };
            out.push_coord(&c);
            proof {
                assert(pts.push(c@).drop_last() =~= pts);
                pts = pts.push(c@);
            }
            i = i + 1;
        }
        Ok(())
    }

    #[verifier::rlimit(40)]
    fn read_linestring_body(&mut self, out: &mut WktBuilder, dim: Dimension) -> (r: Result<()>)
        requires
            old(self).wf(),
        ensures
            final(self).wf(),
            final(self).data == old(self).data,
            match rd_simple_body(
                old(self).data@,
                old(self).pos as int,
                old(self).little_endian,
                GeomType::LineString,
                dim,
            ) {
                Ok((g, q)) => r is Ok && final(self).pos == q && final(out).parts@ == old(out).parts@
                    + r_body(g),
                Err(k) => r matches Err(e) && e.fault() == k,
            },
    {
        let num_pts = match self.read_u32() {
            Ok(n) => n,
            Err(e) => return Err(e),
        };
        if num_pts == 0 {
            out.push_empty();
            return Ok(());
        }
        out.push_space_open();
        match self.read_coord_seq(out, dim, num_pts) {
            Ok(()) => {},
            Err(e) => return Err(e),
        }
        out.push_char(')');
        Ok(())
    }

    /// Reads one counted ring and writes it in parentheses.
    #[verifier::rlimit(40)]
    fn read_ring(&mut self, out: &mut WktBuilder, dim: Dimension) -> (r: Result<()>)
        requires
            old(self).wf(),
        ensures
            final(self).wf(),
            final(self).data == old(self).data,
            final(self).little_endian == old(self).little_endian,
            match rd_counted_tuples(
                old(self).data@,
                old(self).pos as int,
                old(self).little_endian,
                dim_size(dim),
            ) {
                Ok((pts, q)) => r is Ok && final(self).pos == q && final(out).parts@ == old(
                    out,
                ).parts@ + r_ring(pts),
                Err(k) => r matches Err(e) && e.fault() == k,
            },
    {
        let num_pts = match self.read_u32() {
            Ok(n) => n,
            Err(e) => return Err(e),
        };
        out.push_char('(');
        match self.read_coord_seq(out, dim, num_pts) {
            Ok(()) => {},
            Err(e) => return Err(e),
        }
        out.push_char(')');
        Ok(())
    }

    /// Reads `num_rings` counted rings and writes them separated by `, `.
    #[verifier::rlimit(40)]
    fn read_rings(&mut self, out: &mut WktBuilder, dim: Dimension, num_rings: u32) -> (r: Result<
        (),
    >)
        requires
            old(self).wf(),
        ensures
            final(self).wf(),
            final(self).data == old(self).data,
            final(self).little_endian == old(self).little_endian,
            match rd_rings(
                old(self).data@,
                old(self).pos as int,
                old(self).little_endian,
                dim_size(dim),
                num_rings as nat,
            ) {
                Ok((rs, q)) => r is Ok && final(self).pos == q && rs.len() == num_rings
                    && final(out).parts@ == old(out).parts@ + r_rings(rs),
                Err(k) => r matches Err(e) && e.fault() == k,
            },
    {
        let mut i: u32 = 0;
        let ghost mut rs: Seq<Seq<Seq<u64>>> = seq![];
        let ghost p0 = self.pos as int;
        let ghost base = out.parts@;
        while i < num_rings
            invariant
                i <= num_rings,
                self.wf(),
                self.data == old(self).data,
                self.little_endian == old(self).little_endian,
                rs.len() == i,
                p0 == old(self).pos as int,
                rd_rings(self.data@, p0, self.little_endian, dim_size(dim), i as nat) == Dec::Ok(
                    (rs, self.pos as int),
                ),
                out.parts@ == base + r_rings(rs),
            decreases num_rings - i,
        {
            if i > 0 {
                out.push_comma();
            }
            let ghost q0 = self.pos as int;
            match self.read_ring(out, dim) {
                Ok(()) => {},
                Err(e) => {
                    proof {
                        assert(rd_rings(self.data@, p0, self.little_endian, dim_size(dim), (i + 1) as nat) == Dec::<Seq<Seq<Seq<u64>>>>::Err(e.fault()));
                        lemma_rd_rings_err(self.data@, p0, self.little_endian, dim_size(dim), (i + 1) as nat, num_rings as nat);
                    }
                    return Err(e);
                },
            }
            proof {
                let ring = rd_counted_tuples(self.data@, q0, self.little_endian, dim_size(dim))->Ok_0.0;
                assert(rs.push(ring).drop_last() =~= rs);
                rs = rs.push(ring);
            }
            i = i + 1;
        }
        Ok(())
    }

    #[verifier::rlimit(80)]
    #[verifier::spinoff_prover]
    fn read_polygon_body(&mut self, out: &mut WktBuilder, dim: Dimension) -> (r: Result<()>)
        requires
            old(self).wf(),
        ensures
            final(self).wf(),
            final(self).data == old(self).data,
            match rd_simple_body(
                old(self).data@,
                old(self).pos as int,
                old(self).little_endian,
                GeomType::Polygon,
                dim,
            ) {
                Ok((g, q)) => r is Ok && final(self).pos == q && final(out).parts@ == old(out).parts@
                    + r_body(g),
                Err(k) => r matches Err(e) && e.fault() == k,
            },
    {
        let num_rings = match self.read_u32() {
            Ok(n) => n,
            Err(e) => return Err(e),
        };
        if num_rings == 0 {
            out.push_empty();
            return Ok(());
        }
        out.push_space_open();
        match self.read_rings(out, dim, num_rings) {
            Ok(()) => {},
            Err(e) => return Err(e),
        }
        out.push_char(')');
        Ok(())
    }

    /// Reads a member header whose type must be `expected`; yields the member's dimension.
    #[verifier::rlimit(40)]
    fn read_member_header(&mut self, expected: GeomType) -> (r: Result<Dimension>)
        requires
            old(self).wf(),
        ensures
            final(self).wf(),
            final(self).data == old(self).data,
            match rd_member_header(old(self).data@, old(self).pos as int, expected) {
                Ok(((le, md), q)) => r == Result::<Dimension>::Ok(md) && final(self).pos == q
                    && final(self).little_endian == le,
                Err(k) => r matches Err(e) && e.fault() == k,
            },
    {
        match self.read_byte_order() {
            Ok(()) => {},
            Err(e) => return Err(e),
        }
        let (t, md, _) = match self.read_type() {
            Ok(v) => v,
            Err(e) => return Err(e),
        };
        if t != expected {
            let mut msg: Vec<char> = Vec::new();
            push_chars(&mut msg, "expected ");
            push_chars(&mut msg, geom_label_str(expected));
            push_chars(&mut msg, " sub-geometry in Multi");
            push_chars(&mut msg, geom_label_str(expected));
            push_chars(&mut msg, ", got type code ");
            push_chars(&mut msg, geom_label_str(t));
            return Err(Error::InvalidWkb(string_from_chars(msg.as_slice())));
        }
        Ok(md)
    }

    #[verifier::rlimit(40)]
    fn read_mp_member(&mut self, out: &mut WktBuilder) -> (r: Result<()>)
        requires
            old(self).wf(),
        ensures
            final(self).wf(),
            final(self).data == old(self).data,
            match rd_mp_member(old(self).data@, old(self).pos as int) {
                Ok((m, q)) => r is Ok && final(self).pos == q && final(out).parts@ == old(out).parts@
                    + r_mp_member(m),
                Err(k) => r matches Err(e) && e.fault() == k,
            },
    {
        let md = match self.read_member_header(GeomType::Point) {
            Ok(md) => md,
            Err(e) => return Err(e),
        };
        let coords = match self.read_tuple(md.coord_size()) {
            Ok(c) => c,
            Err(e) => return Err(e),
        };
        if all_nan_exec(&coords) {
            out.push_empty_word();
        } else {
            out.push_char('(');
            out.push_coord(&coords);
            out.push_char(')');
            assert(coords@.len() > 0);
        }
        Ok(())
    }

    #[verifier::rlimit(40)]
    fn read_mls_member(&mut self, out: &mut WktBuilder) -> (r: Result<()>)
        requires
            old(self).wf(),
        ensures
            final(self).wf(),
            final(self).data == old(self).data,
            match rd_mls_member(old(self).data@, old(self).pos as int) {
                Ok((m, q)) => r is Ok && final(self).pos == q && final(out).parts@ == old(out).parts@
                    + r_mls_member(m),
                Err(k) => r matches Err(e) && e.fault() == k,
            },
    {
        let md = match self.read_member_header(GeomType::LineString) {
            Ok(md) => md,
            Err(e) => return Err(e),
        };
        let num_pts = match self.read_u32() {
            Ok(n) => n,
            Err(e) => return Err(e),
        };
        if num_pts == 0 {
            out.push_empty_word();
        } else {
            out.push_char('(');
            match self.read_coord_seq(out, md, num_pts) {
                Ok(()) => {},
                Err(e) => return Err(e),
            }
            out.push_char(')');
        }
        Ok(())
    }

    #[verifier::rlimit(40)]
    fn read_mpoly_member(&mut self, out: &mut WktBuilder) -> (r: Result<()>)
        requires
            old(self).wf(),
        ensures
            final(self).wf(),
            final(self).data == old(self).data,
            match rd_mpoly_member(old(self).data@, old(self).pos as int) {
                Ok((m, q)) => r is Ok && final(self).pos == q && final(out).parts@ == old(out).parts@
                    + r_mpoly_member(m),
                Err(k) => r matches Err(e) && e.fault() == k,
            },
    {
        let md = match self.read_member_header(GeomType::Polygon) {
            Ok(md) => md,
            Err(e) => return Err(e),
        };
        let num_rings = match self.read_u32() {
            Ok(n) => n,
            Err(e) => return Err(e),
        };
        if num_rings == 0 {
            out.push_empty_word();
        } else {
            out.push_char('(');
            match self.read_rings(out, md, num_rings) {
                Ok(()) => {},
                Err(e) => return Err(e),
            }
            out.push_char(')');
        }
        Ok(())
    }

    /// Each sub-geometry in a MULTI* has its own full WKB header but is rendered
    /// in WKT without a type keyword: `((x y), (x y))`.
    #[verifier::rlimit(40)]
    fn read_multi_point_body(&mut self, out: &mut WktBuilder) -> (r: Result<()>)
        requires
            old(self).wf(),
        ensures
            final(self).wf(),
            final(self).data == old(self).data,
            match rd_counted_mp_members(old(self).data@, old(self).pos as int, old(self).little_endian) {
                Ok((ms, q)) => r is Ok && final(self).pos == q && final(out).parts@ == old(out).parts@
                    + if ms.len() == 0 {
                    r_empty()
                } else {
                    r_paren(r_mp_members(ms))
                },
                Err(k) => r matches Err(e) && e.fault() == k,
            },
    {
        let num = match self.read_u32() {
            Ok(n) => n,
            Err(e) => return Err(e),
        };
        if num == 0 {
            out.push_empty();
            return Ok(());
        }
        out.push_space_open();
        let ghost p0 = self.pos as int;
        let ghost base = out.parts@;
        let mut i: u32 = 0;
        let ghost mut ms: Seq<Seq<u64>> = seq![];
        while i < num
            invariant
                i <= num,
                self.wf(),
                self.data == old(self).data,
                ms.len() == i,
                rd_u32(old(self).data@, old(self).pos as int, old(self).little_endian) == Dec::Ok(
                    (num, p0),
                ),
                rd_mp_members(self.data@, p0, i as nat) == Dec::Ok((ms, self.pos as int)),
                out.parts@ == base + r_mp_members(ms),
            decreases num - i,
        {
            if i > 0 {
                out.push_comma();
            }
            let ghost q0 = self.pos as int;
            match self.read_mp_member(out) {
                Ok(()) => {},
                Err(e) => {
                    proof {
                        assert(rd_mp_members(self.data@, p0, (i + 1) as nat) == Dec::<Seq<Seq<u64>>>::Err(e.fault()));
                        lemma_rd_mp_members_err(self.data@, p0, (i + 1) as nat, num as nat);
                    }
                    return Err(e);
                },
            }
            proof {
                let m = rd_mp_member(self.data@, q0)->Ok_0.0;
                assert(ms.push(m).drop_last() =~= ms);
                ms = ms.push(m);
            }
            i = i + 1;
        }
        out.push_char(')');
        Ok(())
    }

    #[verifier::rlimit(40)]
    fn read_multi_linestring_body(&mut self, out: &mut WktBuilder) -> (r: Result<()>)
        requires
            old(self).wf(),
        ensures
            final(self).wf(),
            final(self).data == old(self).data,
            match rd_counted_mls_members(old(self).data@, old(self).pos as int, old(self).little_endian) {
                Ok((ms, q)) => r is Ok && final(self).pos == q && final(out).parts@ == old(out).parts@
                    + if ms.len() == 0 {
                    r_empty()
                } else {
                    r_paren(r_mls_members(ms))
                },
                Err(k) => r matches Err(e) && e.fault() == k,
            },
    {
        let num = match self.read_u32() {
            Ok(n) => n,
            Err(e) => return Err(e),
        };
        if num == 0 {
            out.push_empty();
            return Ok(());
        }
        out.push_space_open();
        let ghost p0 = self.pos as int;
        let ghost base = out.parts@;
        let mut i: u32 = 0;
        let ghost mut ms: Seq<Seq<Seq<u64>>> = seq![];
        while i < num
            invariant
                i <= num,
                self.wf(),
                self.data == old(self).data,
                ms.len() == i,
                rd_u32(old(self).data@, old(self).pos as int, old(self).little_endian) == Dec::Ok(
                    (num, p0),
                ),
                rd_mls_members(self.data@, p0, i as nat) == Dec::Ok((ms, self.pos as int)),
                out.parts@ == base + r_mls_members(ms),
            decreases num - i,
        {
            if i > 0 {
                out.push_comma();
            }
            let ghost q0 = self.pos as int;
            match self.read_mls_member(out) {
                Ok(()) => {},
                Err(e) => {
                    proof {
                        assert(rd_mls_members(self.data@, p0, (i + 1) as nat) == Dec::<Seq<Seq<Seq<u64>>>>::Err(e.fault()));
                        lemma_rd_mls_members_err(self.data@, p0, (i + 1) as nat, num as nat);
                    }
                    return Err(e);
                },
            }
            proof {
                let m = rd_mls_member(self.data@, q0)->Ok_0.0;
                assert(ms.push(m).drop_last() =~= ms);
                ms = ms.push(m);
            }
            i = i + 1;
        }
        out.push_char(')');
        Ok(())
    }

    #[verifier::rlimit(40)]
    fn read_multi_polygon_body(&mut self, out: &mut WktBuilder) -> (r: Result<()>)
        requires
            old(self).wf(),
        ensures
            final(self).wf(),
            final(self).data == old(self).data,
            match rd_counted_mpoly_members(old(self).data@, old(self).pos as int, old(self).little_endian) {
                Ok((ms, q)) => r is Ok && final(self).pos == q && final(out).parts@ == old(out).parts@
                    + if ms.len() == 0 {
                    r_empty()
                } else {
                    r_paren(r_mpoly_members(ms))
                },
                Err(k) => r matches Err(e) && e.fault() == k,
            },
    {
        let num = match self.read_u32() {
            Ok(n) => n,
            Err(e) => return Err(e),
        };
        if num == 0 {
            out.push_empty();
            return Ok(());
        }
        out.push_space_open();
        let ghost p0 = self.pos as int;
        let ghost base = out.parts@;
        let mut i: u32 = 0;
        let ghost mut ms: Seq<Seq<Seq<Seq<u64>>>> = seq![];
        while i < num
            invariant
                i <= num,
                self.wf(),
                self.data == old(self).data,
                ms.len() == i,
                rd_u32(old(self).data@, old(self).pos as int, old(self).little_endian) == Dec::Ok(
                    (num, p0),
                ),
                rd_mpoly_members(self.data@, p0, i as nat) == Dec::Ok((ms, self.pos as int)),
                out.parts@ == base + r_mpoly_members(ms),
            decreases num - i,
        {
            if i > 0 {
                out.push_comma();
            }
            let ghost q0 = self.pos as int;
            match self.read_mpoly_member(out) {
                Ok(()) => {},
                Err(e) => {
                    proof {
                        assert(rd_mpoly_members(self.data@, p0, (i + 1) as nat) == Dec::<Seq<Seq<Seq<Seq<u64>>>>>::Err(e.fault()));
                        lemma_rd_mpoly_members_err(self.data@, p0, (i + 1) as nat, num as nat);
                    }
                    return Err(e);
                },
            }
            proof {
                let m = rd_mpoly_member(self.data@, q0)->Ok_0.0;
                assert(ms.push(m).drop_last() =~= ms);
                ms = ms.push(m);
            }
            i = i + 1;
        }
        out.push_char(')');
        Ok(())
    }

    /// GeometryCollection members are full WKT geometries with type keywords.
    #[verifier::rlimit(40)]
    fn read_collection_body(&mut self, out: &mut WktBuilder, cd: usize) -> (r: Result<()>)
        requires
            old(self).wf(),
            cd <= MAX_DEPTH,
        ensures
            final(self).wf(),
            final(self).data == old(self).data,
            match rd_u32(old(self).data@, old(self).pos as int, old(self).little_endian) {
                Ok((n, q)) => match rd_members(old(self).data@, q, n as nat, cd as nat) {
                    Ok((ms, q2)) => r is Ok && final(self).pos == q2 && final(out).parts@ == old(
                        out,
                    ).parts@ + if ms.len() == 0 {
                        r_empty()
                    } else {
                        r_paren(r_members(ms))
                    },
                    Err(k) => r matches Err(e) && e.fault() == k,
                },
                Err(k) => r matches Err(e) && e.fault() == k,
            },
        decreases 129 - cd, 4int,
    {
        let num = match self.read_u32() {
            Ok(n) => n,
            Err(e) => return Err(e),
        };
        if num == 0 {
            out.push_empty();
            return Ok(());
        }
        out.push_space_open();
        let ghost p0 = self.pos as int;
        let ghost base = out.parts@;
        let mut i: u32 = 0;
        let ghost mut ms: Seq<Shape> = seq![];
        while i < num
            invariant
                i <= num,
                cd <= MAX_DEPTH,
                self.wf(),
                self.data == old(self).data,
                ms.len() == i,
                rd_u32(old(self).data@, old(self).pos as int, old(self).little_endian) == Dec::Ok(
                    (num, p0),
                ),
                rd_members(self.data@, p0, i as nat, cd as nat) == Dec::Ok((ms, self.pos as int)),
                out.parts@ == base + r_members(ms),
            decreases num - i,
        {
            if i > 0 {
                out.push_comma();
            }
            let ghost q0 = self.pos as int;
            match self.read_geometry(out, cd) {
                Ok(_) => {},
                Err(e) => {
                    proof {
                        assert(rd_members(self.data@, p0, (i + 1) as nat, cd as nat) == Dec::<
                            Seq<Shape>,
                        >::Err(e.fault()));
                        lemma_rd_members_err(self.data@, p0, (i + 1) as nat, num as nat, cd as nat);
                    }
                    return Err(e);
                },
            }
            proof {
                let m = rd_geometry(self.data@, q0, cd as nat)->Ok_0.0.0;
                assert(ms.push(m).drop_last() =~= ms);
                ms = ms.push(m);
            }
            i = i + 1;
        }
        out.push_char(')');
        Ok(())
    }

    /// Reads a geometry header, leaving the reader in the header's byte order.
    fn read_head(&mut self) -> (r: Result<(GeomType, Dimension, Option<u32>)>)
        requires
            old(self).wf(),
        ensures
            final(self).wf(),
            final(self).data == old(self).data,
            match rd_head(old(self).data@, old(self).pos as int) {
                Ok(((le, t, dim, sr), q)) => r == Result::<(GeomType, Dimension, Option<u32>)>::Ok(
                    (t, dim, sr),
                ) && final(self).pos == q && final(self).little_endian == le,
                Err(k) => r matches Err(e) && e.fault() == k,
            },
    {
        match self.read_byte_order() {
            Ok(()) => {},
            Err(e) => return Err(e),
        }
        self.read_type()
    }

    /// Reads one complete WKB geometry and appends its WKT draft to `out`.
    /// Returns the raw SRID field of its header, if the SRID flag is set.
    #[verifier::rlimit(40)]
    pub fn read_geometry(&mut self, out: &mut WktBuilder, depth: usize) -> (r: Result<Option<u32>>)
        requires
            old(self).wf(),
            depth <= MAX_DEPTH,
        ensures
            final(self).wf(),
            final(self).data == old(self).data,
            match rd_geometry(old(self).data@, old(self).pos as int, depth as nat) {
                Ok(((g, sr), q)) => r == Result::<Option<u32>>::Ok(sr) && final(self).pos == q
                    && final(out).parts@ == old(out).parts@ + render(g),
                Err(k) => r matches Err(e) && e.fault() == k,
            },
        decreases 129 - depth, 3int,
    {
        if depth >= MAX_DEPTH {
            return Err(wkb_error("geometry nesting exceeds maximum depth of 128"));
        }
        let ghost d = self.data@;
        let ghost p0 = self.pos as int;
        let (t, dim, sr) = match self.read_head() {
            Ok(v) => v,
            Err(e) => return Err(e),
        };
        let ghost le = self.little_endian;
        let ghost q = self.pos as int;
        assert(rd_head(d, p0) == Dec::Ok(((le, t, dim, sr), q)));
        let ghost o0 = out.parts@;
        out.push_str(t.wkt_name());
        out.push_str(dim.wkt_tag());
        let ghost o1 = out.parts@;
        match self.read_body(out, t, dim, depth) {
            Ok(()) => {},
            Err(e) => {
                assert(rd_geometry(d, p0, depth as nat) == Dec::<(Shape, Option<u32>)>::Err(
                    e.fault(),
                ));
                return Err(e);
            },
        }
        proof {
            let g = rd_body(d, q, le, t, dim, depth as nat)->Ok_0.0;
            assert(rd_geometry(d, p0, depth as nat) == Dec::Ok(((g, sr), self.pos as int)));
            lemma_render_split(g);
            assert(shape_type(g) == t && shape_dim(g) == dim) by {
                lemma_rd_body_shape(d, q, le, t, dim, depth as nat);
            }
            assert(out.parts@ =~= o0 + render(g));
        }
        Ok(sr)
    }

    /// Reads the body of a geometry of type `t` whose header is at depth `depth`.
    #[verifier::rlimit(40)]
    fn read_body(&mut self, out: &mut WktBuilder, t: GeomType, dim: Dimension, depth: usize) -> (r:
        Result<()>)
        requires
            old(self).wf(),
            depth < MAX_DEPTH,
        ensures
            final(self).wf(),
            final(self).data == old(self).data,
            match rd_body(
                old(self).data@,
                old(self).pos as int,
                old(self).little_endian,
                t,
                dim,
                depth as nat,
            ) {
                Ok((g, q)) => r is Ok && final(self).pos == q && final(out).parts@ == old(out).parts@
                    + r_geom_body(g),
                Err(k) => r matches Err(e) && e.fault() == k,
            },
        decreases 129 - depth, 2int,
    {
        match t {
            GeomType::Point => self.read_point_body(out, dim),
            GeomType::LineString => self.read_linestring_body(out, dim),
            GeomType::Polygon => self.read_polygon_body(out, dim),
            GeomType::MultiPoint => self.read_multi_point_body(out),
            GeomType::MultiLineString => self.read_multi_linestring_body(out),
            GeomType::MultiPolygon => self.read_multi_polygon_body(out),
            GeomType::GeometryCollection => self.read_collection_body(out, depth + 1),
        }
    }

    /// Fails unless every byte has been read.
    pub fn expect_eof(&self) -> (r: Result<()>)
        requires
            self.wf(),
        ensures
            r is Ok <==> self.pos == self.data@.len(),
            r matches Err(e) ==> e.fault() == Fault::Wkb("trailing bytes after geometry"@),
    {
        if self.pos < self.data.len() {
            Err(wkb_error("trailing bytes after geometry"))
        } else {
            Ok(())
        }
    }
}

/// Bit pattern of a NaN.
pub fn is_nan_exec(b: u64) -> (r: bool)
    ensures
        r == is_nan(b),
{
    (b / 0x10_0000_0000_0000) % 0x800 == 0x7FF && b % 0x10_0000_0000_0000 != 0
}

/// Every value is a NaN.
pub fn all_nan_exec(c: &Vec<u64>) -> (r: bool)
    ensures
        r == all_nan(c@),
{
    let mut i: usize = 0;
    while i < c.len()
        invariant
            i <= c@.len(),
            forall|j: int| 0 <= j < i ==> is_nan(#[trigger] c@[j]),
        decreases c@.len() - i,
    {
        if !is_nan_exec(c[i]) {
            return false;
        }
        i = i + 1;
    }
    true
}

/// Once a prefix of a tuple fails, the whole tuple fails with the same error.
pub proof fn lemma_rd_tuple_err(d: Seq<u8>, p: int, le: bool, i: nat, n: nat)
    requires
        i <= n,
        rd_tuple(d, p, le, i) is Err,
    ensures
        rd_tuple(d, p, le, n) == rd_tuple(d, p, le, i),
    decreases n - i,
{
    if i < n {
        lemma_rd_tuple_err(d, p, le, i, (n - 1) as nat);
    }
}

/// Once a prefix of a tuple list fails, the whole list fails with the same error.
pub proof fn lemma_rd_tuples_err(d: Seq<u8>, p: int, le: bool, cs: nat, i: nat, n: nat)
    requires
        i <= n,
        rd_tuples(d, p, le, cs, i) is Err,
    ensures
        rd_tuples(d, p, le, cs, n) == rd_tuples(d, p, le, cs, i),
    decreases n - i,
{
    if i < n {
        lemma_rd_tuples_err(d, p, le, cs, i, (n - 1) as nat);
    }
}

/// Once a prefix of a ring list fails, the whole list fails with the same error.
pub proof fn lemma_rd_rings_err(d: Seq<u8>, p: int, le: bool, cs: nat, i: nat, n: nat)
    requires
        i <= n,
        rd_rings(d, p, le, cs, i) is Err,
    ensures
        rd_rings(d, p, le, cs, n) == rd_rings(d, p, le, cs, i),
    decreases n - i,
{
    if i < n {
        lemma_rd_rings_err(d, p, le, cs, i, (n - 1) as nat);
    }
}

/// Once a prefix of the members fails, all members fail with the same error.
pub proof fn lemma_rd_mp_members_err(d: Seq<u8>, p: int, i: nat, n: nat)
    requires
        i <= n,
        rd_mp_members(d, p, i) is Err,
    ensures
        rd_mp_members(d, p, n) == rd_mp_members(d, p, i),
    decreases n - i,
{
    if i < n {
        lemma_rd_mp_members_err(d, p, i, (n - 1) as nat);
    }
}

/// Once a prefix of the members fails, all members fail with the same error.
pub proof fn lemma_rd_mls_members_err(d: Seq<u8>, p: int, i: nat, n: nat)
    requires
        i <= n,
        rd_mls_members(d, p, i) is Err,
    ensures
        rd_mls_members(d, p, n) == rd_mls_members(d, p, i),
    decreases n - i,
{
    if i < n {
        lemma_rd_mls_members_err(d, p, i, (n - 1) as nat);
    }
}

/// Once a prefix of the members fails, all members fail with the same error.
pub proof fn lemma_rd_mpoly_members_err(d: Seq<u8>, p: int, i: nat, n: nat)
    requires
        i <= n,
        rd_mpoly_members(d, p, i) is Err,
    ensures
        rd_mpoly_members(d, p, n) == rd_mpoly_members(d, p, i),
    decreases n - i,
{
    if i < n {
        lemma_rd_mpoly_members_err(d, p, i, (n - 1) as nat);
    }
}

/// Once a prefix of the members fails, all members fail with the same error.
pub proof fn lemma_rd_members_err(d: Seq<u8>, p: int, i: nat, n: nat, cd: nat)
    requires
        i <= n,
        rd_members(d, p, i, cd) is Err,
    ensures
        rd_members(d, p, n, cd) == rd_members(d, p, i, cd),
    decreases n - i,
{
    if i < n {
        lemma_rd_members_err(d, p, i, (n - 1) as nat, cd);
    }
}

/// A body read for type `t` and dimension `dim` holds a shape of that type and dimension.
pub proof fn lemma_rd_body_shape(d: Seq<u8>, p: int, le: bool, t: GeomType, dim: Dimension, depth: nat)
    requires
        rd_body(d, p, le, t, dim, depth) is Ok,
    ensures
        shape_type(rd_body(d, p, le, t, dim, depth)->Ok_0.0) == t,
        shape_dim(rd_body(d, p, le, t, dim, depth)->Ok_0.0) == dim,
{
}

} // verus!
