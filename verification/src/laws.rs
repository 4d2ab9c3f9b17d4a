//! Laws that relate the conversions: what reading gives back of a write.
use crate::model::{
    all_nan, byte_cells, enc_count, enc_header, enc_members, enc_mls_members, enc_mp_members,
    enc_mpoly_members, enc_nan_tuple, enc_point_body, enc_rings, enc_tuple, enc_tuples, encode,
    flatten_bits, is_nan, le4, le8, nan_bits, shape_dim, shape_type, type_word, u32_from, u64_from,
    Cell, Shape,
};
use crate::types::{dim_flags, dim_size, type_code, type_of_code, Dimension, GeomType};
use crate::wkb_to_wkt::reader::{
    decode, has_m, has_srid, has_z, point_value, rd_body, rd_byte_order, rd_counted_mls_members,
    rd_counted_mp_members, rd_counted_mpoly_members, rd_counted_rings, rd_counted_tuples, rd_f64,
    rd_geometry, rd_head, rd_members, rd_mls_member, rd_mls_members, rd_mp_member, rd_mp_members,
    rd_mpoly_member, rd_mpoly_members, rd_rings, rd_simple_body, rd_tuple, rd_tuples, rd_type,
    rd_u32, split_type, srid_value, Dec,
};
use crate::error::Fault;
use crate::header::{
    fast_header, fast_strip, header_srid_fast, known_flags, mode_of, placeholder_text, reencoded,
    with_srid_flag, without_srid_flag,
};
use crate::model::{be4, bytes4, coords_of, flatten, num_count};
use vstd::prelude::*;

verus! {

// ---------------------------------------------------------------- byte strings

/// The bytes `b` stand in `d` at position `p`.
pub open spec fn at(d: Seq<u8>, p: int, b: Seq<u8>) -> bool {
    0 <= p && p + b.len() <= d.len() && d.subrange(p, p + b.len()) == b
}

pub proof fn lemma_at_split(d: Seq<u8>, p: int, a: Seq<u8>, b: Seq<u8>)
    requires
        at(d, p, a + b),
    ensures
        at(d, p, a),
        at(d, p + a.len(), b),
{
    assert(d.subrange(p, p + a.len()) =~= (a + b).subrange(0, a.len() as int));
    assert((a + b).subrange(0, a.len() as int) =~= a);
    assert(d.subrange(p + a.len(), p + a.len() + b.len()) =~= (a + b).subrange(
        a.len() as int,
        (a + b).len() as int,
    ));
    assert((a + b).subrange(a.len() as int, (a + b).len() as int) =~= b);
}

pub proof fn lemma_fb_concat(a: Seq<Cell>, b: Seq<Cell>)
    ensures
        flatten_bits(a + b) == flatten_bits(a) + flatten_bits(b),
    decreases b.len(),
{
    if b.len() == 0 {
        assert(a + b =~= a);
        assert(flatten_bits(b) =~= Seq::<u8>::empty());
        assert(flatten_bits(a) + flatten_bits(b) =~= flatten_bits(a));
    } else {
        lemma_fb_concat(a, b.drop_last());
        assert((a + b).drop_last() =~= a + b.drop_last());
        assert((a + b).last() == b.last());
        assert(flatten_bits(a + b) =~= flatten_bits(a) + flatten_bits(b));
    }
}

pub proof fn lemma_fb_bytes(x: Seq<u8>)
    ensures
        flatten_bits(byte_cells(x)) == x,
    decreases x.len(),
{
    if x.len() > 0 {
        lemma_fb_bytes(x.drop_last());
        assert(byte_cells(x).drop_last() =~= byte_cells(x.drop_last()));
        assert(x =~= x.drop_last() + seq![x.last()]);
    } else {
        assert(x =~= Seq::<u8>::empty());
    }
}

pub proof fn lemma_fb_push(c: Seq<Cell>, x: Cell)
    ensures
        flatten_bits(c.push(x)) == flatten_bits(c) + match x {
            Cell::Byte(b) => seq![b],
            Cell::Num(v) => le8(v),
        },
{
    assert(c.push(x).drop_last() =~= c);
}

// ---------------------------------------------------------------- numbers

pub proof fn lemma_le4_round_trip(v: u32)
    ensures
        u32_from(le4(v), true) == v,
        le4(v).len() == 4,
{
    let b0 = (v % 256) as u8;
    let b1 = ((v / 256) % 256) as u8;
    let b2 = ((v / 65536) % 256) as u8;
    let b3 = ((v / 16777216) % 256) as u8;
    assert(b0 as int + b1 as int * 256 + b2 as int * 65536 + b3 as int * 16777216 == v as int)
        by (nonlinear_arith)
        requires
            b0 == v % 256,
            b1 == (v / 256) % 256,
            b2 == (v / 65536) % 256,
            b3 == (v / 16777216) % 256,
    ;
}

pub proof fn lemma_le8_round_trip(v: u64)
    ensures
        u64_from(le8(v), true) == v,
        le8(v).len() == 8,
{
    let lo = (v % 0x1_0000_0000) as u32;
    let hi = (v / 0x1_0000_0000) as u32;
    lemma_le4_round_trip(lo);
    lemma_le4_round_trip(hi);
    let b = le8(v);
    assert(b.subrange(0, 4) =~= le4(lo));
    assert(b.subrange(4, 8) =~= le4(hi));
    assert(lo as int + hi as int * 0x1_0000_0000 == v as int) by (nonlinear_arith)
        requires
            lo == v % 0x1_0000_0000,
            hi == v / 0x1_0000_0000,
    ;
}

pub proof fn lemma_read_u32(d: Seq<u8>, p: int, v: u32)
    requires
        at(d, p, le4(v)),
    ensures
        rd_u32(d, p, true) == Dec::Ok((v, p + 4)),
{
    lemma_le4_round_trip(v);
}

pub proof fn lemma_read_f64(d: Seq<u8>, p: int, v: u64)
    requires
        at(d, p, le8(v)),
    ensures
        rd_f64(d, p, true) == Dec::Ok((v, p + 8)),
{
    lemma_le8_round_trip(v);
}

// ---------------------------------------------------------------- tuples

pub proof fn lemma_read_tuple(d: Seq<u8>, p: int, c: Seq<u64>)
    requires
        at(d, p, flatten_bits(enc_tuple(c))),
    ensures
        flatten_bits(enc_tuple(c)).len() == 8 * c.len(),
        rd_tuple(d, p, true, c.len()) == Dec::Ok((c, p + 8 * c.len())),
    decreases c.len(),
{
    if c.len() == 0 {
        assert(rd_tuple(d, p, true, 0) == Dec::Ok((Seq::<u64>::empty(), p)));
        assert(c =~= Seq::<u64>::empty());
    } else {
        let c0 = c.drop_last();
        lemma_fb_push(enc_tuple(c0), Cell::Num(c.last()));
        lemma_at_split(d, p, flatten_bits(enc_tuple(c0)), le8(c.last()));
        lemma_read_tuple(d, p, c0);
        lemma_le8_round_trip(c.last());
        lemma_read_f64(d, p + 8 * c0.len(), c.last());
        assert(c0.push(c.last()) =~= c);
    }
}

pub proof fn lemma_nan_bits()
    ensures
        is_nan(nan_bits()),
{
}

pub proof fn lemma_read_nan_tuple(d: Seq<u8>, p: int, n: nat)
    requires
        at(d, p, flatten_bits(enc_nan_tuple(n))),
    ensures
        flatten_bits(enc_nan_tuple(n)).len() == 8 * n,
        rd_tuple(d, p, true, n) matches Dec::Ok((c, e)) && c.len() == n && all_nan(c) && e == p + 8
            * n,
    decreases n,
{
    lemma_nan_bits();
    if n == 0 {
        assert(enc_nan_tuple(0) =~= Seq::<Cell>::empty());
    } else {
        let m = (n - 1) as nat;
        lemma_fb_concat(enc_nan_tuple(m), byte_cells(le8(nan_bits())));
        lemma_fb_bytes(le8(nan_bits()));
        lemma_at_split(d, p, flatten_bits(enc_nan_tuple(m)), le8(nan_bits()));
        lemma_read_nan_tuple(d, p, m);
        lemma_le8_round_trip(nan_bits());
        lemma_read_f64(d, p + 8 * m, nan_bits());
        let c0 = rd_tuple(d, p, true, m)->Ok_0.0;
        assert forall|i: int| 0 <= i < n implies is_nan(#[trigger] c0.push(nan_bits())[i]) by {
            if i < m {
                assert(c0.push(nan_bits())[i] == c0[i]);
            }
        }
    }
}

/// Every tuple has `cs` values.
pub open spec fn tuples_sized(pts: Seq<Seq<u64>>, cs: nat) -> bool {
    forall|i: int| 0 <= i < pts.len() ==> (#[trigger] pts[i]).len() == cs
}

pub proof fn lemma_read_tuples(d: Seq<u8>, p: int, pts: Seq<Seq<u64>>, cs: nat)
    requires
        tuples_sized(pts, cs),
        at(d, p, flatten_bits(enc_tuples(pts))),
    ensures
        rd_tuples(d, p, true, cs, pts.len()) == Dec::Ok(
            (pts, p + flatten_bits(enc_tuples(pts)).len()),
        ),
    decreases pts.len(),
{
    if pts.len() == 0 {
        assert(pts =~= Seq::<Seq<u64>>::empty());
        assert(enc_tuples(pts) =~= Seq::<Cell>::empty());
    } else {
        let p0 = pts.drop_last();
        let c = pts.last();
        assert(tuples_sized(p0, cs)) by {
            assert forall|i: int| 0 <= i < p0.len() implies (#[trigger] p0[i]).len() == cs by {
                assert(p0[i] == pts[i]);
            }
        }
        lemma_fb_concat(enc_tuples(p0), enc_tuple(c));
        lemma_at_split(d, p, flatten_bits(enc_tuples(p0)), flatten_bits(enc_tuple(c)));
        lemma_read_tuples(d, p, p0, cs);
        lemma_read_tuple(d, p + flatten_bits(enc_tuples(p0)).len(), c);
        assert(p0.push(c) =~= pts);
    }
}

pub proof fn lemma_read_counted_tuples(d: Seq<u8>, p: int, pts: Seq<Seq<u64>>, cs: nat)
    requires
        tuples_sized(pts, cs),
        pts.len() <= u32::MAX,
        at(d, p, flatten_bits(enc_count(pts.len()) + enc_tuples(pts))),
    ensures
        rd_counted_tuples(d, p, true, cs) == Dec::Ok(
            (pts, p + flatten_bits(enc_count(pts.len()) + enc_tuples(pts)).len()),
        ),
{
    lemma_fb_concat(enc_count(pts.len()), enc_tuples(pts));
    lemma_fb_bytes(le4(pts.len() as u32));
    lemma_le4_round_trip(pts.len() as u32);
    lemma_at_split(d, p, le4(pts.len() as u32), flatten_bits(enc_tuples(pts)));
    lemma_read_u32(d, p, pts.len() as u32);
    lemma_read_tuples(d, p + 4, pts, cs);
}

/// Every ring's tuples have `cs` values and every ring fits its count.
pub open spec fn rings_sized(rings: Seq<Seq<Seq<u64>>>, cs: nat) -> bool {
    forall|i: int|
        0 <= i < rings.len() ==> tuples_sized(#[trigger] rings[i], cs) && rings[i].len() <= u32::MAX
}

pub proof fn lemma_read_rings(d: Seq<u8>, p: int, rings: Seq<Seq<Seq<u64>>>, cs: nat)
    requires
        rings_sized(rings, cs),
        at(d, p, flatten_bits(enc_rings(rings))),
    ensures
        rd_rings(d, p, true, cs, rings.len()) == Dec::Ok(
            (rings, p + flatten_bits(enc_rings(rings)).len()),
        ),
    decreases rings.len(),
{
    if rings.len() == 0 {
        assert(rings =~= Seq::<Seq<Seq<u64>>>::empty());
        assert(enc_rings(rings) =~= Seq::<Cell>::empty());
    } else {
        let r0 = rings.drop_last();
        let r = rings.last();
        assert(rings_sized(r0, cs)) by {
            assert forall|i: int| 0 <= i < r0.len() implies tuples_sized(#[trigger] r0[i], cs)
                && r0[i].len() <= u32::MAX by {
                assert(r0[i] == rings[i]);
            }
        }
        assert(tuples_sized(r, cs) && r.len() <= u32::MAX) by {
            assert(r == rings[rings.len() - 1]);
        }
        let tail = enc_count(r.len()) + enc_tuples(r);
        assert(enc_rings(rings) =~= enc_rings(r0) + tail);
        lemma_fb_concat(enc_rings(r0), tail);
        lemma_at_split(d, p, flatten_bits(enc_rings(r0)), flatten_bits(tail));
        lemma_read_rings(d, p, r0, cs);
        lemma_read_counted_tuples(d, p + flatten_bits(enc_rings(r0)).len(), r, cs);
        assert(r0.push(r) =~= rings);
    }
}

pub proof fn lemma_read_counted_rings(d: Seq<u8>, p: int, rings: Seq<Seq<Seq<u64>>>, cs: nat)
    requires
        rings_sized(rings, cs),
        rings.len() <= u32::MAX,
        at(d, p, flatten_bits(enc_count(rings.len()) + enc_rings(rings))),
    ensures
        rd_counted_rings(d, p, true, cs) == Dec::Ok(
            (rings, p + flatten_bits(enc_count(rings.len()) + enc_rings(rings)).len()),
        ),
{
    lemma_fb_concat(enc_count(rings.len()), enc_rings(rings));
    lemma_fb_bytes(le4(rings.len() as u32));
    lemma_le4_round_trip(rings.len() as u32);
    lemma_at_split(d, p, le4(rings.len() as u32), flatten_bits(enc_rings(rings)));
    lemma_read_u32(d, p, rings.len() as u32);
    lemma_read_rings(d, p + 4, rings, cs);
}

// ---------------------------------------------------------------- headers

/// The raw SRID field a header holds for `srid`.
pub open spec fn raw_srid(srid: Option<i32>) -> Option<u32> {
    match srid {
        Some(n) => Some(n as u32),
        None => None,
    }
}

pub proof fn lemma_type_word(t: GeomType, d: Dimension, has: bool)
    ensures
        split_type(type_word(t, d, has)) == (type_code(t), d),
        has_srid(type_word(t, d, has)) == has,
        type_of_code(type_code(t)) == Some(t),
{
    let w = type_word(t, d, has);
    let c = type_code(t);
    assert(1 <= c <= 7);
    let f: u32 = if has {
        0x2000_0000
    } else {
        0
    };
    assert(w == c + dim_flags(d) + f);
    assert(w % 0x10000 == c);
    match d {
        Dimension::XY => {
            assert(!has_z(w) && !has_m(w));
        },
        Dimension::XYZ => {
            assert(has_z(w) && !has_m(w));
        },
        Dimension::XYM => {
            assert(!has_z(w) && has_m(w));
        },
        Dimension::XYZM => {
            assert(has_z(w) && has_m(w));
        },
    }
}

pub proof fn lemma_read_head(d: Seq<u8>, p: int, t: GeomType, dim: Dimension, srid: Option<i32>)
    requires
        at(d, p, flatten_bits(enc_header(t, dim, srid))),
    ensures
        rd_head(d, p) == Dec::Ok(
            ((true, t, dim, raw_srid(srid)), p + flatten_bits(enc_header(t, dim, srid)).len()),
        ),
        rd_byte_order(d, p) == Dec::Ok((true, p + 1)),
        rd_type(d, p + 1, true) == Dec::Ok(
            ((t, dim, raw_srid(srid)), p + flatten_bits(enc_header(t, dim, srid)).len()),
        ),
{
    let w = type_word(t, dim, srid.is_some());
    let tail: Seq<u8> = match srid {
        Some(s) => le4(s as u32),
        None => seq![],
    };
    let bytes = seq![1u8] + le4(w) + tail;
    lemma_fb_bytes(bytes);
    lemma_type_word(t, dim, srid.is_some());
    lemma_le4_round_trip(w);
    lemma_at_split(d, p, seq![1u8] + le4(w), tail);
    lemma_at_split(d, p, seq![1u8], le4(w));
    assert(d[p] == 1u8) by {
        assert(d.subrange(p, p + 1)[0] == d[p]);
    }
    lemma_read_u32(d, p + 1, w);
    match srid {
        Some(s) => {
            lemma_le4_round_trip(s as u32);
            lemma_read_u32(d, p + 5, s as u32);
        },
        None => {},
    }
}

// ---------------------------------------------------------------- members

/// A point tuple that a WKB round trip keeps: empty, or of the dimension's
/// size and not all NaN (an all-NaN tuple reads back as EMPTY).
pub open spec fn point_ok(c: Seq<u64>, d: Dimension) -> bool {
    c.len() == 0 || (c.len() == dim_size(d) && !all_nan(c))
}

pub proof fn lemma_read_point_body(d: Seq<u8>, p: int, dim: Dimension, c: Seq<u64>)
    requires
        point_ok(c, dim),
        at(d, p, flatten_bits(enc_point_body(dim, c))),
    ensures
        rd_tuple(d, p, true, dim_size(dim)) matches Dec::Ok((v, e)) && point_value(v) == c && e == p
            + flatten_bits(enc_point_body(dim, c)).len(),
{
    if c.len() == 0 {
        lemma_read_nan_tuple(d, p, dim_size(dim));
    } else {
        lemma_read_tuple(d, p, c);
    }
}

pub proof fn lemma_read_mp_member(d: Seq<u8>, p: int, dim: Dimension, m: Seq<u64>)
    requires
        point_ok(m, dim),
        at(d, p, flatten_bits(enc_header(GeomType::Point, dim, None) + enc_point_body(dim, m))),
    ensures
        rd_mp_member(d, p) == Dec::Ok(
            (m, p + flatten_bits(enc_header(GeomType::Point, dim, None) + enc_point_body(dim, m)).len()),
        ),
{
    let h = enc_header(GeomType::Point, dim, None);
    lemma_fb_concat(h, enc_point_body(dim, m));
    lemma_at_split(d, p, flatten_bits(h), flatten_bits(enc_point_body(dim, m)));
    lemma_read_head(d, p, GeomType::Point, dim, None);
    lemma_read_point_body(d, p + flatten_bits(h).len(), dim, m);
}

pub proof fn lemma_read_mls_member(d: Seq<u8>, p: int, dim: Dimension, m: Seq<Seq<u64>>)
    requires
        tuples_sized(m, dim_size(dim)),
        m.len() <= u32::MAX,
        at(
            d,
            p,
            flatten_bits(enc_header(GeomType::LineString, dim, None) + enc_count(m.len()) + enc_tuples(m)),
        ),
    ensures
        rd_mls_member(d, p) == Dec::Ok(
            (
                m,
                p + flatten_bits(
                    enc_header(GeomType::LineString, dim, None) + enc_count(m.len()) + enc_tuples(m),
                ).len(),
            ),
        ),
{
    let h = enc_header(GeomType::LineString, dim, None);
    let b = enc_count(m.len()) + enc_tuples(m);
    assert(h + enc_count(m.len()) + enc_tuples(m) =~= h + b);
    lemma_fb_concat(h, b);
    lemma_at_split(d, p, flatten_bits(h), flatten_bits(b));
    lemma_read_head(d, p, GeomType::LineString, dim, None);
    lemma_read_counted_tuples(d, p + flatten_bits(h).len(), m, dim_size(dim));
}

pub proof fn lemma_read_mpoly_member(d: Seq<u8>, p: int, dim: Dimension, m: Seq<Seq<Seq<u64>>>)
    requires
        rings_sized(m, dim_size(dim)),
        m.len() <= u32::MAX,
        at(
            d,
            p,
            flatten_bits(enc_header(GeomType::Polygon, dim, None) + enc_count(m.len()) + enc_rings(m)),
        ),
    ensures
        rd_mpoly_member(d, p) == Dec::Ok(
            (
                m,
                p + flatten_bits(
                    enc_header(GeomType::Polygon, dim, None) + enc_count(m.len()) + enc_rings(m),
                ).len(),
            ),
        ),
{
    let h = enc_header(GeomType::Polygon, dim, None);
    let b = enc_count(m.len()) + enc_rings(m);
    assert(h + enc_count(m.len()) + enc_rings(m) =~= h + b);
    lemma_fb_concat(h, b);
    lemma_at_split(d, p, flatten_bits(h), flatten_bits(b));
    lemma_read_head(d, p, GeomType::Polygon, dim, None);
    lemma_read_counted_rings(d, p + flatten_bits(h).len(), m, dim_size(dim));
}

/// Every MultiPoint member tuple survives a round trip.
pub open spec fn points_ok(ms: Seq<Seq<u64>>, dim: Dimension) -> bool {
    forall|i: int| 0 <= i < ms.len() ==> point_ok(#[trigger] ms[i], dim)
}

/// Every polygon's rings are sized and every polygon fits its count.
pub open spec fn polys_sized(ms: Seq<Seq<Seq<Seq<u64>>>>, cs: nat) -> bool {
    forall|i: int|
        0 <= i < ms.len() ==> rings_sized(#[trigger] ms[i], cs) && ms[i].len() <= u32::MAX
}

pub proof fn lemma_read_mp_members(d: Seq<u8>, p: int, dim: Dimension, ms: Seq<Seq<u64>>)
    requires
        points_ok(ms, dim),
        at(d, p, flatten_bits(enc_mp_members(dim, ms))),
    ensures
        rd_mp_members(d, p, ms.len()) == Dec::Ok(
            (ms, p + flatten_bits(enc_mp_members(dim, ms)).len()),
        ),
    decreases ms.len(),
{
    if ms.len() == 0 {
        assert(ms =~= Seq::<Seq<u64>>::empty());
        assert(enc_mp_members(dim, ms) =~= Seq::<Cell>::empty());
    } else {
        let m0 = ms.drop_last();
        let m = ms.last();
        assert(points_ok(m0, dim)) by {
            assert forall|i: int| 0 <= i < m0.len() implies #[trigger] m0[i] == ms[i] by {}
        }
        assert(point_ok(m, dim)) by {
            assert(m == ms[ms.len() - 1]);
        }
        let tail = enc_header(GeomType::Point, dim, None) + enc_point_body(dim, m);
        assert(enc_mp_members(dim, ms) =~= enc_mp_members(dim, m0) + tail);
        lemma_fb_concat(enc_mp_members(dim, m0), tail);
        lemma_at_split(d, p, flatten_bits(enc_mp_members(dim, m0)), flatten_bits(tail));
        lemma_read_mp_members(d, p, dim, m0);
        lemma_read_mp_member(d, p + flatten_bits(enc_mp_members(dim, m0)).len(), dim, m);
        assert(m0.push(m) =~= ms);
    }
}

pub proof fn lemma_read_mls_members(d: Seq<u8>, p: int, dim: Dimension, ms: Seq<Seq<Seq<u64>>>)
    requires
        rings_sized(ms, dim_size(dim)),
        at(d, p, flatten_bits(enc_mls_members(dim, ms))),
    ensures
        rd_mls_members(d, p, ms.len()) == Dec::Ok(
            (ms, p + flatten_bits(enc_mls_members(dim, ms)).len()),
        ),
    decreases ms.len(),
{
    if ms.len() == 0 {
        assert(ms =~= Seq::<Seq<Seq<u64>>>::empty());
        assert(enc_mls_members(dim, ms) =~= Seq::<Cell>::empty());
    } else {
        let m0 = ms.drop_last();
        let m = ms.last();
        assert(rings_sized(m0, dim_size(dim))) by {
            assert forall|i: int| 0 <= i < m0.len() implies #[trigger] m0[i] == ms[i] by {}
        }
        assert(tuples_sized(m, dim_size(dim)) && m.len() <= u32::MAX) by {
            assert(m == ms[ms.len() - 1]);
        }
        let tail = enc_header(GeomType::LineString, dim, None) + enc_count(m.len()) + enc_tuples(m);
        assert(enc_mls_members(dim, ms) =~= enc_mls_members(dim, m0) + tail);
        lemma_fb_concat(enc_mls_members(dim, m0), tail);
        lemma_at_split(d, p, flatten_bits(enc_mls_members(dim, m0)), flatten_bits(tail));
        lemma_read_mls_members(d, p, dim, m0);
        lemma_read_mls_member(d, p + flatten_bits(enc_mls_members(dim, m0)).len(), dim, m);
        assert(m0.push(m) =~= ms);
    }
}

#[verifier::rlimit(60)]
pub proof fn lemma_read_mpoly_members(d: Seq<u8>, p: int, dim: Dimension, ms: Seq<Seq<Seq<Seq<u64>>>>)
    requires
        polys_sized(ms, dim_size(dim)),
        at(d, p, flatten_bits(enc_mpoly_members(dim, ms))),
    ensures
        rd_mpoly_members(d, p, ms.len()) == Dec::Ok(
            (ms, p + flatten_bits(enc_mpoly_members(dim, ms)).len()),
        ),
    decreases ms.len(),
{
    if ms.len() == 0 {
        assert(ms =~= Seq::<Seq<Seq<Seq<u64>>>>::empty());
        assert(enc_mpoly_members(dim, ms) =~= Seq::<Cell>::empty());
    } else {
        let m0 = ms.drop_last();
        let m = ms.last();
        assert(polys_sized(m0, dim_size(dim))) by {
            assert forall|i: int| 0 <= i < m0.len() implies #[trigger] m0[i] == ms[i] by {}
        }
        assert(rings_sized(m, dim_size(dim)) && m.len() <= u32::MAX) by {
            assert(m == ms[ms.len() - 1]);
        }
        let tail = enc_header(GeomType::Polygon, dim, None) + enc_count(m.len()) + enc_rings(m);
        assert(enc_mpoly_members(dim, ms) =~= enc_mpoly_members(dim, m0) + tail);
        lemma_fb_concat(enc_mpoly_members(dim, m0), tail);
        lemma_at_split(d, p, flatten_bits(enc_mpoly_members(dim, m0)), flatten_bits(tail));
        lemma_read_mpoly_members(d, p, dim, m0);
        lemma_read_mpoly_member(d, p + flatten_bits(enc_mpoly_members(dim, m0)).len(), dim, m);
        assert(m0.push(m) =~= ms);
    }
}

// ---------------------------------------------------------------- geometries

/// A geometry that a WKB round trip gives back unchanged when its header
/// stands at nesting depth `depth`: tuples of its dimension's size, point
/// tuples that are empty or not all NaN, counts that fit in `u32`, and
/// nesting below the depth limit.
pub open spec fn encodable(g: Shape, depth: nat) -> bool
    decreases g,
{
    depth < 128 && match g {
        Shape::Point(d, c) => point_ok(c, d),
        Shape::LineString(d, pts) => tuples_sized(pts, dim_size(d)) && pts.len() <= u32::MAX,
        Shape::Polygon(d, rs) => rings_sized(rs, dim_size(d)) && rs.len() <= u32::MAX,
        Shape::MultiPoint(d, ms) => points_ok(ms, d) && ms.len() <= u32::MAX,
        Shape::MultiLineString(d, ms) => rings_sized(ms, dim_size(d)) && ms.len() <= u32::MAX,
        Shape::MultiPolygon(d, ms) => polys_sized(ms, dim_size(d)) && ms.len() <= u32::MAX,
        Shape::Collection(d, ms) => ms.len() <= u32::MAX && forall|i: int|
            0 <= i < ms.len() ==> encodable(#[trigger] ms[i], depth + 1),
    }
}

/// The cells after a geometry's header.
pub open spec fn enc_body(g: Shape) -> Seq<Cell> {
    match g {
        Shape::Point(d, c) => enc_point_body(d, c),
        Shape::LineString(_, pts) => enc_count(pts.len()) + enc_tuples(pts),
        Shape::Polygon(_, rs) => enc_count(rs.len()) + enc_rings(rs),
        Shape::MultiPoint(d, ms) => enc_count(ms.len()) + enc_mp_members(d, ms),
        Shape::MultiLineString(d, ms) => enc_count(ms.len()) + enc_mls_members(d, ms),
        Shape::MultiPolygon(d, ms) => enc_count(ms.len()) + enc_mpoly_members(d, ms),
        Shape::Collection(_, ms) => enc_count(ms.len()) + enc_members(ms),
    }
}

pub proof fn lemma_encode_split(g: Shape, srid: Option<i32>)
    ensures
        encode(g, srid) == enc_header(shape_type(g), shape_dim(g), srid) + enc_body(g),
{
    match g {
        Shape::Point(d, c) => {},
        Shape::LineString(d, pts) => {
            assert(encode(g, srid) =~= enc_header(shape_type(g), shape_dim(g), srid) + enc_body(g));
        },
        Shape::Polygon(d, rs) => {
            assert(encode(g, srid) =~= enc_header(shape_type(g), shape_dim(g), srid) + enc_body(g));
        },
        Shape::MultiPoint(d, ms) => {
            assert(encode(g, srid) =~= enc_header(shape_type(g), shape_dim(g), srid) + enc_body(g));
        },
        Shape::MultiLineString(d, ms) => {
            assert(encode(g, srid) =~= enc_header(shape_type(g), shape_dim(g), srid) + enc_body(g));
        },
        Shape::MultiPolygon(d, ms) => {
            assert(encode(g, srid) =~= enc_header(shape_type(g), shape_dim(g), srid) + enc_body(g));
        },
        Shape::Collection(d, ms) => {
            assert(encode(g, srid) =~= enc_header(shape_type(g), shape_dim(g), srid) + enc_body(g));
        },
    }
}

/// A counted list: the count, then the list.
pub proof fn lemma_counted(d: Seq<u8>, p: int, n: nat, rest: Seq<Cell>)
    requires
        n <= u32::MAX,
        at(d, p, flatten_bits(enc_count(n) + rest)),
    ensures
        rd_u32(d, p, true) == Dec::Ok((n as u32, p + 4)),
        at(d, p + 4, flatten_bits(rest)),
        flatten_bits(enc_count(n) + rest).len() == 4 + flatten_bits(rest).len(),
{
    lemma_fb_concat(enc_count(n), rest);
    lemma_fb_bytes(le4(n as u32));
    lemma_le4_round_trip(n as u32);
    lemma_at_split(d, p, le4(n as u32), flatten_bits(rest));
    lemma_read_u32(d, p, n as u32);
}

pub proof fn lemma_read_mp_body(d: Seq<u8>, p: int, dim: Dimension, ms: Seq<Seq<u64>>)
    requires
        points_ok(ms, dim),
        ms.len() <= u32::MAX,
        at(d, p, flatten_bits(enc_count(ms.len()) + enc_mp_members(dim, ms))),
    ensures
        rd_simple_body(d, p, true, GeomType::MultiPoint, dim) == Dec::Ok(
            (Shape::MultiPoint(dim, ms), p + flatten_bits(enc_count(ms.len()) + enc_mp_members(dim, ms)).len()),
        ),
{
    lemma_counted(d, p, ms.len(), enc_mp_members(dim, ms));
    lemma_read_mp_members(d, p + 4, dim, ms);
    assert(rd_counted_mp_members(d, p, true) == Dec::Ok(
        (ms, p + flatten_bits(enc_count(ms.len()) + enc_mp_members(dim, ms)).len()),
    ));
}

pub proof fn lemma_read_mls_body(d: Seq<u8>, p: int, dim: Dimension, ms: Seq<Seq<Seq<u64>>>)
    requires
        rings_sized(ms, dim_size(dim)),
        ms.len() <= u32::MAX,
        at(d, p, flatten_bits(enc_count(ms.len()) + enc_mls_members(dim, ms))),
    ensures
        rd_simple_body(d, p, true, GeomType::MultiLineString, dim) == Dec::Ok(
            (Shape::MultiLineString(dim, ms), p + flatten_bits(enc_count(ms.len()) + enc_mls_members(dim, ms)).len()),
        ),
{
    lemma_counted(d, p, ms.len(), enc_mls_members(dim, ms));
    lemma_read_mls_members(d, p + 4, dim, ms);
    assert(rd_counted_mls_members(d, p, true) == Dec::Ok(
        (ms, p + flatten_bits(enc_count(ms.len()) + enc_mls_members(dim, ms)).len()),
    ));
}

pub proof fn lemma_read_mpoly_body(d: Seq<u8>, p: int, dim: Dimension, ms: Seq<Seq<Seq<Seq<u64>>>>)
    requires
        polys_sized(ms, dim_size(dim)),
        ms.len() <= u32::MAX,
        at(d, p, flatten_bits(enc_count(ms.len()) + enc_mpoly_members(dim, ms))),
    ensures
        rd_simple_body(d, p, true, GeomType::MultiPolygon, dim) == Dec::Ok(
            (Shape::MultiPolygon(dim, ms), p + flatten_bits(enc_count(ms.len()) + enc_mpoly_members(dim, ms)).len()),
        ),
{
    lemma_counted(d, p, ms.len(), enc_mpoly_members(dim, ms));
    lemma_read_mpoly_members(d, p + 4, dim, ms);
    assert(rd_counted_mpoly_members(d, p, true) == Dec::Ok(
        (ms, p + flatten_bits(enc_count(ms.len()) + enc_mpoly_members(dim, ms)).len()),
    ));
}

pub proof fn lemma_read_single_body(d: Seq<u8>, p: int, g: Shape)
    requires
        g is Point || g is LineString || g is Polygon,
        encodable(g, 0),
        at(d, p, flatten_bits(enc_body(g))),
    ensures
        rd_simple_body(d, p, true, shape_type(g), shape_dim(g)) == Dec::Ok(
            (g, p + flatten_bits(enc_body(g)).len()),
        ),
{
    match g {
        Shape::Point(dim, c) => {
            lemma_read_point_body(d, p, dim, c);
        },
        Shape::LineString(dim, pts) => {
            lemma_read_counted_tuples(d, p, pts, dim_size(dim));
        },
        Shape::Polygon(dim, rs) => {
            lemma_read_counted_rings(d, p, rs, dim_size(dim));
        },
        _ => {},
    }
}

/// Encodability does not depend on the depth for geometries without members.
pub proof fn lemma_encodable_flat(g: Shape, depth: nat)
    requires
        !(g is Collection),
        encodable(g, depth),
    ensures
        encodable(g, 0),
{
}

pub proof fn lemma_read_body(d: Seq<u8>, p: int, g: Shape, depth: nat)
    requires
        encodable(g, depth),
        at(d, p, flatten_bits(enc_body(g))),
    ensures
        rd_body(d, p, true, shape_type(g), shape_dim(g), depth) == Dec::Ok(
            (g, p + flatten_bits(enc_body(g)).len()),
        ),
    decreases g, 1nat,
{
    match g {
        Shape::Collection(dim, ms) => {
            lemma_counted(d, p, ms.len(), enc_members(ms));
            lemma_read_members(d, p + 4, ms, depth + 1);
        },
        _ => {
            lemma_encodable_flat(g, depth);
            match g {
                Shape::MultiPoint(dim, ms) => lemma_read_mp_body(d, p, dim, ms),
                Shape::MultiLineString(dim, ms) => lemma_read_mls_body(d, p, dim, ms),
                Shape::MultiPolygon(dim, ms) => lemma_read_mpoly_body(d, p, dim, ms),
                _ => lemma_read_single_body(d, p, g),
            }
        },
    }
}

pub proof fn lemma_read_geometry(d: Seq<u8>, p: int, g: Shape, srid: Option<i32>, depth: nat)
    requires
        encodable(g, depth),
        at(d, p, flatten_bits(encode(g, srid))),
    ensures
        rd_geometry(d, p, depth) == Dec::Ok(
            ((g, raw_srid(srid)), p + flatten_bits(encode(g, srid)).len()),
        ),
    decreases g, 2nat,
{
    let h = enc_header(shape_type(g), shape_dim(g), srid);
    lemma_encode_split(g, srid);
    lemma_fb_concat(h, enc_body(g));
    lemma_at_split(d, p, flatten_bits(h), flatten_bits(enc_body(g)));
    lemma_read_head(d, p, shape_type(g), shape_dim(g), srid);
    let q = p + flatten_bits(h).len();
    lemma_read_body(d, q, g, depth);
}

pub proof fn lemma_read_members(d: Seq<u8>, p: int, ms: Seq<Shape>, depth: nat)
    requires
        forall|i: int| 0 <= i < ms.len() ==> encodable(#[trigger] ms[i], depth),
        at(d, p, flatten_bits(enc_members(ms))),
    ensures
        rd_members(d, p, ms.len(), depth) == Dec::Ok((ms, p + flatten_bits(enc_members(ms)).len())),
    decreases ms, 0nat,
{
    if ms.len() == 0 {
        assert(ms =~= Seq::<Shape>::empty());
        assert(enc_members(ms) =~= Seq::<Cell>::empty());
    } else {
        let m0 = ms.drop_last();
        let m = ms.last();
        assert forall|i: int| 0 <= i < m0.len() implies encodable(#[trigger] m0[i], depth) by {
            assert(m0[i] == ms[i]);
        }
        assert(encodable(m, depth)) by {
            assert(m == ms[ms.len() - 1]);
        }
        lemma_fb_concat(enc_members(m0), encode(m, None));
        lemma_at_split(d, p, flatten_bits(enc_members(m0)), flatten_bits(encode(m, None)));
        lemma_read_members(d, p, m0, depth);
        lemma_read_geometry(d, p + flatten_bits(enc_members(m0)).len(), m, None, depth);
        assert(m0.push(m) =~= ms);
    }
}

/// Decoding what encoding wrote gives back the geometry and its SRID: reading
/// WKB inverts writing it, for every geometry that WKB can hold.
pub proof fn law_decode_encode(g: Shape, srid: Option<i32>)
    requires
        encodable(g, 0),
        srid matches Some(n) ==> n > 0,
    ensures
        decode(flatten_bits(encode(g, srid))) == Ok::<(Shape, Option<i32>), Fault>((g, srid)),
{
    let b = flatten_bits(encode(g, srid));
    assert(b.subrange(0, b.len() as int) =~= b);
    lemma_read_geometry(b, 0, g, srid, 0);
    match srid {
        Some(n) => {
            assert((n as u32) as i32 == n) by (bit_vector)
                requires
                    n > 0,
            ;
        },
        None => {},
    }
}

// ---------------------------------------------------------------- SRID headers

pub proof fn lemma_be4_round_trip(v: u32)
    ensures
        u32_from(be4(v), false) == v,
        be4(v).len() == 4,
{
    let b0 = ((v / 16777216) % 256) as u8;
    let b1 = ((v / 65536) % 256) as u8;
    let b2 = ((v / 256) % 256) as u8;
    let b3 = (v % 256) as u8;
    assert(b3 as int + b2 as int * 256 + b1 as int * 65536 + b0 as int * 16777216 == v as int)
        by (nonlinear_arith)
        requires
            b3 == v % 256,
            b2 == (v / 256) % 256,
            b1 == (v / 65536) % 256,
            b0 == (v / 16777216) % 256,
    ;
}

pub proof fn lemma_bytes4_round_trip(v: u32, le: bool)
    ensures
        u32_from(bytes4(v, le), le) == v,
        bytes4(v, le).len() == 4,
{
    lemma_le4_round_trip(v);
    lemma_be4_round_trip(v);
}

/// The header SRID that the fast path reads agrees with the SRID that a full
/// decode returns, whenever the decode succeeds.
pub proof fn law_header_srid_agrees_with_decode(b: Seq<u8>)
    requires
        decode(b) is Ok,
    ensures
        header_srid_fast(b) is None || header_srid_fast(b) == Some(
            Ok::<Option<i32>, Fault>(decode(b)->Ok_0.1),
        ),
{
    let (le, q) = rd_byte_order(b, 0)->Ok_0;
    let raw = u32_from(b.subrange(1, 5), le);
    assert(rd_u32(b, 1, le) == Dec::Ok((raw, 5)));
    assert(rd_head(b, 0) is Ok);
}

/// The bytes begin with the header of a geometry of type `t` without the
/// SRID flag, or with SRID `n`.
pub open spec fn header_srid_is(o: Seq<u8>, s: Option<i32>) -> bool {
    header_srid_fast(o) == Some(Ok::<Option<i32>, Fault>(s))
}

pub proof fn lemma_flatten_bytes_prefix(x: Seq<u8>, r: Seq<Cell>, vals: Seq<u64>)
    ensures
        flatten(byte_cells(x) + r, vals) == x + flatten(r, vals),
    decreases r.len(),
{
    if r.len() == 0 {
        assert(byte_cells(x) + r =~= byte_cells(x));
        lemma_flatten_bytes(x, vals);
        assert(x + flatten(r, vals) =~= x);
    } else {
        lemma_flatten_bytes_prefix(x, r.drop_last(), vals);
        assert((byte_cells(x) + r).drop_last() =~= byte_cells(x) + r.drop_last());
        lemma_num_count_bytes_prefix(x, r.drop_last());
        assert(flatten(byte_cells(x) + r, vals) =~= x + flatten(r, vals));
    }
}

pub proof fn lemma_flatten_bytes(x: Seq<u8>, vals: Seq<u64>)
    ensures
        flatten(byte_cells(x), vals) == x,
        num_count(byte_cells(x)) == 0,
    decreases x.len(),
{
    if x.len() > 0 {
        lemma_flatten_bytes(x.drop_last(), vals);
        assert(byte_cells(x).drop_last() =~= byte_cells(x.drop_last()));
        assert(x =~= x.drop_last() + seq![x.last()]);
    } else {
        assert(x =~= Seq::<u8>::empty());
    }
}

pub proof fn lemma_num_count_bytes_prefix(x: Seq<u8>, r: Seq<Cell>)
    ensures
        num_count(byte_cells(x) + r) == num_count(r),
    decreases r.len(),
{
    if r.len() == 0 {
        assert(byte_cells(x) + r =~= byte_cells(x));
        lemma_flatten_bytes(x, seq![]);
    } else {
        lemma_num_count_bytes_prefix(x, r.drop_last());
        assert((byte_cells(x) + r).drop_last() =~= byte_cells(x) + r.drop_last());
    }
}

/// The type word of an encoding carries only known flags.
pub proof fn lemma_type_word_known(t: GeomType, d: Dimension, has: bool)
    ensures
        known_flags(type_word(t, d, has)),
        has_srid(type_word(t, d, has)) == has,
{
    lemma_type_word(t, d, has);
    let c = type_code(t);
    assert(1 <= c <= 7);
}

/// The bytes of an encoding are its header bytes followed by the bytes of
/// its body.
pub proof fn lemma_encoded_bytes_split(g: Shape, srid: Option<i32>, vals: Seq<u64>)
    ensures
        flatten(encode(g, srid), vals) == seq![1u8] + bytes4(
            type_word(shape_type(g), shape_dim(g), srid.is_some()),
            true,
        ) + ((match srid {
            Some(s) => le4(s as u32),
            None => Seq::<u8>::empty(),
        }) + flatten(enc_body(g), vals)),
{
    let w = type_word(shape_type(g), shape_dim(g), srid.is_some());
    let tail: Seq<u8> = match srid {
        Some(s) => le4(s as u32),
        None => seq![],
    };
    let hb = seq![1u8] + le4(w) + tail;
    lemma_encode_split(g, srid);
    lemma_flatten_bytes_prefix(hb, enc_body(g), vals);
    assert(hb + flatten(enc_body(g), vals) =~= seq![1u8] + bytes4(w, true) + (tail + flatten(
        enc_body(g),
        vals,
    )));
}

/// Whatever the values, the bytes of an encoding begin with its header, and a
/// header read without the body gives the SRID the encoding was made with.
pub proof fn law_encoded_header_srid(g: Shape, srid: Option<i32>, vals: Seq<u64>)
    requires
        srid matches Some(n) ==> n > 0,
    ensures
        header_srid_is(flatten(encode(g, srid), vals), srid),
{
    let w = type_word(shape_type(g), shape_dim(g), srid.is_some());
    let tail: Seq<u8> = match srid {
        Some(s) => le4(s as u32),
        None => seq![],
    };
    let rest = tail + flatten(enc_body(g), vals);
    lemma_encoded_bytes_split(g, srid, vals);
    lemma_type_word_known(shape_type(g), shape_dim(g), srid.is_some());
    lemma_header_of(1u8, w, rest);
    match srid {
        Some(n) => {
            lemma_le4_round_trip(n as u32);
            assert(rest.subrange(0, 4) =~= le4(n as u32));
            assert((n as u32) as i32 == n) by (bit_vector)
                requires
                    n > 0,
            ;
        },
        None => {},
    }
}

/// Clearing and setting the SRID flag keep the other flags and the base type.
pub proof fn lemma_flag_arith(t: u32)
    ensures
        has_srid(t) ==> (known_flags(t) ==> known_flags(without_srid_flag(t))) && !has_srid(
            without_srid_flag(t),
        ) && without_srid_flag(t) % 0x10000 == t % 0x10000,
        !has_srid(t) ==> (known_flags(t) ==> known_flags(with_srid_flag(t))) && has_srid(
            with_srid_flag(t),
        ) && with_srid_flag(t) % 0x10000 == t % 0x10000,
        !has_srid(t) ==> without_srid_flag(t) == t,
        has_srid(t) ==> with_srid_flag(t) == t,
{
    assert(((t / 0x2000_0000) % 2 == 1) ==> ((((t - 0x2000_0000) as u32 / 0x10000) % 0x2000 == 0)
        == ((t / 0x10000) % 0x2000 == 0)) && ((t - 0x2000_0000) as u32 / 0x2000_0000) % 2 == 0
        && (t - 0x2000_0000) as u32 % 0x10000 == t % 0x10000) by (bit_vector);
    assert(((t / 0x2000_0000) % 2 == 0) ==> ((((t + 0x2000_0000) as u32 / 0x10000) % 0x2000 == 0)
        == ((t / 0x10000) % 0x2000 == 0)) && ((t + 0x2000_0000) as u32 / 0x2000_0000) % 2 == 1
        && (t + 0x2000_0000) as u32 % 0x10000 == t % 0x10000) by (bit_vector);
}

/// Bytes that begin with a byte-order marker and the type word `w` in that
/// order, followed by `rest`.
pub proof fn lemma_header_of(b0: u8, w: u32, rest: Seq<u8>)
    requires
        b0 == 0 || b0 == 1,
        known_flags(w),
        has_srid(w) ==> rest.len() >= 4,
    ensures
        ({
            let o = seq![b0] + bytes4(w, b0 == 1) + rest;
            header_srid_fast(o) == Some(
                Ok::<Option<i32>, Fault>(
                    if has_srid(w) {
                        srid_value(Some(u32_from(rest.subrange(0, 4), b0 == 1)))
                    } else {
                        None
                    },
                ),
            )
        }),
{
    let o = seq![b0] + bytes4(w, b0 == 1) + rest;
    lemma_bytes4_round_trip(w, b0 == 1);
    assert(o.subrange(1, 5) =~= bytes4(w, b0 == 1));
    if has_srid(w) {
        assert(o.subrange(5, 9) =~= rest.subrange(0, 4));
    }
}

/// A re-encode leaves bytes whose header holds the SRID it was made with.
pub proof fn lemma_reencoded_header(b: Seq<u8>, srid: Option<i32>)
    requires
        srid matches Some(n) ==> n > 0,
        reencoded(b, srid) is Ok,
    ensures
        header_srid_is(reencoded(b, srid)->Ok_0, srid),
{
    reveal(reencoded);
    let (g, _) = decode(b)->Ok_0;
    let parts = crate::model::render(g);
    law_encoded_header_srid_of_result(placeholder_text(parts), srid, coords_of(parts));
}

/// Stripping the SRID leaves bytes whose header holds no SRID.
pub proof fn law_strip_leaves_no_srid(b: Seq<u8>)
    requires
        crate::stripped(b) is Ok,
    ensures
        header_srid_is(crate::stripped(b)->Ok_0, None),
{
    match fast_header(b, false) {
        Some((le, t)) => {
            lemma_flag_arith(t);
            if has_srid(t) {
                let rest = b.subrange(9, b.len() as int);
                lemma_header_of(b[0], without_srid_flag(t), rest);
            } else {
                lemma_bytes4_round_trip(t, le);
                assert(b =~= seq![b[0]] + b.subrange(1, 5) + b.subrange(5, b.len() as int));
                assert(b.subrange(1, 5) =~= bytes4(t, le)) by {
                    lemma_u32_bytes(b.subrange(1, 5), le);
                }
                lemma_header_of(b[0], t, b.subrange(5, b.len() as int));
            }
        },
        None => {
            lemma_reencoded_header(b, None);
        },
    }
}

/// Four bytes are the bytes of the `u32` they denote.
pub proof fn lemma_u32_bytes(q: Seq<u8>, le: bool)
    requires
        q.len() == 4,
    ensures
        bytes4(u32_from(q, le), le) == q,
{
    let (a, b, c, d) = (q[0], q[1], q[2], q[3]);
    if le {
        let v = (a as int + b as int * 256 + c as int * 65536 + d as int * 16777216) as u32;
        assert(v % 256 == a && (v / 256) % 256 == b && (v / 65536) % 256 == c && (v / 16777216)
            % 256 == d) by (nonlinear_arith)
            requires
                v == a as int + b as int * 256 + c as int * 65536 + d as int * 16777216,
                a < 256,
                b < 256,
                c < 256,
                d < 256,
        ;
        assert(bytes4(v, le) =~= q);
    } else {
        let v = (d as int + c as int * 256 + b as int * 65536 + a as int * 16777216) as u32;
        assert(v % 256 == d && (v / 256) % 256 == c && (v / 65536) % 256 == b && (v / 16777216)
            % 256 == a) by (nonlinear_arith)
            requires
                v == d as int + c as int * 256 + b as int * 65536 + a as int * 16777216,
                a < 256,
                b < 256,
                c < 256,
                d < 256,
        ;
        assert(bytes4(v, le) =~= q);
    }
}

/// Setting a positive SRID leaves bytes whose header holds that SRID.
pub proof fn law_set_leaves_srid(b: Seq<u8>, n: i32)
    requires
        n > 0,
        crate::with_srid(b, n) is Ok,
    ensures
        header_srid_is(crate::with_srid(b, n)->Ok_0, Some(n)),
{
    assert((n as u32) as i32 == n) by (bit_vector)
        requires
            n > 0,
    ;
    match fast_header(b, false) {
        Some((le, t)) => {
            lemma_flag_arith(t);
            lemma_bytes4_round_trip(n as u32, le);
            if has_srid(t) {
                let tw = b.subrange(1, 5);
                lemma_u32_bytes(tw, le);
                if u32_from(b.subrange(5, 9), le) == n as u32 {
                    assert(b =~= seq![b[0]] + bytes4(t, le) + b.subrange(5, b.len() as int));
                    lemma_header_of(b[0], t, b.subrange(5, b.len() as int));
                    assert(b.subrange(5, b.len() as int).subrange(0, 4) =~= b.subrange(5, 9));
                } else {
                    let rest = bytes4(n as u32, le) + b.subrange(9, b.len() as int);
                    assert(b.subrange(0, 5) + bytes4(n as u32, le) + b.subrange(9, b.len() as int)
                        =~= seq![b[0]] + bytes4(t, le) + rest);
                    lemma_header_of(b[0], t, rest);
                    assert(rest.subrange(0, 4) =~= bytes4(n as u32, le));
                }
            } else {
                let rest = bytes4(n as u32, le) + b.subrange(5, b.len() as int);
                assert(seq![b[0]] + bytes4(with_srid_flag(t), le) + bytes4(n as u32, le)
                    + b.subrange(5, b.len() as int) =~= seq![b[0]] + bytes4(with_srid_flag(t), le)
                    + rest);
                lemma_header_of(b[0], with_srid_flag(t), rest);
                assert(rest.subrange(0, 4) =~= bytes4(n as u32, le));
            }
        },
        None => {
            lemma_reencoded_header(b, Some(n));
        },
    }
}

/// The cells that WKT text converts to, under a mode that puts `srid` in,
/// begin with a header holding `srid`, whatever the values.
pub proof fn law_encoded_header_srid_of_result(s: Seq<char>, srid: Option<i32>, vals: Seq<u64>)
    requires
        srid matches Some(n) ==> n > 0,
        crate::wkt_to_wkb::wkt_result(s, mode_of(srid)) is Some,
    ensures
        header_srid_is(flatten(crate::wkt_to_wkb::wkt_result(s, mode_of(srid)).unwrap().0, vals), srid),
{
    let (g, sr) = crate::wkt_to_wkb::grammar::parse_wkt(s).unwrap();
    assert(crate::types::out_srid(mode_of(srid), sr) == srid);
    law_encoded_header_srid(g, srid, vals);
}

/// Stripping the SRID in place twice is stripping it once.
pub proof fn law_fast_strip_idempotent(b: Seq<u8>, le_only: bool)
    requires
        fast_strip(b, le_only) is Some,
    ensures
        fast_strip(fast_strip(b, le_only).unwrap(), le_only) == fast_strip(b, le_only),
{
    let (le, t) = fast_header(b, le_only).unwrap();
    lemma_flag_arith(t);
    if has_srid(t) {
        let w = without_srid_flag(t);
        let o = seq![b[0]] + bytes4(w, le) + b.subrange(9, b.len() as int);
        lemma_bytes4_round_trip(w, le);
        assert(o.subrange(1, 5) =~= bytes4(w, le));
        assert(fast_header(o, le_only) == Some((le, w)));
    }
}

} // verus!
