//! Laws on setting and stripping the SRID of WKB: the geometry stays.
//!
//! A header rewritten in place leaves the body bytes as they were, and the
//! reader reads a body from its bytes alone, wherever they stand.
use crate::error::Fault;
use crate::header::{fast_header, fast_set, fast_strip, with_srid_flag, without_srid_flag};
use crate::laws::lemma_bytes4_round_trip;
use crate::model::{bytes4, u32_from, Shape};
use crate::reencode_laws::{law_reencode_keeps_geometry, reencodable};
use crate::types::{normalised, out_srid, Dimension, GeomType, SridMode};
use crate::wkb_to_wkt::reader::{
    decode, has_srid, rd_body, rd_byte_order, rd_counted_mls_members, rd_counted_mp_members,
    rd_counted_mpoly_members, rd_counted_rings, rd_counted_tuples, rd_f64, rd_geometry, rd_head,
    rd_member_header, rd_members, rd_mls_member, rd_mls_members, rd_mp_member, rd_mp_members,
    rd_mpoly_member, rd_mpoly_members, rd_rings, rd_simple_body, rd_tuple, rd_tuples, rd_type,
    rd_u32, rd_u8, split_type, Dec,
};
use vstd::prelude::*;

verus! {

// ---------------------------------------------------------------- reading from a suffix

/// The bytes of `d1` from `p1` on are those of `d2` from `p2` on.
pub open spec fn same_from(d1: Seq<u8>, p1: int, d2: Seq<u8>, p2: int) -> bool {
    0 <= p1 <= d1.len() && 0 <= p2 <= d2.len() && d1.subrange(p1, d1.len() as int) == d2.subrange(
        p2,
        d2.len() as int,
    )
}

/// The second outcome is the first, its end position moved by `delta`.
pub open spec fn shifted<T>(r1: Dec<T>, r2: Dec<T>, delta: int) -> bool {
    match r1 {
        Ok((v, e)) => r2 == Dec::<T>::Ok((v, e + delta)),
        Err(k) => r2 == Dec::<T>::Err(k),
    }
}

/// An outcome that ends between `p` and `n`.
pub open spec fn within<T>(r: Dec<T>, p: int, n: int) -> bool {
    r matches Ok((_, e)) ==> p <= e <= n
}

pub proof fn lemma_same_from(d1: Seq<u8>, p1: int, d2: Seq<u8>, p2: int, k: int)
    requires
        same_from(d1, p1, d2, p2),
        0 <= k <= d1.len() - p1,
    ensures
        d1.len() - p1 == d2.len() - p2,
        same_from(d1, p1 + k, d2, p2 + k),
        k < d1.len() - p1 ==> d1[p1 + k] == d2[p2 + k],
{
    let a = d1.subrange(p1, d1.len() as int);
    let b = d2.subrange(p2, d2.len() as int);
    assert(a.len() == b.len());
    if k < d1.len() - p1 {
        assert(a[k] == b[k]);
    }
    assert(d1.subrange(p1 + k, d1.len() as int) =~= a.subrange(k, a.len() as int));
    assert(d2.subrange(p2 + k, d2.len() as int) =~= b.subrange(k, b.len() as int));
}

pub proof fn lemma_same_window(d1: Seq<u8>, p1: int, d2: Seq<u8>, p2: int, w: int)
    requires
        same_from(d1, p1, d2, p2),
        0 <= w,
        p1 + w <= d1.len(),
    ensures
        d1.subrange(p1, p1 + w) == d2.subrange(p2, p2 + w),
{
    lemma_same_from(d1, p1, d2, p2, 0);
    let a = d1.subrange(p1, d1.len() as int);
    let b = d2.subrange(p2, d2.len() as int);
    assert(d1.subrange(p1, p1 + w) =~= a.subrange(0, w));
    assert(d2.subrange(p2, p2 + w) =~= b.subrange(0, w));
}

pub proof fn lemma_shift_u8(d1: Seq<u8>, p1: int, d2: Seq<u8>, p2: int)
    requires
        same_from(d1, p1, d2, p2),
    ensures
        shifted(rd_u8(d1, p1), rd_u8(d2, p2), p2 - p1),
        within(rd_u8(d1, p1), p1, d1.len() as int),
        shifted(rd_byte_order(d1, p1), rd_byte_order(d2, p2), p2 - p1),
        within(rd_byte_order(d1, p1), p1, d1.len() as int),
{
    lemma_same_from(d1, p1, d2, p2, 0);
}

pub proof fn lemma_shift_u32(d1: Seq<u8>, p1: int, d2: Seq<u8>, p2: int, le: bool)
    requires
        same_from(d1, p1, d2, p2),
    ensures
        shifted(rd_u32(d1, p1, le), rd_u32(d2, p2, le), p2 - p1),
        within(rd_u32(d1, p1, le), p1, d1.len() as int),
        shifted(rd_f64(d1, p1, le), rd_f64(d2, p2, le), p2 - p1),
        within(rd_f64(d1, p1, le), p1, d1.len() as int),
{
    lemma_same_from(d1, p1, d2, p2, 0);
    if p1 + 4 <= d1.len() {
        lemma_same_window(d1, p1, d2, p2, 4);
    }
    if p1 + 8 <= d1.len() {
        lemma_same_window(d1, p1, d2, p2, 8);
    }
}

pub proof fn lemma_shift_type(d1: Seq<u8>, p1: int, d2: Seq<u8>, p2: int, le: bool)
    requires
        same_from(d1, p1, d2, p2),
    ensures
        shifted(rd_type(d1, p1, le), rd_type(d2, p2, le), p2 - p1),
        within(rd_type(d1, p1, le), p1, d1.len() as int),
{
    lemma_shift_u32(d1, p1, d2, p2, le);
    if let Ok((raw, q)) = rd_u32(d1, p1, le) {
        lemma_same_from(d1, p1, d2, p2, q - p1);
        lemma_shift_u32(d1, q, d2, q + p2 - p1, le);
    }
}

pub proof fn lemma_shift_head(d1: Seq<u8>, p1: int, d2: Seq<u8>, p2: int)
    requires
        same_from(d1, p1, d2, p2),
    ensures
        shifted(rd_head(d1, p1), rd_head(d2, p2), p2 - p1),
        within(rd_head(d1, p1), p1, d1.len() as int),
{
    lemma_shift_u8(d1, p1, d2, p2);
    if let Ok((le, q)) = rd_byte_order(d1, p1) {
        lemma_same_from(d1, p1, d2, p2, q - p1);
        lemma_shift_type(d1, q, d2, q + p2 - p1, le);
    }
}

pub proof fn lemma_shift_member_header(d1: Seq<u8>, p1: int, d2: Seq<u8>, p2: int, t: GeomType)
    requires
        same_from(d1, p1, d2, p2),
    ensures
        shifted(rd_member_header(d1, p1, t), rd_member_header(d2, p2, t), p2 - p1),
        within(rd_member_header(d1, p1, t), p1, d1.len() as int),
{
    lemma_shift_u8(d1, p1, d2, p2);
    if let Ok((le, q)) = rd_byte_order(d1, p1) {
        lemma_same_from(d1, p1, d2, p2, q - p1);
        lemma_shift_type(d1, q, d2, q + p2 - p1, le);
    }
}

pub proof fn lemma_shift_tuple(d1: Seq<u8>, p1: int, d2: Seq<u8>, p2: int, le: bool, n: nat)
    requires
        same_from(d1, p1, d2, p2),
    ensures
        shifted(rd_tuple(d1, p1, le, n), rd_tuple(d2, p2, le, n), p2 - p1),
        within(rd_tuple(d1, p1, le, n), p1, d1.len() as int),
    decreases n,
{
    if n > 0 {
        lemma_shift_tuple(d1, p1, d2, p2, le, (n - 1) as nat);
        if let Ok((_, q)) = rd_tuple(d1, p1, le, (n - 1) as nat) {
            lemma_same_from(d1, p1, d2, p2, q - p1);
            lemma_shift_u32(d1, q, d2, q + p2 - p1, le);
        }
    }
}

pub proof fn lemma_shift_tuples(d1: Seq<u8>, p1: int, d2: Seq<u8>, p2: int, le: bool, cs: nat, n: nat)
    requires
        same_from(d1, p1, d2, p2),
    ensures
        shifted(rd_tuples(d1, p1, le, cs, n), rd_tuples(d2, p2, le, cs, n), p2 - p1),
        within(rd_tuples(d1, p1, le, cs, n), p1, d1.len() as int),
    decreases n,
{
    if n > 0 {
        lemma_shift_tuples(d1, p1, d2, p2, le, cs, (n - 1) as nat);
        if let Ok((_, q)) = rd_tuples(d1, p1, le, cs, (n - 1) as nat) {
            lemma_same_from(d1, p1, d2, p2, q - p1);
            lemma_shift_tuple(d1, q, d2, q + p2 - p1, le, cs);
        }
    }
}

pub proof fn lemma_shift_counted_tuples(d1: Seq<u8>, p1: int, d2: Seq<u8>, p2: int, le: bool, cs: nat)
    requires
        same_from(d1, p1, d2, p2),
    ensures
        shifted(rd_counted_tuples(d1, p1, le, cs), rd_counted_tuples(d2, p2, le, cs), p2 - p1),
        within(rd_counted_tuples(d1, p1, le, cs), p1, d1.len() as int),
{
    lemma_shift_u32(d1, p1, d2, p2, le);
    if let Ok((n, q)) = rd_u32(d1, p1, le) {
        lemma_same_from(d1, p1, d2, p2, q - p1);
        lemma_shift_tuples(d1, q, d2, q + p2 - p1, le, cs, n as nat);
    }
}

pub proof fn lemma_shift_rings(d1: Seq<u8>, p1: int, d2: Seq<u8>, p2: int, le: bool, cs: nat, n: nat)
    requires
        same_from(d1, p1, d2, p2),
    ensures
        shifted(rd_rings(d1, p1, le, cs, n), rd_rings(d2, p2, le, cs, n), p2 - p1),
        within(rd_rings(d1, p1, le, cs, n), p1, d1.len() as int),
    decreases n,
{
    if n > 0 {
        lemma_shift_rings(d1, p1, d2, p2, le, cs, (n - 1) as nat);
        if let Ok((_, q)) = rd_rings(d1, p1, le, cs, (n - 1) as nat) {
            lemma_same_from(d1, p1, d2, p2, q - p1);
            lemma_shift_counted_tuples(d1, q, d2, q + p2 - p1, le, cs);
        }
    }
}

pub proof fn lemma_shift_counted_rings(d1: Seq<u8>, p1: int, d2: Seq<u8>, p2: int, le: bool, cs: nat)
    requires
        same_from(d1, p1, d2, p2),
    ensures
        shifted(rd_counted_rings(d1, p1, le, cs), rd_counted_rings(d2, p2, le, cs), p2 - p1),
        within(rd_counted_rings(d1, p1, le, cs), p1, d1.len() as int),
{
    lemma_shift_u32(d1, p1, d2, p2, le);
    if let Ok((n, q)) = rd_u32(d1, p1, le) {
        lemma_same_from(d1, p1, d2, p2, q - p1);
        lemma_shift_rings(d1, q, d2, q + p2 - p1, le, cs, n as nat);
    }
}

pub proof fn lemma_shift_mp_member(d1: Seq<u8>, p1: int, d2: Seq<u8>, p2: int)
    requires
        same_from(d1, p1, d2, p2),
    ensures
        shifted(rd_mp_member(d1, p1), rd_mp_member(d2, p2), p2 - p1),
        within(rd_mp_member(d1, p1), p1, d1.len() as int),
{
    lemma_shift_member_header(d1, p1, d2, p2, GeomType::Point);
    if let Ok(((le, md), q)) = rd_member_header(d1, p1, GeomType::Point) {
        lemma_same_from(d1, p1, d2, p2, q - p1);
        lemma_shift_tuple(d1, q, d2, q + p2 - p1, le, crate::types::dim_size(md));
    }
}

pub proof fn lemma_shift_mls_member(d1: Seq<u8>, p1: int, d2: Seq<u8>, p2: int)
    requires
        same_from(d1, p1, d2, p2),
    ensures
        shifted(rd_mls_member(d1, p1), rd_mls_member(d2, p2), p2 - p1),
        within(rd_mls_member(d1, p1), p1, d1.len() as int),
{
    lemma_shift_member_header(d1, p1, d2, p2, GeomType::LineString);
    if let Ok(((le, md), q)) = rd_member_header(d1, p1, GeomType::LineString) {
        lemma_same_from(d1, p1, d2, p2, q - p1);
        lemma_shift_counted_tuples(d1, q, d2, q + p2 - p1, le, crate::types::dim_size(md));
    }
}

pub proof fn lemma_shift_mpoly_member(d1: Seq<u8>, p1: int, d2: Seq<u8>, p2: int)
    requires
        same_from(d1, p1, d2, p2),
    ensures
        shifted(rd_mpoly_member(d1, p1), rd_mpoly_member(d2, p2), p2 - p1),
        within(rd_mpoly_member(d1, p1), p1, d1.len() as int),
{
    lemma_shift_member_header(d1, p1, d2, p2, GeomType::Polygon);
    if let Ok(((le, md), q)) = rd_member_header(d1, p1, GeomType::Polygon) {
        lemma_same_from(d1, p1, d2, p2, q - p1);
        lemma_shift_counted_rings(d1, q, d2, q + p2 - p1, le, crate::types::dim_size(md));
    }
}

pub proof fn lemma_shift_mp_members(d1: Seq<u8>, p1: int, d2: Seq<u8>, p2: int, n: nat)
    requires
        same_from(d1, p1, d2, p2),
    ensures
        shifted(rd_mp_members(d1, p1, n), rd_mp_members(d2, p2, n), p2 - p1),
        within(rd_mp_members(d1, p1, n), p1, d1.len() as int),
    decreases n,
{
    if n > 0 {
        lemma_shift_mp_members(d1, p1, d2, p2, (n - 1) as nat);
        if let Ok((_, q)) = rd_mp_members(d1, p1, (n - 1) as nat) {
            lemma_same_from(d1, p1, d2, p2, q - p1);
            lemma_shift_mp_member(d1, q, d2, q + p2 - p1);
        }
    }
}

pub proof fn lemma_shift_counted_mp_members(d1: Seq<u8>, p1: int, d2: Seq<u8>, p2: int, le: bool)
    requires
        same_from(d1, p1, d2, p2),
    ensures
        shifted(rd_counted_mp_members(d1, p1, le), rd_counted_mp_members(d2, p2, le), p2 - p1),
        within(rd_counted_mp_members(d1, p1, le), p1, d1.len() as int),
{
    lemma_shift_u32(d1, p1, d2, p2, le);
    if let Ok((n, q)) = rd_u32(d1, p1, le) {
        lemma_same_from(d1, p1, d2, p2, q - p1);
        lemma_shift_mp_members(d1, q, d2, q + p2 - p1, n as nat);
    }
}

pub proof fn lemma_shift_mls_members(d1: Seq<u8>, p1: int, d2: Seq<u8>, p2: int, n: nat)
    requires
        same_from(d1, p1, d2, p2),
    ensures
        shifted(rd_mls_members(d1, p1, n), rd_mls_members(d2, p2, n), p2 - p1),
        within(rd_mls_members(d1, p1, n), p1, d1.len() as int),
    decreases n,
{
    if n > 0 {
        lemma_shift_mls_members(d1, p1, d2, p2, (n - 1) as nat);
        if let Ok((_, q)) = rd_mls_members(d1, p1, (n - 1) as nat) {
            lemma_same_from(d1, p1, d2, p2, q - p1);
            lemma_shift_mls_member(d1, q, d2, q + p2 - p1);
        }
    }
}

pub proof fn lemma_shift_counted_mls_members(d1: Seq<u8>, p1: int, d2: Seq<u8>, p2: int, le: bool)
    requires
        same_from(d1, p1, d2, p2),
    ensures
        shifted(rd_counted_mls_members(d1, p1, le), rd_counted_mls_members(d2, p2, le), p2 - p1),
        within(rd_counted_mls_members(d1, p1, le), p1, d1.len() as int),
{
    lemma_shift_u32(d1, p1, d2, p2, le);
    if let Ok((n, q)) = rd_u32(d1, p1, le) {
        lemma_same_from(d1, p1, d2, p2, q - p1);
        lemma_shift_mls_members(d1, q, d2, q + p2 - p1, n as nat);
    }
}

pub proof fn lemma_shift_mpoly_members(d1: Seq<u8>, p1: int, d2: Seq<u8>, p2: int, n: nat)
    requires
        same_from(d1, p1, d2, p2),
    ensures
        shifted(rd_mpoly_members(d1, p1, n), rd_mpoly_members(d2, p2, n), p2 - p1),
        within(rd_mpoly_members(d1, p1, n), p1, d1.len() as int),
    decreases n,
{
    if n > 0 {
        lemma_shift_mpoly_members(d1, p1, d2, p2, (n - 1) as nat);
        if let Ok((_, q)) = rd_mpoly_members(d1, p1, (n - 1) as nat) {
            lemma_same_from(d1, p1, d2, p2, q - p1);
            lemma_shift_mpoly_member(d1, q, d2, q + p2 - p1);
        }
    }
}

pub proof fn lemma_shift_counted_mpoly_members(d1: Seq<u8>, p1: int, d2: Seq<u8>, p2: int, le: bool)
    requires
        same_from(d1, p1, d2, p2),
    ensures
        shifted(rd_counted_mpoly_members(d1, p1, le), rd_counted_mpoly_members(d2, p2, le), p2 - p1),
        within(rd_counted_mpoly_members(d1, p1, le), p1, d1.len() as int),
{
    lemma_shift_u32(d1, p1, d2, p2, le);
    if let Ok((n, q)) = rd_u32(d1, p1, le) {
        lemma_same_from(d1, p1, d2, p2, q - p1);
        lemma_shift_mpoly_members(d1, q, d2, q + p2 - p1, n as nat);
    }
}

pub proof fn lemma_shift_simple_body(
    d1: Seq<u8>,
    p1: int,
    d2: Seq<u8>,
    p2: int,
    le: bool,
    t: GeomType,
    dim: Dimension,
)
    requires
        same_from(d1, p1, d2, p2),
    ensures
        shifted(rd_simple_body(d1, p1, le, t, dim), rd_simple_body(d2, p2, le, t, dim), p2 - p1),
        within(rd_simple_body(d1, p1, le, t, dim), p1, d1.len() as int),
{
    let cs = crate::types::dim_size(dim);
    match t {
        GeomType::Point => lemma_shift_tuple(d1, p1, d2, p2, le, cs),
        GeomType::LineString => lemma_shift_counted_tuples(d1, p1, d2, p2, le, cs),
        GeomType::Polygon => lemma_shift_counted_rings(d1, p1, d2, p2, le, cs),
        GeomType::MultiPoint => lemma_shift_counted_mp_members(d1, p1, d2, p2, le),
        GeomType::MultiLineString => lemma_shift_counted_mls_members(d1, p1, d2, p2, le),
        GeomType::MultiPolygon => lemma_shift_counted_mpoly_members(d1, p1, d2, p2, le),
        GeomType::GeometryCollection => {},
    }
}

pub proof fn lemma_shift_body(
    d1: Seq<u8>,
    p1: int,
    d2: Seq<u8>,
    p2: int,
    le: bool,
    t: GeomType,
    dim: Dimension,
    depth: nat,
)
    requires
        same_from(d1, p1, d2, p2),
    ensures
        shifted(rd_body(d1, p1, le, t, dim, depth), rd_body(d2, p2, le, t, dim, depth), p2 - p1),
        within(rd_body(d1, p1, le, t, dim, depth), p1, d1.len() as int),
    decreases 129 - depth, 0nat, 0nat,
{
    if t == GeomType::GeometryCollection {
        if depth < 128 {
            lemma_shift_u32(d1, p1, d2, p2, le);
            if let Ok((n, q)) = rd_u32(d1, p1, le) {
                lemma_same_from(d1, p1, d2, p2, q - p1);
                lemma_shift_members(d1, q, d2, q + p2 - p1, n as nat, depth + 1);
            }
        }
    } else {
        lemma_shift_simple_body(d1, p1, d2, p2, le, t, dim);
    }
}

#[verifier::spinoff_prover]
pub proof fn lemma_shift_geometry(d1: Seq<u8>, p1: int, d2: Seq<u8>, p2: int, depth: nat)
    requires
        same_from(d1, p1, d2, p2),
    ensures
        shifted(rd_geometry(d1, p1, depth), rd_geometry(d2, p2, depth), p2 - p1),
        within(rd_geometry(d1, p1, depth), p1, d1.len() as int),
    decreases 129 - depth, 1nat, 0nat,
{
    if depth < 128 {
        lemma_shift_head(d1, p1, d2, p2);
        if let Ok(((le, t, dim, sr), q)) = rd_head(d1, p1) {
            lemma_same_from(d1, p1, d2, p2, q - p1);
            lemma_shift_body(d1, q, d2, q + p2 - p1, le, t, dim, depth);
        }
    }
}

pub proof fn lemma_shift_members(d1: Seq<u8>, p1: int, d2: Seq<u8>, p2: int, n: nat, cd: nat)
    requires
        same_from(d1, p1, d2, p2),
    ensures
        shifted(rd_members(d1, p1, n, cd), rd_members(d2, p2, n, cd), p2 - p1),
        within(rd_members(d1, p1, n, cd), p1, d1.len() as int),
    decreases 129 - cd, n + 2, 0nat,
{
    if n > 0 {
        lemma_shift_members(d1, p1, d2, p2, (n - 1) as nat, cd);
        if let Ok((_, q)) = rd_members(d1, p1, (n - 1) as nat, cd) {
            lemma_same_from(d1, p1, d2, p2, q - p1);
            lemma_shift_geometry(d1, q, d2, q + p2 - p1, cd);
        }
    }
}

// ---------------------------------------------------------------- headers rewritten in place

/// The SRID flag is not part of the geometry type or the dimension.
pub proof fn lemma_split_srid_flag(t: u32)
    ensures
        split_type(without_srid_flag(t)) == split_type(t),
        split_type(with_srid_flag(t)) == split_type(t),
        !has_srid(without_srid_flag(t)),
        has_srid(with_srid_flag(t)),
{
    assert(((t / 0x2000_0000) % 2 == 1) ==> (((t - 0x2000_0000) as u32 >= 0x8000_0000) == (t
        >= 0x8000_0000)) && ((t - 0x2000_0000) as u32 / 0x4000_0000) % 2 == (t / 0x4000_0000) % 2
        && (t - 0x2000_0000) as u32 % 0x10000 == t % 0x10000 && ((t - 0x2000_0000) as u32
        / 0x2000_0000) % 2 == 0) by (bit_vector);
    assert(((t / 0x2000_0000) % 2 == 0) ==> (((t + 0x2000_0000) as u32 >= 0x8000_0000) == (t
        >= 0x8000_0000)) && ((t + 0x2000_0000) as u32 / 0x4000_0000) % 2 == (t / 0x4000_0000) % 2
        && (t + 0x2000_0000) as u32 % 0x10000 == t % 0x10000 && ((t + 0x2000_0000) as u32
        / 0x2000_0000) % 2 == 1) by (bit_vector);
}

/// Bytes that begin with the byte-order marker of `b` and the type word `w`.
pub proof fn lemma_head_of(o: Seq<u8>, b0: u8, w: u32)
    requires
        b0 == 0 || b0 == 1,
        o.len() >= 5,
        o[0] == b0,
        o.subrange(1, 5) == bytes4(w, b0 == 1),
    ensures
        rd_byte_order(o, 0) == Dec::<bool>::Ok((b0 == 1, 1)),
        rd_u32(o, 1, b0 == 1) == Dec::<u32>::Ok((w, 5)),
{
    lemma_bytes4_round_trip(w, b0 == 1);
}

/// Decoding what the in-place strip writes gives the same geometry, without SRID.
pub proof fn lemma_fast_strip_decode(b: Seq<u8>, le_only: bool)
    requires
        decode(b) is Ok,
        fast_strip(b, le_only) is Some,
    ensures
        decode(fast_strip(b, le_only).unwrap()) == Ok::<(Shape, Option<i32>), Fault>(
            (decode(b)->Ok_0.0, None),
        ),
{
    let (le, t) = fast_header(b, le_only).unwrap();
    let (g, s0) = decode(b)->Ok_0;
    let ((_, sr), e) = rd_geometry(b, 0, 0)->Ok_0;
    let ((le1, t0, dim, sr1), q) = rd_head(b, 0)->Ok_0;
    assert(rd_u32(b, 1, le) == Dec::<u32>::Ok((t, 5)));
    if has_srid(t) {
        let tw = without_srid_flag(t);
        let o = seq![b[0]] + bytes4(tw, le) + b.subrange(9, b.len() as int);
        lemma_split_srid_flag(t);
        lemma_bytes4_round_trip(tw, le);
        assert(o.subrange(1, 5) =~= bytes4(tw, le));
        lemma_head_of(o, b[0], tw);
        assert(q == 9);
        assert(rd_head(o, 0) == Dec::<(bool, GeomType, Dimension, Option<u32>)>::Ok(
            ((le, t0, dim, None), 5),
        ));
        assert(o.subrange(5, o.len() as int) =~= b.subrange(9, b.len() as int));
        lemma_shift_body(b, 9, o, 5, le, t0, dim, 0);
    } else {
        assert(sr1 is None);
    }
}

/// The in-place set replaces an SRID field that holds another SRID.
pub proof fn lemma_set_replaced(b: Seq<u8>, n: i32, le: bool, t: u32)
    requires
        n > 0,
        decode(b) is Ok,
        fast_header(b, false) == Some((le, t)) || fast_header(b, true) == Some((le, t)),
        has_srid(t),
        u32_from(b.subrange(5, 9), le) != n as u32,
    ensures
        decode(b.subrange(0, 5) + bytes4(n as u32, le) + b.subrange(9, b.len() as int)) == Ok::<
            (Shape, Option<i32>),
            Fault,
        >((decode(b)->Ok_0.0, Some(n))),
{
    assert((n as u32) as i32 == n) by (bit_vector)
        requires
            n > 0,
    ;
    let ((le1, t0, dim, sr1), q) = rd_head(b, 0)->Ok_0;
    assert(rd_u32(b, 1, le) == Dec::<u32>::Ok((t, 5)));
    lemma_bytes4_round_trip(n as u32, le);
    assert(q == 9);
    let o = b.subrange(0, 5) + bytes4(n as u32, le) + b.subrange(9, b.len() as int);
    assert(o.subrange(1, 5) =~= b.subrange(1, 5));
    assert(o[0] == b[0]);
    assert(rd_byte_order(o, 0) == rd_byte_order(b, 0));
    assert(rd_u32(o, 1, le) == Dec::<u32>::Ok((t, 5)));
    assert(o.subrange(5, 9) =~= bytes4(n as u32, le));
    assert(rd_u32(o, 5, le) == Dec::<u32>::Ok((n as u32, 9)));
    assert(rd_head(o, 0) == Dec::<(bool, GeomType, Dimension, Option<u32>)>::Ok(
        ((le, t0, dim, Some(n as u32)), 9),
    ));
    assert(o.subrange(9, o.len() as int) =~= b.subrange(9, b.len() as int));
    lemma_shift_body(b, 9, o, 9, le, t0, dim, 0);
}

/// The in-place set adds an SRID field to a header without one.
pub proof fn lemma_set_added(b: Seq<u8>, n: i32, le: bool, t: u32)
    requires
        n > 0,
        decode(b) is Ok,
        fast_header(b, false) == Some((le, t)) || fast_header(b, true) == Some((le, t)),
        !has_srid(t),
    ensures
        decode(
            seq![b[0]] + bytes4(with_srid_flag(t), le) + bytes4(n as u32, le) + b.subrange(
                5,
                b.len() as int,
            ),
        ) == Ok::<(Shape, Option<i32>), Fault>((decode(b)->Ok_0.0, Some(n))),
{
    assert((n as u32) as i32 == n) by (bit_vector)
        requires
            n > 0,
    ;
    let ((le1, t0, dim, sr1), q) = rd_head(b, 0)->Ok_0;
    assert(rd_u32(b, 1, le) == Dec::<u32>::Ok((t, 5)));
    lemma_split_srid_flag(t);
    lemma_bytes4_round_trip(n as u32, le);
    assert(q == 5);
    let tw = with_srid_flag(t);
    let o = seq![b[0]] + bytes4(tw, le) + bytes4(n as u32, le) + b.subrange(5, b.len() as int);
    lemma_bytes4_round_trip(tw, le);
    assert(o.subrange(1, 5) =~= bytes4(tw, le));
    lemma_head_of(o, b[0], tw);
    assert(o.subrange(5, 9) =~= bytes4(n as u32, le));
    assert(rd_u32(o, 5, le) == Dec::<u32>::Ok((n as u32, 9)));
    assert(rd_head(o, 0) == Dec::<(bool, GeomType, Dimension, Option<u32>)>::Ok(
        ((le, t0, dim, Some(n as u32)), 9),
    ));
    assert(o.subrange(9, o.len() as int) =~= b.subrange(5, b.len() as int));
    lemma_shift_body(b, 5, o, 9, le, t0, dim, 0);
}

/// Decoding what the in-place set writes gives the same geometry, with SRID `n`.
pub proof fn lemma_fast_set_decode(b: Seq<u8>, n: i32, le_only: bool)
    requires
        n > 0,
        decode(b) is Ok,
        fast_set(b, n, le_only) is Some,
    ensures
        decode(fast_set(b, n, le_only).unwrap()) == Ok::<(Shape, Option<i32>), Fault>(
            (decode(b)->Ok_0.0, Some(n)),
        ),
{
    assert((n as u32) as i32 == n) by (bit_vector)
        requires
            n > 0,
    ;
    let (le, t) = fast_header(b, le_only).unwrap();
    if has_srid(t) {
        if u32_from(b.subrange(5, 9), le) != n as u32 {
            lemma_set_replaced(b, n, le, t);
        } else {
            let ((le1, t0, dim, sr1), q) = rd_head(b, 0)->Ok_0;
            assert(rd_u32(b, 1, le) == Dec::<u32>::Ok((t, 5)));
        }
    } else {
        lemma_set_added(b, n, le, t);
    }
}

// ---------------------------------------------------------------- the laws

/// Stripping the SRID keeps the geometry: the output decodes to the geometry
/// of the input, without SRID. A header that cannot be rewritten in place is
/// re-encoded, which needs a geometry that re-encoding gives back.
pub proof fn law_strip_keeps_geometry(b: Seq<u8>)
    requires
        decode(b) is Ok,
        fast_strip(b, false) is None ==> reencodable(decode(b)->Ok_0.0),
    ensures
        crate::stripped(b) matches Ok(o) && decode(o) == Ok::<(Shape, Option<i32>), Fault>(
            (decode(b)->Ok_0.0, None),
        ),
{
    if fast_strip(b, false) is Some {
        lemma_fast_strip_decode(b, false);
    } else {
        law_reencode_keeps_geometry(b, None);
    }
}

/// Setting SRID `n` keeps the geometry: the output decodes to the geometry of
/// the input with SRID `n`, or without SRID when `n` is not positive. A
/// header that cannot be rewritten in place is re-encoded, which needs a
/// geometry that re-encoding gives back.
pub proof fn law_set_keeps_geometry(b: Seq<u8>, n: i32)
    requires
        decode(b) is Ok,
        n > 0 && fast_set(b, n, false) is None ==> reencodable(decode(b)->Ok_0.0),
        n <= 0 && fast_strip(b, false) is None ==> reencodable(decode(b)->Ok_0.0),
    ensures
        crate::with_srid(b, n) matches Ok(o) && decode(o) == Ok::<(Shape, Option<i32>), Fault>(
            (
                decode(b)->Ok_0.0,
                if n > 0 {
                    Some(n)
                } else {
                    None
                },
            ),
        ),
{
    if n <= 0 {
        law_strip_keeps_geometry(b);
    } else if fast_set(b, n, false) is Some {
        lemma_fast_set_decode(b, n, false);
    } else {
        law_reencode_keeps_geometry(b, Some(n));
    }
}

/// The SRID modes of the generic converters keep the geometry of WKB input:
/// the output decodes to the geometry of the input with the SRID the mode
/// chooses (`Auto` mirrors the input, `Strip` drops it, `Force(n)` puts `n`).
/// A header that cannot be rewritten in place is re-encoded, which needs a
/// geometry that re-encoding gives back.
pub proof fn law_applied_keeps_geometry(b: Seq<u8>, mode: SridMode)
    requires
        decode(b) is Ok,
        match normalised(mode) {
            SridMode::Auto => true,
            SridMode::Strip => fast_strip(b, true) is None ==> reencodable(decode(b)->Ok_0.0),
            SridMode::Force(n) => fast_set(b, n, true) is None ==> reencodable(
                decode(b)->Ok_0.0,
            ),
        },
    ensures
        crate::applied(b, mode) matches Ok(o) && decode(o) == Ok::<(Shape, Option<i32>), Fault>(
            (decode(b)->Ok_0.0, out_srid(mode, decode(b)->Ok_0.1)),
        ),
{
    match normalised(mode) {
        SridMode::Auto => {},
        SridMode::Strip => {
            if fast_strip(b, true) is Some {
                lemma_fast_strip_decode(b, true);
            } else {
                law_reencode_keeps_geometry(b, None);
            }
        },
        SridMode::Force(n) => {
            if fast_set(b, n, true) is Some {
                lemma_fast_set_decode(b, n, true);
            } else {
                law_reencode_keeps_geometry(b, Some(n));
            }
        },
    }
}

} // verus!
