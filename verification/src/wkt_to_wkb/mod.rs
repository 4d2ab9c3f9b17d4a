//! WKT/EWKT text to WKB drafts.
pub mod grammar;
pub mod messages;
pub mod tokenizer;
pub mod writer;

use crate::error::{push_chars, wkt_error, Error, Result};
use crate::model::{
    byte_cells, enc_count, enc_header, enc_mls_members, enc_mp_members, enc_mpoly_members,
    enc_nan_tuple, enc_point_body, enc_rings, enc_tuple, enc_tuples, encode, le4, enc_members,
    lemma_byte_cells, lemma_enc_tuple, shape_dim, shape_type, Cell, Shape,
};
use crate::text::{lemma_skip_ws_bounds, string_from_chars};
use crate::types::{dim_size, normalise_srid_mode, out_srid, Dimension, GeomType, SridMode};
use grammar::{
    bounded, p_coord_seq, p_mls_member, p_mls_members, p_mp_member, p_mp_members, p_empty_or_lparen,
    p_mpoly_member, p_mpoly_members, p_rings, p_simple_body, p_geometry, p_members, p_tuple,
    parse_wkt, prepend, Opening, Tok, MAX_GEOMETRY_DEPTH,
};
use messages::{
    e_coord_seq, e_dim, e_empty_or_lparen, e_geometry, e_members, e_mls_member, e_mls_members,
    e_mp_member, e_mp_members, e_mpoly_member, e_mpoly_members, e_parse, e_rings, e_simple_body,
    e_tuple, too_many, wkt_fails,
};
use tokenizer::Tokenizer;
use vstd::prelude::*;
use writer::WkbWriter;

verus! {

pub proof fn lemma_prepend_empty<T>(x: Tok<Seq<T>>)
    ensures
        prepend(Seq::<T>::empty(), x) == x,
{
    match x {
        Some((v, e)) => {
            assert(Seq::<T>::empty() + v =~= v);
        },
        None => {},
    }
}

pub proof fn lemma_prepend<T>(a: Seq<T>, b: Seq<T>, x: Tok<Seq<T>>)
    ensures
        prepend(a, prepend(b, x)) == prepend(a + b, x),
{
    match x {
        Some((v, e)) => {
            assert(a + (b + v) =~= (a + b) + v);
        },
        None => {},
    }
}

/// Once `k` numbers cannot be read, more cannot either.
pub proof fn lemma_p_tuple_none(s: Seq<char>, p: int, k: nat, m: nat)
    requires
        k <= m,
        p_tuple(s, p, k) is None,
    ensures
        p_tuple(s, p, m) is None,
    decreases m - k,
{
    if k < m {
        lemma_p_tuple_none(s, p, k, (m - 1) as nat);
    }
}

/// Once `k` numbers cannot be read, the message for reading more is the
/// message for reading `k`.
pub proof fn lemma_e_tuple_none(s: Seq<char>, p: int, k: nat, m: nat)
    requires
        0 < k <= m,
        p_tuple(s, p, k) is None,
    ensures
        e_tuple(s, p, m) == e_tuple(s, p, k),
    decreases m - k,
{
    if k < m {
        lemma_e_tuple_none(s, p, k, (m - 1) as nat);
        lemma_p_tuple_none(s, p, k, (m - 1) as nat);
    }
}

/// Reads `n` numbers and writes a number cell for each.
fn write_coord_tuple(tok: &mut Tokenizer, w: &mut WkbWriter, n: usize) -> (r: Result<()>)
    requires
        old(tok).wf(),
    ensures
        final(tok).wf(),
        final(tok).input == old(tok).input,
        final(tok).pos >= old(tok).pos,
        match p_tuple(old(tok).input@, old(tok).pos as int, n as nat) {
            Some((c, e)) => r is Ok && final(tok).pos == e && final(w).cells@ == old(w).cells@
                + enc_tuple(c),
            None => wkt_fails(r, e_tuple(old(tok).input@, old(tok).pos as int, n as nat)),
        },
{
    let ghost s = tok.input@;
    let ghost p0 = tok.pos as int;
    let ghost c0 = w.cells@;
    let ghost mut c: Seq<u64> = seq![];
    let mut i: usize = 0;
    while i < n
        invariant
            tok.wf(),
            tok.input == old(tok).input,
            s == old(tok).input@,
            p0 == old(tok).pos,
            old(tok).pos <= tok.pos,
            i <= n,
            p_tuple(s, p0, i as nat) == Some((c, tok.pos as int)),
            c0 == old(w).cells@,
            w.cells@ == c0 + enc_tuple(c),
        decreases n - i,
    {
        let ghost before = tok.pos as int;
        let v = match tok.read_number() {
            Ok(v) => v,
            Err(e) => {
                proof {
                    assert(p_tuple(s, p0, (i + 1) as nat) is None);
                    lemma_p_tuple_none(s, p0, (i + 1) as nat, n as nat);
                    assert(e_tuple(s, p0, (i + 1) as nat) == crate::wkt_to_wkb::messages::e_num(s, before));
                    lemma_e_tuple_none(s, p0, (i + 1) as nat, n as nat);
                }
                return Err(e);
            },
        };
        w.write_num(v);
        proof {
            assert(c.push(v).drop_last() =~= c);
            c = c.push(v);
        }
        i = i + 1;
    }
    Ok(())
}

/// Writes the NaN ordinates of an EMPTY point.
fn write_empty_point_body(w: &mut WkbWriter, n: usize)
    ensures
        final(w).cells@ == old(w).cells@ + enc_nan_tuple(n as nat),
{
    let ghost c0 = w.cells@;
    let mut i: usize = 0;
    while i < n
        invariant
            i <= n,
            w.cells@ == c0 + enc_nan_tuple(i as nat),
        decreases n - i,
    {
        let ghost before = w.cells@;
        w.write_nan();
        proof {
            assert(w.cells@ =~= c0 + enc_nan_tuple((i + 1) as nat));
        }
        i = i + 1;
    }
}

/// Reads tuples separated by `,` through the closing `)`, writing their cells;
/// returns how many there were.
#[verifier::rlimit(40)]
fn read_coord_seq(tok: &mut Tokenizer, w: &mut WkbWriter, cs: usize) -> (r: Result<u32>)
    requires
        old(tok).wf(),
    ensures
        final(tok).wf(),
        final(tok).input == old(tok).input,
        final(tok).pos >= old(tok).pos,
        match bounded(p_coord_seq(old(tok).input@, old(tok).pos as int, cs as nat)) {
            Some((pts, e)) => r == Result::<u32>::Ok(pts.len() as u32) && final(tok).pos == e
                && final(w).cells@ == old(w).cells@ + enc_tuples(pts),
            None => wkt_fails(r, e_coord_seq(old(tok).input@, old(tok).pos as int, cs as nat, 0)),
        },
{
    let ghost s = tok.input@;
    let ghost p0 = tok.pos as int;
    let ghost c0 = w.cells@;
    let ghost mut acc: Seq<Seq<u64>> = seq![];
    let mut count: u32 = 0;
    proof {
        lemma_prepend_empty(p_coord_seq(s, p0, cs as nat));
    }
    loop
        invariant
            tok.wf(),
            tok.input == old(tok).input,
            s == old(tok).input@,
            p0 == old(tok).pos,
            old(tok).pos <= tok.pos,
            count == acc.len(),
            e_coord_seq(s, p0, cs as nat, 0) == e_coord_seq(s, tok.pos as int, cs as nat, count as nat),
            p_coord_seq(s, p0, cs as nat) == prepend(acc, p_coord_seq(s, tok.pos as int, cs as nat)),
            c0 == old(w).cells@,
            w.cells@ == c0 + enc_tuples(acc),
        decreases s.len() - tok.pos,
    {
        let ghost pc = tok.pos as int;
        let ghost k0 = count as nat;
        let ghost cb = w.cells@;
        match write_coord_tuple(tok, w, cs) {
            Ok(()) => {},
            Err(e) => return Err(e),
        }
        let ghost c = p_tuple(s, pc, cs as nat).unwrap().0;
        match increment_count(&mut count, "coordinate tuples") {
            Ok(()) => {},
            Err(e) => return Err(e),
        }
        let ghost q = tok.pos as int;
        assert(p_tuple(s, pc, cs as nat) == Some((c, q)));
        match tok.read_comma_or_rparen() {
            Ok(true) => {
                proof {
                    assert(e_coord_seq(s, pc, cs as nat, k0) == e_coord_seq(s, tok.pos as int, cs as nat, count as nat));
                    assert(p_coord_seq(s, pc, cs as nat) == prepend(
                        seq![c],
                        p_coord_seq(s, tok.pos as int, cs as nat),
                    ));
                    lemma_prepend(acc, seq![c], p_coord_seq(s, tok.pos as int, cs as nat));
                    assert(acc + seq![c] =~= acc.push(c));
                    assert(acc.push(c).drop_last() =~= acc);
                    acc = acc.push(c);
                    assert(w.cells@ =~= c0 + enc_tuples(acc));
                }
            },
            Ok(false) => {
                proof {
                    assert(p_coord_seq(s, pc, cs as nat) == Some((seq![c], tok.pos as int)));
                    assert(acc + seq![c] =~= acc.push(c));
                    assert(p_coord_seq(s, p0, cs as nat) == Some((acc.push(c), tok.pos as int)));
                    assert(acc.push(c).drop_last() =~= acc);
                    assert(w.cells@ =~= c0 + enc_tuples(acc.push(c)));
                    assert(count as int == acc.push(c).len());
                    assert(bounded(p_coord_seq(s, p0, cs as nat)) == Some(
                        (acc.push(c), tok.pos as int),
                    ));
                    assert(acc.push(c).len() as u32 == count);
                }
                return Ok(count);
            },
            Err(e) => return Err(e),
        }
    }
}

/// Patching a reserved count: the cells written after the reservation stay.
pub proof fn lemma_patch(x: Seq<Cell>, t: Seq<Cell>, n: u32)
    ensures
        (x + byte_cells(le4(0)) + t).subrange(0, x.len() as int) + byte_cells(le4(n)) + (x
            + byte_cells(le4(0)) + t).subrange(x.len() + 4int, (x + byte_cells(le4(0)) + t).len() as int)
            == x + byte_cells(le4(n)) + t,
{
    lemma_byte_cells(le4(0));
    lemma_byte_cells(le4(n));
    let all = x + byte_cells(le4(0)) + t;
    assert(all.subrange(0, x.len() as int) =~= x);
    assert(all.subrange(x.len() + 4int, all.len() as int) =~= t);
}

/// Reads a tuple list through its `)` and writes it with its count.
fn read_counted_coord_seq(tok: &mut Tokenizer, w: &mut WkbWriter, cs: usize) -> (r: Result<()>)
    requires
        old(tok).wf(),
    ensures
        final(tok).wf(),
        final(tok).input == old(tok).input,
        final(tok).pos >= old(tok).pos,
        match bounded(p_coord_seq(old(tok).input@, old(tok).pos as int, cs as nat)) {
            Some((pts, e)) => r is Ok && final(tok).pos == e && final(w).cells@ == old(w).cells@
                + enc_count(pts.len()) + enc_tuples(pts),
            None => wkt_fails(r, e_coord_seq(old(tok).input@, old(tok).pos as int, cs as nat, 0)),
        },
{
    let ghost x = w.cells@;
    let at = w.reserve_u32();
    let ghost mid = w.cells@;
    let n = match read_coord_seq(tok, w, cs) {
        Ok(n) => n,
        Err(e) => return Err(e),
    };
    proof {
        lemma_byte_cells(le4(0));
        let t = w.cells@.subrange(mid.len() as int, w.cells@.len() as int);
        assert(w.cells@ =~= x + byte_cells(le4(0)) + t);
        lemma_patch(x, t, n);
    }
    w.patch_u32(at, n);
    Ok(())
}

/// Reads parenthesised rings through the closing `)`, writing each with its
/// count; returns how many there were.
#[verifier::rlimit(40)]
fn read_rings(tok: &mut Tokenizer, w: &mut WkbWriter, cs: usize) -> (r: Result<u32>)
    requires
        old(tok).wf(),
    ensures
        final(tok).wf(),
        final(tok).input == old(tok).input,
        final(tok).pos >= old(tok).pos,
        match bounded(p_rings(old(tok).input@, old(tok).pos as int, cs as nat)) {
            Some((rs, e)) => r == Result::<u32>::Ok(rs.len() as u32) && final(tok).pos == e
                && final(w).cells@ == old(w).cells@ + enc_rings(rs),
            None => wkt_fails(r, e_rings(old(tok).input@, old(tok).pos as int, cs as nat, 0)),
        },
{
    let ghost s = tok.input@;
    let ghost p0 = tok.pos as int;
    let ghost c0 = w.cells@;
    let ghost mut acc: Seq<Seq<Seq<u64>>> = seq![];
    let mut count: u32 = 0;
    proof {
        lemma_prepend_empty(p_rings(s, p0, cs as nat));
    }
    loop
        invariant
            tok.wf(),
            tok.input == old(tok).input,
            s == old(tok).input@,
            p0 == old(tok).pos,
            old(tok).pos <= tok.pos,
            count == acc.len(),
            e_rings(s, p0, cs as nat, 0) == e_rings(s, tok.pos as int, cs as nat, count as nat),
            p_rings(s, p0, cs as nat) == prepend(acc, p_rings(s, tok.pos as int, cs as nat)),
            c0 == old(w).cells@,
            w.cells@ == c0 + enc_rings(acc),
        decreases s.len() - tok.pos,
    {
        let ghost pc = tok.pos as int;
        let ghost k0 = count as nat;
        let ghost cb = w.cells@;
        match tok.expect_lparen() {
            Ok(()) => {},
            Err(e) => return Err(e),
        }
        let ghost q0 = tok.pos as int;
        match read_counted_coord_seq(tok, w, cs) {
            Ok(()) => {},
            Err(e) => return Err(e),
        }
        let ghost ring = bounded(p_coord_seq(s, q0, cs as nat)).unwrap().0;
        match increment_count(&mut count, "polygon rings") {
            Ok(()) => {},
            Err(e) => return Err(e),
        }
        let ghost q = tok.pos as int;
        match tok.read_comma_or_rparen() {
            Ok(true) => {
                proof {
                    assert(e_rings(s, pc, cs as nat, k0) == e_rings(s, tok.pos as int, cs as nat, count as nat));
                    assert(p_rings(s, pc, cs as nat) == prepend(
                        seq![ring],
                        p_rings(s, tok.pos as int, cs as nat),
                    ));
                    lemma_prepend(acc, seq![ring], p_rings(s, tok.pos as int, cs as nat));
                    assert(acc + seq![ring] =~= acc.push(ring));
                    assert(acc.push(ring).drop_last() =~= acc);
                    acc = acc.push(ring);
                    assert(w.cells@ =~= c0 + enc_rings(acc));
                }
            },
            Ok(false) => {
                proof {
                    assert(p_rings(s, pc, cs as nat) == Some((seq![ring], tok.pos as int)));
                    assert(acc + seq![ring] =~= acc.push(ring));
                    assert(p_rings(s, p0, cs as nat) == Some((acc.push(ring), tok.pos as int)));
                    assert(acc.push(ring).drop_last() =~= acc);
                    assert(w.cells@ =~= c0 + enc_rings(acc.push(ring)));
                    assert(count as int == acc.push(ring).len());
                    assert(acc.push(ring).len() as u32 == count);
                }
                return Ok(count);
            },
            Err(e) => return Err(e),
        }
    }
}

/// Reads a ring list through its `)` and writes it with its count.
fn read_counted_rings(tok: &mut Tokenizer, w: &mut WkbWriter, cs: usize) -> (r: Result<()>)
    requires
        old(tok).wf(),
    ensures
        final(tok).wf(),
        final(tok).input == old(tok).input,
        final(tok).pos >= old(tok).pos,
        match bounded(p_rings(old(tok).input@, old(tok).pos as int, cs as nat)) {
            Some((rs, e)) => r is Ok && final(tok).pos == e && final(w).cells@ == old(w).cells@
                + enc_count(rs.len()) + enc_rings(rs),
            None => wkt_fails(r, e_rings(old(tok).input@, old(tok).pos as int, cs as nat, 0)),
        },
{
    let ghost x = w.cells@;
    let at = w.reserve_u32();
    let ghost mid = w.cells@;
    let n = match read_rings(tok, w, cs) {
        Ok(n) => n,
        Err(e) => return Err(e),
    };
    proof {
        lemma_byte_cells(le4(0));
        let t = w.cells@.subrange(mid.len() as int, w.cells@.len() as int);
        assert(w.cells@ =~= x + byte_cells(le4(0)) + t);
        lemma_patch(x, t, n);
    }
    w.patch_u32(at, n);
    Ok(())
}

/// Reads one MultiPoint member and writes it as a full Point geometry.
#[verifier::rlimit(40)]
fn read_mp_member(tok: &mut Tokenizer, w: &mut WkbWriter, dim: Dimension) -> (r: Result<()>)
    requires
        old(tok).wf(),
    ensures
        final(tok).wf(),
        final(tok).input == old(tok).input,
        final(tok).pos >= old(tok).pos,
        match p_mp_member(old(tok).input@, old(tok).pos as int, dim_size(dim)) {
            Some((m, e)) => r is Ok && final(tok).pos == e && final(w).cells@ == old(w).cells@
                + (enc_header(GeomType::Point, dim, None) + enc_point_body(dim, m)),
            None => wkt_fails(r, e_mp_member(old(tok).input@, old(tok).pos as int, dim_size(dim))),
        },
{
    let ghost c0 = w.cells@;
    let cs = dim.coord_size();
    w.write_header(GeomType::Point, dim, None);
    let ghost c1 = w.cells@;
    match tok.try_read_empty_or_lparen() {
        Ok(Opening::Empty) => {
            write_empty_point_body(w, cs);
        },
        Ok(Opening::Lparen) => {
            match write_coord_tuple(tok, w, cs) {
                Ok(()) => {},
                Err(e) => return Err(e),
            }
            match tok.expect_rparen() {
                Ok(()) => {},
                Err(e) => return Err(e),
            }
        },
        Ok(Opening::Bare) => {
            match write_coord_tuple(tok, w, cs) {
                Ok(()) => {},
                Err(e) => return Err(e),
            }
        },
        Err(e) => return Err(e),
    }
    proof {
        let m = p_mp_member(tok.input@, old(tok).pos as int, dim_size(dim)).unwrap().0;
        assert(w.cells@ =~= c0 + (enc_header(GeomType::Point, dim, None) + enc_point_body(dim, m)));
    }
    Ok(())
}

/// Reads MultiPoint members through the closing `)`; returns how many there were.
#[verifier::rlimit(40)]
fn read_mp_members(tok: &mut Tokenizer, w: &mut WkbWriter, dim: Dimension) -> (r: Result<u32>)
    requires
        old(tok).wf(),
    ensures
        final(tok).wf(),
        final(tok).input == old(tok).input,
        final(tok).pos >= old(tok).pos,
        match bounded(p_mp_members(old(tok).input@, old(tok).pos as int, dim_size(dim))) {
            Some((ms, e)) => r == Result::<u32>::Ok(ms.len() as u32) && final(tok).pos == e
                && final(w).cells@ == old(w).cells@ + enc_mp_members(dim, ms),
            None => wkt_fails(r, e_mp_members(old(tok).input@, old(tok).pos as int, dim_size(dim), 0)),
        },
{
    let ghost s = tok.input@;
    let ghost p0 = tok.pos as int;
    let ghost c0 = w.cells@;
    let ghost cs = dim_size(dim);
    let ghost mut acc: Seq<Seq<u64>> = seq![];
    let mut count: u32 = 0;
    proof {
        lemma_prepend_empty(p_mp_members(s, p0, cs));
    }
    loop
        invariant
            tok.wf(),
            tok.input == old(tok).input,
            s == old(tok).input@,
            p0 == old(tok).pos,
            cs == dim_size(dim),
            old(tok).pos <= tok.pos,
            count == acc.len(),
            e_mp_members(s, p0, cs, 0) == e_mp_members(s, tok.pos as int, cs, count as nat),
            p_mp_members(s, p0, cs) == prepend(acc, p_mp_members(s, tok.pos as int, cs)),
            c0 == old(w).cells@,
            w.cells@ == c0 + enc_mp_members(dim, acc),
        decreases s.len() - tok.pos,
    {
        let ghost pc = tok.pos as int;
        let ghost k0 = count as nat;
        match read_mp_member(tok, w, dim) {
            Ok(()) => {},
            Err(e) => return Err(e),
        }
        let ghost m = p_mp_member(s, pc, cs).unwrap().0;
        match increment_count(&mut count, "MultiPoint members") {
            Ok(()) => {},
            Err(e) => return Err(e),
        }
        match tok.read_comma_or_rparen() {
            Ok(true) => {
                proof {
                    assert(e_mp_members(s, pc, cs, k0) == e_mp_members(s, tok.pos as int, cs, count as nat));
                    assert(p_mp_members(s, pc, cs) == prepend(
                        seq![m],
                        p_mp_members(s, tok.pos as int, cs),
                    ));
                    lemma_prepend(acc, seq![m], p_mp_members(s, tok.pos as int, cs));
                    assert(acc + seq![m] =~= acc.push(m));
                    assert(acc.push(m).drop_last() =~= acc);
                    acc = acc.push(m);
                    assert(w.cells@ =~= c0 + enc_mp_members(dim, acc));
                }
            },
            Ok(false) => {
                proof {
                    assert(p_mp_members(s, pc, cs) == Some((seq![m], tok.pos as int)));
                    assert(acc + seq![m] =~= acc.push(m));
                    assert(p_mp_members(s, p0, cs) == Some((acc.push(m), tok.pos as int)));
                    assert(acc.push(m).drop_last() =~= acc);
                    assert(w.cells@ =~= c0 + enc_mp_members(dim, acc.push(m)));
                    assert(count as int == acc.push(m).len());
                    assert(acc.push(m).len() as u32 == count);
                }
                return Ok(count);
            },
            Err(e) => return Err(e),
        }
    }
}

/// Reads one MultiLineString member and writes it as a full LineString geometry.
#[verifier::rlimit(40)]
fn read_mls_member(tok: &mut Tokenizer, w: &mut WkbWriter, dim: Dimension) -> (r: Result<()>)
    requires
        old(tok).wf(),
    ensures
        final(tok).wf(),
        final(tok).input == old(tok).input,
        final(tok).pos >= old(tok).pos,
        match p_mls_member(old(tok).input@, old(tok).pos as int, dim_size(dim)) {
            Some((m, e)) => r is Ok && final(tok).pos == e && final(w).cells@ == old(w).cells@
                + (enc_header(GeomType::LineString, dim, None) + enc_count(m.len()) + enc_tuples(m)),
            None => wkt_fails(r, e_mls_member(old(tok).input@, old(tok).pos as int, dim_size(dim))),
        },
{
    let ghost c0 = w.cells@;
    let cs = dim.coord_size();
    w.write_header(GeomType::LineString, dim, None);
    let ghost c1 = w.cells@;
    match tok.read_empty_or_lparen() {
        Ok(true) => {
            w.write_u32(0);
            proof {
                assert(enc_tuples(Seq::<Seq<u64>>::empty()) =~= Seq::<Cell>::empty());
                assert(w.cells@ =~= c0 + (enc_header(GeomType::LineString, dim, None) + enc_count(0)
                    + enc_tuples(Seq::<Seq<u64>>::empty())));
            }
        },
        Ok(false) => {
            match read_counted_coord_seq(tok, w, cs) {
                Ok(()) => {},
                Err(e) => return Err(e),
            }
            proof {
                let m = p_mls_member(tok.input@, old(tok).pos as int, dim_size(dim)).unwrap().0;
                assert(w.cells@ =~= c0 + (enc_header(GeomType::LineString, dim, None) + enc_count(
                    m.len(),
                ) + enc_tuples(m)));
            }
        },
        Err(e) => return Err(e),
    }
    Ok(())
}

/// Reads MultiLineString members through the closing `)`; returns how many there were.
#[verifier::rlimit(40)]
fn read_mls_members(tok: &mut Tokenizer, w: &mut WkbWriter, dim: Dimension) -> (r: Result<u32>)
    requires
        old(tok).wf(),
    ensures
        final(tok).wf(),
        final(tok).input == old(tok).input,
        final(tok).pos >= old(tok).pos,
        match bounded(p_mls_members(old(tok).input@, old(tok).pos as int, dim_size(dim))) {
            Some((ms, e)) => r == Result::<u32>::Ok(ms.len() as u32) && final(tok).pos == e
                && final(w).cells@ == old(w).cells@ + enc_mls_members(dim, ms),
            None => wkt_fails(r, e_mls_members(old(tok).input@, old(tok).pos as int, dim_size(dim), 0)),
        },
{
    let ghost s = tok.input@;
    let ghost p0 = tok.pos as int;
    let ghost c0 = w.cells@;
    let ghost cs = dim_size(dim);
    let ghost mut acc: Seq<Seq<Seq<u64>>> = seq![];
    let mut count: u32 = 0;
    proof {
        lemma_prepend_empty(p_mls_members(s, p0, cs));
    }
    loop
        invariant
            tok.wf(),
            tok.input == old(tok).input,
            s == old(tok).input@,
            p0 == old(tok).pos,
            cs == dim_size(dim),
            old(tok).pos <= tok.pos,
            count == acc.len(),
            e_mls_members(s, p0, cs, 0) == e_mls_members(s, tok.pos as int, cs, count as nat),
            p_mls_members(s, p0, cs) == prepend(acc, p_mls_members(s, tok.pos as int, cs)),
            c0 == old(w).cells@,
            w.cells@ == c0 + enc_mls_members(dim, acc),
        decreases s.len() - tok.pos,
    {
        let ghost pc = tok.pos as int;
        let ghost k0 = count as nat;
        match read_mls_member(tok, w, dim) {
            Ok(()) => {},
            Err(e) => return Err(e),
        }
        let ghost m = p_mls_member(s, pc, cs).unwrap().0;
        match increment_count(&mut count, "MultiLineString members") {
            Ok(()) => {},
            Err(e) => return Err(e),
        }
        match tok.read_comma_or_rparen() {
            Ok(true) => {
                proof {
                    assert(e_mls_members(s, pc, cs, k0) == e_mls_members(s, tok.pos as int, cs, count as nat));
                    assert(p_mls_members(s, pc, cs) == prepend(
                        seq![m],
                        p_mls_members(s, tok.pos as int, cs),
                    ));
                    lemma_prepend(acc, seq![m], p_mls_members(s, tok.pos as int, cs));
                    assert(acc + seq![m] =~= acc.push(m));
                    assert(acc.push(m).drop_last() =~= acc);
                    acc = acc.push(m);
                    assert(w.cells@ =~= c0 + enc_mls_members(dim, acc));
                }
            },
            Ok(false) => {
                proof {
                    assert(p_mls_members(s, pc, cs) == Some((seq![m], tok.pos as int)));
                    assert(acc + seq![m] =~= acc.push(m));
                    assert(p_mls_members(s, p0, cs) == Some((acc.push(m), tok.pos as int)));
                    assert(acc.push(m).drop_last() =~= acc);
                    assert(w.cells@ =~= c0 + enc_mls_members(dim, acc.push(m)));
                    assert(count as int == acc.push(m).len());
                    assert(acc.push(m).len() as u32 == count);
                }
                return Ok(count);
            },
            Err(e) => return Err(e),
        }
    }
}

/// Reads one MultiPolygon member and writes it as a full Polygon geometry.
#[verifier::rlimit(40)]
fn read_mpoly_member(tok: &mut Tokenizer, w: &mut WkbWriter, dim: Dimension) -> (r: Result<()>)
    requires
        old(tok).wf(),
    ensures
        final(tok).wf(),
        final(tok).input == old(tok).input,
        final(tok).pos >= old(tok).pos,
        match p_mpoly_member(old(tok).input@, old(tok).pos as int, dim_size(dim)) {
            Some((m, e)) => r is Ok && final(tok).pos == e && final(w).cells@ == old(w).cells@
                + (enc_header(GeomType::Polygon, dim, None) + enc_count(m.len()) + enc_rings(m)),
            None => wkt_fails(r, e_mpoly_member(old(tok).input@, old(tok).pos as int, dim_size(dim))),
        },
{
    let ghost c0 = w.cells@;
    let cs = dim.coord_size();
    w.write_header(GeomType::Polygon, dim, None);
    let ghost c1 = w.cells@;
    match tok.read_empty_or_lparen() {
        Ok(true) => {
            w.write_u32(0);
            proof {
                assert(enc_rings(Seq::<Seq<Seq<u64>>>::empty()) =~= Seq::<Cell>::empty());
                assert(w.cells@ =~= c0 + (enc_header(GeomType::Polygon, dim, None) + enc_count(0)
                    + enc_rings(Seq::<Seq<Seq<u64>>>::empty())));
            }
        },
        Ok(false) => {
            match read_counted_rings(tok, w, cs) {
                Ok(()) => {},
                Err(e) => return Err(e),
            }
            proof {
                let m = p_mpoly_member(tok.input@, old(tok).pos as int, dim_size(dim)).unwrap().0;
                assert(w.cells@ =~= c0 + (enc_header(GeomType::Polygon, dim, None) + enc_count(
                    m.len(),
                ) + enc_rings(m)));
            }
        },
        Err(e) => return Err(e),
    }
    Ok(())
}

/// Reads MultiPolygon members through the closing `)`; returns how many there were.
#[verifier::rlimit(40)]
fn read_mpoly_members(tok: &mut Tokenizer, w: &mut WkbWriter, dim: Dimension) -> (r: Result<u32>)
    requires
        old(tok).wf(),
    ensures
        final(tok).wf(),
        final(tok).input == old(tok).input,
        final(tok).pos >= old(tok).pos,
        match bounded(p_mpoly_members(old(tok).input@, old(tok).pos as int, dim_size(dim))) {
            Some((ms, e)) => r == Result::<u32>::Ok(ms.len() as u32) && final(tok).pos == e
                && final(w).cells@ == old(w).cells@ + enc_mpoly_members(dim, ms),
            None => wkt_fails(r, e_mpoly_members(old(tok).input@, old(tok).pos as int, dim_size(dim), 0)),
        },
{
    let ghost s = tok.input@;
    let ghost p0 = tok.pos as int;
    let ghost c0 = w.cells@;
    let ghost cs = dim_size(dim);
    let ghost mut acc: Seq<Seq<Seq<Seq<u64>>>> = seq![];
    let mut count: u32 = 0;
    proof {
        lemma_prepend_empty(p_mpoly_members(s, p0, cs));
    }
    loop
        invariant
            tok.wf(),
            tok.input == old(tok).input,
            s == old(tok).input@,
            p0 == old(tok).pos,
            cs == dim_size(dim),
            old(tok).pos <= tok.pos,
            count == acc.len(),
            e_mpoly_members(s, p0, cs, 0) == e_mpoly_members(s, tok.pos as int, cs, count as nat),
            p_mpoly_members(s, p0, cs) == prepend(acc, p_mpoly_members(s, tok.pos as int, cs)),
            c0 == old(w).cells@,
            w.cells@ == c0 + enc_mpoly_members(dim, acc),
        decreases s.len() - tok.pos,
    {
        let ghost pc = tok.pos as int;
        let ghost k0 = count as nat;
        match read_mpoly_member(tok, w, dim) {
            Ok(()) => {},
            Err(e) => return Err(e),
        }
        let ghost m = p_mpoly_member(s, pc, cs).unwrap().0;
        match increment_count(&mut count, "MultiPolygon members") {
            Ok(()) => {},
            Err(e) => return Err(e),
        }
        match tok.read_comma_or_rparen() {
            Ok(true) => {
                proof {
                    assert(e_mpoly_members(s, pc, cs, k0) == e_mpoly_members(s, tok.pos as int, cs, count as nat));
                    assert(p_mpoly_members(s, pc, cs) == prepend(
                        seq![m],
                        p_mpoly_members(s, tok.pos as int, cs),
                    ));
                    lemma_prepend(acc, seq![m], p_mpoly_members(s, tok.pos as int, cs));
                    assert(acc + seq![m] =~= acc.push(m));
                    assert(acc.push(m).drop_last() =~= acc);
                    acc = acc.push(m);
                    assert(w.cells@ =~= c0 + enc_mpoly_members(dim, acc));
                }
            },
            Ok(false) => {
                proof {
                    assert(p_mpoly_members(s, pc, cs) == Some((seq![m], tok.pos as int)));
                    assert(acc + seq![m] =~= acc.push(m));
                    assert(p_mpoly_members(s, p0, cs) == Some((acc.push(m), tok.pos as int)));
                    assert(acc.push(m).drop_last() =~= acc);
                    assert(w.cells@ =~= c0 + enc_mpoly_members(dim, acc.push(m)));
                    assert(count as int == acc.push(m).len());
                    assert(acc.push(m).len() as u32 == count);
                }
                return Ok(count);
            },
            Err(e) => return Err(e),
        }
    }
}

/// Reads the body of a Point after its keyword and tag, writing header and body.
#[verifier::rlimit(40)]
fn parse_point(
    tok: &mut Tokenizer,
    w: &mut WkbWriter,
    dim: Dimension,
    srid: Option<i32>,
) -> (r: Result<()>)
    requires
        old(tok).wf(),
    ensures
        final(tok).wf(),
        final(tok).input == old(tok).input,
        final(tok).pos >= old(tok).pos,
        match p_simple_body(old(tok).input@, old(tok).pos as int, GeomType::Point, dim) {
            Some((g, e)) => r is Ok && final(tok).pos == e && final(w).cells@ == old(w).cells@
                + encode(g, srid),
            None => wkt_fails(r, e_simple_body(old(tok).input@, old(tok).pos as int, GeomType::Point, dim)),
        },
{
    let ghost c0 = w.cells@;
    let cs = dim.coord_size();
    w.write_header(GeomType::Point, dim, srid);
    let ghost c1 = w.cells@;
    let empty = match tok.read_empty_or_lparen() {
        Ok(b) => b,
        Err(e) => return Err(e),
    };
    if empty {
        write_empty_point_body(w, cs);
        proof {
            assert(w.cells@ =~= c0 + (enc_header(GeomType::Point, dim, srid) + enc_point_body(
                dim,
                Seq::<u64>::empty(),
            )));
        }
        return Ok(());
    }
    match write_coord_tuple(tok, w, cs) {
        Ok(()) => {},
        Err(e) => return Err(e),
    }
    match tok.expect_rparen() {
        Ok(()) => {},
        Err(e) => return Err(e),
    }
    proof {
        let c = p_tuple(tok.input@, p_empty_or_lparen(old(tok).input@, old(tok).pos as int).unwrap().1, dim_size(dim)).unwrap().0;
        lemma_enc_tuple(c);
        assert(w.cells@ =~= c0 + (enc_header(GeomType::Point, dim, srid) + enc_point_body(dim, c)));
    }
    Ok(())
}

/// Reads the body of a LineString after its keyword and tag, writing header and body.
#[verifier::rlimit(40)]
fn parse_linestring(
    tok: &mut Tokenizer,
    w: &mut WkbWriter,
    dim: Dimension,
    srid: Option<i32>,
) -> (r: Result<()>)
    requires
        old(tok).wf(),
    ensures
        final(tok).wf(),
        final(tok).input == old(tok).input,
        final(tok).pos >= old(tok).pos,
        match p_simple_body(old(tok).input@, old(tok).pos as int, GeomType::LineString, dim) {
            Some((g, e)) => r is Ok && final(tok).pos == e && final(w).cells@ == old(w).cells@
                + encode(g, srid),
            None => wkt_fails(r, e_simple_body(old(tok).input@, old(tok).pos as int, GeomType::LineString, dim)),
        },
{
    let ghost c0 = w.cells@;
    let cs = dim.coord_size();
    w.write_header(GeomType::LineString, dim, srid);
    let ghost c1 = w.cells@;
    let empty = match tok.read_empty_or_lparen() {
        Ok(b) => b,
        Err(e) => return Err(e),
    };
    if empty {
        w.write_u32(0);
        proof {
            assert(enc_tuples(Seq::<Seq<u64>>::empty()) =~= Seq::<Cell>::empty());
            assert(w.cells@ =~= c0 + (enc_header(GeomType::LineString, dim, srid) + enc_count(0) + enc_tuples(Seq::<Seq<u64>>::empty())));
        }
        return Ok(());
    }
    let ghost x = w.cells@;
    let at = w.reserve_u32();
    let ghost mid = w.cells@;
    let n = match read_coord_seq(tok, w, cs) {
        Ok(n) => n,
        Err(e) => return Err(e),
    };
    proof {
        lemma_byte_cells(le4(0));
        let t = w.cells@.subrange(mid.len() as int, w.cells@.len() as int);
        assert(w.cells@ =~= x + byte_cells(le4(0)) + t);
        lemma_patch(x, t, n);
    }
    w.patch_u32(at, n);
    proof {
        let m = bounded(p_coord_seq(old(tok).input@, p_empty_or_lparen(old(tok).input@, old(tok).pos as int).unwrap().1, dim_size(dim))).unwrap().0;
        assert(w.cells@ =~= c0 + (enc_header(GeomType::LineString, dim, srid) + enc_count(m.len()) + enc_tuples(m)));
    }
    Ok(())
}

/// Reads the body of a Polygon after its keyword and tag, writing header and body.
#[verifier::rlimit(40)]
fn parse_polygon(
    tok: &mut Tokenizer,
    w: &mut WkbWriter,
    dim: Dimension,
    srid: Option<i32>,
) -> (r: Result<()>)
    requires
        old(tok).wf(),
    ensures
        final(tok).wf(),
        final(tok).input == old(tok).input,
        final(tok).pos >= old(tok).pos,
        match p_simple_body(old(tok).input@, old(tok).pos as int, GeomType::Polygon, dim) {
            Some((g, e)) => r is Ok && final(tok).pos == e && final(w).cells@ == old(w).cells@
                + encode(g, srid),
            None => wkt_fails(r, e_simple_body(old(tok).input@, old(tok).pos as int, GeomType::Polygon, dim)),
        },
{
    let ghost c0 = w.cells@;
    let cs = dim.coord_size();
    w.write_header(GeomType::Polygon, dim, srid);
    let ghost c1 = w.cells@;
    let empty = match tok.read_empty_or_lparen() {
        Ok(b) => b,
        Err(e) => return Err(e),
    };
    if empty {
        w.write_u32(0);
        proof {
            assert(enc_rings(Seq::<Seq<Seq<u64>>>::empty()) =~= Seq::<Cell>::empty());
            assert(w.cells@ =~= c0 + (enc_header(GeomType::Polygon, dim, srid) + enc_count(0) + enc_rings(Seq::<Seq<Seq<u64>>>::empty())));
        }
        return Ok(());
    }
    let ghost x = w.cells@;
    let at = w.reserve_u32();
    let ghost mid = w.cells@;
    let n = match read_rings(tok, w, cs) {
        Ok(n) => n,
        Err(e) => return Err(e),
    };
    proof {
        lemma_byte_cells(le4(0));
        let t = w.cells@.subrange(mid.len() as int, w.cells@.len() as int);
        assert(w.cells@ =~= x + byte_cells(le4(0)) + t);
        lemma_patch(x, t, n);
    }
    w.patch_u32(at, n);
    proof {
        let m = bounded(p_rings(old(tok).input@, p_empty_or_lparen(old(tok).input@, old(tok).pos as int).unwrap().1, dim_size(dim))).unwrap().0;
        assert(w.cells@ =~= c0 + (enc_header(GeomType::Polygon, dim, srid) + enc_count(m.len()) + enc_rings(m)));
    }
    Ok(())
}

/// Reads the body of a MultiPoint after its keyword and tag, writing header and body.
#[verifier::rlimit(40)]
fn parse_multi_point(
    tok: &mut Tokenizer,
    w: &mut WkbWriter,
    dim: Dimension,
    srid: Option<i32>,
) -> (r: Result<()>)
    requires
        old(tok).wf(),
    ensures
        final(tok).wf(),
        final(tok).input == old(tok).input,
        final(tok).pos >= old(tok).pos,
        match p_simple_body(old(tok).input@, old(tok).pos as int, GeomType::MultiPoint, dim) {
            Some((g, e)) => r is Ok && final(tok).pos == e && final(w).cells@ == old(w).cells@
                + encode(g, srid),
            None => wkt_fails(r, e_simple_body(old(tok).input@, old(tok).pos as int, GeomType::MultiPoint, dim)),
        },
{
    let ghost c0 = w.cells@;
    let cs = dim.coord_size();
    w.write_header(GeomType::MultiPoint, dim, srid);
    let ghost c1 = w.cells@;
    let empty = match tok.read_empty_or_lparen() {
        Ok(b) => b,
        Err(e) => return Err(e),
    };
    if empty {
        w.write_u32(0);
        proof {
            assert(enc_mp_members(dim, Seq::<Seq<u64>>::empty()) =~= Seq::<Cell>::empty());
            assert(w.cells@ =~= c0 + (enc_header(GeomType::MultiPoint, dim, srid) + enc_count(0) + enc_mp_members(dim, Seq::<Seq<u64>>::empty())));
        }
        return Ok(());
    }
    let ghost x = w.cells@;
    let at = w.reserve_u32();
    let ghost mid = w.cells@;
    let n = match read_mp_members(tok, w, dim) {
        Ok(n) => n,
        Err(e) => return Err(e),
    };
    proof {
        lemma_byte_cells(le4(0));
        let t = w.cells@.subrange(mid.len() as int, w.cells@.len() as int);
        assert(w.cells@ =~= x + byte_cells(le4(0)) + t);
        lemma_patch(x, t, n);
    }
    w.patch_u32(at, n);
    proof {
        let m = bounded(p_mp_members(old(tok).input@, p_empty_or_lparen(old(tok).input@, old(tok).pos as int).unwrap().1, dim_size(dim))).unwrap().0;
        assert(w.cells@ =~= c0 + (enc_header(GeomType::MultiPoint, dim, srid) + enc_count(m.len()) + enc_mp_members(dim, m)));
    }
    Ok(())
}

/// Reads the body of a MultiLineString after its keyword and tag, writing header and body.
#[verifier::rlimit(40)]
fn parse_multi_linestring(
    tok: &mut Tokenizer,
    w: &mut WkbWriter,
    dim: Dimension,
    srid: Option<i32>,
) -> (r: Result<()>)
    requires
        old(tok).wf(),
    ensures
        final(tok).wf(),
        final(tok).input == old(tok).input,
        final(tok).pos >= old(tok).pos,
        match p_simple_body(old(tok).input@, old(tok).pos as int, GeomType::MultiLineString, dim) {
            Some((g, e)) => r is Ok && final(tok).pos == e && final(w).cells@ == old(w).cells@
                + encode(g, srid),
            None => wkt_fails(r, e_simple_body(old(tok).input@, old(tok).pos as int, GeomType::MultiLineString, dim)),
        },
{
    let ghost c0 = w.cells@;
    let cs = dim.coord_size();
    w.write_header(GeomType::MultiLineString, dim, srid);
    let ghost c1 = w.cells@;
    let empty = match tok.read_empty_or_lparen() {
        Ok(b) => b,
        Err(e) => return Err(e),
    };
    if empty {
        w.write_u32(0);
        proof {
            assert(enc_mls_members(dim, Seq::<Seq<Seq<u64>>>::empty()) =~= Seq::<Cell>::empty());
            assert(w.cells@ =~= c0 + (enc_header(GeomType::MultiLineString, dim, srid) + enc_count(0) + enc_mls_members(dim, Seq::<Seq<Seq<u64>>>::empty())));
        }
        return Ok(());
    }
    let ghost x = w.cells@;
    let at = w.reserve_u32();
    let ghost mid = w.cells@;
    let n = match read_mls_members(tok, w, dim) {
        Ok(n) => n,
        Err(e) => return Err(e),
    };
    proof {
        lemma_byte_cells(le4(0));
        let t = w.cells@.subrange(mid.len() as int, w.cells@.len() as int);
        assert(w.cells@ =~= x + byte_cells(le4(0)) + t);
        lemma_patch(x, t, n);
    }
    w.patch_u32(at, n);
    proof {
        let m = bounded(p_mls_members(old(tok).input@, p_empty_or_lparen(old(tok).input@, old(tok).pos as int).unwrap().1, dim_size(dim))).unwrap().0;
        assert(w.cells@ =~= c0 + (enc_header(GeomType::MultiLineString, dim, srid) + enc_count(m.len()) + enc_mls_members(dim, m)));
    }
    Ok(())
}

/// Reads the body of a MultiPolygon after its keyword and tag, writing header and body.
#[verifier::rlimit(40)]
fn parse_multi_polygon(
    tok: &mut Tokenizer,
    w: &mut WkbWriter,
    dim: Dimension,
    srid: Option<i32>,
) -> (r: Result<()>)
    requires
        old(tok).wf(),
    ensures
        final(tok).wf(),
        final(tok).input == old(tok).input,
        final(tok).pos >= old(tok).pos,
        match p_simple_body(old(tok).input@, old(tok).pos as int, GeomType::MultiPolygon, dim) {
            Some((g, e)) => r is Ok && final(tok).pos == e && final(w).cells@ == old(w).cells@
                + encode(g, srid),
            None => wkt_fails(r, e_simple_body(old(tok).input@, old(tok).pos as int, GeomType::MultiPolygon, dim)),
        },
{
    let ghost c0 = w.cells@;
    let cs = dim.coord_size();
    w.write_header(GeomType::MultiPolygon, dim, srid);
    let ghost c1 = w.cells@;
    let empty = match tok.read_empty_or_lparen() {
        Ok(b) => b,
        Err(e) => return Err(e),
    };
    if empty {
        w.write_u32(0);
        proof {
            assert(enc_mpoly_members(dim, Seq::<Seq<Seq<Seq<u64>>>>::empty()) =~= Seq::<Cell>::empty());
            assert(w.cells@ =~= c0 + (enc_header(GeomType::MultiPolygon, dim, srid) + enc_count(0) + enc_mpoly_members(dim, Seq::<Seq<Seq<Seq<u64>>>>::empty())));
        }
        return Ok(());
    }
    let ghost x = w.cells@;
    let at = w.reserve_u32();
    let ghost mid = w.cells@;
    let n = match read_mpoly_members(tok, w, dim) {
        Ok(n) => n,
        Err(e) => return Err(e),
    };
    proof {
        lemma_byte_cells(le4(0));
        let t = w.cells@.subrange(mid.len() as int, w.cells@.len() as int);
        assert(w.cells@ =~= x + byte_cells(le4(0)) + t);
        lemma_patch(x, t, n);
    }
    w.patch_u32(at, n);
    proof {
        let m = bounded(p_mpoly_members(old(tok).input@, p_empty_or_lparen(old(tok).input@, old(tok).pos as int).unwrap().1, dim_size(dim))).unwrap().0;
        assert(w.cells@ =~= c0 + (enc_header(GeomType::MultiPolygon, dim, srid) + enc_count(m.len()) + enc_mpoly_members(dim, m)));
    }
    Ok(())
}

/// `EMPTY` or `(` read after whitespace: a `(` moves the position forward.
pub proof fn lemma_empty_or_lparen_advances(s: Seq<char>, q: int)
    requires
        0 <= q <= s.len(),
    ensures
        p_empty_or_lparen(s, q) matches Some((b, q1)) ==> q <= q1 <= s.len() && (!b ==> q < q1),
{
    lemma_skip_ws_bounds(s, q);
}

/// A body read for type `t` holds a shape of that type and dimension.
pub proof fn lemma_simple_body_shape(s: Seq<char>, p: int, t: GeomType, d: Dimension)
    requires
        t != GeomType::GeometryCollection,
        p_simple_body(s, p, t, d) is Some,
    ensures
        shape_type(p_simple_body(s, p, t, d).unwrap().0) == t,
        shape_dim(p_simple_body(s, p, t, d).unwrap().0) == d,
{
}

/// Reads collection members at depth `depth` through the closing `)`; returns
/// how many there were.
#[verifier::rlimit(40)]
fn read_members(tok: &mut Tokenizer, w: &mut WkbWriter, dim: Dimension, depth: usize) -> (r: Result<
    u32,
>)
    requires
        old(tok).wf(),
        depth < MAX_GEOMETRY_DEPTH,
    ensures
        final(tok).wf(),
        final(tok).input == old(tok).input,
        final(tok).pos >= old(tok).pos,
        match bounded(p_members(old(tok).input@, old(tok).pos as int, dim, depth as nat)) {
            Some((ms, e)) => r == Result::<u32>::Ok(ms.len() as u32) && final(tok).pos == e
                && final(w).cells@ == old(w).cells@ + enc_members(ms),
            None => wkt_fails(r, e_members(old(tok).input@, old(tok).pos as int, dim, depth as nat, 0)),
        },
    decreases MAX_GEOMETRY_DEPTH - depth, 0int,
{
    let ghost s = tok.input@;
    let ghost p0 = tok.pos as int;
    let ghost c0 = w.cells@;
    let ghost mut acc: Seq<Shape> = seq![];
    let mut count: u32 = 0;
    proof {
        lemma_prepend_empty(p_members(s, p0, dim, depth as nat));
    }
    loop
        invariant
            tok.wf(),
            tok.input == old(tok).input,
            s == old(tok).input@,
            p0 == old(tok).pos,
            depth < MAX_GEOMETRY_DEPTH,
            old(tok).pos <= tok.pos,
            count == acc.len(),
            e_members(s, p0, dim, depth as nat, 0) == e_members(s, tok.pos as int, dim, depth as nat, count as nat),
            p_members(s, p0, dim, depth as nat) == prepend(
                acc,
                p_members(s, tok.pos as int, dim, depth as nat),
            ),
            c0 == old(w).cells@,
            w.cells@ == c0 + enc_members(acc),
        decreases s.len() - tok.pos,
    {
        let ghost pc = tok.pos as int;
        let ghost k0 = count as nat;
        let (_, child_dim) = match parse_geometry_at_depth(tok, w, None, depth + 1) {
            Ok(v) => v,
            Err(e) => return Err(e),
        };
        let ghost g = p_geometry(s, pc, (depth + 1) as nat).unwrap().0;
        if dim != Dimension::XY && child_dim != dim {
            let mut msg: Vec<char> = Vec::new();
            crate::error::push_chars(&mut msg, "GeometryCollection ");
            crate::error::push_chars(&mut msg, crate::types::dim_label_str(dim));
            crate::error::push_chars(&mut msg, " member has incompatible dimension ");
            crate::error::push_chars(&mut msg, crate::types::dim_label_str(child_dim));
            assert(msg@ =~= e_dim(dim, child_dim));
            return Err(crate::error::wkt_error_from(msg.as_slice()));
        }
        match increment_count(&mut count, "GeometryCollection members") {
            Ok(()) => {},
            Err(e) => return Err(e),
        }
        match tok.read_comma_or_rparen() {
            Ok(true) => {
                proof {
                    assert(e_members(s, pc, dim, depth as nat, k0) == e_members(s, tok.pos as int, dim, depth as nat, count as nat));
                    assert(p_members(s, pc, dim, depth as nat) == prepend(
                        seq![g],
                        p_members(s, tok.pos as int, dim, depth as nat),
                    ));
                    lemma_prepend(acc, seq![g], p_members(s, tok.pos as int, dim, depth as nat));
                    assert(acc + seq![g] =~= acc.push(g));
                    assert(acc.push(g).drop_last() =~= acc);
                    acc = acc.push(g);
                    assert(w.cells@ =~= c0 + enc_members(acc));
                }
            },
            Ok(false) => {
                proof {
                    assert(p_members(s, pc, dim, depth as nat) == Some((seq![g], tok.pos as int)));
                    assert(acc + seq![g] =~= acc.push(g));
                    assert(p_members(s, p0, dim, depth as nat) == Some((acc.push(g), tok.pos as int)));
                    assert(acc.push(g).drop_last() =~= acc);
                    assert(w.cells@ =~= c0 + enc_members(acc.push(g)));
                    assert(count as int == acc.push(g).len());
                    assert(acc.push(g).len() as u32 == count);
                }
                return Ok(count);
            },
            Err(e) => return Err(e),
        }
    }
}

/// Reads the body of a GeometryCollection at depth `depth` after its keyword
/// and tag, writing header and members.
#[verifier::rlimit(40)]
fn parse_collection(
    tok: &mut Tokenizer,
    w: &mut WkbWriter,
    dim: Dimension,
    srid: Option<i32>,
    depth: usize,
) -> (r: Result<()>)
    requires
        old(tok).wf(),
        depth < MAX_GEOMETRY_DEPTH,
    ensures
        final(tok).wf(),
        final(tok).input == old(tok).input,
        final(tok).pos >= old(tok).pos,
        match p_empty_or_lparen(old(tok).input@, old(tok).pos as int) {
            Some((true, q1)) => r is Ok && final(tok).pos == q1 && final(w).cells@ == old(w).cells@
                + encode(Shape::Collection(dim, seq![]), srid),
            Some((false, q1)) => match bounded(p_members(old(tok).input@, q1, dim, depth as nat)) {
                Some((ms, e)) => r is Ok && final(tok).pos == e && final(w).cells@ == old(w).cells@
                    + encode(Shape::Collection(dim, ms), srid),
                None => wkt_fails(r, e_members(old(tok).input@, q1, dim, depth as nat, 0)),
            },
            None => wkt_fails(r, e_empty_or_lparen(old(tok).input@, old(tok).pos as int)),
        },
    decreases MAX_GEOMETRY_DEPTH - depth, 1int,
{
    let ghost c0 = w.cells@;
    w.write_header(GeomType::GeometryCollection, dim, srid);
    let empty = match tok.read_empty_or_lparen() {
        Ok(b) => b,
        Err(e) => return Err(e),
    };
    if empty {
        w.write_u32(0);
        proof {
            assert(enc_members(Seq::<Shape>::empty()) =~= Seq::<Cell>::empty());
            assert(w.cells@ =~= c0 + (enc_header(GeomType::GeometryCollection, dim, srid)
                + enc_count(0) + enc_members(Seq::<Shape>::empty())));
        }
        return Ok(());
    }
    let ghost x = w.cells@;
    let at = w.reserve_u32();
    let ghost mid = w.cells@;
    let ghost q1 = tok.pos as int;
    let n = match read_members(tok, w, dim, depth) {
        Ok(n) => n,
        Err(e) => return Err(e),
    };
    proof {
        lemma_byte_cells(le4(0));
        let t = w.cells@.subrange(mid.len() as int, w.cells@.len() as int);
        assert(w.cells@ =~= x + byte_cells(le4(0)) + t);
        lemma_patch(x, t, n);
    }
    w.patch_u32(at, n);
    proof {
        let ms = bounded(p_members(tok.input@, q1, dim, depth as nat)).unwrap().0;
        assert(w.cells@ =~= c0 + (enc_header(GeomType::GeometryCollection, dim, srid) + enc_count(
            ms.len(),
        ) + enc_members(ms)));
    }
    Ok(())
}

/// Reads one geometry with keyword at nesting depth `depth` and writes it;
/// returns its type and dimension.
#[verifier::rlimit(40)]
fn parse_geometry_at_depth(
    tok: &mut Tokenizer,
    w: &mut WkbWriter,
    srid: Option<i32>,
    depth: usize,
) -> (r: Result<(GeomType, Dimension)>)
    requires
        old(tok).wf(),
        depth <= MAX_GEOMETRY_DEPTH,
    ensures
        final(tok).wf(),
        final(tok).input == old(tok).input,
        final(tok).pos >= old(tok).pos,
        match p_geometry(old(tok).input@, old(tok).pos as int, depth as nat) {
            Some((g, e)) => r == Result::<(GeomType, Dimension)>::Ok((shape_type(g), shape_dim(g)))
                && final(tok).pos == e && final(w).cells@ == old(w).cells@ + encode(g, srid),
            None => wkt_fails(r, e_geometry(old(tok).input@, old(tok).pos as int, depth as nat)),
        },
    decreases MAX_GEOMETRY_DEPTH - depth, 2int,
{
    if depth >= MAX_GEOMETRY_DEPTH {
        return Err(wkt_error("geometry nesting exceeds maximum depth of 128"));
    }
    let ghost s = tok.input@;
    let ghost p0 = tok.pos as int;
    let (t, dim) = match tok.read_type_and_dim() {
        Ok(v) => v,
        Err(e) => return Err(e),
    };
    let ghost q = tok.pos as int;
    let res = match t {
        GeomType::Point => parse_point(tok, w, dim, srid),
        GeomType::LineString => parse_linestring(tok, w, dim, srid),
        GeomType::Polygon => parse_polygon(tok, w, dim, srid),
        GeomType::MultiPoint => parse_multi_point(tok, w, dim, srid),
        GeomType::MultiLineString => parse_multi_linestring(tok, w, dim, srid),
        GeomType::MultiPolygon => parse_multi_polygon(tok, w, dim, srid),
        GeomType::GeometryCollection => {
            proof {
                lemma_empty_or_lparen_advances(s, q);
            }
            parse_collection(tok, w, dim, srid, depth)
        },
    };
    match res {
        Ok(()) => {},
        Err(e) => return Err(e),
    }
    proof {
        if t != GeomType::GeometryCollection {
            lemma_simple_body_shape(s, q, t, dim);
        }
    }
    Ok((t, dim))
}

/// Most cells a writer reserves room for up front.
pub const MAX_INITIAL_WKB_CAPACITY: usize = 16777216;

/// Room to reserve for the output of a text of `wkt_len` characters.
pub fn initial_wkb_capacity(wkt_len: usize) -> (r: usize)
    ensures
        r == if wkt_len < MAX_INITIAL_WKB_CAPACITY {
            wkt_len
        } else {
            MAX_INITIAL_WKB_CAPACITY
        },
{
    if wkt_len < MAX_INITIAL_WKB_CAPACITY {
        wkt_len
    } else {
        MAX_INITIAL_WKB_CAPACITY
    }
}

/// Adds one to a count of `what`; fails with `InvalidWkt` when the count
/// would pass `u32::MAX`, leaving it unchanged.
pub fn increment_count(count: &mut u32, what: &str) -> (r: Result<()>)
    ensures
        *old(count) < u32::MAX ==> r is Ok && *final(count) == *old(count) + 1,
        *old(count) == u32::MAX ==> wkt_fails(r, too_many(what@)) && *final(count) == *old(count),
{
    if *count == u32::MAX {
        let mut msg: Vec<char> = Vec::new();
        push_chars(&mut msg, "too many ");
        push_chars(&mut msg, what);
        return Err(Error::InvalidWkt(string_from_chars(msg.as_slice())));
    }
    *count = *count + 1;
    Ok(())
}

/// The cells a WKT text converts to under `mode`, and the SRID of its prefix.
pub open spec fn wkt_result(s: Seq<char>, mode: SridMode) -> Option<(Seq<Cell>, Option<i32>)> {
    match parse_wkt(s) {
        Some((g, sr)) => Some((encode(g, out_srid(mode, sr)), sr)),
        None => None,
    }
}

/// Parses a whole WKT/EWKT text and writes its EWKB cells, the SRID chosen by
/// `mode`; also returns the SRID of the text's prefix.
pub fn convert_cells(input: Vec<char>, mode: SridMode) -> (r: Result<(Vec<Cell>, Option<i32>)>)
    ensures
        match wkt_result(input@, mode) {
            Some((c, sr)) => r matches Ok((v, s2)) && v@ == c && s2 == sr,
            None => wkt_fails(r, e_parse(input@)),
        },
{
    let mode = normalise_srid_mode(mode);
    let cap = initial_wkb_capacity(input.len());
    let mut tok = Tokenizer::from_chars(input);
    let sr = match tok.read_srid_prefix() {
        Ok(v) => v,
        Err(e) => return Err(e),
    };
    let out = match mode {
        SridMode::Auto => sr,
        SridMode::Strip => None,
        SridMode::Force(n) => Some(n),
    };
    let mut w = WkbWriter::with_capacity(cap);
    match parse_geometry_at_depth(&mut tok, &mut w, out, 0) {
        Ok(_) => {},
        Err(e) => return Err(e),
    }
    match tok.expect_eof() {
        Ok(()) => {},
        Err(e) => return Err(e),
    }
    Ok((w.into_bytes(), sr))
}

} // verus!
