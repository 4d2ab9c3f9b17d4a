//! Laws on re-encoding WKB, which writes the decoded geometry as WKT with
//! placeholder numbers, parses it back and writes the input's values into
//! the new bytes: the result holds the same geometry.
use crate::header::{mode_of, placeholder, placeholder_text, reencoded};
use crate::laws::{encodable, law_decode_encode};
use crate::model::{
    byte_cells, coords_of, enc_count, enc_header, enc_members, enc_mls_members, enc_mp_members,
    enc_mpoly_members, enc_nan_tuple, enc_point_body, enc_rings, enc_tuple, enc_tuples, encode,
    flatten, flatten_bits, is_finite, lit, num_count, num_payloads, r_empty, r_geom_body, r_members,
    r_mls_member, r_mls_members, r_mp_member, r_mp_members, r_mpoly_member, r_mpoly_members, r_ring,
    r_rings, r_tuple, r_tuples, render, render_text, shape_dim, shape_type, Cell, Shape, WktPart,
};
use crate::render_laws::{
    lemma_coords_add, lemma_render_text_prefix, lemma_text_add, lemma_text_coord,
    lemma_written_wkt_parses, read_value, text_of, composed, wkt_readable,
};
use crate::types::{dim_size, dim_tag, keyword_of, out_srid, GeomType};
use crate::value_laws::{lemma_map_encode, map_cells};
use crate::wkb_to_wkt::reader::decode;
use crate::wkt_to_wkb::grammar::parse_wkt;
use crate::wkt_to_wkb::wkt_result;
use crate::error::Fault;
use vstd::prelude::*;

verus! {

// ---------------------------------------------------------------- placeholder text

/// Every coordinate of the geometry is finite.
pub open spec fn finite_coords(g: Shape) -> bool {
    forall|i: int|
        0 <= i < coords_of(render(g)).len() ==> is_finite(#[trigger] coords_of(render(g))[i])
}

/// The placeholder of each value.
pub open spec fn placeholders() -> spec_fn(u64) -> Seq<char> {
    |v: u64| placeholder(v)
}

/// `0` for every value.
pub open spec fn zero_text() -> spec_fn(u64) -> Seq<char> {
    |v: u64| seq!['0']
}

/// The value 0 for every text.
pub open spec fn zero_value() -> spec_fn(Seq<char>) -> u64 {
    |x: Seq<char>| 0u64
}

pub proof fn lemma_text_char(c: u8, fmt: spec_fn(u64) -> Seq<char>)
    ensures
        text_of(seq![WktPart::Char(c)], fmt) == seq![c as char],
{
    let one = seq![WktPart::Char(c)];
    let e = Seq::<WktPart>::empty();
    assert(one.drop_last() =~= e);
    assert(coords_of(e) == Seq::<u64>::empty());
    assert(coords_of(one) =~= Seq::<u64>::empty());
    assert(render_text(e, coords_of(one).map_values(fmt)) == Seq::<char>::empty());
    assert(text_of(one, fmt) =~= seq![c as char]);
}

/// Placeholder text is the text of the parts with placeholders as formatting.
pub proof fn lemma_placeholder_text(p: Seq<WktPart>)
    ensures
        placeholder_text(p) == text_of(p, placeholders()),
    decreases p.len(),
{
    if p.len() == 0 {
        assert(text_of(p, placeholders()) == Seq::<char>::empty());
    } else {
        let p0 = p.drop_last();
        let x = p.last();
        lemma_placeholder_text(p0);
        assert(p0 + seq![x] =~= p);
        lemma_text_add(p0, seq![x], placeholders());
        match x {
            WktPart::Coord(v) => lemma_text_coord(v, placeholders()),
            WktPart::Char(c) => lemma_text_char(c, placeholders()),
        }
    }
}

/// Texts of the same parts under formattings that agree on their coordinates.
pub proof fn lemma_text_agree(p: Seq<WktPart>, f1: spec_fn(u64) -> Seq<char>, f2: spec_fn(u64) -> Seq<char>)
    requires
        forall|i: int| 0 <= i < coords_of(p).len() ==> f1(#[trigger] coords_of(p)[i]) == f2(coords_of(p)[i]),
    ensures
        text_of(p, f1) == text_of(p, f2),
{
    crate::draft::lemma_coords_len(p);
    let a = coords_of(p).map_values(f1);
    let b = coords_of(p).map_values(f2);
    assert forall|i: int| 0 <= i < crate::model::coord_count(p) implies #[trigger] a[i] == b[i] by {
        assert(f1(coords_of(p)[i]) == f2(coords_of(p)[i]));
    }
    lemma_render_text_prefix(p, a, b);
}

// ---------------------------------------------------------------- cells of the same shape

/// Cells that agree once every number is given the same value: bytes written
/// from the first with the numbers of the second are the bytes of the second.
pub proof fn lemma_same_skeleton_cells(
    c1: Seq<Cell>,
    c2: Seq<Cell>,
    z: spec_fn(u64) -> u64,
    vals: Seq<u64>,
)
    requires
        map_cells(c1, z) == map_cells(c2, z),
        vals.len() >= num_count(c2),
        forall|j: int| 0 <= j < num_count(c2) ==> vals[j] == #[trigger] num_payloads(c2)[j],
    ensures
        num_count(c1) == num_count(c2),
        flatten(c1, vals) == flatten_bits(c2),
    decreases c1.len(),
{
    assert(c1.len() == map_cells(c1, z).len());
    assert(c2.len() == map_cells(c2, z).len());
    if c1.len() > 0 {
        let a = c1.drop_last();
        let b = c2.drop_last();
        assert(map_cells(a, z) =~= map_cells(c1, z).drop_last());
        assert(map_cells(b, z) =~= map_cells(c2, z).drop_last());
        crate::parse_laws::lemma_payloads_len(b);
        crate::parse_laws::lemma_payloads_len(c2);
        assert forall|j: int| 0 <= j < num_count(b) implies vals[j] == #[trigger] num_payloads(b)[j] by {
            assert(num_payloads(c2)[j] == num_payloads(b)[j]);
        }
        lemma_same_skeleton_cells(a, b, z, vals);
        let k = c1.len() - 1;
        assert(map_cells(c1, z)[k] == map_cells(c2, z)[k]);
        let x1 = c1.last();
        let x2 = c2.last();
        assert(c1[k] == x1 && c2[k] == x2);
        assert(map_cells(c1, z)[k] == crate::value_laws::map_cell(c1[k], z));
        assert(map_cells(c2, z)[k] == crate::value_laws::map_cell(c2[k], z));
        assert(crate::value_laws::map_cell(x1, z) == crate::value_laws::map_cell(x2, z));
        match x2 {
            Cell::Num(v) => {
                assert(x1 is Num);
                assert(num_payloads(c2)[num_count(b) as int] == v);
                assert(num_count(c1) == num_count(a) + 1);
                assert(flatten(c1, vals) == flatten(a, vals) + crate::model::le8(vals[num_count(a) as int]));
            },
            Cell::Byte(y) => {
                assert(x1 == Cell::Byte(y));
            },
        }
    }
}

// ---------------------------------------------------------------- numbers in order

pub proof fn lemma_payloads_add(a: Seq<Cell>, b: Seq<Cell>)
    ensures
        num_payloads(a + b) == num_payloads(a) + num_payloads(b),
    decreases b.len(),
{
    if b.len() == 0 {
        assert(a + b =~= a);
        assert(num_payloads(a) + num_payloads(b) =~= num_payloads(a));
    } else {
        lemma_payloads_add(a, b.drop_last());
        assert((a + b).drop_last() =~= a + b.drop_last());
        assert(num_payloads(a + b) =~= num_payloads(a) + num_payloads(b));
    }
}

pub proof fn lemma_payloads_bytes(x: Seq<u8>)
    ensures
        num_payloads(byte_cells(x)) == Seq::<u64>::empty(),
    decreases x.len(),
{
    if x.len() > 0 {
        lemma_payloads_bytes(x.drop_last());
        assert(byte_cells(x).drop_last() =~= byte_cells(x.drop_last()));
        assert(num_payloads(byte_cells(x)) =~= Seq::<u64>::empty());
    }
}

pub proof fn lemma_coords_lit(w: Seq<char>)
    ensures
        coords_of(lit(w)) == Seq::<u64>::empty(),
    decreases w.len(),
{
    if w.len() > 0 {
        lemma_coords_lit(w.drop_last());
        assert(lit(w).drop_last() =~= lit(w.drop_last()));
        assert(coords_of(lit(w)) =~= Seq::<u64>::empty());
    }
}

pub proof fn lemma_payloads_nan(n: nat)
    ensures
        num_payloads(enc_nan_tuple(n)) == Seq::<u64>::empty(),
    decreases n,
{
    if n > 0 {
        lemma_payloads_nan((n - 1) as nat);
        let x = crate::model::le8(crate::model::nan_bits());
        lemma_payloads_add(enc_nan_tuple((n - 1) as nat), byte_cells(x));
        lemma_payloads_bytes(x);
        assert(Seq::<u64>::empty() + Seq::<u64>::empty() =~= Seq::<u64>::empty());
    }
}

pub proof fn lemma_payloads_header(t: GeomType, d: crate::types::Dimension, srid: Option<i32>)
    ensures
        num_payloads(enc_header(t, d, srid)) == Seq::<u64>::empty(),
        num_payloads(enc_count(0)) == Seq::<u64>::empty(),
{
    lemma_payloads_bytes(
        seq![1u8] + crate::model::le4(crate::model::type_word(t, d, srid.is_some())) + match srid {
            Some(s) => crate::model::le4(s as u32),
            None => seq![],
        },
    );
    lemma_payloads_bytes(crate::model::le4(0u32));
}

pub proof fn lemma_payloads_count(n: nat)
    ensures
        num_payloads(enc_count(n)) == Seq::<u64>::empty(),
{
    lemma_payloads_bytes(crate::model::le4(n as u32));
}

/// Parts joined: the coordinates of `a`, of `, `, of `b`.
pub proof fn lemma_coords_join(a: Seq<WktPart>, b: Seq<WktPart>)
    ensures
        coords_of(a + crate::model::comma_sep() + b) == coords_of(a) + coords_of(b),
{
    lemma_coords_add(a + crate::model::comma_sep(), b);
    lemma_coords_add(a, crate::model::comma_sep());
    lemma_coords_lit(seq![',', ' ']);
    assert(coords_of(a) + Seq::<u64>::empty() =~= coords_of(a));
}

/// Parts wrapped: the coordinates of `inner`.
pub proof fn lemma_coords_wrap(open: Seq<char>, inner: Seq<WktPart>, close: Seq<char>)
    ensures
        coords_of(lit(open) + inner + lit(close)) == coords_of(inner),
{
    lemma_coords_add(lit(open) + inner, lit(close));
    lemma_coords_add(lit(open), inner);
    lemma_coords_lit(open);
    lemma_coords_lit(close);
    assert(Seq::<u64>::empty() + coords_of(inner) + Seq::<u64>::empty() =~= coords_of(inner));
}

pub proof fn lemma_order_tuple(c: Seq<u64>)
    ensures
        num_payloads(enc_tuple(c)) == c,
        coords_of(r_tuple(c)) == c,
    decreases c.len(),
{
    if c.len() > 0 {
        let c0 = c.drop_last();
        lemma_order_tuple(c0);
        assert(enc_tuple(c).drop_last() =~= enc_tuple(c0));
        assert(num_payloads(enc_tuple(c)) =~= c);
        if c.len() == 1 {
            let p = seq![WktPart::Coord(c[0])];
            assert(p.drop_last() =~= Seq::<WktPart>::empty());
            assert(coords_of(p) =~= c);
        } else {
            let tail = seq![WktPart::Char(32u8), WktPart::Coord(c.last())];
            lemma_coords_add(r_tuple(c0), tail);
            assert(tail.drop_last() =~= seq![WktPart::Char(32u8)]);
            assert(seq![WktPart::Char(32u8)].drop_last() =~= Seq::<WktPart>::empty());
            assert(coords_of(Seq::<WktPart>::empty()) == Seq::<u64>::empty());
            assert(coords_of(seq![WktPart::Char(32u8)]) =~= Seq::<u64>::empty());
            assert(coords_of(tail) =~= seq![c.last()]);
            assert(coords_of(r_tuple(c)) =~= c);
        }
    }
}

pub proof fn lemma_order_point_body(d: crate::types::Dimension, c: Seq<u64>)
    ensures
        num_payloads(enc_point_body(d, c)) == c,
{
    if c.len() == 0 {
        lemma_payloads_nan(dim_size(d));
    } else {
        lemma_order_tuple(c);
    }
}

pub proof fn lemma_order_tuples(pts: Seq<Seq<u64>>)
    ensures
        num_payloads(enc_tuples(pts)) == coords_of(r_tuples(pts)),
    decreases pts.len(),
{
    if pts.len() == 0 {
        assert(coords_of(Seq::<WktPart>::empty()) == Seq::<u64>::empty());
    } else {
        let p0 = pts.drop_last();
        lemma_order_tuples(p0);
        lemma_order_tuple(pts.last());
        lemma_payloads_add(enc_tuples(p0), enc_tuple(pts.last()));
        if pts.len() == 1 {
            assert(p0 =~= Seq::<Seq<u64>>::empty());
            assert(num_payloads(enc_tuples(p0)) == Seq::<u64>::empty());
            assert(num_payloads(enc_tuples(pts)) =~= pts[0]);
        } else {
            lemma_coords_join(r_tuples(p0), r_tuple(pts.last()));
        }
    }
}

pub proof fn lemma_order_rings(rs: Seq<Seq<Seq<u64>>>)
    ensures
        num_payloads(enc_rings(rs)) == coords_of(r_rings(rs)),
    decreases rs.len(),
{
    if rs.len() == 0 {
        assert(coords_of(Seq::<WktPart>::empty()) == Seq::<u64>::empty());
    } else {
        let r0 = rs.drop_last();
        let r = rs.last();
        lemma_order_rings(r0);
        lemma_order_tuples(r);
        lemma_payloads_count(r.len());
        lemma_payloads_add(enc_rings(r0) + enc_count(r.len()), enc_tuples(r));
        lemma_payloads_add(enc_rings(r0), enc_count(r.len()));
        lemma_coords_wrap(seq!['('], r_tuples(r), seq![')']);
        assert(num_payloads(enc_rings(rs)) =~= num_payloads(enc_rings(r0)) + coords_of(r_ring(r)));
        if rs.len() == 1 {
            assert(r0 =~= Seq::<Seq<Seq<u64>>>::empty());
            assert(num_payloads(enc_rings(rs)) =~= coords_of(r_ring(rs[0])));
        } else {
            lemma_coords_join(r_rings(r0), r_ring(r));
        }
    }
}

pub proof fn lemma_order_mp_members(d: crate::types::Dimension, ms: Seq<Seq<u64>>)
    ensures
        num_payloads(enc_mp_members(d, ms)) == coords_of(r_mp_members(ms)),
    decreases ms.len(),
{
    if ms.len() == 0 {
        assert(coords_of(Seq::<WktPart>::empty()) == Seq::<u64>::empty());
    } else {
        let m0 = ms.drop_last();
        let m = ms.last();
        let h = enc_header(GeomType::Point, d, None);
        lemma_order_mp_members(d, m0);
        lemma_order_point_body(d, m);
        lemma_payloads_header(GeomType::Point, d, None);
        lemma_payloads_add(enc_mp_members(d, m0) + h, enc_point_body(d, m));
        lemma_payloads_add(enc_mp_members(d, m0), h);
        if m.len() == 0 {
            lemma_coords_lit(crate::model::empty_word());
        } else {
            lemma_order_tuple(m);
            lemma_coords_wrap(seq!['('], r_tuple(m), seq![')']);
        }
        assert(num_payloads(enc_mp_members(d, ms)) =~= num_payloads(enc_mp_members(d, m0))
            + coords_of(r_mp_member(m)));
        if ms.len() == 1 {
            assert(m0 =~= Seq::<Seq<u64>>::empty());
            assert(num_payloads(enc_mp_members(d, ms)) =~= coords_of(r_mp_member(ms[0])));
        } else {
            lemma_coords_join(r_mp_members(m0), r_mp_member(m));
        }
    }
}

pub proof fn lemma_order_mls_members(d: crate::types::Dimension, ms: Seq<Seq<Seq<u64>>>)
    ensures
        num_payloads(enc_mls_members(d, ms)) == coords_of(r_mls_members(ms)),
    decreases ms.len(),
{
    if ms.len() == 0 {
        assert(coords_of(Seq::<WktPart>::empty()) == Seq::<u64>::empty());
    } else {
        let m0 = ms.drop_last();
        let m = ms.last();
        let h = enc_header(GeomType::LineString, d, None);
        let k = enc_count(m.len());
        lemma_order_mls_members(d, m0);
        lemma_order_tuples(m);
        lemma_payloads_header(GeomType::LineString, d, None);
        lemma_payloads_count(m.len());
        lemma_payloads_add(enc_mls_members(d, m0) + h + k, enc_tuples(m));
        lemma_payloads_add(enc_mls_members(d, m0) + h, k);
        lemma_payloads_add(enc_mls_members(d, m0), h);
        if m.len() == 0 {
            lemma_coords_lit(crate::model::empty_word());
            assert(m =~= Seq::<Seq<u64>>::empty());
            assert(num_payloads(enc_tuples(m)) == Seq::<u64>::empty());
        } else {
            lemma_coords_wrap(seq!['('], r_tuples(m), seq![')']);
        }
        assert(num_payloads(enc_mls_members(d, ms)) =~= num_payloads(enc_mls_members(d, m0))
            + coords_of(r_mls_member(m)));
        if ms.len() == 1 {
            assert(m0 =~= Seq::<Seq<Seq<u64>>>::empty());
            assert(num_payloads(enc_mls_members(d, ms)) =~= coords_of(r_mls_member(ms[0])));
        } else {
            lemma_coords_join(r_mls_members(m0), r_mls_member(m));
        }
    }
}

pub proof fn lemma_order_mpoly_members(d: crate::types::Dimension, ms: Seq<Seq<Seq<Seq<u64>>>>)
    ensures
        num_payloads(enc_mpoly_members(d, ms)) == coords_of(r_mpoly_members(ms)),
    decreases ms.len(),
{
    if ms.len() == 0 {
        assert(coords_of(Seq::<WktPart>::empty()) == Seq::<u64>::empty());
    } else {
        let m0 = ms.drop_last();
        let m = ms.last();
        let h = enc_header(GeomType::Polygon, d, None);
        let k = enc_count(m.len());
        lemma_order_mpoly_members(d, m0);
        lemma_order_rings(m);
        lemma_payloads_header(GeomType::Polygon, d, None);
        lemma_payloads_count(m.len());
        lemma_payloads_add(enc_mpoly_members(d, m0) + h + k, enc_rings(m));
        lemma_payloads_add(enc_mpoly_members(d, m0) + h, k);
        lemma_payloads_add(enc_mpoly_members(d, m0), h);
        if m.len() == 0 {
            lemma_coords_lit(crate::model::empty_word());
            assert(m =~= Seq::<Seq<Seq<u64>>>::empty());
            assert(num_payloads(enc_rings(m)) == Seq::<u64>::empty());
        } else {
            lemma_coords_wrap(seq!['('], r_rings(m), seq![')']);
        }
        assert(num_payloads(enc_mpoly_members(d, ms)) =~= num_payloads(enc_mpoly_members(d, m0))
            + coords_of(r_mpoly_member(m)));
        if ms.len() == 1 {
            assert(m0 =~= Seq::<Seq<Seq<Seq<u64>>>>::empty());
            assert(num_payloads(enc_mpoly_members(d, ms)) =~= coords_of(r_mpoly_member(ms[0])));
        } else {
            lemma_coords_join(r_mpoly_members(m0), r_mpoly_member(m));
        }
    }
}

/// The numbers that encoding writes are the coordinates that rendering
/// writes, in the same order.
pub proof fn lemma_order_encode(g: Shape, srid: Option<i32>)
    ensures
        num_payloads(encode(g, srid)) == coords_of(render(g)),
    decreases g, 1nat,
{
    let h = enc_header(shape_type(g), shape_dim(g), srid);
    lemma_payloads_header(shape_type(g), shape_dim(g), srid);
    crate::laws::lemma_encode_split(g, srid);
    lemma_payloads_add(h, crate::laws::enc_body(g));
    crate::model::lemma_render_split(g);
    let kw = lit(keyword_of(shape_type(g)));
    let tag = lit(dim_tag(shape_dim(g)));
    lemma_coords_add(kw + tag, r_geom_body(g));
    lemma_coords_add(kw, tag);
    lemma_coords_lit(keyword_of(shape_type(g)));
    lemma_coords_lit(dim_tag(shape_dim(g)));
    lemma_coords_wrap(seq![' '], seq![], crate::model::empty_word());
    assert(lit(seq![' ']) + Seq::<WktPart>::empty() =~= lit(seq![' ']));
    assert(coords_of(r_empty()) == Seq::<u64>::empty());
    match g {
        Shape::Point(d, c) => {
            lemma_order_point_body(d, c);
            lemma_order_tuple(c);
            lemma_coords_wrap(seq![' ', '('], r_tuple(c), seq![')']);
        },
        Shape::LineString(d, pts) => {
            lemma_payloads_count(pts.len());
            lemma_order_tuples(pts);
            lemma_payloads_add(enc_count(pts.len()), enc_tuples(pts));
            lemma_coords_wrap(seq![' ', '('], r_tuples(pts), seq![')']);
            if pts.len() == 0 {
                assert(num_payloads(enc_tuples(pts)) == Seq::<u64>::empty());
            }
        },
        Shape::Polygon(d, rs) => {
            lemma_payloads_count(rs.len());
            lemma_order_rings(rs);
            lemma_payloads_add(enc_count(rs.len()), enc_rings(rs));
            lemma_coords_wrap(seq![' ', '('], r_rings(rs), seq![')']);
            if rs.len() == 0 {
                assert(num_payloads(enc_rings(rs)) == Seq::<u64>::empty());
            }
        },
        Shape::MultiPoint(d, ms) => {
            lemma_payloads_count(ms.len());
            lemma_order_mp_members(d, ms);
            lemma_payloads_add(enc_count(ms.len()), enc_mp_members(d, ms));
            lemma_coords_wrap(seq![' ', '('], r_mp_members(ms), seq![')']);
            if ms.len() == 0 {
                assert(num_payloads(enc_mp_members(d, ms)) == Seq::<u64>::empty());
            }
        },
        Shape::MultiLineString(d, ms) => {
            lemma_payloads_count(ms.len());
            lemma_order_mls_members(d, ms);
            lemma_payloads_add(enc_count(ms.len()), enc_mls_members(d, ms));
            lemma_coords_wrap(seq![' ', '('], r_mls_members(ms), seq![')']);
            if ms.len() == 0 {
                assert(num_payloads(enc_mls_members(d, ms)) == Seq::<u64>::empty());
            }
        },
        Shape::MultiPolygon(d, ms) => {
            lemma_payloads_count(ms.len());
            lemma_order_mpoly_members(d, ms);
            lemma_payloads_add(enc_count(ms.len()), enc_mpoly_members(d, ms));
            lemma_coords_wrap(seq![' ', '('], r_mpoly_members(ms), seq![')']);
            if ms.len() == 0 {
                assert(num_payloads(enc_mpoly_members(d, ms)) == Seq::<u64>::empty());
            }
        },
        Shape::Collection(d, ms) => {
            lemma_payloads_count(ms.len());
            lemma_order_members(ms);
            lemma_payloads_add(enc_count(ms.len()), enc_members(ms));
            lemma_coords_wrap(seq![' ', '('], r_members(ms), seq![')']);
            if ms.len() == 0 {
                assert(num_payloads(enc_members(ms)) == Seq::<u64>::empty());
            }
        },
    }
}

pub proof fn lemma_order_members(ms: Seq<Shape>)
    ensures
        num_payloads(enc_members(ms)) == coords_of(r_members(ms)),
    decreases ms, 0nat,
{
    if ms.len() == 0 {
        assert(coords_of(Seq::<WktPart>::empty()) == Seq::<u64>::empty());
    } else {
        let m0 = ms.drop_last();
        let m = ms.last();
        lemma_order_members(m0);
        lemma_order_encode(m, None);
        lemma_payloads_add(enc_members(m0), encode(m, None));
        if ms.len() == 1 {
            assert(m0 =~= Seq::<Shape>::empty());
            assert(num_payloads(enc_members(m0)) == Seq::<u64>::empty());
            assert(num_payloads(enc_members(ms)) =~= coords_of(render(ms[0])));
        } else {
            lemma_coords_join(r_members(m0), render(m));
        }
    }
}

// ---------------------------------------------------------------- the law

/// A geometry that re-encoding gives back: one that WKB holds as it is, with
/// finite coordinates, rings that hold a point, collections with Z or M whose
/// members declare that dimension, and placeholder text that fits in memory.
pub open spec fn reencodable(g: Shape) -> bool {
    &&& encodable(g, 0)
    &&& wkt_readable(g)
    &&& finite_coords(g)
    &&& placeholder_text(render(g)).len() <= u64::MAX
}

/// Re-encoding keeps the geometry: WKB whose geometry WKB can hold as it is,
/// with finite coordinates, rings that hold a point and collections with Z or
/// M whose members declare that dimension, re-encodes to the canonical EWKB of
/// that geometry with the requested SRID, which decodes back to the geometry.
/// (Its placeholder text is in memory, so it has at most `u64::MAX` characters.)
pub proof fn law_reencode_keeps_geometry(b: Seq<u8>, srid: Option<i32>)
    requires
        decode(b) is Ok,
        encodable(decode(b)->Ok_0.0, 0),
        wkt_readable(decode(b)->Ok_0.0),
        finite_coords(decode(b)->Ok_0.0),
        placeholder_text(render(decode(b)->Ok_0.0)).len() <= u64::MAX,
    ensures
        ({
            let g = decode(b)->Ok_0.0;
            let s = out_srid(mode_of(srid), None);
            &&& reencoded(b, srid) == Ok::<Seq<u8>, Fault>(flatten_bits(encode(g, s)))
            &&& decode(flatten_bits(encode(g, s))) == Ok::<(Shape, Option<i32>), Fault>((g, s))
        }),
{
    reveal(reencoded);
    let g = decode(b)->Ok_0.0;
    let srid2 = out_srid(mode_of(srid), None);
    let parts = render(g);
    let text = placeholder_text(parts);
    lemma_placeholder_text(parts);
    assert forall|i: int| 0 <= i < coords_of(parts).len() implies placeholders()(
        #[trigger] coords_of(parts)[i],
    ) == zero_text()(coords_of(parts)[i]) by {
        assert(is_finite(coords_of(parts)[i]));
    }
    lemma_text_agree(parts, placeholders(), zero_text());
    assert(crate::wkb_to_wkt::wkt_parts(g, None) == parts);
    assert(crate::render_laws::formats(zero_text())) by {
        assert forall|v: u64| crate::render_laws::lexeme_ok(#[trigger] zero_text()(v)) by {
            assert(crate::text::is_num_char(zero_text()(v)[0]));
        }
    }
    lemma_written_wkt_parses(g, None, zero_text(), zero_value());
    let (h, sr) = parse_wkt(text).unwrap();
    let z = composed(zero_value(), zero_text());
    assert(read_value(text, zero_value()) =~= z);
    lemma_map_encode(h, srid2, z);
    lemma_map_encode(g, srid2, z);
    let c1 = encode(h, srid2);
    let c2 = encode(g, srid2);
    lemma_order_encode(g, srid2);
    crate::parse_laws::lemma_payloads_len(c2);
    lemma_same_skeleton_cells(c1, c2, z, coords_of(parts));
    assert(wkt_result(text, mode_of(srid)) == Some((c1, sr)));
    assert(srid2 matches Some(n) ==> n > 0);
    law_decode_encode(g, srid2);
}

} // verus!
