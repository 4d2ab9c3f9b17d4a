//! Laws that chain the public conversions: text to bytes to text to bytes,
//! the split-SRID forms against the plain ones, hex output against byte
//! output, and the SRID rewrites against each other.
use crate::error::Fault;
use crate::header::{fast_set, fast_strip};
use crate::hex::{hex_bytes, hex_of, is_hex_text, law_hex_upper};
use crate::reencode_laws::reencodable;
use crate::model::{encode, flatten, flatten_bits, lit, num_payloads, srid_prefix, Shape};
use crate::normalize_laws::{
    after, law_normalized_keeps_values, law_to_wkt_normalizes, lemma_map_parts_add,
    lemma_map_parts_lit, lemma_render_map, lemma_text_map, normalized, number_texts,
};
use crate::parse_laws::{lemma_parsed_encodable, lemma_payloads_len, short_text};
use crate::render_laws::{formats, inverts, read_value, text_of};
use crate::types::{out_srid, SridMode};
use crate::value_laws::{
    finite_values, law_wkt_values_decode_back, lemma_flatten_mapped, lemma_map_encode, map_shape,
};
use crate::wkb_to_wkt::reader::decode;
use crate::wkb_to_wkt::wkt_parts;
use crate::wkt_to_wkb::grammar::parse_wkt;
use crate::wkt_to_wkb::wkt_result;
use vstd::prelude::*;

verus! {

// ---------------------------------------------------------------- text, bytes, text, bytes

/// The bytes that WKT text converts to, each number written as the value `f`
/// gives its lexeme's position, are the canonical bytes of the geometry with
/// those values.
pub proof fn lemma_filled_canonical(s: Seq<char>, mode: SridMode, f: spec_fn(u64) -> u64)
    requires
        parse_wkt(s) is Some,
    ensures
        ({
            let (g, sr) = parse_wkt(s).unwrap();
            let c = wkt_result(s, mode).unwrap().0;
            flatten(c, num_payloads(c).map_values(f)) == flatten_bits(
                encode(map_shape(g, f), out_srid(mode, sr)),
            )
        }),
{
    let (g, sr) = parse_wkt(s).unwrap();
    let c = encode(g, out_srid(mode, sr));
    lemma_payloads_len(c);
    lemma_map_encode(g, out_srid(mode, sr), f);
    lemma_flatten_mapped(c, f, num_payloads(c).map_values(f));
}

/// The parts of a geometry with its values replaced, written with `fmt`, are
/// the parts of the geometry written with `fmt` after the replacement.
pub proof fn lemma_wkt_parts_map(
    g: Shape,
    srid: Option<i32>,
    f: spec_fn(u64) -> u64,
    fmt: spec_fn(u64) -> Seq<char>,
)
    ensures
        text_of(wkt_parts(map_shape(g, f), srid), fmt) == text_of(wkt_parts(g, srid), after(fmt, f)),
{
    lemma_render_map(g, f);
    match srid {
        Some(n) => {
            let a = lit(seq!['S', 'R', 'I', 'D', '=']);
            let b = lit(crate::text::spec_decimal(n as nat));
            let c = lit(seq![';']);
            lemma_map_parts_lit(seq!['S', 'R', 'I', 'D', '='], f);
            lemma_map_parts_lit(crate::text::spec_decimal(n as nat), f);
            lemma_map_parts_lit(seq![';'], f);
            lemma_map_parts_add(a, b, f);
            lemma_map_parts_add(a + b, c, f);
            lemma_map_parts_add(srid_prefix(n), crate::model::render(g), f);
        },
        None => {},
    }
    lemma_text_map(wkt_parts(g, srid), f, fmt);
}

/// WKT → WKB → WKT → WKB gives the same bytes. WKT text `s` converts to a
/// draft; filled with the values `val` reads from its lexemes, the bytes
/// convert back to WKT (SRID as in the bytes), whose numbers `fmt` writes as
/// lexemes `val` reads back; that text converts to a draft that, filled the
/// same way, gives the same bytes. (The values are finite, as filling asks;
/// the second text is in memory, so it has at most `u64::MAX` characters.)
pub proof fn law_wkt_wkb_round_trip(
    s: Seq<char>,
    mode: SridMode,
    fmt: spec_fn(u64) -> Seq<char>,
    val: spec_fn(Seq<char>) -> u64,
)
    requires
        short_text(s),
        parse_wkt(s) is Some,
        formats(fmt),
        inverts(val, fmt),
        finite_values(read_value(s, val)),
        normalized(s, mode, fmt, val).len() <= u64::MAX,
    ensures
        ({
            let c1 = wkt_result(s, mode).unwrap().0;
            let b1 = flatten(c1, num_payloads(c1).map_values(read_value(s, val)));
            decode(b1) matches Ok((g1, sr1)) && ({
                let t = text_of(wkt_parts(g1, out_srid(SridMode::Auto, sr1)), fmt);
                wkt_result(t, SridMode::Auto) matches Some((c2, _)) && flatten(
                    c2,
                    num_payloads(c2).map_values(read_value(t, val)),
                ) == b1
            })
        }),
{
    let (g, sr) = parse_wkt(s).unwrap();
    let srid = out_srid(mode, sr);
    let fs = read_value(s, val);
    let g1 = map_shape(g, fs);
    law_wkt_values_decode_back(s, mode, fs);
    lemma_wkt_parts_map(g, srid, fs, fmt);
    let t = text_of(wkt_parts(g1, srid), fmt);
    assert(t == normalized(s, mode, fmt, val));
    law_normalized_keeps_values(s, mode, fmt, val);
    let ft = read_value(t, val);
    lemma_filled_canonical(t, SridMode::Auto, ft);
    lemma_filled_canonical(s, mode, fs);
}

/// Normalising WKT is converting it to WKB and back: the draft that `to_wkt`
/// gives for WKT text `s` it normalises, each number written as `fmt` of the
/// value `val` reads from its lexeme, is the WKT (SRID as in the bytes) of the
/// bytes that `s` converts to under the same mode, filled with those values.
/// (The values are finite, as filling asks.)
pub proof fn law_to_wkt_is_wkb_then_wkt(
    r: crate::Result<crate::WktText>,
    s: Seq<char>,
    mode: SridMode,
    fmt: spec_fn(u64) -> Seq<char>,
    val: spec_fn(Seq<char>) -> u64,
)
    requires
        short_text(s),
        parse_wkt(s) is Some,
        finite_values(read_value(s, val)),
        crate::text_to_wkt(r, s, mode, true),
    ensures
        ({
            let c = wkt_result(s, mode).unwrap().0;
            let b = flatten(c, num_payloads(c).map_values(read_value(s, val)));
            decode(b) matches Ok((g1, sr1)) && r matches Ok(crate::WktText::Draft(w)) && text_of(
                w.parts@,
                number_texts(s, fmt, val),
            ) == text_of(wkt_parts(g1, out_srid(SridMode::Auto, sr1)), fmt)
        }),
{
    let (g, sr) = parse_wkt(s).unwrap();
    let srid = out_srid(mode, sr);
    let fs = read_value(s, val);
    law_to_wkt_normalizes(r, s, mode, fmt, val);
    law_wkt_values_decode_back(s, mode, fs);
    lemma_wkt_parts_map(g, srid, fs, fmt);
}

// ---------------------------------------------------------------- split SRID

/// The split-SRID conversion of WKT agrees with the plain one: it succeeds on
/// the same texts; its bytes carry no SRID, in the header or when decoded
/// (values finite, as filling asks); the SRID it returns is positive; and the
/// plain conversion under `Auto` is the conversion that forces that SRID, or
/// the split bytes when there is none. (The text is in memory, so it is
/// shorter than the largest position a number can hold without being NaN.)
pub proof fn law_split_srid_agrees(s: Seq<char>, vals: Seq<u64>, f: spec_fn(u64) -> u64)
    requires
        short_text(s),
    ensures
        wkt_result(s, SridMode::Strip) is Some <==> wkt_result(s, SridMode::Auto) is Some,
        wkt_result(s, SridMode::Strip) matches Some((c, sr)) ==> {
            &&& crate::laws::header_srid_is(flatten(c, vals), None)
            &&& sr matches Some(n) ==> n > 0
            &&& wkt_result(s, SridMode::Auto).unwrap().0 == match sr {
                Some(n) => wkt_result(s, SridMode::Force(n)).unwrap().0,
                None => c,
            }
            &&& finite_values(f) ==> (decode(flatten(c, num_payloads(c).map_values(f))) matches Ok(
                (_, t),
            ) && t is None)
        },
{
    if parse_wkt(s) is Some {
        lemma_parsed_encodable(s);
        crate::laws::law_encoded_header_srid_of_result(s, None, vals);
        if finite_values(f) {
            law_wkt_values_decode_back(s, SridMode::Strip, f);
        }
    }
}

// ---------------------------------------------------------------- setting and stripping the SRID

/// Setting an SRID that is not positive is stripping it, and the header of
/// what setting gives holds the SRID set (none when it is not positive).
pub proof fn law_set_srid_header(x: Seq<u8>, n: i32)
    ensures
        n <= 0 ==> crate::with_srid(x, n) == crate::stripped(x),
        crate::with_srid(x, n) matches Ok(o) ==> crate::laws::header_srid_is(
            o,
            if n > 0 {
                Some(n)
            } else {
                None
            },
        ),
{
    if crate::with_srid(x, n) is Ok {
        if n > 0 {
            crate::laws::law_set_leaves_srid(x, n);
        } else {
            crate::laws::law_strip_leaves_no_srid(x);
        }
    }
}

/// Setting SRID `n` on the stripped bytes decodes as setting it on the bytes
/// themselves: the geometry of the input with SRID `n` (none when `n` is not
/// positive). A header that cannot be rewritten in place is re-encoded, which
/// needs a geometry that re-encoding gives back.
pub proof fn law_strip_then_set(x: Seq<u8>, n: i32)
    requires
        decode(x) is Ok,
        fast_strip(x, false) is None ==> reencodable(decode(x)->Ok_0.0),
        n > 0 && fast_set(x, n, false) is None ==> reencodable(decode(x)->Ok_0.0),
        n > 0 ==> (crate::stripped(x) matches Ok(y) && fast_set(y, n, false) is None ==> reencodable(
            decode(x)->Ok_0.0,
        )),
        n <= 0 ==> (crate::stripped(x) matches Ok(y) && fast_strip(y, false) is None ==> reencodable(
            decode(x)->Ok_0.0,
        )),
    ensures
        crate::stripped(x) matches Ok(y) && crate::with_srid(y, n) matches Ok(o1) && crate::with_srid(
            x,
            n,
        ) matches Ok(o2) && decode(o1) == decode(o2) && decode(o2) == Ok::<
            (Shape, Option<i32>),
            Fault,
        >(
            (
                decode(x)->Ok_0.0,
                if n > 0 {
                    Some(n)
                } else {
                    None
                },
            ),
        ),
{
    crate::srid_laws::law_strip_keeps_geometry(x);
    let y = crate::stripped(x)->Ok_0;
    crate::srid_laws::law_set_keeps_geometry(x, n);
    crate::srid_laws::law_set_keeps_geometry(y, n);
}

// ---------------------------------------------------------------- hex output

/// Filling a draft as hex gives the hex text of the bytes that filling it
/// gives, or fails as filling does.
pub proof fn law_fill_hex_is_hex_of_fill(
    cells: Seq<crate::model::Cell>,
    source: Seq<char>,
    values: Seq<Option<u64>>,
    b: crate::Result<Vec<u8>>,
    h: crate::Result<String>,
)
    requires
        crate::draft::fill_is(b, cells, source, values),
        crate::draft::fill_hex_is(h, cells, source, values),
    ensures
        b is Ok <==> h is Ok,
        b matches Ok(x) ==> (h matches Ok(y) && y@ == hex_of(x@)),
        b matches Err(e) ==> (h matches Err(e2) && e2.fault() == e.fault()),
{
}

/// WKT to hex WKB is hex-encoded WKT to WKB: both give the same draft, or fail
/// with the same error; filled with the same values, the hex draft gives the hex text of
/// the bytes the other gives.
pub proof fn law_wkt_to_hex_wkb_is_hex_of_wkb(
    s: Seq<char>,
    mode: SridMode,
    r1: crate::Result<crate::WkbDraft>,
    r2: crate::Result<crate::WkbDraft>,
    values: Seq<Option<u64>>,
    b: crate::Result<Vec<u8>>,
    h: crate::Result<String>,
)
    requires
        crate::wkb_draft_of(r1, s, mode),
        crate::wkb_draft_of(r2, s, mode),
        r1 matches Ok(d1) ==> crate::draft::fill_is(b, d1.cells@, d1.source@, values),
        r2 matches Ok(d2) ==> crate::draft::fill_hex_is(h, d2.cells@, d2.source@, values),
    ensures
        r1 is Ok <==> r2 is Ok,
        r1 matches Err(e1) ==> (r2 matches Err(e2) && e2.fault() == e1.fault()),
        r1 matches Ok(d1) ==> (r2 matches Ok(d2) && d2.cells@ == d1.cells@ && d2.source@
            == d1.source@),
        r1 is Ok ==> (b matches Ok(x) ==> (h matches Ok(y) && y@ == hex_of(x@))),
        r1 is Ok ==> (b matches Err(e) ==> (h matches Err(e2) && e2.fault() == e.fault())),
{
}

/// Upper-case hex text of the bytes of a byte draft with no number cells.
pub open spec fn draft_hex(d: crate::WkbDraft) -> Seq<char> {
    hex_of(flatten(d.cells@, seq![]))
}

/// The generic hex output is the hex text of the generic WKB output: text
/// when `to_wkb` gives bytes (hex text under `Auto` only upper-cased, which
/// is the same), the same draft when it gives a WKT draft, and the same error
/// when it fails; the one other failure is bytes too long for their hex text
/// to be held in memory.
pub proof fn law_to_hex_wkb_is_hex_of_to_wkb(
    input: crate::Input<'_>,
    mode: SridMode,
    r1: crate::Result<crate::WkbDraft>,
    r2: crate::Result<crate::HexText>,
)
    requires
        crate::to_wkb_is(r1, input, mode),
        crate::to_hex_wkb_is(r2, input, mode),
    ensures
        match r1 {
            Ok(d) => match r2 {
                Ok(crate::HexText::Text(t)) => t@ == draft_hex(d) && crate::model::num_count(d.cells@)
                    == 0,
                Ok(crate::HexText::Draft(d2)) => d2.cells@ == d.cells@ && d2.source@ == d.source@,
                Err(e) => e.fault() == Fault::Wkb("output too large"@) && 2 * flatten(
                    d.cells@,
                    seq![],
                ).len() > usize::MAX,
            },
            Err(e1) => r2 matches Err(e2) && e2.fault() == e1.fault(),
        },
{
    match input {
        crate::Input::Wkb(x) => {
            if let Ok(o) = crate::applied(x@, mode) {
                crate::laws::lemma_flatten_bytes(o, seq![]);
            }
        },
        crate::Input::Text(t) => {
            let st = crate::text::trimmed(t@);
            if is_hex_text(st) {
                if let Ok(o) = crate::applied(hex_bytes(st), mode) {
                    crate::laws::lemma_flatten_bytes(o, seq![]);
                }
                if crate::types::normalised(mode) == SridMode::Auto {
                    law_hex_upper(st);
                }
            }
        },
    }
}

// ---------------------------------------------------------------- writers

/// Writing the same bytes to a cell writer and to a hex writer keeps the hex
/// text the hex text of the cell writer's bytes: written bytes are appended
/// to the bytes of the cells as they are, a number cell as the little-endian
/// bytes of its value.
pub proof fn law_writers_agree(
    c: Seq<crate::model::Cell>,
    x: Seq<u8>,
    p: u64,
    vals: Seq<u64>,
)
    ensures
        flatten(c + crate::model::byte_cells(x), vals) == flatten(c, vals) + x,
        flatten(c.push(crate::model::Cell::Num(p)), vals) == flatten(c, vals) + crate::model::le8(
            vals[crate::model::num_count(c) as int],
        ),
        hex_of(flatten(c, vals) + x) == hex_of(flatten(c, vals)) + hex_of(x),
    decreases x.len(),
{
    let bc = crate::model::byte_cells(x);
    if x.len() == 0 {
        assert(c + bc =~= c);
        assert(flatten(c, vals) + x =~= flatten(c, vals));
    } else {
        let x0 = x.drop_last();
        law_writers_agree(c, x0, p, vals);
        assert((c + bc).drop_last() =~= c + crate::model::byte_cells(x0));
        assert(flatten(c, vals) + x =~= flatten(c, vals) + x0 + seq![x.last()]);
    }
    assert(c.push(crate::model::Cell::Num(p)).drop_last() =~= c);
    let a = flatten(c, vals);
    assert(hex_of(a + x) =~= hex_of(a) + hex_of(x)) by {
        assert forall|i: int| 0 <= i < 2 * (a.len() + x.len()) implies #[trigger] hex_of(a + x)[i]
            == (hex_of(a) + hex_of(x))[i] by {
            if i >= 2 * a.len() {
                assert((i - 2 * a.len()) / 2 == i / 2 - a.len());
                assert((i - 2 * a.len()) % 2 == i % 2);
            }
        }
    }
}

/// Text pushed to a WKT builder, whatever its capacity, is appended to its
/// text as it is: ASCII text `w` after parts `p` gives the text of `p`, then
/// `w`. A builder starts with no parts, whose text is empty.
pub proof fn law_builder_appends(p: Seq<crate::model::WktPart>, w: Seq<char>, fmt: spec_fn(u64) -> Seq<char>)
    requires
        crate::render_laws::ascii(w),
    ensures
        text_of(p + lit(w), fmt) == text_of(p, fmt) + w,
        text_of(Seq::<crate::model::WktPart>::empty(), fmt) == Seq::<char>::empty(),
{
    crate::render_laws::lemma_text_add(p, lit(w), fmt);
    crate::render_laws::lemma_text_lit(w, fmt);
    assert(text_of(Seq::<crate::model::WktPart>::empty(), fmt) =~= Seq::<char>::empty());
}

// ---------------------------------------------------------------- the same errors

/// Converting hex WKB is decoding the hex text and converting the bytes: the
/// same draft, or the same error, whichever step fails.
pub proof fn law_hex_wkb_to_wkt_is_decode_then_convert(
    h: Seq<char>,
    mode: SridMode,
    r: crate::Result<crate::WktDraft>,
    d: crate::Result<Vec<u8>>,
    r2: crate::Result<crate::WktDraft>,
)
    requires
        crate::hex_wkt_is(r, h, mode),
        crate::hex::hex_decoded(d, h),
        d matches Ok(b) ==> crate::wkt_draft_of(r2, decode(b@), mode),
    ensures
        d matches Err(e) ==> (r matches Err(e1) && e1.fault() == e.fault()),
        d is Ok ==> (r matches Ok(w) ==> (r2 matches Ok(w2) && w2.parts@ == w.parts@ && w2.source
            == w.source)),
        d is Ok ==> (r matches Err(e) ==> (r2 matches Err(e2) && e2.fault() == e.fault())),
        d is Ok ==> (r is Ok <==> r2 is Ok),
{
}

/// `to_wkt` on WKB bytes, whatever `normalize_wkt` says, is `wkb_to_wkt`:
/// the same draft, or the same error.
pub proof fn law_to_wkt_of_bytes_is_wkb_to_wkt(
    b: Seq<u8>,
    mode: SridMode,
    r: crate::Result<crate::WktText>,
    r2: crate::Result<crate::WktDraft>,
)
    requires
        crate::draft_is(r, decode(b), mode),
        crate::wkt_draft_of(r2, decode(b), mode),
    ensures
        r is Ok <==> r2 is Ok,
        r matches Ok(t) ==> (t matches crate::WktText::Draft(w) && r2 matches Ok(w2) && w2.parts@
            == w.parts@ && w2.source == w.source),
        r matches Err(e) ==> (r2 matches Err(e2) && e2.fault() == e.fault()),
{
}

/// `to_wkt` on trimmed hex text, whatever `normalize_wkt` says, is
/// `hex_wkb_to_wkt`: the same draft, or the same error.
pub proof fn law_to_wkt_of_hex_is_hex_wkb_to_wkt(
    t: Seq<char>,
    mode: SridMode,
    normalize: bool,
    r: crate::Result<crate::WktText>,
    r2: crate::Result<crate::WktDraft>,
)
    requires
        is_hex_text(t),
        crate::text_to_wkt(r, t, mode, normalize),
        crate::hex_wkt_is(r2, t, mode),
    ensures
        r is Ok <==> r2 is Ok,
        r matches Ok(x) ==> (x matches crate::WktText::Draft(w) && r2 matches Ok(w2) && w2.parts@
            == w.parts@ && w2.source == w.source),
        r matches Err(e) ==> (r2 matches Err(e2) && e2.fault() == e.fault()),
{
    assert(crate::text::is_hex_digit(t[0]));
}

// ---------------------------------------------------------------- the split SRID of WKB

/// The first part of literal text is its first character.
pub proof fn lemma_lit_first(w: Seq<char>)
    requires
        w.len() > 0,
    ensures
        lit(w).len() == w.len(),
        lit(w)[0] == crate::model::WktPart::Char(w[0] as u8),
    decreases w.len(),
{
    if w.len() == 1 {
        assert(w.drop_last() =~= Seq::<char>::empty());
    } else {
        lemma_lit_first(w.drop_last());
    }
}

/// The split-SRID conversion of WKB agrees with the header reader: the SRID
/// it returns is the one `wkb_header_srid` reads, and is positive; and the
/// text it returns begins with the geometry keyword, never with `SRID=`.
pub proof fn law_split_srid_matches_header(
    b: Seq<u8>,
    r: crate::Result<(crate::WktDraft, Option<i32>)>,
    h: crate::Result<Option<i32>>,
)
    requires
        crate::split_draft_of(r, b),
        crate::header_srid_of(h, b),
    ensures
        r matches Ok((w, s)) ==> {
            &&& h == crate::Result::<Option<i32>>::Ok(s)
            &&& s matches Some(n) ==> n > 0
            &&& w.parts@.len() > 0
            &&& w.parts@[0] matches crate::model::WktPart::Char(c) && c != 83u8 && c != 115u8
        },
{
    if decode(b) is Ok {
        crate::laws::law_header_srid_agrees_with_decode(b);
        lemma_render_first(decode(b)->Ok_0.0);
    }
}

/// The WKT of a geometry begins with the first letter of its keyword.
pub proof fn lemma_render_first(g: Shape)
    ensures
        crate::model::render(g).len() > 0,
        crate::model::render(g)[0] matches crate::model::WktPart::Char(c) && c != 83u8 && c
            != 115u8,
{
    let kw = crate::types::keyword_of(crate::model::shape_type(g));
    crate::model::lemma_render_split(g);
    lemma_lit_first(kw);
    let rest = lit(crate::types::dim_tag(crate::model::shape_dim(g))) + crate::model::r_geom_body(g);
    assert(crate::model::render(g) == lit(kw) + rest);
    assert((lit(kw) + rest)[0] == lit(kw)[0]);
}

/// Stripping bytes with a little-endian header that holds a known geometry
/// type, only the Z and M flags and no SRID gives the bytes back unchanged.
pub proof fn law_strip_keeps_plain_header(b: Seq<u8>)
    requires
        b.len() >= 5,
        b[0] == 1,
        crate::header::known_flags(crate::model::u32_from(b.subrange(1, 5), true)),
        1 <= crate::model::u32_from(b.subrange(1, 5), true) % 0x10000 <= 7,
        !crate::wkb_to_wkt::reader::has_srid(crate::model::u32_from(b.subrange(1, 5), true)),
    ensures
        crate::stripped(b) == Ok::<Seq<u8>, Fault>(b),
{
}

} // verus!
