//! Laws of the library on concrete values, edge cases, and one input for
//! each error variant.
#![allow(dead_code)]

use wkb_wkt_converter::{
    hex_wkb_to_wkt as lib_hex_wkb_to_wkt, to_hex_wkb as lib_to_hex_wkb, to_wkb as lib_to_wkb,
    to_wkt as lib_to_wkt, wkb_to_wkt as lib_wkb_to_wkt,
    wkb_to_wkt_split_srid as lib_wkb_to_wkt_split_srid, wkt_to_hex_wkb as lib_wkt_to_hex_wkb,
    wkt_to_wkb as lib_wkt_to_wkb, wkt_to_wkb_split_srid as lib_wkt_to_wkb_split_srid, HexText,
    Input, Result, SridMode, WkbDraft, WktDraft, WktText,
};
use wkb_wkt_converter::{
    decode_hex, encode_hex, srid_mode, wkb_header_srid, wkb_set_srid, wkb_set_srid_writer,
    wkb_strip_srid, wkb_strip_srid_writer, Error,
};

use wkb_wkt_converter::wkb_to_wkt::builder::WktBuilder;
use wkb_wkt_converter::wkt_to_wkb::tokenizer::Tokenizer;
use wkb_wkt_converter::wkt_to_wkb::writer::{HexWkbWriter, WkbWriter};

// The library leaves the decimal text <-> double conversion of single numbers
// to its caller; these helpers complete its drafts the way an application does.

fn number_value(lexeme: &str) -> Option<u64> {
    lexeme.parse::<f64>().ok().map(f64::to_bits)
}

fn format_coord(v: f64) -> String {
    if v.is_finite() && v != 0.0 && v == v.trunc() && v.abs() < 1e15 {
        format!("{}", v as i64)
    } else {
        format!("{v}")
    }
}

fn fill(draft: WkbDraft) -> Result<Vec<u8>> {
    let values: Vec<Option<u64>> = draft.lexemes().iter().map(|s| number_value(s)).collect();
    draft.fill(&values)
}

fn fill_hex(draft: WkbDraft) -> Result<String> {
    let values: Vec<Option<u64>> = draft.lexemes().iter().map(|s| number_value(s)).collect();
    draft.fill_hex(&values)
}

fn render(draft: WktDraft) -> Result<String> {
    if draft.source.is_some() {
        let values: Vec<Option<u64>> = draft
            .coords()
            .iter()
            .map(|&v| draft.lexeme(v).and_then(|s| number_value(&s)))
            .collect();
        draft.check_values(&values)?;
    }
    let formatted: Vec<Option<String>> = draft
        .coords()
        .iter()
        .map(|&v| match &draft.source {
            Some(_) => draft
                .lexeme(v)
                .and_then(|s| s.parse::<f64>().ok())
                .filter(|x| x.is_finite())
                .map(format_coord),
            None => Some(format_coord(f64::from_bits(v))),
        })
        .collect();
    draft.render(&formatted)
}

fn render_text(text: WktText) -> Result<String> {
    match text {
        WktText::Text(s) => Ok(s),
        WktText::Draft(d) => render(d),
    }
}

fn hex_text(text: HexText) -> Result<String> {
    match text {
        HexText::Text(s) => Ok(s),
        HexText::Draft(d) => fill_hex(d),
    }
}

fn full_wkb_to_wkt(wkb: &[u8], srid: SridMode) -> Result<String> {
    render(lib_wkb_to_wkt(wkb, srid)?)
}

fn full_wkt_to_wkb(wkt: &str, srid: SridMode) -> Result<Vec<u8>> {
    fill(lib_wkt_to_wkb(wkt, srid)?)
}

fn full_wkt_to_hex_wkb(wkt: &str, srid: SridMode) -> Result<String> {
    fill_hex(lib_wkt_to_hex_wkb(wkt, srid)?)
}

fn full_hex_wkb_to_wkt(hex: &str, srid: SridMode) -> Result<String> {
    render(lib_hex_wkb_to_wkt(hex, srid)?)
}

fn full_wkb_to_wkt_split_srid(wkb: &[u8]) -> Result<(String, Option<i32>)> {
    let (draft, srid) = lib_wkb_to_wkt_split_srid(wkb)?;
    Ok((render(draft)?, srid))
}

fn full_wkt_to_wkb_split_srid(wkt: &str) -> Result<(Vec<u8>, Option<i32>)> {
    let (draft, srid) = lib_wkt_to_wkb_split_srid(wkt)?;
    Ok((fill(draft)?, srid))
}

fn full_to_wkb(input: Input<'_>, srid: SridMode) -> Result<Vec<u8>> {
    fill(lib_to_wkb(input, srid)?)
}

fn full_to_wkt(input: Input<'_>, srid: SridMode, normalize_wkt: bool) -> Result<String> {
    render_text(lib_to_wkt(input, srid, normalize_wkt)?)
}

fn full_to_hex_wkb(input: Input<'_>, srid: SridMode) -> Result<String> {
    hex_text(lib_to_hex_wkb(input, srid)?)
}

fn nested_wkt(depth: usize, with_srid: bool) -> String {
    let mut out = String::new();
    if with_srid {
        out.push_str("SRID=4326;");
    }
    for _ in 0..depth {
        out.push_str("GEOMETRYCOLLECTION (");
    }
    out.push_str("POINT (1 2)");
    for _ in 0..depth {
        out.push(')');
    }
    out
}

fn nested_wkb(depth: usize, with_srid: bool) -> Vec<u8> {
    let mut out = Vec::new();
    let header = |out: &mut Vec<u8>, geom_type: u32, srid: bool| {
        out.push(1);
        let word = geom_type | if srid { 0x2000_0000 } else { 0 };
        out.extend_from_slice(&word.to_le_bytes());
        if srid {
            out.extend_from_slice(&4326i32.to_le_bytes());
        }
    };
    for i in 0..depth {
        header(&mut out, 7, with_srid && i == 0);
        out.extend_from_slice(&1u32.to_le_bytes());
    }
    header(&mut out, 1, with_srid && depth == 0);
    out.extend_from_slice(&1.0f64.to_le_bytes());
    out.extend_from_slice(&2.0f64.to_le_bytes());
    out
}

// ── laws on concrete values ─────────────────────────────────────────────────

#[test]
fn decode_inverts_encode_for_every_geometry_type() {
    for wkt in [
        "POINT (1 2)",
        "POINT Z (1 2 3)",
        "POINT EMPTY",
        "LINESTRING (1 2, 3 4)",
        "POLYGON ((0 0, 1 0, 1 1, 0 0), (0.5 0.5, 0.6 0.5, 0.5 0.6, 0.5 0.5))",
        "MULTIPOINT ((1 2), EMPTY, (3 4))",
        "MULTILINESTRING ((1 2, 3 4), EMPTY)",
        "MULTIPOLYGON (((0 0, 1 0, 1 1, 0 0)), EMPTY)",
        "GEOMETRYCOLLECTION (POINT (1 2), GEOMETRYCOLLECTION EMPTY, LINESTRING EMPTY)",
        "SRID=3857;POINT ZM (1.5 -2.25 30000000000 4)",
    ] {
        let wkb = full_wkt_to_wkb(wkt, SridMode::Auto).unwrap();
        let back = full_wkb_to_wkt(&wkb, SridMode::Auto).unwrap();
        assert_eq!(back, wkt);
        let again = full_wkt_to_wkb(&back, SridMode::Auto).unwrap();
        assert_eq!(again, wkb);
    }
}

#[test]
fn header_srid_agrees_with_split_decode() {
    for wkt in ["SRID=4326;POINT (1 2)", "POINT (1 2)", "SRID=7;MULTIPOINT (1 2, 3 4)"] {
        let wkb = full_wkt_to_wkb(wkt, SridMode::Auto).unwrap();
        let (_, split) = full_wkb_to_wkt_split_srid(&wkb).unwrap();
        assert_eq!(wkb_header_srid(&wkb).unwrap(), split);
    }
}

#[test]
fn split_wkb_header_has_no_srid() {
    let (wkb, srid) = full_wkt_to_wkb_split_srid("SRID=4326;LINESTRING (0 0, 1 1)").unwrap();
    assert_eq!(srid, Some(4326));
    assert_eq!(wkb_header_srid(&wkb).unwrap(), None);
}

#[test]
fn strip_then_header_is_none_and_set_then_header_is_srid() {
    let be = hex::decode("0020000001000010E63FF00000000000004000000000000000").unwrap();
    let le = full_wkt_to_wkb("SRID=4326;MULTIPOLYGON (((0 0, 1 0, 1 1, 0 0)))", SridMode::Auto)
        .unwrap();
    for bytes in [be, le] {
        let stripped = wkb_strip_srid(&bytes).unwrap();
        assert_eq!(wkb_header_srid(&stripped).unwrap(), None);
        let set = wkb_set_srid(&bytes, 31466).unwrap();
        assert_eq!(wkb_header_srid(&set).unwrap(), Some(31466));
        assert_eq!(wkb_strip_srid(&stripped).unwrap(), stripped);
    }
}

#[test]
fn writers_match_allocating_functions() {
    let inputs = [
        full_wkt_to_wkb("SRID=4326;POINT (1 2)", SridMode::Auto).unwrap(),
        full_wkt_to_wkb("POINT Z (1 2 3)", SridMode::Auto).unwrap(),
        hex::decode("00000000013FF00000000000004000000000000000").unwrap(),
        vec![0x99],
    ];
    for bytes in inputs.iter() {
        match (wkb_strip_srid(bytes), wkb_strip_srid_writer(bytes)) {
            (Ok(expected), Ok((len, writer))) => {
                let mut out = vec![0; len];
                writer.write_into(&mut out);
                assert_eq!(out, expected);
            }
            (Err(_), Err(_)) => {}
            _ => panic!("writer and allocating strip disagree"),
        }
        for srid in [-1, 0, 1, 4326, i32::MAX] {
            match (wkb_set_srid(bytes, srid), wkb_set_srid_writer(bytes, srid)) {
                (Ok(expected), Ok((len, writer))) => {
                    let mut out = vec![0; len];
                    writer.write_into(&mut out);
                    assert_eq!(out, expected);
                }
                (Err(_), Err(_)) => {}
                _ => panic!("writer and allocating set disagree"),
            }
        }
    }
}

#[test]
fn hex_round_trips_and_is_upper_case() {
    let bytes: Vec<u8> = (0..=255u8).collect();
    let hex = encode_hex(&bytes);
    assert_eq!(hex.len(), 512);
    assert!(hex.bytes().all(|b| b.is_ascii_digit() || (b'A'..=b'F').contains(&b)));
    assert_eq!(decode_hex(&hex).unwrap(), bytes);
    assert_eq!(decode_hex(&hex.to_lowercase()).unwrap(), bytes);
}

#[test]
fn wkt_to_hex_wkb_is_hex_of_wkt_to_wkb() {
    let wkt = "SRID=4326;POLYGON ((0 0, 1 0, 1 1, 0 0))";
    let wkb = full_wkt_to_wkb(wkt, SridMode::Auto).unwrap();
    assert_eq!(full_wkt_to_hex_wkb(wkt, SridMode::Auto).unwrap(), encode_hex(&wkb));
    assert_eq!(full_hex_wkb_to_wkt(&encode_hex(&wkb), SridMode::Auto).unwrap(), wkt);
}

#[test]
fn nonpositive_force_behaves_as_strip() {
    let wkt = "SRID=4326;POINT (1 2)";
    for n in [0, -1, i32::MIN] {
        assert_eq!(
            full_wkt_to_wkb(wkt, SridMode::Force(n)).unwrap(),
            full_wkt_to_wkb(wkt, SridMode::Strip).unwrap()
        );
        assert_eq!(
            full_to_wkt(Input::Text(wkt), SridMode::Force(n), false).unwrap(),
            "POINT (1 2)"
        );
    }
}

// ── depth limit ─────────────────────────────────────────────────────────────

#[test]
fn nesting_below_the_limit_converts_and_at_the_limit_fails() {
    for with_srid in [false, true] {
        let wkt = nested_wkt(127, with_srid);
        let wkb = nested_wkb(127, with_srid);
        assert_eq!(full_wkt_to_wkb(&wkt, SridMode::Auto).unwrap(), wkb);
        assert_eq!(full_wkb_to_wkt(&wkb, SridMode::Auto).unwrap(), wkt);
        let expected = if with_srid { Some(4326) } else { None };
        assert_eq!(wkb_header_srid(&wkb).unwrap(), expected);

        assert!(full_wkt_to_wkb(&nested_wkt(128, with_srid), SridMode::Auto).is_err());
        assert!(full_wkb_to_wkt(&nested_wkb(128, with_srid), SridMode::Auto).is_err());
    }
}

// ── exact bytes and texts ───────────────────────────────────────────────────

#[test]
fn point_bytes_are_exact() {
    assert_eq!(
        encode_hex(&full_wkt_to_wkb("SRID=4326;POINT (1 2)", SridMode::Auto).unwrap()),
        "0101000020E6100000000000000000F03F0000000000000040"
    );
    assert_eq!(
        encode_hex(&full_wkt_to_wkb("POINT EMPTY", SridMode::Auto).unwrap()),
        "0101000000000000000000F87F000000000000F87F"
    );
}

#[test]
fn iso_and_big_endian_input_decode() {
    let iso = hex::decode("01E9030000000000000000F03F00000000000000400000000000000840").unwrap();
    assert_eq!(full_wkb_to_wkt(&iso, SridMode::Auto).unwrap(), "POINT Z (1 2 3)");
    let be = hex::decode("00000000013FF00000000000004000000000000000").unwrap();
    assert_eq!(full_wkb_to_wkt(&be, SridMode::Force(4326)).unwrap(), "SRID=4326;POINT (1 2)");
}

#[test]
fn keywords_must_end_at_a_non_letter() {
    assert!(full_wkt_to_wkb("POINTX (1 2)", SridMode::Auto).is_err());
    assert!(full_wkt_to_wkb("POINTé (1 2)", SridMode::Auto).is_err());
    assert_eq!(
        full_wkb_to_wkt(&full_wkt_to_wkb("point(1 2)", SridMode::Auto).unwrap(), SridMode::Auto)
            .unwrap(),
        "POINT (1 2)"
    );
    assert!(full_wkt_to_wkb("POINT ZQ (1 2 3)", SridMode::Auto).is_err());
    assert!(full_wkt_to_wkb("POINT EMPTYX", SridMode::Auto).is_err());
}

#[test]
fn srid_prefix_values() {
    assert_eq!(
        full_wkb_to_wkt(&full_wkt_to_wkb("srid=-0;POINT (1 2)", SridMode::Auto).unwrap(), SridMode::Auto)
            .unwrap(),
        "POINT (1 2)"
    );
    assert!(full_wkt_to_wkb("SRID=2147483648;POINT (1 2)", SridMode::Auto).is_err());
    assert!(full_wkt_to_wkb("SRID=-2147483648;POINT (1 2)", SridMode::Auto).is_ok());
    assert!(full_wkt_to_wkb("SRID=+5;POINT (1 2)", SridMode::Auto).is_err());
    assert!(full_wkt_to_wkb("SRID=5 POINT (1 2)", SridMode::Auto).is_err());
}

#[test]
fn numbers_that_are_not_finite_doubles_fail() {
    assert!(full_wkt_to_wkb("POINT (1e999 2)", SridMode::Auto).is_err());
    assert!(full_wkt_to_wkb("POINT (1-2 2)", SridMode::Auto).is_err());
    assert!(full_to_wkt(Input::Text("POINT (1e999 2)"), SridMode::Auto, true).is_err());
    assert_eq!(
        full_to_wkt(Input::Text("POINT (1e999 2)"), SridMode::Auto, false).unwrap(),
        "POINT (1e999 2)"
    );
}

#[test]
fn collection_members_share_a_non_xy_dimension() {
    assert!(full_wkt_to_wkb("GEOMETRYCOLLECTION Z (POINT (1 2))", SridMode::Auto).is_err());
    assert!(full_wkt_to_wkb("GEOMETRYCOLLECTION Z (POINT Z (1 2 3))", SridMode::Auto).is_ok());
    assert!(full_wkt_to_wkb("GEOMETRYCOLLECTION (POINT Z (1 2 3))", SridMode::Auto).is_ok());
}

#[test]
fn reencode_of_non_finite_coordinates_fails() {
    // Big-endian LineString whose type word carries an unknown high bit, so
    // that stripping re-encodes it.
    let mut wkb = vec![0u8];
    wkb.extend_from_slice(&0x1000_0002u32.to_be_bytes());
    wkb.extend_from_slice(&1u32.to_be_bytes());
    wkb.extend_from_slice(&f64::NAN.to_be_bytes());
    wkb.extend_from_slice(&2.0f64.to_be_bytes());
    assert!(wkb_strip_srid(&wkb).is_err());
    assert_eq!(full_wkb_to_wkt(&wkb, SridMode::Auto).unwrap(), "LINESTRING (NaN 2)");
}

// ── error variants ──────────────────────────────────────────────────────────

#[test]
fn each_error_variant_has_an_input() {
    assert!(matches!(
        full_wkt_to_wkb("CIRCLE (1 2)", SridMode::Auto),
        Err(Error::InvalidWkt(_))
    ));
    assert!(matches!(
        full_wkb_to_wkt(&[1, 1, 0, 0, 0], SridMode::Auto),
        Err(Error::InvalidWkb(_))
    ));
    assert!(matches!(
        full_wkb_to_wkt(&[1, 99, 0, 0, 0], SridMode::Auto),
        Err(Error::UnsupportedGeometryType(99))
    ));
    assert!(matches!(decode_hex("0G"), Err(Error::InvalidWkb(_))));
    assert!(matches!(decode_hex("012"), Err(Error::InvalidWkb(_))));
    assert!(matches!(decode_hex(""), Err(Error::InvalidWkb(_))));
}

#[test]
fn trailing_bytes_and_text_fail() {
    let mut wkb = full_wkt_to_wkb("POINT (1 2)", SridMode::Auto).unwrap();
    wkb.push(0);
    assert!(full_wkb_to_wkt(&wkb, SridMode::Auto).is_err());
    assert!(full_wkt_to_wkb("POINT (1 2) x", SridMode::Auto).is_err());
}

#[test]
fn generic_hex_output_is_upper_case_and_even() {
    for input in ["point (1 2)", "0101000000000000000000f03f0000000000000040"] {
        let hex = full_to_hex_wkb(Input::Text(input), SridMode::Auto).unwrap();
        assert_eq!(hex.len() % 2, 0);
        assert!(hex.bytes().all(|b| b.is_ascii_digit() || (b'A'..=b'F').contains(&b)));
    }
}

#[test]
fn srid_mode_selector_cycles_through_modes() {
    assert_eq!(srid_mode(0), SridMode::Auto);
    assert_eq!(srid_mode(1), SridMode::Strip);
    assert_eq!(srid_mode(2), SridMode::Force(4326));
    assert_eq!(srid_mode(3), SridMode::Force(-1));
    assert_eq!(srid_mode(6), SridMode::Force(4326));
}

#[test]
fn unvalidated_text_keeps_unicode_and_adjusts_prefix() {
    assert_eq!(
        full_to_wkt(Input::Text(" SRID=0 ;  POINT (é) "), SridMode::Auto, false).unwrap(),
        "POINT (é)"
    );
    assert_eq!(
        full_to_wkt(Input::Text("SRID=12;POINT (é)"), SridMode::Force(7), false).unwrap(),
        "SRID=7;POINT (é)"
    );
}

#[test]
fn filled_values_decode_back_in_order() {
    let draft = lib_wkt_to_wkb("SRID=4326;LINESTRING (1 2, 3 4)", SridMode::Auto).unwrap();
    let values = [10.5f64, -3.0, 7e-5, 1e300];
    let bits: Vec<Option<u64>> = values.iter().map(|v| Some(v.to_bits())).collect();
    let wkb = draft.fill(&bits).unwrap();
    let (back, srid) = lib_wkb_to_wkt_split_srid(&wkb).unwrap();
    assert_eq!(srid, Some(4326));
    let expected: Vec<u64> = values.iter().map(|v| v.to_bits()).collect();
    assert_eq!(back.coords(), expected);
}

#[test]
fn written_wkt_converts_back_to_the_same_wkb() {
    for wkt in [
        "SRID=31467;MULTIPOLYGON Z (((0.1 0.2 3, 1e-7 3 4, -2.5 4 5, 0.1 0.2 3)), EMPTY)",
        "GEOMETRYCOLLECTION M (POINT M (1 2 3), MULTIPOINT M (EMPTY, (4 5 6)))",
        "MULTILINESTRING ((123456789.125 -0.000001, 2 3), EMPTY)",
    ] {
        let wkb = full_wkt_to_wkb(wkt, SridMode::Auto).unwrap();
        let written = full_wkb_to_wkt(&wkb, SridMode::Auto).unwrap();
        assert_eq!(full_wkt_to_wkb(&written, SridMode::Auto).unwrap(), wkb);
    }
}

#[test]
fn empty_ring_and_mixed_dimension_collection_do_not_read_back() {
    let mut empty_ring = vec![1u8];
    empty_ring.extend_from_slice(&3u32.to_le_bytes());
    empty_ring.extend_from_slice(&1u32.to_le_bytes());
    empty_ring.extend_from_slice(&0u32.to_le_bytes());
    let written = full_wkb_to_wkt(&empty_ring, SridMode::Auto).unwrap();
    assert_eq!(written, "POLYGON (())");
    assert!(full_wkt_to_wkb(&written, SridMode::Auto).is_err());

    let mut mixed = vec![1u8];
    mixed.extend_from_slice(&0x8000_0007u32.to_le_bytes());
    mixed.extend_from_slice(&1u32.to_le_bytes());
    mixed.push(1);
    mixed.extend_from_slice(&1u32.to_le_bytes());
    mixed.extend_from_slice(&1.0f64.to_le_bytes());
    mixed.extend_from_slice(&2.0f64.to_le_bytes());
    let written = full_wkb_to_wkt(&mixed, SridMode::Auto).unwrap();
    assert_eq!(written, "GEOMETRYCOLLECTION Z (POINT (1 2))");
    assert!(full_wkt_to_wkb(&written, SridMode::Auto).is_err());
}

#[test]
fn strip_and_set_keep_the_geometry() {
    let le = full_wkt_to_wkb("SRID=4326;POLYGON ((0 0, 1 0, 1 1, 0 0))", SridMode::Auto).unwrap();
    let mut be = vec![0u8];
    be.extend_from_slice(&0x2000_0002u32.to_be_bytes());
    be.extend_from_slice(&4326u32.to_be_bytes());
    be.extend_from_slice(&2u32.to_be_bytes());
    for v in [1.5f64, 2.5, 3.5, 4.5] {
        be.extend_from_slice(&v.to_be_bytes());
    }
    let mut iso = vec![1u8];
    iso.extend_from_slice(&1001u32.to_le_bytes());
    for v in [1.0f64, 2.0, 3.0] {
        iso.extend_from_slice(&v.to_le_bytes());
    }
    for (wkb, plain) in [
        (le, "POLYGON ((0 0, 1 0, 1 1, 0 0))"),
        (be, "LINESTRING (1.5 2.5, 3.5 4.5)"),
        (iso, "POINT Z (1 2 3)"),
    ] {
        let stripped = wkb_strip_srid(&wkb).unwrap();
        assert_eq!(full_wkb_to_wkt(&stripped, SridMode::Auto).unwrap(), plain);
        let set = wkb_set_srid(&wkb, 3857).unwrap();
        assert_eq!(
            full_wkb_to_wkt(&set, SridMode::Auto).unwrap(),
            format!("SRID=3857;{plain}")
        );
        let unset = wkb_set_srid(&wkb, 0).unwrap();
        assert_eq!(full_wkb_to_wkt(&unset, SridMode::Auto).unwrap(), plain);
        let forced = full_to_wkb(Input::Wkb(&wkb), SridMode::Force(31467)).unwrap();
        assert_eq!(
            full_wkb_to_wkt(&forced, SridMode::Auto).unwrap(),
            format!("SRID=31467;{plain}")
        );
        let dropped = full_to_wkb(Input::Wkb(&wkb), SridMode::Strip).unwrap();
        assert_eq!(full_wkb_to_wkt(&dropped, SridMode::Auto).unwrap(), plain);
    }
}

#[test]
fn normalizing_twice_is_normalizing_once() {
    for (text, mode) in [
        ("  point z(1.50 2e1 -0)", SridMode::Auto),
        ("srid=4326;multipolygon(((0 0,1 0,1 1,0 0)),empty)", SridMode::Auto),
        ("SRID=4326;GeometryCollection(Point(1 2),LineString EMPTY)", SridMode::Strip),
        ("multipoint (1 2, (3 4), EMPTY)", SridMode::Force(3857)),
    ] {
        let once = full_to_wkt(Input::Text(text), mode, true).unwrap();
        let twice = full_to_wkt(Input::Text(&once), mode, true).unwrap();
        assert_eq!(twice, once);
        let wkb = full_wkt_to_wkb(text, mode).unwrap();
        assert_eq!(full_wkt_to_wkb(&once, mode).unwrap(), wkb);
    }
}

#[test]
fn decode_hex_reports_each_failure_with_its_message() {
    assert_eq!(decode_hex(""), Err(Error::InvalidWkb("empty hex string".into())));
    assert_eq!(decode_hex("ABC"), Err(Error::InvalidWkb("hex string has odd length".into())));
    assert_eq!(
        decode_hex("0Z"),
        Err(Error::InvalidWkb("invalid hex digit at position 1".into()))
    );
    assert_eq!(
        decode_hex("00G0"),
        Err(Error::InvalidWkb("invalid hex digit at position 2".into()))
    );
    assert_eq!(decode_hex("0aFf"), Ok(vec![0x0A, 0xFF]));
    // Lengths count UTF-8 bytes: two characters, three bytes.
    assert_eq!(
        decode_hex("\u{e9}0"),
        Err(Error::InvalidWkb("hex string has odd length".into()))
    );
    assert_eq!(
        decode_hex("\u{e9}\u{e9}"),
        Err(Error::InvalidWkb("invalid hex digit at position 0".into()))
    );
}

#[test]
fn hex_encode_and_decode_invert_each_other() {
    assert_eq!(encode_hex(&[0x0A, 0xFF, 0x00]), "0AFF00");
    assert_eq!(encode_hex(&[]), "");
    let bytes = [0x0A, 0xFF, 0x00];
    assert_eq!(decode_hex(&encode_hex(&bytes)).unwrap(), bytes.to_vec());
    for s in ["0aFf", "deadBEEF", "00"] {
        assert_eq!(encode_hex(&decode_hex(s).unwrap()), s.to_ascii_uppercase());
    }
}

#[test]
fn failed_single_character_reads_leave_position_after_whitespace() {
    let mut t = Tokenizer::new("  )x");
    assert!(t.expect_rparen().is_ok());
    assert_eq!(t.pos, 3);
    let mut t = Tokenizer::new("2)");
    assert!(matches!(t.expect_rparen(), Err(Error::InvalidWkt(_))));
    assert_eq!(t.pos, 0);
    let mut t = Tokenizer::new("  2");
    assert!(matches!(t.expect_lparen(), Err(Error::InvalidWkt(_))));
    assert_eq!(t.pos, 2);
    let mut t = Tokenizer::new(" ;");
    assert!(matches!(t.read_comma_or_rparen(), Err(Error::InvalidWkt(_))));
    assert_eq!(t.pos, 1);
}

#[test]
fn wkb_structure_errors_name_what_was_found() {
    assert_eq!(
        lib_wkb_to_wkt(&[2, 1, 0, 0, 0], SridMode::Auto).err(),
        Some(Error::InvalidWkb("invalid byte order marker: 2".into()))
    );
    let multipoint_with_line =
        hex::decode("010400000001000000010200000000000000").unwrap();
    assert_eq!(
        lib_wkb_to_wkt(&multipoint_with_line, SridMode::Auto).err(),
        Some(Error::InvalidWkb(
            "expected Point sub-geometry in MultiPoint, got type code LineString".into()
        ))
    );
    let multipolygon_with_point =
        hex::decode("0106000000010000000101000000000000000000F03F0000000000000040").unwrap();
    assert_eq!(
        lib_wkb_to_wkt(&multipolygon_with_point, SridMode::Auto).err(),
        Some(Error::InvalidWkb(
            "expected Polygon sub-geometry in MultiPolygon, got type code Point".into()
        ))
    );
}

#[test]
fn wkt_to_wkb_to_wkt_to_wkb_gives_the_same_bytes() {
    for wkt in [
        "POINT (1e2 -0.5)",
        "SRID=4326;POLYGON ((0 0, 1 0, 1 1, 0 0))",
        "multipoint z ((1 2 3), EMPTY)",
        "POINT (1.0000000000000002 3.14159)",
    ] {
        let b = full_wkt_to_wkb(wkt, SridMode::Auto).unwrap();
        let t = full_wkb_to_wkt(&b, SridMode::Auto).unwrap();
        assert_eq!(full_wkt_to_wkb(&t, SridMode::Auto).unwrap(), b);
    }
}

#[test]
fn split_srid_conversion_agrees_with_plain_conversion() {
    for wkt in ["SRID=4326;POINT (1 2)", "POINT (1 2)", "SRID=0;POINT (1 2)", "POINT (1"] {
        let split = full_wkt_to_wkb_split_srid(wkt);
        let plain = full_wkt_to_wkb(wkt, SridMode::Auto);
        assert_eq!(split.is_ok(), plain.is_ok());
        if let Ok((b, s)) = split {
            assert_eq!(wkb_header_srid(&b).unwrap(), None);
            assert_eq!(full_wkb_to_wkt_split_srid(&b).unwrap().1, None);
            assert!(s.map_or(true, |n| n > 0));
            let expected = match s {
                Some(n) => full_wkt_to_wkb(wkt, SridMode::Force(n)).unwrap(),
                None => b,
            };
            assert_eq!(plain.unwrap(), expected);
        }
    }
}

#[test]
fn normalizing_text_is_converting_to_wkb_and_back() {
    for (wkt, mode) in [
        ("point(1 2)", SridMode::Auto),
        ("SRID=4326;linestring (0 0,1.50 1)", SridMode::Auto),
        ("SRID=4326;POINT (1 2)", SridMode::Strip),
        ("POINT (1 2)", SridMode::Force(3857)),
    ] {
        let via_wkb = full_wkb_to_wkt(&full_wkt_to_wkb(wkt, mode).unwrap(), SridMode::Auto).unwrap();
        assert_eq!(full_to_wkt(Input::Text(wkt), mode, true).unwrap(), via_wkb);
    }
}

#[test]
fn generic_hex_output_is_hex_of_generic_wkb_output() {
    let wkb = full_wkt_to_wkb("SRID=4326;POINT (1 2)", SridMode::Auto).unwrap();
    let hex = encode_hex(&wkb);
    let lower = hex.to_lowercase();
    let inputs = [
        Input::Text("POINT (1 2)"),
        Input::Text(&hex),
        Input::Text(&lower),
        Input::Wkb(&wkb),
        Input::Wkb(&[0x99, 0x01]),
        Input::Text("POINT (1"),
    ];
    for input in inputs {
        for mode in [SridMode::Auto, SridMode::Strip, SridMode::Force(3857), SridMode::Force(-1)] {
            match (full_to_wkb(input, mode), full_to_hex_wkb(input, mode)) {
                (Ok(b), Ok(h)) => assert_eq!(h, encode_hex(&b)),
                (Err(e1), Err(e2)) => assert_eq!(e1, e2),
                _ => panic!("hex and byte outputs disagree"),
            }
        }
    }
    assert_eq!(full_to_hex_wkb(Input::Wkb(&[0x99, 0x01]), SridMode::Auto).unwrap(), "9901");
}

#[test]
fn setting_on_stripped_bytes_is_setting_on_the_bytes() {
    let be = hex::decode("0020000001000010E63FF00000000000004000000000000000").unwrap();
    let le = full_wkt_to_wkb("SRID=4326;MULTIPOLYGON (((0 0, 1 0, 1 1, 0 0)))", SridMode::Auto)
        .unwrap();
    let iso = hex::decode("01E9030000000000000000F03F00000000000000400000000000000840").unwrap();
    for x in [be, le, iso] {
        let s = wkb_strip_srid(&x).unwrap();
        for n in [-5, 0, 7, 4326] {
            let a = wkb_set_srid(&s, n).unwrap();
            let b = wkb_set_srid(&x, n).unwrap();
            assert_eq!(
                full_wkb_to_wkt(&a, SridMode::Auto).unwrap(),
                full_wkb_to_wkt(&b, SridMode::Auto).unwrap()
            );
            assert_eq!(wkb_header_srid(&b).unwrap(), if n > 0 { Some(n) } else { None });
            if n <= 0 {
                assert_eq!(b, wkb_strip_srid(&x).unwrap());
            }
        }
    }
}

#[test]
fn builder_text_is_what_was_pushed_whatever_the_capacity() {
    for cap in [0usize, 3, 100] {
        let mut b = WktBuilder::with_capacity(cap);
        b.push_str("POINT");
        b.push_char(' ');
        b.push_str("EMPTY");
        let draft = WktDraft { parts: b.finish(), source: None };
        assert_eq!(draft.render(&[]).unwrap(), "POINT EMPTY");
    }
}

#[test]
fn hex_writer_is_hex_of_cell_writer() {
    let mut cells = WkbWriter::with_capacity(0);
    let mut hex = HexWkbWriter::with_capacity(0);
    cells.write_u8(1);
    hex.write_u8(1);
    cells.write_u32(0x2000_0001);
    hex.write_u32(0x2000_0001);
    cells.write_num(0);
    hex.write_f64(1.5f64.to_bits());
    let draft = WkbDraft { cells: cells.into_bytes(), source: "1.5".chars().collect() };
    let bytes = draft.fill(&[Some(1.5f64.to_bits())]).unwrap();
    assert_eq!(hex.into_string(), encode_hex(&bytes));
    assert_eq!(encode_hex(&bytes), "0101000020000000000000F83F");
}

fn wkt_message(wkt: &str) -> String {
    match lib_wkt_to_wkb(wkt, SridMode::Auto) {
        Err(Error::InvalidWkt(m)) => m,
        other => panic!("expected an InvalidWkt error, got {:?}", other.map(|d| d.cells.len())),
    }
}

#[test]
fn wkt_errors_give_byte_positions_and_what_was_found() {
    assert_eq!(wkt_message("POINT (1 2"), "expected ')' at position 10, got None");
    assert_eq!(
        wkt_message("LINESTRING (0 0 + 1 1)"),
        "expected ',' or ')' at position 16, got Some('+')"
    );
    assert_eq!(wkt_message("POINT (abc 2)"), "expected number at position 7, got \"abc 2)\"");
    assert_eq!(
        wkt_message("POLYGON (0 0, 1 0, 1 1, 0 0)"),
        "expected '(' at position 9, got Some('0')"
    );
    assert_eq!(
        wkt_message("POINT INVALID"),
        "expected 'EMPTY' or '(' at position 6, got \"INVALID\""
    );
    assert_eq!(wkt_message("POINT EMPTYX"), "expected delimiter after EMPTY at position 11");
    assert_eq!(
        wkt_message("POINT (1 2) extra"),
        "unexpected trailing content at position 12: \"extra\""
    );
    assert_eq!(wkt_message("CIRCLE (1 2)"), "unknown geometry type at position 0: \"CIRCLE (1 2)\"");
    // Positions count UTF-8 bytes: the accented letter takes two.
    assert_eq!(
        wkt_message("POINT (1 2) \u{e9}"),
        "unexpected trailing content at position 12: \"\u{e9}\""
    );
    assert_eq!(
        wkt_message("\u{e9}POINT (1 2)"),
        "unknown geometry type at position 0: \"\u{e9}POINT (1 2)\""
    );
    assert_eq!(wkt_message("SRID=;POINT (1 2)"), "expected integer at position 5");
    assert_eq!(
        wkt_message("SRID=99999999999;POINT (1 2)"),
        "integer out of u32 range: 99999999999"
    );
    assert_eq!(
        wkt_message("GEOMETRYCOLLECTION Z (POINT (1 2))"),
        "GeometryCollection XYZ member has incompatible dimension XY"
    );
}

#[test]
fn fill_errors_name_the_number_and_its_position() {
    let draft = lib_wkt_to_wkb("POINT (1e999 2)", SridMode::Auto).unwrap();
    let values: Vec<Option<u64>> = draft.lexemes().iter().map(|s| number_value(s)).collect();
    assert_eq!(
        draft.fill(&values),
        Err(Error::InvalidWkt("non-finite coordinate \"1e999\" at position 7".into()))
    );
    let draft = lib_wkt_to_wkb("POINT (1.2.3 4)", SridMode::Auto).unwrap();
    let values: Vec<Option<u64>> = draft.lexemes().iter().map(|s| number_value(s)).collect();
    assert_eq!(
        draft.fill(&values),
        Err(Error::InvalidWkt("invalid number \"1.2.3\" at position 7".into()))
    );
}

#[test]
fn normalizing_reports_numbers_as_reading_the_text_does() {
    assert_eq!(
        full_to_wkt(Input::Text("POINT (1e999 2)"), SridMode::Auto, true),
        Err(Error::InvalidWkt("non-finite coordinate \"1e999\" at position 7".into()))
    );
    assert_eq!(
        full_to_wkt(Input::Text("POINT (1 1.2.3)"), SridMode::Auto, true),
        Err(Error::InvalidWkt("invalid number \"1.2.3\" at position 9".into()))
    );
}

#[test]
fn composite_conversions_return_the_error_of_the_step_that_fails() {
    assert_eq!(
        lib_hex_wkb_to_wkt("0Z", SridMode::Auto).err(),
        decode_hex("0Z").err()
    );
    assert_eq!(
        lib_hex_wkb_to_wkt("", SridMode::Auto).err(),
        Some(Error::InvalidWkb("empty hex string".into()))
    );
    let short = hex::decode("0101000000").unwrap();
    assert_eq!(
        lib_to_wkt(Input::Wkb(&short), SridMode::Auto, false).err(),
        lib_wkb_to_wkt(&short, SridMode::Auto).err()
    );
    assert_eq!(
        lib_wkb_to_wkt(&short, SridMode::Auto).err(),
        Some(Error::InvalidWkb("unexpected end of data reading f64".into()))
    );
    let hex = "0101000020E6100000000000000000F03F0000000000000040";
    for nz in [false, true] {
        assert_eq!(
            full_to_wkt(Input::Text(hex), SridMode::Strip, nz).unwrap(),
            full_hex_wkb_to_wkt(hex, SridMode::Strip).unwrap()
        );
    }
    assert_eq!(full_hex_wkb_to_wkt(hex, SridMode::Strip).unwrap(), "POINT (1 2)");
    let bad_hex = "0101000020E61000000000";
    assert_eq!(
        lib_to_wkt(Input::Text(bad_hex), SridMode::Auto, false).err(),
        lib_hex_wkb_to_wkt(bad_hex, SridMode::Auto).err()
    );
    assert_eq!(
        lib_wkt_to_hex_wkb("POINT (1", SridMode::Auto).err(),
        lib_wkt_to_wkb("POINT (1", SridMode::Auto).err()
    );
    assert_eq!(
        lib_wkt_to_wkb_split_srid("POINT (1").err(),
        Some(Error::InvalidWkt("expected number at position 8, got \"\"".into()))
    );
    assert_eq!(
        full_to_wkt(Input::Text(""), SridMode::Auto, true),
        Err(Error::InvalidWkt("empty input".into()))
    );
}

#[test]
fn geometry_that_does_not_read_back_cannot_be_reencoded() {
    let nan = f64::NAN.to_bits().to_le_bytes();
    let mut iso = hex::decode("01E9030000").unwrap();
    for _ in 0..3 {
        iso.extend_from_slice(&nan);
    }
    let mut one = iso.clone();
    one[5..13].copy_from_slice(&1.0f64.to_le_bytes());
    assert_eq!(
        wkb_strip_srid(&one),
        Err(Error::InvalidWkt("geometry cannot be written as WKT and read back".into()))
    );
}

#[test]
fn split_wkb_srid_is_the_header_srid() {
    for wkt in ["SRID=4326;POINT (1 2)", "POINT (1 2)", "SRID=7;MULTIPOINT (1 2, 3 4)"] {
        let wkb = full_wkt_to_wkb(wkt, SridMode::Auto).unwrap();
        let (text, s) = full_wkb_to_wkt_split_srid(&wkb).unwrap();
        assert_eq!(wkb_header_srid(&wkb).unwrap(), s);
        assert!(s.map_or(true, |n| n > 0));
        assert!(!text.get(..5).is_some_and(|x| x.eq_ignore_ascii_case("SRID=")));
    }
    let plain = full_wkt_to_wkb("POINT Z (1 2 3)", SridMode::Auto).unwrap();
    assert_eq!(wkb_strip_srid(&plain).unwrap(), plain);
}
