//! Tests of the library's building blocks: error text, the hex table, the
//! writer's capacity and count helpers, and forced SRIDs.
#![allow(dead_code)]

use wkb_wkt_converter::{
    hex_wkb_to_wkt as lib_hex_wkb_to_wkt, to_hex_wkb as lib_to_hex_wkb, to_wkb as lib_to_wkb,
    to_wkt as lib_to_wkt, wkb_to_wkt as lib_wkb_to_wkt,
    wkb_to_wkt_split_srid as lib_wkb_to_wkt_split_srid, wkt_to_hex_wkb as lib_wkt_to_hex_wkb,
    wkt_to_wkb as lib_wkt_to_wkb, wkt_to_wkb_split_srid as lib_wkt_to_wkb_split_srid, HexText,
    Input, Result, SridMode, WkbDraft, WktDraft, WktText,
};
use wkb_wkt_converter::hex::build_hex_nibble_lut;
use wkb_wkt_converter::wkt_to_wkb::{increment_count, initial_wkb_capacity, MAX_INITIAL_WKB_CAPACITY};
use wkb_wkt_converter::wkt_to_wkb::writer::HexWkbWriter;
use wkb_wkt_converter::{Dimension, Error, GeomType};

// The library leaves the decimal text <-> double conversion of single numbers
// to its caller; these helpers complete its drafts the way an application does.

fn number_value(lexeme: &str) -> Option<u64> {
    lexeme.parse::<f64>().ok().map(f64::to_bits)
}

fn format_coord(v: f64) -> String {
    if v.is_finite() && v != 0.0 && v == v.trunc() && v.abs() < 1e15 {
        format!("{}", v as i64)
    } else {
        format!("{v}")
    }
}

fn fill(draft: WkbDraft) -> Result<Vec<u8>> {
    let values: Vec<Option<u64>> = draft.lexemes().iter().map(|s| number_value(s)).collect();
    draft.fill(&values)
}

fn fill_hex(draft: WkbDraft) -> Result<String> {
    let values: Vec<Option<u64>> = draft.lexemes().iter().map(|s| number_value(s)).collect();
    draft.fill_hex(&values)
}

fn render(draft: WktDraft) -> Result<String> {
    let formatted: Vec<Option<String>> = draft
        .coords()
        .iter()
        .map(|&v| match &draft.source {
            Some(_) => draft
                .lexeme(v)
                .and_then(|s| s.parse::<f64>().ok())
                .filter(|x| x.is_finite())
                .map(format_coord),
            None => Some(format_coord(f64::from_bits(v))),
        })
        .collect();
    draft.render(&formatted)
}

fn render_text(text: WktText) -> Result<String> {
    match text {
        WktText::Text(s) => Ok(s),
        WktText::Draft(d) => render(d),
    }
}

fn hex_text(text: HexText) -> Result<String> {
    match text {
        HexText::Text(s) => Ok(s),
        HexText::Draft(d) => fill_hex(d),
    }
}

fn full_wkb_to_wkt(wkb: &[u8], srid: SridMode) -> Result<String> {
    render(lib_wkb_to_wkt(wkb, srid)?)
}

fn full_wkt_to_wkb(wkt: &str, srid: SridMode) -> Result<Vec<u8>> {
    fill(lib_wkt_to_wkb(wkt, srid)?)
}

fn full_wkt_to_hex_wkb(wkt: &str, srid: SridMode) -> Result<String> {
    fill_hex(lib_wkt_to_hex_wkb(wkt, srid)?)
}

fn full_hex_wkb_to_wkt(hex: &str, srid: SridMode) -> Result<String> {
    render(lib_hex_wkb_to_wkt(hex, srid)?)
}

fn full_wkb_to_wkt_split_srid(wkb: &[u8]) -> Result<(String, Option<i32>)> {
    let (draft, srid) = lib_wkb_to_wkt_split_srid(wkb)?;
    Ok((render(draft)?, srid))
}

fn full_wkt_to_wkb_split_srid(wkt: &str) -> Result<(Vec<u8>, Option<i32>)> {
    let (draft, srid) = lib_wkt_to_wkb_split_srid(wkt)?;
    Ok((fill(draft)?, srid))
}

fn full_to_wkb(input: Input<'_>, srid: SridMode) -> Result<Vec<u8>> {
    fill(lib_to_wkb(input, srid)?)
}

fn full_to_wkt(input: Input<'_>, srid: SridMode, normalize_wkt: bool) -> Result<String> {
    render_text(lib_to_wkt(input, srid, normalize_wkt)?)
}

fn full_to_hex_wkb(input: Input<'_>, srid: SridMode) -> Result<String> {
    hex_text(lib_to_hex_wkb(input, srid)?)
}

#[test]
fn invalid_wkt_display() {
    assert_eq!(
        Error::InvalidWkt("bad input".into()).to_string(),
        "invalid WKT: bad input"
    );
}

#[test]
fn invalid_wkb_display() {
    assert_eq!(
        Error::InvalidWkb("truncated".into()).to_string(),
        "invalid WKB: truncated"
    );
}

#[test]
fn unsupported_type_display() {
    assert_eq!(
        Error::UnsupportedGeometryType(99).to_string(),
        "unsupported geometry type code: 99"
    );
}

#[test]
fn hex_nibble_lut_spot_check() {
    let lut = build_hex_nibble_lut();
    assert_eq!(lut[b'0' as usize], 0);
    assert_eq!(lut[b'9' as usize], 9);
    assert_eq!(lut[b'a' as usize], 10);
    assert_eq!(lut[b'f' as usize], 15);
    assert_eq!(lut[b'A' as usize], 10);
    assert_eq!(lut[b'F' as usize], 15);
    assert_eq!(lut[b'G' as usize], 0xFF);
    assert_eq!(lut[b' ' as usize], 0xFF);
}

#[test]
fn initial_wkb_capacity_uses_capped_input_len() {
    assert_eq!(initial_wkb_capacity(0), 0);
    assert_eq!(initial_wkb_capacity(40), 40);
    assert_eq!(
        initial_wkb_capacity(MAX_INITIAL_WKB_CAPACITY + 1),
        MAX_INITIAL_WKB_CAPACITY
    );
}

#[test]
fn forced_srid_overrides_validated_input_srid_without_second_copy() {
    let wkb = full_wkt_to_wkb("SRID=4326;POINT (1 2)", SridMode::Force(3857)).unwrap();
    assert_eq!(
        full_wkb_to_wkt(&wkb, SridMode::Auto).unwrap(),
        "SRID=3857;POINT (1 2)"
    );
}

#[test]
fn forced_srid_is_only_written_to_top_level_collection_header() {
    let wkb = full_wkt_to_wkb("GEOMETRYCOLLECTION (POINT (1 2))", SridMode::Force(3857)).unwrap();
    assert_eq!(
        u32::from_le_bytes(wkb[1..5].try_into().unwrap()),
        0x2000_0007
    );
    assert_eq!(u32::from_le_bytes(wkb[5..9].try_into().unwrap()), 3857);
    assert_eq!(u32::from_le_bytes(wkb[14..18].try_into().unwrap()), 1);
}

#[test]
fn forced_srid_still_validates_input_srid_prefix() {
    assert!(full_wkt_to_wkb("SRID=abc;POINT (1 2)", SridMode::Force(3857)).is_err());
}

#[test]
fn increment_count_checks_overflow() {
    let mut count = 0;
    increment_count(&mut count, "test items").unwrap();
    assert_eq!(count, 1);

    let mut count = u32::MAX;
    assert!(increment_count(&mut count, "test items").is_err());
    assert_eq!(count, u32::MAX);
}

#[test]
fn hex_writer_writes_upper_case_hex_and_patches_counts() {
    let mut w = HexWkbWriter::with_capacity(8);
    w.write_header(GeomType::LineString, Dimension::XY, Some(4326));
    let pos = w.reserve_u32();
    w.write_f64(1.0f64.to_bits());
    w.write_u8(0xAB);
    w.patch_u32(pos, 3);
    assert_eq!(
        w.into_string(),
        "0102000020E610000003000000000000000000F03FAB"
    );
}
