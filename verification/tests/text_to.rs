//! Tests for the generic text_to_wkb / text_to_wkt / text_to_hex_wkb helpers.
#![allow(dead_code)]

use wkb_wkt_converter::{
    hex_wkb_to_wkt as lib_hex_wkb_to_wkt, to_hex_wkb as lib_to_hex_wkb, to_wkb as lib_to_wkb,
    to_wkt as lib_to_wkt, wkb_to_wkt as lib_wkb_to_wkt,
    wkb_to_wkt_split_srid as lib_wkb_to_wkt_split_srid, wkt_to_hex_wkb as lib_wkt_to_hex_wkb,
    wkt_to_wkb as lib_wkt_to_wkb, wkt_to_wkb_split_srid as lib_wkt_to_wkb_split_srid, HexText,
    Input, Result, SridMode, WkbDraft, WktDraft, WktText,
};

// The library leaves the decimal text <-> double conversion of single numbers
// to its caller; these helpers complete its drafts the way an application does.

fn number_value(lexeme: &str) -> Option<u64> {
    lexeme.parse::<f64>().ok().map(f64::to_bits)
}

fn format_coord(v: f64) -> String {
    if v.is_finite() && v != 0.0 && v == v.trunc() && v.abs() < 1e15 {
        format!("{}", v as i64)
    } else {
        format!("{v}")
    }
}

fn fill(draft: WkbDraft) -> Result<Vec<u8>> {
    let values: Vec<Option<u64>> = draft.lexemes().iter().map(|s| number_value(s)).collect();
    draft.fill(&values)
}

fn fill_hex(draft: WkbDraft) -> Result<String> {
    let values: Vec<Option<u64>> = draft.lexemes().iter().map(|s| number_value(s)).collect();
    draft.fill_hex(&values)
}

fn render(draft: WktDraft) -> Result<String> {
    let formatted: Vec<Option<String>> = draft
        .coords()
        .iter()
        .map(|&v| match &draft.source {
            Some(_) => draft
                .lexeme(v)
                .and_then(|s| s.parse::<f64>().ok())
                .filter(|x| x.is_finite())
                .map(format_coord),
            None => Some(format_coord(f64::from_bits(v))),
        })
        .collect();
    draft.render(&formatted)
}

fn render_text(text: WktText) -> Result<String> {
    match text {
        WktText::Text(s) => Ok(s),
        WktText::Draft(d) => render(d),
    }
}

fn hex_text(text: HexText) -> Result<String> {
    match text {
        HexText::Text(s) => Ok(s),
        HexText::Draft(d) => fill_hex(d),
    }
}

fn full_wkb_to_wkt(wkb: &[u8], srid: SridMode) -> Result<String> {
    render(lib_wkb_to_wkt(wkb, srid)?)
}

fn full_wkt_to_wkb(wkt: &str, srid: SridMode) -> Result<Vec<u8>> {
    fill(lib_wkt_to_wkb(wkt, srid)?)
}

fn full_wkt_to_hex_wkb(wkt: &str, srid: SridMode) -> Result<String> {
    fill_hex(lib_wkt_to_hex_wkb(wkt, srid)?)
}

fn full_hex_wkb_to_wkt(hex: &str, srid: SridMode) -> Result<String> {
    render(lib_hex_wkb_to_wkt(hex, srid)?)
}

fn full_wkb_to_wkt_split_srid(wkb: &[u8]) -> Result<(String, Option<i32>)> {
    let (draft, srid) = lib_wkb_to_wkt_split_srid(wkb)?;
    Ok((render(draft)?, srid))
}

fn full_wkt_to_wkb_split_srid(wkt: &str) -> Result<(Vec<u8>, Option<i32>)> {
    let (draft, srid) = lib_wkt_to_wkb_split_srid(wkt)?;
    Ok((fill(draft)?, srid))
}

fn full_to_wkb(input: Input<'_>, srid: SridMode) -> Result<Vec<u8>> {
    fill(lib_to_wkb(input, srid)?)
}

fn full_to_wkt(input: Input<'_>, srid: SridMode, normalize_wkt: bool) -> Result<String> {
    render_text(lib_to_wkt(input, srid, normalize_wkt)?)
}

fn full_to_hex_wkb(input: Input<'_>, srid: SridMode) -> Result<String> {
    hex_text(lib_to_hex_wkb(input, srid)?)
}

fn text_to_wkb(text: &str, srid: SridMode) -> Result<Vec<u8>> {
    full_to_wkb(Input::Text(text), srid)
}

fn text_to_wkt(text: &str, srid: SridMode, normalize_wkt: bool) -> Result<String> {
    full_to_wkt(Input::Text(text), srid, normalize_wkt)
}

fn text_to_hex_wkb(text: &str, srid: SridMode) -> Result<String> {
    full_to_hex_wkb(Input::Text(text), srid)
}

fn wkb_to_wkt(wkb: &[u8]) -> Result<String> {
    full_wkb_to_wkt(wkb, SridMode::Auto)
}

fn wkt_to_hex_wkb(wkt: &str) -> Result<String> {
    full_wkt_to_hex_wkb(wkt, SridMode::Auto)
}

fn wkt_to_wkb(wkt: &str) -> Result<Vec<u8>> {
    full_wkt_to_wkb(wkt, SridMode::Auto)
}

// ── helpers ──────────────────────────────────────────────────────────────────

fn hex(wkt: &str) -> String {
    wkt_to_hex_wkb(wkt).unwrap()
}

// ── text_to_wkb: input detection ─────────────────────────────────────────────

#[test]
fn text_to_wkb_from_wkt_matches_direct() {
    let via_text = text_to_wkb("POINT (1 2)", SridMode::Auto).unwrap();
    let direct = wkt_to_wkb("POINT (1 2)").unwrap();
    assert_eq!(via_text, direct);
}

#[test]
fn text_to_wkb_from_hex_wkb_matches_direct() {
    let h = hex("POINT (1 2)");
    let via_text = text_to_wkb(&h, SridMode::Auto).unwrap();
    let direct = wkt_to_wkb("POINT (1 2)").unwrap();
    assert_eq!(via_text, direct);
}

#[test]
fn text_to_wkb_from_wkt_with_leading_whitespace() {
    let via_text = text_to_wkb("  POINT (1 2)  ", SridMode::Auto).unwrap();
    let direct = wkt_to_wkb("POINT (1 2)").unwrap();
    assert_eq!(via_text, direct);
}

// ── text_to_wkb: SridMode::Auto ──────────────────────────────────────────────

#[test]
fn text_to_wkb_auto_preserves_srid_from_ewkt() {
    let wkb = text_to_wkb("SRID=4326;POINT (1 2)", SridMode::Auto).unwrap();
    assert_eq!(wkb_to_wkt(&wkb).unwrap(), "SRID=4326;POINT (1 2)");
}

#[test]
fn text_to_wkb_auto_preserves_no_srid_from_wkt() {
    let wkb = text_to_wkb("POINT (1 2)", SridMode::Auto).unwrap();
    assert_eq!(wkb_to_wkt(&wkb).unwrap(), "POINT (1 2)");
}

#[test]
fn text_to_wkb_auto_preserves_srid_from_hex_ewkb() {
    let h = hex("SRID=4326;POINT (1 2)");
    let wkb = text_to_wkb(&h, SridMode::Auto).unwrap();
    assert_eq!(wkb_to_wkt(&wkb).unwrap(), "SRID=4326;POINT (1 2)");
}

#[test]
fn text_to_wkb_auto_preserves_no_srid_from_plain_hex_wkb() {
    let h = hex("POINT (1 2)");
    let wkb = text_to_wkb(&h, SridMode::Auto).unwrap();
    assert_eq!(wkb_to_wkt(&wkb).unwrap(), "POINT (1 2)");
}

// ── text_to_wkb: SridMode::Strip ─────────────────────────────────────────────

#[test]
fn text_to_wkb_strip_removes_srid_from_ewkt() {
    let wkb = text_to_wkb("SRID=4326;POINT (1 2)", SridMode::Strip).unwrap();
    assert_eq!(wkb_to_wkt(&wkb).unwrap(), "POINT (1 2)");
}

#[test]
fn text_to_wkb_strip_removes_srid_from_hex_ewkb() {
    let h = hex("SRID=4326;POINT (1 2)");
    let wkb = text_to_wkb(&h, SridMode::Strip).unwrap();
    assert_eq!(wkb_to_wkt(&wkb).unwrap(), "POINT (1 2)");
}

#[test]
fn text_to_wkb_strip_noop_when_no_srid_in_wkt() {
    let wkb = text_to_wkb("POINT (1 2)", SridMode::Strip).unwrap();
    assert_eq!(wkb_to_wkt(&wkb).unwrap(), "POINT (1 2)");
}

// ── text_to_wkb: SridMode::Set ───────────────────────────────────────────────

#[test]
fn text_to_wkb_set_adds_srid_to_plain_wkt() {
    let wkb = text_to_wkb("POINT (1 2)", SridMode::Force(4326)).unwrap();
    assert_eq!(wkb_to_wkt(&wkb).unwrap(), "SRID=4326;POINT (1 2)");
}

#[test]
fn text_to_wkb_set_overrides_existing_srid_in_ewkt() {
    let wkb = text_to_wkb("SRID=4326;POINT (1 2)", SridMode::Force(3857)).unwrap();
    assert_eq!(wkb_to_wkt(&wkb).unwrap(), "SRID=3857;POINT (1 2)");
}

#[test]
fn text_to_wkb_set_adds_srid_to_plain_hex_wkb() {
    let h = hex("POINT (1 2)");
    let wkb = text_to_wkb(&h, SridMode::Force(4326)).unwrap();
    assert_eq!(wkb_to_wkt(&wkb).unwrap(), "SRID=4326;POINT (1 2)");
}

#[test]
fn text_to_wkb_set_overrides_srid_in_hex_ewkb() {
    let h = hex("SRID=4326;POINT (1 2)");
    let wkb = text_to_wkb(&h, SridMode::Force(3857)).unwrap();
    assert_eq!(wkb_to_wkt(&wkb).unwrap(), "SRID=3857;POINT (1 2)");
}

// ── text_to_wkt: input detection and normalisation ───────────────────────────

#[test]
fn text_to_wkt_from_wkt_normalises_casing_and_spacing() {
    assert_eq!(
        text_to_wkt("point(1 2)", SridMode::Auto, true).unwrap(),
        "POINT (1 2)"
    );
}

#[test]
fn text_to_wkt_from_hex_wkb_roundtrip() {
    let h = hex("LINESTRING (0 0, 1 1)");
    assert_eq!(
        text_to_wkt(&h, SridMode::Auto, true).unwrap(),
        "LINESTRING (0 0, 1 1)"
    );
}

// ── text_to_wkt: SridMode::Auto ──────────────────────────────────────────────

#[test]
fn text_to_wkt_auto_preserves_srid_from_ewkt() {
    assert_eq!(
        text_to_wkt("SRID=4326;POINT (1 2)", SridMode::Auto, true).unwrap(),
        "SRID=4326;POINT (1 2)"
    );
}

#[test]
fn text_to_wkt_auto_preserves_no_srid_from_wkt() {
    assert_eq!(
        text_to_wkt("POINT (1 2)", SridMode::Auto, true).unwrap(),
        "POINT (1 2)"
    );
}

#[test]
fn text_to_wkt_auto_preserves_srid_from_hex_ewkb() {
    let h = hex("SRID=4326;POINT (1 2)");
    assert_eq!(
        text_to_wkt(&h, SridMode::Auto, true).unwrap(),
        "SRID=4326;POINT (1 2)"
    );
}

// ── text_to_wkt: SridMode::Strip ─────────────────────────────────────────────

#[test]
fn text_to_wkt_strip_removes_srid_from_ewkt() {
    assert_eq!(
        text_to_wkt("SRID=4326;POINT (1 2)", SridMode::Strip, true).unwrap(),
        "POINT (1 2)"
    );
}

#[test]
fn text_to_wkt_strip_removes_srid_from_hex_ewkb() {
    let h = hex("SRID=4326;POINT (1 2)");
    assert_eq!(
        text_to_wkt(&h, SridMode::Strip, true).unwrap(),
        "POINT (1 2)"
    );
}

// ── text_to_wkt: SridMode::Set ───────────────────────────────────────────────

#[test]
fn text_to_wkt_set_adds_srid_to_plain_wkt() {
    assert_eq!(
        text_to_wkt("POINT (1 2)", SridMode::Force(4326), true).unwrap(),
        "SRID=4326;POINT (1 2)"
    );
}

#[test]
fn text_to_wkt_set_overrides_existing_srid_in_ewkt() {
    assert_eq!(
        text_to_wkt("SRID=4326;POINT (1 2)", SridMode::Force(3857), true).unwrap(),
        "SRID=3857;POINT (1 2)"
    );
}

#[test]
fn text_to_wkt_set_adds_srid_to_plain_hex_wkb() {
    let h = hex("POINT (1 2)");
    assert_eq!(
        text_to_wkt(&h, SridMode::Force(4326), true).unwrap(),
        "SRID=4326;POINT (1 2)"
    );
}

// ── text_to_wkt: normalize_wkt=false ─────────────────────────────────────────

#[test]
fn text_to_wkt_no_normalize_returns_wkt_as_is() {
    assert_eq!(
        text_to_wkt("point(1 2)", SridMode::Auto, false).unwrap(),
        "point(1 2)"
    );
}

#[test]
fn text_to_wkt_no_normalize_auto_preserves_srid_prefix() {
    assert_eq!(
        text_to_wkt("SRID=4326;POINT (1 2)", SridMode::Auto, false).unwrap(),
        "SRID=4326;POINT (1 2)"
    );
}

#[test]
fn text_to_wkt_no_normalize_strip_removes_srid_prefix() {
    assert_eq!(
        text_to_wkt("SRID=4326;POINT (1 2)", SridMode::Strip, false).unwrap(),
        "POINT (1 2)"
    );
}

#[test]
fn text_to_wkt_no_normalize_strip_noop_when_no_srid() {
    assert_eq!(
        text_to_wkt("POINT (1 2)", SridMode::Strip, false).unwrap(),
        "POINT (1 2)"
    );
}

#[test]
fn text_to_wkt_no_normalize_set_adds_srid_prefix() {
    assert_eq!(
        text_to_wkt("POINT (1 2)", SridMode::Force(4326), false).unwrap(),
        "SRID=4326;POINT (1 2)"
    );
}

#[test]
fn text_to_wkt_no_normalize_set_overrides_existing_srid() {
    assert_eq!(
        text_to_wkt("SRID=4326;POINT (1 2)", SridMode::Force(3857), false).unwrap(),
        "SRID=3857;POINT (1 2)"
    );
}

#[test]
fn text_to_wkt_no_normalize_hex_input_still_normalises() {
    // normalize_wkt has no effect on hex WKB input; result is always normalised WKT.
    let h = hex("POINT (1 2)");
    assert_eq!(
        text_to_wkt(&h, SridMode::Auto, false).unwrap(),
        "POINT (1 2)"
    );
}

// ── text_to_hex_wkb ──────────────────────────────────────────────────────────

#[test]
fn text_to_hex_wkb_from_wkt_is_uppercase() {
    let h = text_to_hex_wkb("POINT (1 2)", SridMode::Auto).unwrap();
    assert_eq!(h, h.to_uppercase());
}

#[test]
fn text_to_hex_wkb_from_wkt_roundtrip() {
    let h = text_to_hex_wkb("POINT (1 2)", SridMode::Auto).unwrap();
    assert_eq!(
        wkb_to_wkt(&hex::decode(&h).unwrap()).unwrap(),
        "POINT (1 2)"
    );
}

#[test]
fn text_to_hex_wkb_from_hex_wkb_roundtrip() {
    let original = hex("LINESTRING (0 0, 1 1)");
    let result = text_to_hex_wkb(&original, SridMode::Auto).unwrap();
    assert_eq!(result, original);
}

#[test]
fn text_to_hex_wkb_set_adds_srid() {
    let h = text_to_hex_wkb("POINT (1 2)", SridMode::Force(4326)).unwrap();
    let wkt = wkb_to_wkt(&hex::decode(&h).unwrap()).unwrap();
    assert_eq!(wkt, "SRID=4326;POINT (1 2)");
}

#[test]
fn text_to_hex_wkb_strip_removes_srid() {
    let h = text_to_hex_wkb("SRID=4326;POINT (1 2)", SridMode::Strip).unwrap();
    let wkt = wkb_to_wkt(&hex::decode(&h).unwrap()).unwrap();
    assert_eq!(wkt, "POINT (1 2)");
}
