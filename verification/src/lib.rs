//! Streaming conversion between WKT/EWKT text and WKB/EWKB bytes.
//!
//! The library parses and writes every structural part of both formats.
//! Coordinate values are IEEE-754 doubles; the library carries them as their
//! 64-bit patterns and leaves the conversion of a single number between
//! decimal text and double to the caller: a conversion to WKB yields a
//! [`WkbDraft`] whose number cells the caller fills with the values of their
//! lexemes, and a conversion to WKT yields a [`WktDraft`] whose coordinates
//! the caller writes as decimal text.
pub mod error;
pub mod text;
pub mod types;
pub mod model;
pub mod wkb_to_wkt;
pub mod hex;
pub mod draft;
pub mod wkt_to_wkb;
pub mod header;
pub mod ewkt;
pub mod laws;
pub mod parse_laws;
pub mod value_laws;
pub mod render_laws;
pub mod reencode_laws;
pub mod srid_laws;
pub mod normalize_laws;
pub mod chain_laws;

use vstd::prelude::*;

pub use draft::{HexText, WkbDraft, WktDraft, WktText};
pub use error::{Error, ErrorKind, Fault, Result};
pub use hex::{decode_hex, encode_hex};
pub use types::{Dimension, GeomType, SridMode};

use draft::byte_draft;
use error::{wkb_error, wkt_error};
use ewkt::{ewkt_body_start, strip_ewkt_prefix, strip_unknown_srid_prefix, unknown_srid_body_start};
use header::{
    bytes_as, fast_set, fast_strip, header_srid_fast, reencode, reencoded, set_head, strip_head,
    try_read_ewkb_srid_fast, try_set_srid_fast, try_strip_srid_fast,
};
use hex::{hex_bytes, hex_of, is_hex_text, try_decode_hex, try_normalize_hex_uppercase, upper_text};
use model::{byte_cells, flatten, num_payloads, render, Shape};
use text::{is_hex_digit, spec_decimal, trim_chars, trimmed};
use types::{normalise_srid_mode, normalised, out_srid};
use wkb_to_wkt::builder::WktBuilder;
use wkb_to_wkt::reader::decode;
use wkb_to_wkt::{convert_parts, push_srid_prefix, wkt_parts};
use wkt_to_wkb::messages::wkt_fault;
use wkt_to_wkb::{convert_cells, wkt_result};

verus! {

/// `r` is the WKT draft of the decoded bytes `d`, the SRID chosen by `mode`.
pub open spec fn wkt_draft_of(
    r: Result<WktDraft>,
    d: core::result::Result<(Shape, Option<i32>), Fault>,
    mode: SridMode,
) -> bool {
    match d {
        Ok((g, s)) => r matches Ok(w) && w.source is None && w.parts@ == wkt_parts(
            g,
            out_srid(mode, s),
        ),
        Err(k) => r matches Err(e) && e.fault() == k,
    }
}

/// `r` is the WKB draft that the WKT text `s` converts to under `mode`.
pub open spec fn wkb_draft_of(r: Result<WkbDraft>, s: Seq<char>, mode: SridMode) -> bool {
    match wkt_result(s, mode) {
        Some((c, _)) => r matches Ok(d) && d.cells@ == c && d.source@ == s,
        None => r matches Err(e) && e.fault() == wkt_fault(s),
    }
}

/// Writes the parts of `d` after a `SRID=<n>;` prefix.
fn with_prefix(d: WktDraft, n: i32) -> (r: WktDraft)
    requires
        n > 0,
    ensures
        r.parts@ == model::srid_prefix(n) + d.parts@,
        r.source == d.source,
{
    let mut out = WktBuilder::with_capacity(0);
    push_srid_prefix(&mut out, n);
    let mut parts = d.parts;
    out.parts.append(&mut parts);
    WktDraft { parts: out.finish(), source: d.source }
}

/// Converts WKB/EWKB bytes to a WKT/EWKT draft.
///
/// `srid` chooses the SRID prefix of the output: `Auto` mirrors the input,
/// `Strip` leaves it out, `Force(n)` writes `SRID=n;` whatever the input says.
pub fn wkb_to_wkt(wkb: &[u8], srid: SridMode) -> (r: Result<WktDraft>)
    ensures
        wkt_draft_of(r, decode(wkb@), srid),
{
    let mode = normalise_srid_mode(srid);
    match mode {
        SridMode::Auto => match convert_parts(wkb, true) {
            Ok((d, _)) => Ok(d),
            Err(e) => Err(e),
        },
        SridMode::Strip => match convert_parts(wkb, false) {
            Ok((d, _)) => Ok(d),
            Err(e) => Err(e),
        },
        SridMode::Force(n) => match convert_parts(wkb, false) {
            Ok((d, _)) => Ok(with_prefix(d, n)),
            Err(e) => Err(e),
        },
    }
}

/// What `wkb_to_wkt_split_srid` gives for bytes `b`: the draft of the decoded
/// geometry without SRID prefix and the decoded SRID, or the decoding error.
pub open spec fn split_draft_of(r: Result<(WktDraft, Option<i32>)>, b: Seq<u8>) -> bool {
    match decode(b) {
        Ok((g, s)) => r matches Ok((w, t)) && w.source is None && w.parts@ == render(g) && t == s,
        Err(k) => r matches Err(e) && e.fault() == k,
    }
}

/// Converts WKB/EWKB bytes to a WKT draft without SRID prefix, returning the
/// SRID of the input separately.
pub fn wkb_to_wkt_split_srid(wkb: &[u8]) -> (r: Result<(WktDraft, Option<i32>)>)
    ensures
        split_draft_of(r, wkb@),
{
    convert_parts(wkb, false)
}

/// What `hex_wkb_to_wkt` gives: the WKT draft of the bytes that hex text
/// `h` denotes, or the error that decoding other text gives.
pub open spec fn hex_wkt_is(r: Result<WktDraft>, h: Seq<char>, srid: SridMode) -> bool {
    if is_hex_text(h) {
        wkt_draft_of(r, decode(hex_bytes(h)), srid)
    } else {
        r matches Err(e) && e.fault() == crate::hex::hex_fault(h)
    }
}

/// Converts hex-encoded WKB/EWKB to a WKT/EWKT draft. Text that is not hex
/// fails with `InvalidWkb`.
pub fn hex_wkb_to_wkt(hex: &str, srid: SridMode) -> (r: Result<WktDraft>)
    ensures
        hex_wkt_is(r, hex@, srid),
{
    let bytes = match decode_hex(hex) {
        Ok(b) => b,
        Err(e) => return Err(e),
    };
    wkb_to_wkt(bytes.as_slice(), srid)
}

/// Converts WKT/EWKT text to an EWKB draft.
///
/// `srid` chooses the SRID of the output: `Auto` mirrors the input, `Strip`
/// leaves it out, `Force(n)` embeds `n` whatever the input says.
pub fn wkt_to_wkb(wkt: &str, srid: SridMode) -> (r: Result<WkbDraft>)
    ensures
        wkb_draft_of(r, wkt@, srid),
{
    let chars = text::chars_of(wkt);
    let source = chars.clone();
    match convert_cells(chars, srid) {
        Ok((cells, _)) => Ok(WkbDraft { cells, source }),
        Err(e) => Err(e),
    }
}

/// Converts WKT/EWKT text to an EWKB draft without SRID, returning the SRID
/// of the text separately.
pub fn wkt_to_wkb_split_srid(wkt: &str) -> (r: Result<(WkbDraft, Option<i32>)>)
    ensures
        match wkt_result(wkt@, SridMode::Strip) {
            Some((c, sr)) => r matches Ok((d, t)) && d.cells@ == c && d.source@ == wkt@ && t == sr,
            None => r matches Err(e) && e.fault() == wkt_fault(wkt@),
        },
{
    let chars = text::chars_of(wkt);
    let source = chars.clone();
    match convert_cells(chars, SridMode::Strip) {
        Ok((cells, sr)) => Ok((WkbDraft { cells, source }, sr)),
        Err(e) => Err(e),
    }
}

/// Converts WKT/EWKT text to an EWKB draft whose hex text
/// [`WkbDraft::fill_hex`] gives.
pub fn wkt_to_hex_wkb(wkt: &str, srid: SridMode) -> (r: Result<WkbDraft>)
    ensures
        wkb_draft_of(r, wkt@, srid),
{
    wkt_to_wkb(wkt, srid)
}

/// What `wkb_header_srid` gives for bytes `b`: the SRID of a header read
/// directly when it allows it, otherwise that of the decoded bytes.
pub open spec fn header_srid_of(r: Result<Option<i32>>, b: Seq<u8>) -> bool {
    match header_srid_fast(b) {
        Some(Ok(s)) => r == Result::<Option<i32>>::Ok(s),
        Some(Err(k)) => r matches Err(e) && e.fault() == k,
        None => match decode(b) {
            Ok((_, s)) => r == Result::<Option<i32>>::Ok(s),
            Err(k) => r matches Err(e) && e.fault() == k,
        },
    }
}

/// Reads the SRID of the top-level EWKB header; `None` when there is none.
///
/// A header whose type word holds only the Z, M and SRID flags is read
/// directly, in either byte order; any other input is decoded whole.
pub fn wkb_header_srid(wkb: &[u8]) -> (r: Result<Option<i32>>)
    ensures
        header_srid_of(r, wkb@),
{
    match try_read_ewkb_srid_fast(wkb) {
        Some(r) => r,
        None => match convert_parts(wkb, false) {
            Ok((_, s)) => Ok(s),
            Err(e) => Err(e),
        },
    }
}

/// What stripping the SRID gives: the header rewritten when it allows it
/// (either byte order), otherwise a full re-encode.
pub open spec fn stripped(b: Seq<u8>) -> core::result::Result<Seq<u8>, Fault> {
    match fast_strip(b, false) {
        Some(o) => Ok(o),
        None => reencoded(b, None),
    }
}

/// What setting SRID `n` gives; an SRID that is not positive strips instead.
pub open spec fn with_srid(b: Seq<u8>, n: i32) -> core::result::Result<Seq<u8>, Fault> {
    if n <= 0 {
        stripped(b)
    } else {
        match fast_set(b, n, false) {
            Some(o) => Ok(o),
            None => reencoded(b, Some(n)),
        }
    }
}

/// Removes the top-level SRID from WKB/EWKB bytes.
pub fn wkb_strip_srid(wkb: &[u8]) -> (r: Result<Vec<u8>>)
    ensures
        bytes_as(r, stripped(wkb@)),
{
    match try_strip_srid_fast(wkb, false) {
        Some(out) => Ok(out),
        None => reencode(wkb, None),
    }
}

/// Embeds or replaces the top-level SRID of WKB/EWKB bytes; an SRID that is
/// not positive means "unknown" and strips it instead.
pub fn wkb_set_srid(wkb: &[u8], srid: i32) -> (r: Result<Vec<u8>>)
    ensures
        bytes_as(r, with_srid(wkb@, srid)),
{
    if srid <= 0 {
        return wkb_strip_srid(wkb);
    }
    match try_set_srid_fast(wkb, srid, false) {
        Some(out) => Ok(out),
        None => reencode(wkb, Some(srid)),
    }
}

/// WKB bytes written as a header and the unchanged tail of the input.
pub struct WkbWriter<'a> {
    pub head: Vec<u8>,
    pub tail: &'a [u8],
}

impl<'a> WkbWriter<'a> {
    /// The bytes this writer writes.
    pub open spec fn bytes(&self) -> Seq<u8> {
        self.head@ + self.tail@
    }

    /// Writes the bytes into `out`, which has exactly their length.
    pub fn write_into(&self, out: &mut Vec<u8>)
        requires
            old(out)@.len() == self.bytes().len(),
        ensures
            final(out)@ == self.bytes(),
    {
        let h = self.head.len();
        let total = out.len();
        let mut i: usize = 0;
        while i < h
            invariant
                h == self.head@.len(),
                i <= h,
                out@.len() == self.bytes().len(),
                forall|j: int| 0 <= j < i ==> out@[j] == self.bytes()[j],
            decreases h - i,
        {
            out.set(i, self.head[i]);
            i = i + 1;
        }
        let mut k: usize = 0;
        while k < self.tail.len()
            invariant
                h == self.head@.len(),
                k <= self.tail@.len(),
                out@.len() == self.bytes().len(),
                h + self.tail@.len() == out@.len(),
                total == out@.len(),
                forall|j: int| 0 <= j < h + k ==> out@[j] == self.bytes()[j],
            decreases self.tail@.len() - k,
        {
            out.set(h + k, self.tail[k]);
            k = k + 1;
        }
        assert(out@ =~= self.bytes());
    }
}

/// `r` is a writer of the bytes of the outcome `x`, with their length.
pub open spec fn writer_as(
    r: Result<(usize, WkbWriter<'_>)>,
    x: core::result::Result<Seq<u8>, Fault>,
) -> bool {
    match x {
        Ok(b) => r matches Ok((n, w)) && w.bytes() == b && n == b.len(),
        Err(k) => r matches Err(e) && e.fault() == k,
    }
}

/// A writer of `head` followed by `b[k..]`.
fn head_and_tail<'a>(head: Vec<u8>, b: &'a [u8], k: usize) -> (r: (usize, WkbWriter<'a>))
    requires
        k <= b@.len(),
        head@.len() + (b@.len() - k) <= usize::MAX,
    ensures
        r.1.bytes() == head@ + b@.subrange(k as int, b@.len() as int),
        r.0 == r.1.bytes().len(),
{
    let tail = vstd::slice::slice_subrange(b, k, b.len());
    let n = head.len() + tail.len();
    (n, WkbWriter { head, tail })
}

/// A writer of owned bytes.
fn owned<'a>(bytes: Vec<u8>) -> (r: (usize, WkbWriter<'a>))
    ensures
        r.1.bytes() == bytes@,
        r.0 == bytes@.len(),
{
    let n = bytes.len();
    let empty: &'a [u8] = &[];
    assert(bytes@ + empty@ =~= bytes@);
    (n, WkbWriter { head: bytes, tail: empty })
}

/// Like [`wkb_strip_srid`], but returns the output length and a writer that
/// borrows the unchanged part of the input instead of copying it.
pub fn wkb_strip_srid_writer(wkb: &[u8]) -> (r: Result<(usize, WkbWriter<'_>)>)
    ensures
        writer_as(r, stripped(wkb@)),
{
    let n = wkb.len();
    match strip_head(wkb, false) {
        Some((h, k)) => Ok(head_and_tail(h, wkb, k)),
        None => match reencode(wkb, None) {
            Ok(b) => Ok(owned(b)),
            Err(e) => Err(e),
        },
    }
}

/// Like [`wkb_set_srid`], but returns the output length and a writer that
/// borrows the unchanged part of the input instead of copying it.
pub fn wkb_set_srid_writer(wkb: &[u8], srid: i32) -> (r: Result<(usize, WkbWriter<'_>)>)
    requires
        wkb@.len() + 8 <= usize::MAX,
    ensures
        writer_as(r, with_srid(wkb@, srid)),
{
    if srid <= 0 {
        return wkb_strip_srid_writer(wkb);
    }
    match set_head(wkb, srid, false) {
        Some((h, k)) => Ok(head_and_tail(h, wkb, k)),
        None => match reencode(wkb, Some(srid)) {
            Ok(b) => Ok(owned(b)),
            Err(e) => Err(e),
        },
    }
}

/// Input of the generic converters.
#[derive(Debug, Clone, Copy)]
pub enum Input<'a> {
    /// WKT/EWKT text, or hex-encoded WKB/EWKB text.
    Text(&'a str),
    /// Raw WKB/EWKB bytes, never read as hex text.
    Wkb(&'a [u8]),
}

/// What the generic converters make of WKB bytes: `Auto` keeps them as they
/// are; `Strip` and `Force` rewrite a little-endian header in place when it
/// allows, and re-encode otherwise.
pub open spec fn applied(b: Seq<u8>, mode: SridMode) -> core::result::Result<Seq<u8>, Fault> {
    match normalised(mode) {
        SridMode::Auto => Ok(b),
        SridMode::Strip => match fast_strip(b, true) {
            Some(o) => Ok(o),
            None => reencoded(b, None),
        },
        SridMode::Force(n) => match fast_set(b, n, true) {
            Some(o) => Ok(o),
            None => reencoded(b, Some(n)),
        },
    }
}

/// Applies the SRID mode of the generic converters to WKB bytes.
pub fn apply_srid_to_wkb(wkb: &[u8], srid: SridMode) -> (r: Result<Vec<u8>>)
    ensures
        bytes_as(r, applied(wkb@, srid)),
{
    match normalise_srid_mode(srid) {
        SridMode::Auto => {
            let mut out: Vec<u8> = Vec::new();
            header::push_tail(&mut out, wkb, 0);
            assert(out@ =~= wkb@);
            Ok(out)
        },
        SridMode::Strip => match try_strip_srid_fast(wkb, true) {
            Some(out) => Ok(out),
            None => reencode(wkb, None),
        },
        SridMode::Force(n) => match try_set_srid_fast(wkb, n, true) {
            Some(out) => Ok(out),
            None => reencode(wkb, Some(n)),
        },
    }
}

/// `r` is a draft of the bytes of the outcome `x`.
pub open spec fn byte_draft_as(r: Result<WkbDraft>, x: core::result::Result<Seq<u8>, Fault>) -> bool {
    match x {
        Ok(b) => r matches Ok(d) && d.cells@ == byte_cells(b) && d.source@ == Seq::<char>::empty(),
        Err(k) => r matches Err(e) && e.fault() == k,
    }
}

/// What `to_wkb` gives: WKB bytes with the SRID mode applied; hex text as
/// the bytes it denotes; any other text as the WKB draft of the trimmed text.
pub open spec fn to_wkb_is(r: Result<WkbDraft>, input: Input<'_>, srid: SridMode) -> bool {
    match input {
        Input::Wkb(b) => byte_draft_as(r, applied(b@, srid)),
        Input::Text(t) => if is_hex_text(trimmed(t@)) {
            byte_draft_as(r, applied(hex_bytes(trimmed(t@)), srid))
        } else {
            wkb_draft_of(r, trimmed(t@), srid)
        },
    }
}

/// Converts text (WKT/EWKT, or hex WKB/EWKB) or raw WKB/EWKB bytes to a WKB draft.
///
/// Text is trimmed; non-empty, even-length, all-hex text is hex WKB, any
/// other text WKT. Under `Auto`, WKB input comes out as it is, unvalidated.
/// Under `Strip` and `Force`, a canonical little-endian header is rewritten
/// in place and anything else is re-encoded.
pub fn to_wkb(input: Input<'_>, srid: SridMode) -> (r: Result<WkbDraft>)
    ensures
        to_wkb_is(r, input, srid),
{
    match input {
        Input::Text(text) => to_wkb_text(text, srid),
        Input::Wkb(wkb) => match apply_srid_to_wkb(wkb, srid) {
            Ok(b) => Ok(byte_draft(b)),
            Err(e) => Err(e),
        },
    }
}

fn to_wkb_text(text: &str, srid: SridMode) -> (r: Result<WkbDraft>)
    ensures
        if is_hex_text(trimmed(text@)) {
            byte_draft_as(r, applied(hex_bytes(trimmed(text@)), srid))
        } else {
            wkb_draft_of(r, trimmed(text@), srid)
        },
{
    let t = trim_chars(text);
    match try_decode_hex(t.as_slice()) {
        Some(bytes) => match apply_srid_to_wkb(bytes.as_slice(), srid) {
            Ok(b) => Ok(byte_draft(b)),
            Err(e) => Err(e),
        },
        None => {
            let source = t.clone();
            match convert_cells(t, srid) {
                Ok((cells, _)) => Ok(WkbDraft { cells, source }),
                Err(e) => Err(e),
            }
        },
    }
}

/// `SRID=<n>;`
pub open spec fn srid_text(n: i32) -> Seq<char> {
    seq!['S', 'R', 'I', 'D', '='] + spec_decimal(n as nat) + seq![';']
}

/// WKT text returned without validation: only its SRID prefix is adjusted.
pub open spec fn unvalidated(s: Seq<char>, mode: SridMode) -> Seq<char> {
    match normalised(mode) {
        SridMode::Auto => s.subrange(unknown_srid_body_start(s), s.len() as int),
        SridMode::Strip => s.subrange(ewkt_body_start(s), s.len() as int),
        SridMode::Force(n) => srid_text(n) + s.subrange(ewkt_body_start(s), s.len() as int),
    }
}

/// `r` holds the text `t`.
pub open spec fn text_is(r: Result<WktText>, t: Seq<char>) -> bool {
    r matches Ok(WktText::Text(x)) && x@ == t
}

/// `r` holds a WKT draft that `wkt_draft_of` describes.
pub open spec fn draft_is(
    r: Result<WktText>,
    d: core::result::Result<(Shape, Option<i32>), Fault>,
    mode: SridMode,
) -> bool {
    match d {
        Ok((g, s)) => r matches Ok(WktText::Draft(w)) && w.source is None && w.parts@ == wkt_parts(
            g,
            out_srid(mode, s),
        ),
        Err(k) => r matches Err(e) && e.fault() == k,
    }
}

/// What `to_wkt` gives for trimmed text `s`.
pub open spec fn text_to_wkt(r: Result<WktText>, s: Seq<char>, mode: SridMode, normalize: bool) -> bool {
    if s.len() == 0 {
        r matches Err(e) && e.fault() == Fault::Wkt("empty input"@)
    } else if !normalize && !is_hex_digit(s[0]) {
        text_is(r, unvalidated(s, mode))
    } else if is_hex_text(s) {
        draft_is(r, decode(hex_bytes(s)), mode)
    } else if !normalize {
        text_is(
            r,
            match normalised(mode) {
                SridMode::Auto => s,
                _ => unvalidated(s, mode),
            },
        )
    } else {
        match wkt_result(s, mode) {
            None => r matches Err(e) && e.fault() == wkt_fault(s),
            Some((cells, _)) => match decode(flatten(cells, num_payloads(cells))) {
                Ok((g, sr)) => r matches Ok(WktText::Draft(w)) && w.parts@ == wkt_parts(g, sr)
                    && (w.source matches Some(src) && src@ == s),
                Err(k) => r matches Err(e) && e.fault() == k,
            },
        }
    }
}

/// Text with its SRID prefix adjusted as `unvalidated` says.
fn unvalidated_text(s: &[char], mode: SridMode) -> (r: String)
    requires
        mode == normalised(mode),
        mode matches SridMode::Force(n) ==> n > 0,
    ensures
        r@ == unvalidated(s@, mode),
{
    let mut out: Vec<char> = Vec::new();
    let start = match mode {
        SridMode::Auto => strip_unknown_srid_prefix(s),
        SridMode::Strip => strip_ewkt_prefix(s),
        SridMode::Force(n) => {
            error::push_chars(&mut out, "SRID=");
            let mut digits = text::decimal(n as u32);
            out.append(&mut digits);
            out.push(';');
            proof {
                reveal_strlit("SRID=");
                assert((n as u32) as nat == n as nat);
                assert(out@ =~= srid_text(n));
            }
            strip_ewkt_prefix(s)
        },
    };
    let ghost head = out@;
    let mut rest = text::sub_chars(s, start, s.len());
    out.append(&mut rest);
    text::string_from_chars(out.as_slice())
}

/// Converts text (WKT/EWKT, or hex WKB/EWKB) or raw WKB/EWKB bytes to WKT.
///
/// WKB input, and hex text, always come out as a draft of normalised WKT.
/// WKT input is parsed and normalised when `normalize_wkt` holds; otherwise it
/// comes out as it is, unvalidated, with only its SRID prefix adjusted. Empty
/// text fails with `InvalidWkt`.
pub fn to_wkt(input: Input<'_>, srid: SridMode, normalize_wkt: bool) -> (r: Result<WktText>)
    ensures
        match input {
            Input::Wkb(b) => draft_is(r, decode(b@), srid),
            Input::Text(t) => text_to_wkt(r, trimmed(t@), srid, normalize_wkt),
        },
{
    match input {
        Input::Text(text) => to_wkt_text(text, srid, normalize_wkt),
        Input::Wkb(wkb) => match wkb_to_wkt(wkb, srid) {
            Ok(d) => Ok(WktText::Draft(d)),
            Err(e) => Err(e),
        },
    }
}

fn to_wkt_text(text: &str, srid: SridMode, normalize_wkt: bool) -> (r: Result<WktText>)
    ensures
        text_to_wkt(r, trimmed(text@), srid, normalize_wkt),
{
    let mode = normalise_srid_mode(srid);
    let t = trim_chars(text);
    if t.len() == 0 {
        return Err(wkt_error("empty input"));
    }
    let first_hex = text::char_is_hex_digit(t[0]);
    if !normalize_wkt && !first_hex {
        return Ok(WktText::Text(unvalidated_text(t.as_slice(), mode)));
    }
    match try_decode_hex(t.as_slice()) {
        Some(bytes) => {
            return match wkb_to_wkt(bytes.as_slice(), mode) {
                Ok(d) => Ok(WktText::Draft(d)),
                Err(e) => Err(e),
            };
        },
        None => {},
    }
    if !normalize_wkt {
        return match mode {
            SridMode::Auto => Ok(WktText::Text(text::string_from_chars(t.as_slice()))),
            _ => Ok(WktText::Text(unvalidated_text(t.as_slice(), mode))),
        };
    }
    let source = t.clone();
    let (cells, _) = match convert_cells(t, mode) {
        Ok(v) => v,
        Err(e) => return Err(e),
    };
    let positions = draft::payloads(cells.as_slice());
    let bytes = draft::flatten_cells(cells.as_slice(), positions.as_slice());
    match convert_parts(bytes.as_slice(), true) {
        Ok((d, _)) => Ok(WktText::Draft(WktDraft { parts: d.parts, source: Some(source) })),
        Err(e) => Err(e),
    }
}

/// `r` is the hex text of the bytes of the outcome `x`.
pub open spec fn hex_as(r: Result<HexText>, x: core::result::Result<Seq<u8>, Fault>) -> bool {
    match x {
        Ok(b) => if 2 * b.len() <= usize::MAX {
            r matches Ok(HexText::Text(h)) && h@ == hex_of(b)
        } else {
            r matches Err(e) && e.fault() == Fault::Wkb("output too large"@)
        },
        Err(k) => r matches Err(e) && e.fault() == k,
    }
}

/// Hex text of the bytes of an outcome.
fn hex_of_result(r: Result<Vec<u8>>) -> (h: Result<HexText>)
    ensures
        match r {
            Ok(b) => hex_as(h, Ok(b@)),
            Err(e) => h matches Err(f) && f.fault() == e.fault(),
        },
{
    match r {
        Ok(b) => {
            if b.len() > usize::MAX / 2 {
                Err(wkb_error("output too large"))
            } else {
                Ok(HexText::Text(encode_hex(b.as_slice())))
            }
        },
        Err(e) => Err(e),
    }
}

/// What `to_hex_wkb` gives: the hex text of the bytes `to_wkb` gives, hex
/// text under `Auto` only upper-cased, WKT as the same WKB draft.
pub open spec fn to_hex_wkb_is(r: Result<HexText>, input: Input<'_>, srid: SridMode) -> bool {
    match input {
        Input::Wkb(b) => hex_as(r, applied(b@, srid)),
        Input::Text(t) => {
            let s = trimmed(t@);
            if is_hex_text(s) && normalised(srid) == SridMode::Auto {
                r matches Ok(HexText::Text(h)) && h@ == upper_text(s)
            } else if is_hex_text(s) {
                hex_as(r, applied(hex_bytes(s), srid))
            } else {
                match wkt_result(s, srid) {
                    Some((c, _)) => r matches Ok(HexText::Draft(d)) && d.cells@ == c && d.source@
                        == s,
                    None => r matches Err(e) && e.fault() == wkt_fault(s),
                }
            }
        },
    }
}

/// Converts text (WKT/EWKT, or hex WKB/EWKB) or raw WKB/EWKB bytes to upper-case hex WKB.
///
/// Under `Auto`, hex text is only upper-cased and WKB bytes are only
/// hex-encoded, both unvalidated. WKT comes out as a draft that
/// [`WkbDraft::fill_hex`] completes.
pub fn to_hex_wkb(input: Input<'_>, srid: SridMode) -> (r: Result<HexText>)
    ensures
        to_hex_wkb_is(r, input, srid),
{
    match input {
        Input::Text(text) => to_hex_wkb_text(text, srid),
        Input::Wkb(wkb) => hex_of_result(apply_srid_to_wkb(wkb, srid)),
    }
}

fn to_hex_wkb_text(text: &str, srid: SridMode) -> (r: Result<HexText>)
    ensures
        ({
            let s = trimmed(text@);
            if is_hex_text(s) && normalised(srid) == SridMode::Auto {
                r matches Ok(HexText::Text(h)) && h@ == upper_text(s)
            } else if is_hex_text(s) {
                hex_as(r, applied(hex_bytes(s), srid))
            } else {
                match wkt_result(s, srid) {
                    Some((c, _)) => r matches Ok(HexText::Draft(d)) && d.cells@ == c && d.source@
                        == s,
                    None => r matches Err(e) && e.fault() == wkt_fault(s),
                }
            }
        }),
{
    let mode = normalise_srid_mode(srid);
    let t = trim_chars(text);
    if mode == SridMode::Auto {
        match try_normalize_hex_uppercase(t.as_slice()) {
            Some(h) => return Ok(HexText::Text(h)),
            None => {},
        }
    } else {
        match try_decode_hex(t.as_slice()) {
            Some(bytes) => return hex_of_result(apply_srid_to_wkb(bytes.as_slice(), mode)),
            None => {},
        }
    }
    let source = t.clone();
    match convert_cells(t, mode) {
        Ok((cells, _)) => Ok(HexText::Draft(WkbDraft { cells, source })),
        Err(e) => Err(e),
    }
}

/// The SRID mode a fuzzing selector byte stands for.
pub fn srid_mode(selector: u8) -> (r: SridMode)
    ensures
        r == (if selector % 4 == 0 {
            SridMode::Auto
        } else if selector % 4 == 1 {
            SridMode::Strip
        } else if selector % 4 == 2 {
            SridMode::Force(4326i32)
        } else {
            SridMode::Force(-1i32)
        }),
{
    match selector % 4 {
        0 => SridMode::Auto,
        1 => SridMode::Strip,
        2 => SridMode::Force(4326),
        _ => SridMode::Force(-1),
    }
}

} // verus!
