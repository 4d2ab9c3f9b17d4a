//! Reading and rewriting the SRID of the top-level EWKB header.
//!
//! Headers whose type word carries only the EWKB Z, M and SRID flags and a
//! base type 1 to 7 are rewritten in place, without reading the body. Other
//! input goes through a full decode and re-encode, which normalises it.
use crate::draft::{flatten_cells, payloads};
use crate::error::{wkb_error, wkt_error, Fault, Result};
use crate::model::{
    bytes4, coords_of, flatten, is_finite, num_count, render, u32_from, WktPart, be4,
};
use crate::wkb_to_wkt::reader::{decode, has_srid, srid_value};
use crate::wkb_to_wkt::convert_parts;
use crate::wkt_to_wkb::writer::le_bytes;
use crate::wkt_to_wkb::{convert_cells, wkt_result};
use crate::types::SridMode;
use crate::draft::finite_bits;
use vstd::prelude::*;

verus! {

// ---------------------------------------------------------------- spec

/// The type word has no high bit other than the EWKB Z, M and SRID flags.
pub open spec fn known_flags(t: u32) -> bool {
    (t / 0x10000) % 0x2000 == 0
}

/// The type word with the SRID flag cleared.
pub open spec fn without_srid_flag(t: u32) -> u32 {
    if has_srid(t) {
        (t - 0x2000_0000) as u32
    } else {
        t
    }
}

/// The type word with the SRID flag set.
pub open spec fn with_srid_flag(t: u32) -> u32 {
    if has_srid(t) {
        t
    } else {
        (t + 0x2000_0000) as u32
    }
}

/// The byte order and type word of a header that can be rewritten in place:
/// at least 5 bytes, a byte-order marker (only little-endian when `le_only`),
/// known flags, base type 1 to 7, and the SRID field present when flagged.
pub open spec fn fast_header(b: Seq<u8>, le_only: bool) -> Option<(bool, u32)> {
    if b.len() >= 5 && (b[0] == 1 || (!le_only && b[0] == 0)) {
        let le = b[0] == 1;
        let t = u32_from(b.subrange(1, 5), le);
        if known_flags(t) && 1 <= t % 0x10000 <= 7 && (!has_srid(t) || b.len() >= 9) {
            Some((le, t))
        } else {
            None
        }
    } else {
        None
    }
}

/// The message for an EWKB header whose SRID field is cut off.
pub open spec fn short_header_message() -> Seq<char> {
    "EWKB header has SRID flag but is too short to contain the SRID field"@
}

/// The message for a geometry whose WKT does not read back: a coordinate
/// that is not finite, an empty ring, or a collection member of another
/// dimension.
pub open spec fn reencode_message() -> Seq<char> {
    "geometry cannot be written as WKT and read back"@
}

/// The SRID of the top-level header read without decoding the body, when the
/// header allows it: either byte order, known flags, any base type. An SRID
/// that is not positive reads as none.
pub open spec fn header_srid_fast(b: Seq<u8>) -> Option<core::result::Result<Option<i32>, Fault>> {
    if b.len() >= 5 && (b[0] == 1 || b[0] == 0) {
        let le = b[0] == 1;
        let t = u32_from(b.subrange(1, 5), le);
        if !known_flags(t) {
            None
        } else if !has_srid(t) {
            Some(Ok(None))
        } else if b.len() < 9 {
            Some(Err(Fault::Wkb(short_header_message())))
        } else {
            Some(Ok(srid_value(Some(u32_from(b.subrange(5, 9), le)))))
        }
    } else {
        None
    }
}

/// The bytes with the SRID removed by rewriting the header only.
pub open spec fn fast_strip(b: Seq<u8>, le_only: bool) -> Option<Seq<u8>> {
    match fast_header(b, le_only) {
        Some((le, t)) => Some(
            if has_srid(t) {
                seq![b[0]] + bytes4(without_srid_flag(t), le) + b.subrange(9, b.len() as int)
            } else {
                b
            },
        ),
        None => None,
    }
}

/// The bytes with SRID `n` put in by rewriting the header only.
pub open spec fn fast_set(b: Seq<u8>, n: i32, le_only: bool) -> Option<Seq<u8>> {
    match fast_header(b, le_only) {
        Some((le, t)) => Some(
            if has_srid(t) {
                if u32_from(b.subrange(5, 9), le) == n as u32 {
                    b
                } else {
                    b.subrange(0, 5) + bytes4(n as u32, le) + b.subrange(9, b.len() as int)
                }
            } else {
                seq![b[0]] + bytes4(with_srid_flag(t), le) + bytes4(n as u32, le) + b.subrange(
                    5,
                    b.len() as int,
                )
            },
        ),
        None => None,
    }
}

/// How a coordinate is written in text that is parsed back: `0` for a finite
/// value (the value itself goes into the bytes), `NaN` otherwise, which no
/// WKT number matches.
pub open spec fn placeholder(v: u64) -> Seq<char> {
    if is_finite(v) {
        seq!['0']
    } else {
        seq!['N', 'a', 'N']
    }
}

/// WKT text of parts with each coordinate written as its placeholder.
pub open spec fn placeholder_text(p: Seq<WktPart>) -> Seq<char>
    decreases p.len(),
{
    if p.len() == 0 {
        seq![]
    } else {
        placeholder_text(p.drop_last()) + match p.last() {
            WktPart::Char(c) => seq![c as char],
            WktPart::Coord(v) => placeholder(v),
        }
    }
}

/// The mode that puts `srid` into an output.
pub open spec fn mode_of(srid: Option<i32>) -> SridMode {
    match srid {
        Some(n) => SridMode::Force(n),
        None => SridMode::Strip,
    }
}

/// Decoding the bytes, writing the geometry as WKT and parsing it back with
/// `srid` in the top-level header: a finite coordinate keeps its exact value
/// and a non-finite one makes the text unparsable.
#[verifier::opaque]
pub open spec fn reencoded(b: Seq<u8>, srid: Option<i32>) -> core::result::Result<Seq<u8>, Fault> {
    match decode(b) {
        Err(k) => Err(k),
        Ok((g, _)) => {
            let parts = render(g);
            match wkt_result(placeholder_text(parts), mode_of(srid)) {
                Some((cells, _)) => if num_count(cells) == coords_of(parts).len() {
                    Ok(flatten(cells, coords_of(parts)))
                } else {
                    Err(Fault::Wkt(reencode_message()))
                },
                None => Err(Fault::Wkt(reencode_message())),
            }
        },
    }
}

/// `r` is the outcome `x`.
pub open spec fn bytes_as(r: Result<Vec<u8>>, x: core::result::Result<Seq<u8>, Fault>) -> bool {
    match x {
        Ok(b) => r matches Ok(v) && v@ == b,
        Err(k) => r matches Err(e) && e.fault() == k,
    }
}

// ---------------------------------------------------------------- exec

/// Big-endian bytes of a `u32`.
pub fn be_bytes(v: u32) -> (r: [u8; 4])
    ensures
        r@ == be4(v),
{
    let r = [((v / 16777216) % 256) as u8, ((v / 65536) % 256) as u8, ((v / 256) % 256) as u8, (v
        % 256) as u8];
    assert(r@ =~= be4(v));
    r
}

/// Bytes of a `u32` in the given byte order.
pub fn order_bytes(v: u32, le: bool) -> (r: [u8; 4])
    ensures
        r@ == bytes4(v, le),
{
    if le {
        le_bytes(v)
    } else {
        be_bytes(v)
    }
}

/// The `u32` at `b[i..i + 4]` in the given byte order.
pub fn u32_at(b: &[u8], i: usize, le: bool) -> (r: u32)
    requires
        i + 4 <= b@.len(),
    ensures
        r == u32_from(b@.subrange(i as int, i + 4), le),
{
    let n = b.len();
    let b0 = b[i] as u32;
    let b1 = b[i + 1] as u32;
    let b2 = b[i + 2] as u32;
    let b3 = b[i + 3] as u32;
    let ghost sub = b@.subrange(i as int, i + 4);
    assert(sub[0] == b0 && sub[1] == b1 && sub[2] == b2 && sub[3] == b3);
    if le {
        b0 + b1 * 256 + b2 * 65536 + b3 * 16777216
    } else {
        b3 + b2 * 256 + b1 * 65536 + b0 * 16777216
    }
}

/// Whether the SRID flag of a type word is set.
pub fn srid_flag(t: u32) -> (r: bool)
    ensures
        r == has_srid(t),
{
    (t / 0x2000_0000) % 2 == 1
}

/// The header of `b` when it can be rewritten in place.
pub fn read_fast_header(b: &[u8], le_only: bool) -> (r: Option<(bool, u32)>)
    ensures
        r == fast_header(b@, le_only),
{
    if b.len() < 5 {
        return None;
    }
    if !(b[0] == 1 || (!le_only && b[0] == 0)) {
        return None;
    }
    let le = b[0] == 1;
    let t = u32_at(b, 1, le);
    if (t / 0x10000) % 0x2000 != 0 {
        return None;
    }
    if !(1 <= t % 0x10000 && t % 0x10000 <= 7) {
        return None;
    }
    if srid_flag(t) && b.len() < 9 {
        return None;
    }
    Some((le, t))
}

/// Reads the SRID of the header without decoding the body, when the header allows it.
pub fn try_read_ewkb_srid_fast(wkb: &[u8]) -> (r: Option<Result<Option<i32>>>)
    ensures
        match header_srid_fast(wkb@) {
            Some(Ok(s)) => r matches Some(Ok(v)) && v == s,
            Some(Err(k)) => r matches Some(Err(e)) && e.fault() == k,
            None => r is None,
        },
{
    if wkb.len() < 5 {
        return None;
    }
    if !(wkb[0] == 1 || wkb[0] == 0) {
        return None;
    }
    let le = wkb[0] == 1;
    let t = u32_at(wkb, 1, le);
    if (t / 0x10000) % 0x2000 != 0 {
        return None;
    }
    if !srid_flag(t) {
        return Some(Ok(None));
    }
    if wkb.len() < 9 {
        return Some(
            Err(wkb_error("EWKB header has SRID flag but is too short to contain the SRID field")),
        );
    }
    let raw = u32_at(wkb, 5, le);
    Some(Ok(crate::wkb_to_wkt::srid_of(Some(raw))))
}

/// Appends `b[from..]`.
pub fn push_tail(out: &mut Vec<u8>, b: &[u8], from: usize)
    requires
        from <= b@.len(),
    ensures
        final(out)@ == old(out)@ + b@.subrange(from as int, b@.len() as int),
{
    let mut i = from;
    while i < b.len()
        invariant
            from <= i <= b@.len(),
            out@ == old(out)@ + b@.subrange(from as int, i as int),
        decreases b@.len() - i,
    {
        out.push(b[i]);
        assert(b@.subrange(from as int, i + 1) =~= b@.subrange(from as int, i as int).push(
            b@[i as int],
        ));
        i = i + 1;
    }
}

/// Appends four bytes.
pub fn push4(out: &mut Vec<u8>, q: [u8; 4])
    ensures
        final(out)@ == old(out)@ + q@,
{
    out.push(q[0]);
    out.push(q[1]);
    out.push(q[2]);
    out.push(q[3]);
    assert(out@ =~= old(out)@ + q@);
}

/// The rewritten header and where the unchanged rest of `b` starts, when
/// the header allows removing the SRID in place.
pub fn strip_head(b: &[u8], le_only: bool) -> (r: Option<(Vec<u8>, usize)>)
    ensures
        r matches Some((h, k)) ==> h@.len() <= k,
        match fast_strip(b@, le_only) {
            Some(o) => r matches Some((h, k)) && k <= b@.len() && h@ + b@.subrange(
                k as int,
                b@.len() as int,
            ) == o,
            None => r is None,
        },
{
    let (le, t) = match read_fast_header(b, le_only) {
        Some(h) => h,
        None => return None,
    };
    let mut out: Vec<u8> = Vec::new();
    if !srid_flag(t) {
        assert(out@ + b@.subrange(0, b@.len() as int) =~= b@);
        return Some((out, 0));
    }
    out.push(b[0]);
    push4(&mut out, order_bytes(t - 0x2000_0000, le));
    assert(out@ =~= seq![b@[0]] + bytes4(without_srid_flag(t), le));
    Some((out, 9))
}

/// The rewritten header and where the unchanged rest of `b` starts, when
/// the header allows putting SRID `n` in place.
pub fn set_head(b: &[u8], n: i32, le_only: bool) -> (r: Option<(Vec<u8>, usize)>)
    ensures
        r matches Some((h, k)) ==> h@.len() <= k + 8,
        match fast_set(b@, n, le_only) {
            Some(o) => r matches Some((h, k)) && k <= b@.len() && h@ + b@.subrange(
                k as int,
                b@.len() as int,
            ) == o,
            None => r is None,
        },
{
    let (le, t) = match read_fast_header(b, le_only) {
        Some(h) => h,
        None => return None,
    };
    let mut out: Vec<u8> = Vec::new();
    if srid_flag(t) {
        let stored = u32_at(b, 5, le);
        if stored == n as u32 {
            assert(out@ + b@.subrange(0, b@.len() as int) =~= b@);
            return Some((out, 0));
        }
        push_tail(&mut out, b, 0);
        out.truncate(5);
        assert(out@ =~= b@.subrange(0, 5));
        push4(&mut out, order_bytes(n as u32, le));
        Some((out, 9))
    } else {
        out.push(b[0]);
        push4(&mut out, order_bytes(t + 0x2000_0000, le));
        push4(&mut out, order_bytes(n as u32, le));
        assert(out@ =~= seq![b@[0]] + bytes4(with_srid_flag(t), le) + bytes4(n as u32, le));
        Some((out, 5))
    }
}

/// Removes the SRID by rewriting the header, when the header allows it.
pub fn try_strip_srid_fast(b: &[u8], le_only: bool) -> (r: Option<Vec<u8>>)
    ensures
        match fast_strip(b@, le_only) {
            Some(o) => r matches Some(v) && v@ == o,
            None => r is None,
        },
{
    match strip_head(b, le_only) {
        Some((h, k)) => {
            let mut out = h;
            push_tail(&mut out, b, k);
            Some(out)
        },
        None => None,
    }
}

/// Puts SRID `n` in by rewriting the header, when the header allows it.
pub fn try_set_srid_fast(b: &[u8], n: i32, le_only: bool) -> (r: Option<Vec<u8>>)
    ensures
        match fast_set(b@, n, le_only) {
            Some(o) => r matches Some(v) && v@ == o,
            None => r is None,
        },
{
    match set_head(b, n, le_only) {
        Some((h, k)) => {
            let mut out = h;
            push_tail(&mut out, b, k);
            Some(out)
        },
        None => None,
    }
}

/// Writes parts as text, each coordinate as its placeholder.
pub fn placeholder_chars(parts: &[WktPart]) -> (r: Vec<char>)
    ensures
        r@ == placeholder_text(parts@),
{
    let mut out: Vec<char> = Vec::new();
    let mut i: usize = 0;
    while i < parts.len()
        invariant
            i <= parts@.len(),
            out@ == placeholder_text(parts@.take(i as int)),
        decreases parts@.len() - i,
    {
        assert(parts@.take(i + 1).drop_last() =~= parts@.take(i as int));
        let ghost before = out@;
        match parts[i] {
            WktPart::Char(c) => {
                out.push(c as char);
                assert(out@ =~= before + seq![c as char]);
            },
            WktPart::Coord(v) => {
                if finite_bits(v) {
                    out.push('0');
                    assert(out@ =~= before + placeholder(v));
                } else {
                    out.push('N');
                    out.push('a');
                    out.push('N');
                    assert(out@ =~= before + placeholder(v));
                }
            },
        }
        i = i + 1;
    }
    assert(parts@ =~= parts@.take(parts@.len() as int));
    out
}

/// Decodes the bytes, writes the geometry as WKT and parses it back with
/// `srid` in the top-level header.
pub fn reencode(wkb: &[u8], srid: Option<i32>) -> (r: Result<Vec<u8>>)
    ensures
        bytes_as(r, reencoded(wkb@, srid)),
{
    proof {
        reveal(reencoded);
    }
    let (draft, _) = match convert_parts(wkb, false) {
        Ok(v) => v,
        Err(e) => return Err(e),
    };
    let coords = draft.coords();
    let text = placeholder_chars(draft.parts.as_slice());
    let mode = match srid {
        Some(n) => SridMode::Force(n),
        None => SridMode::Strip,
    };
    let (cells, _) = match convert_cells(text, mode) {
        Ok(v) => v,
        Err(_) => return Err(wkt_error("geometry cannot be written as WKT and read back")),
    };
    let n = payloads(cells.as_slice()).len();
    if n != coords.len() {
        return Err(wkt_error("geometry cannot be written as WKT and read back"));
    }
    Ok(flatten_cells(cells.as_slice(), coords.as_slice()))
}

} // verus!
