//! WKB/EWKB bytes to WKT drafts.
pub mod builder;
pub mod reader;

use crate::draft::WktDraft;
use crate::error::{Fault, Result};
use crate::model::{render, srid_prefix, Shape, WktPart};
use crate::text::decimal;
use builder::WktBuilder;
use reader::{decode, srid_value, WkbReader};
use vstd::prelude::*;

verus! {

/// The WKT parts of a geometry with an optional `SRID=<n>;` prefix.
pub open spec fn wkt_parts(g: Shape, srid: Option<i32>) -> Seq<WktPart> {
    match srid {
        Some(n) => srid_prefix(n) + render(g),
        None => render(g),
    }
}

/// The draft a decoded buffer is written as, with its SRID as prefix when
/// `with_srid` holds.
pub open spec fn decoded_draft(
    r: Result<WktDraft>,
    d: core::result::Result<(Shape, Option<i32>), Fault>,
    with_srid: bool,
) -> bool {
    match d {
        Ok((g, s)) => r matches Ok(w) && w.source is None && w.parts@ == wkt_parts(
            g,
            if with_srid {
                s
            } else {
                None
            },
        ),
        Err(k) => r matches Err(e) && e.fault() == k,
    }
}

/// The SRID a raw header field denotes, as `srid_value` defines it.
pub fn srid_of(raw: Option<u32>) -> (r: Option<i32>)
    ensures
        r == srid_value(raw),
{
    match raw {
        Some(v) => {
            if v >= 1 && v <= 0x7fff_ffff {
                Some(v as i32)
            } else {
                proof {
                    assert((v as i32) <= 0) by (bit_vector)
                        requires
                            !(v >= 1 && v <= 0x7fff_ffff),
                    ;
                }
                None
            }
        },
        None => None,
    }
}

/// Writes `SRID=<n>;` for a positive `n`.
pub fn push_srid_prefix(out: &mut WktBuilder, n: i32)
    requires
        n > 0,
    ensures
        final(out).parts@ == old(out).parts@ + srid_prefix(n),
{
    let ghost o0 = out.parts@;
    out.push_str("SRID=");
    proof {
        reveal_strlit("SRID=");
        assert("SRID="@ =~= seq!['S', 'R', 'I', 'D', '=']);
    }
    let digits = decimal(n as u32);
    out.push_chars(digits.as_slice());
    out.push_char(';');
    proof {
        assert((n as u32) as nat == n as nat);
        assert(out.parts@ =~= o0 + srid_prefix(n));
    }
}

/// Reads a whole WKB buffer into a WKT draft, the top-level SRID as prefix
/// when `with_srid` holds; also returns that SRID.
pub fn convert_parts(wkb: &[u8], with_srid: bool) -> (r: Result<(WktDraft, Option<i32>)>)
    ensures
        decoded_draft(
            match r {
                Ok((w, _)) => Ok(w),
                Err(e) => Err(e),
            },
            decode(wkb@),
            with_srid,
        ),
        r matches Ok((_, s)) ==> decode(wkb@) matches Ok((_, t)) && s == t,
{
    let mut reader = WkbReader::new(wkb);
    let mut body = WktBuilder::with_capacity(0);
    let raw = match reader.read_geometry(&mut body, 0) {
        Ok(s) => s,
        Err(e) => return Err(e),
    };
    match reader.expect_eof() {
        Ok(()) => {},
        Err(e) => return Err(e),
    }
    let srid = srid_of(raw);
    let mut parts = body.finish();
    let mut out = WktBuilder::with_capacity(0);
    if with_srid {
        match srid {
            Some(n) => push_srid_prefix(&mut out, n),
            None => {},
        }
    }
    let ghost head = out.parts@;
    let ghost tail = parts@;
    out.parts.append(&mut parts);
    proof {
        assert(head == Seq::<WktPart>::empty() || (with_srid && srid is Some));
        if head.len() == 0 {
            assert(out.parts@ =~= tail);
        }
    }
    Ok((WktDraft { parts: out.finish(), source: None }, srid))
}

} // verus!
