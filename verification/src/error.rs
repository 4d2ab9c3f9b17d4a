//! The error type of every conversion.
use crate::text::{decimal, spec_decimal, string_from_chars, chars_of};
use vstd::prelude::*;

verus! {

/// A conversion error.
#[derive(Debug, PartialEq)]
pub enum Error {
    InvalidWkt(String),
    InvalidWkb(String),
    UnsupportedGeometryType(u32),
}

/// The kind of an error: which variant, and the type code of an unsupported type.
#[derive(Debug, Clone, Copy, PartialEq, Eq, Structural)]
pub enum ErrorKind {
    Wkt,
    Wkb,
    Unsupported(u32),
}

/// An error as the specification sees it: its variant with its message, or
/// the type code of an unsupported geometry type.
#[verifier::ext_equal]
pub enum Fault {
    Wkt(Seq<char>),
    Wkb(Seq<char>),
    Unsupported(u32),
}

impl Fault {
    /// The kind of this error.
    pub open spec fn kind(self) -> ErrorKind {
        match self {
            Fault::Wkt(_) => ErrorKind::Wkt,
            Fault::Wkb(_) => ErrorKind::Wkb,
            Fault::Unsupported(c) => ErrorKind::Unsupported(c),
        }
    }
}

/// Result of every conversion.
pub type Result<T> = core::result::Result<T, Error>;

impl Error {
    /// The kind of this error.
    pub open spec fn kind(&self) -> ErrorKind {
        match self {
            Error::InvalidWkt(_) => ErrorKind::Wkt,
            Error::InvalidWkb(_) => ErrorKind::Wkb,
            Error::UnsupportedGeometryType(c) => ErrorKind::Unsupported(*c),
        }
    }

    /// This error as the specification sees it.
    pub open spec fn fault(&self) -> Fault {
        match self {
            Error::InvalidWkt(m) => Fault::Wkt(m@),
            Error::InvalidWkb(m) => Fault::Wkb(m@),
            Error::UnsupportedGeometryType(c) => Fault::Unsupported(*c),
        }
    }

    /// The text a reader sees for this error.
    pub open spec fn spec_text(&self) -> Seq<char> {
        match self {
            Error::InvalidWkt(m) => seq!['i', 'n', 'v', 'a', 'l', 'i', 'd', ' ', 'W', 'K', 'T', ':', ' ']
                + m@,
            Error::InvalidWkb(m) => seq!['i', 'n', 'v', 'a', 'l', 'i', 'd', ' ', 'W', 'K', 'B', ':', ' ']
                + m@,
            Error::UnsupportedGeometryType(c) => unsupported_prefix() + spec_decimal(*c as nat),
        }
    }

    /// Renders the error as text, e.g. `invalid WKT: bad input`.
    pub fn to_string(&self) -> (r: String)
        ensures
            r@ == self.spec_text(),
    {
        let mut out: Vec<char> = Vec::new();
        match self {
            Error::InvalidWkt(m) => {
                push_chars(&mut out, "invalid WKT: ");
                proof {
                    reveal_strlit("invalid WKT: ");
                }
                let ghost before = out@;
                let tail = chars_of(m.as_str());
                out.append(&mut tail.clone());
                assert(out@ == before + m@);
            },
            Error::InvalidWkb(m) => {
                push_chars(&mut out, "invalid WKB: ");
                proof {
                    reveal_strlit("invalid WKB: ");
                }
                let ghost before = out@;
                let tail = chars_of(m.as_str());
                out.append(&mut tail.clone());
                assert(out@ == before + m@);
            },
            Error::UnsupportedGeometryType(c) => {
                push_chars(&mut out, "unsupported geometry type code: ");
                proof {
                    reveal_strlit("unsupported geometry type code: ");
                }
                let ghost before = out@;
                let mut tail = decimal(*c);
                out.append(&mut tail);
                assert(out@ == before + spec_decimal(*c as nat));
            },
        }
        string_from_chars(out.as_slice())
    }
}

/// `unsupported geometry type code: `
pub open spec fn unsupported_prefix() -> Seq<char> {
    seq![
        'u', 'n', 's', 'u', 'p', 'p', 'o', 'r', 't', 'e', 'd', ' ', 'g', 'e', 'o', 'm', 'e', 't',
        'r', 'y', ' ', 't', 'y', 'p', 'e', ' ', 'c', 'o', 'd', 'e', ':', ' '
    ]
}

/// Appends the characters of `s`.
pub fn push_chars(out: &mut Vec<char>, s: &str)
    ensures
        final(out)@ == old(out)@ + s@,
{
    let tail = chars_of(s);
    let ghost before = out@;
    let mut t = tail;
    out.append(&mut t);
}

/// An `InvalidWkt` error with the given message.
pub fn wkt_error(msg: &str) -> (e: Error)
    ensures
        e matches Error::InvalidWkt(m) && m@ == msg@,
        e.kind() == ErrorKind::Wkt,
        e.fault() == Fault::Wkt(msg@),
{
    Error::InvalidWkt(msg.to_string())
}

/// An `InvalidWkb` error with the given message.
pub fn wkb_error(msg: &str) -> (e: Error)
    ensures
        e matches Error::InvalidWkb(m) && m@ == msg@,
        e.kind() == ErrorKind::Wkb,
        e.fault() == Fault::Wkb(msg@),
{
    Error::InvalidWkb(msg.to_string())
}

/// An `InvalidWkb` error whose message is `prefix` followed by `tail`.
pub fn wkb_error_with(prefix: &str, tail: Vec<char>) -> (e: Error)
    ensures
        e matches Error::InvalidWkb(m) && m@ == prefix@ + tail@,
        e.kind() == ErrorKind::Wkb,
        e.fault() == Fault::Wkb(prefix@ + tail@),
{
    let mut msg: Vec<char> = Vec::new();
    push_chars(&mut msg, prefix);
    let mut t = tail;
    msg.append(&mut t);
    Error::InvalidWkb(string_from_chars(msg.as_slice()))
}

/// An `InvalidWkt` error with the message `msg`.
pub fn wkt_error_from(msg: &[char]) -> (e: Error)
    ensures
        e matches Error::InvalidWkt(m) && m@ == msg@,
        e.kind() == ErrorKind::Wkt,
        e.fault() == Fault::Wkt(msg@),
{
    Error::InvalidWkt(string_from_chars(msg))
}

} // verus!
