//! Accumulates the cells of a little-endian EWKB draft.
use crate::model::{
    byte_cells, enc_header, le4, le8, lemma_byte_cells, lemma_byte_cells_concat, nan_bits, Cell,
};
use crate::types::{Dimension, GeomType, EWKB_SRID};
use crate::hex::{hex_bytes, hex_digit, hex_of};
use vstd::prelude::*;

verus! {

/// Little-endian bytes of a `u32`.
pub fn le_bytes(v: u32) -> (r: [u8; 4])
    ensures
        r@ == le4(v),
{
    let r = [(v % 256) as u8, ((v / 256) % 256) as u8, ((v / 65536) % 256) as u8, ((v / 16777216)
        % 256) as u8];
    assert(r@ =~= le4(v));
    r
}

/// A growing WKB draft.
pub struct WkbWriter {
    pub cells: Vec<Cell>,
}

impl WkbWriter {
    /// An empty writer with room for `n` cells.
    pub fn with_capacity(n: usize) -> (r: Self)
        ensures
            r.cells@ == Seq::<Cell>::empty(),
    {
        WkbWriter { cells: Vec::with_capacity(n) }
    }

    /// The cells written.
    pub fn into_bytes(self) -> (r: Vec<Cell>)
        ensures
            r@ == self.cells@,
    {
        self.cells
    }

    /// Writes one byte.
    pub fn write_u8(&mut self, v: u8)
        ensures
            final(self).cells@ == old(self).cells@ + byte_cells(seq![v]),
    {
        self.cells.push(Cell::Byte(v));
        proof {
            lemma_byte_cells(seq![v]);
            assert(byte_cells(seq![v]) =~= seq![Cell::Byte(v)]);
        }
    }

    /// Writes a `u32`, little-endian.
    pub fn write_u32(&mut self, v: u32)
        ensures
            final(self).cells@ == old(self).cells@ + byte_cells(le4(v)),
    {
        let b = le_bytes(v);
        self.cells.push(Cell::Byte(b[0]));
        self.cells.push(Cell::Byte(b[1]));
        self.cells.push(Cell::Byte(b[2]));
        self.cells.push(Cell::Byte(b[3]));
        proof {
            lemma_byte_cells(le4(v));
            assert(self.cells@ =~= old(self).cells@ + byte_cells(le4(v)));
        }
    }

    /// Writes a number cell standing for the value of the lexeme at `pos`.
    pub fn write_num(&mut self, pos: u64)
        ensures
            final(self).cells@ == old(self).cells@.push(Cell::Num(pos)),
    {
        self.cells.push(Cell::Num(pos));
    }

    /// Writes the bytes of `f64::NAN`.
    pub fn write_nan(&mut self)
        ensures
            final(self).cells@ == old(self).cells@ + byte_cells(le8(nan_bits())),
    {
        let ghost o = self.cells@;
        self.write_u32(0);
        self.write_u32(0x7FF8_0000);
        proof {
            assert(le8(nan_bits()) =~= le4(0) + le4(0x7FF8_0000));
            lemma_byte_cells_concat(le4(0), le4(0x7FF8_0000));
            assert(self.cells@ =~= o + byte_cells(le8(nan_bits())));
        }
    }

    /// Writes a zero count and returns where it stands, to be patched later.
    pub fn reserve_u32(&mut self) -> (r: usize)
        ensures
            r == old(self).cells@.len(),
            final(self).cells@ == old(self).cells@ + byte_cells(le4(0)),
    {
        let r = self.cells.len();
        self.write_u32(0);
        r
    }

    /// Overwrites the four cells at `pos` with the bytes of `v`.
    pub fn patch_u32(&mut self, pos: usize, v: u32)
        requires
            pos + 4 <= old(self).cells@.len(),
        ensures
            final(self).cells@ == old(self).cells@.subrange(0, pos as int) + byte_cells(le4(v))
                + old(self).cells@.subrange(pos + 4, old(self).cells@.len() as int),
    {
        let b = le_bytes(v);
        let n = self.cells.len();
        assert(pos + 4 <= n);
        self.cells.set(pos, Cell::Byte(b[0]));
        self.cells.set(pos + 1, Cell::Byte(b[1]));
        self.cells.set(pos + 2, Cell::Byte(b[2]));
        self.cells.set(pos + 3, Cell::Byte(b[3]));
        proof {
            lemma_byte_cells(le4(v));
            assert(self.cells@ =~= old(self).cells@.subrange(0, pos as int) + byte_cells(le4(v))
                + old(self).cells@.subrange(pos + 4, old(self).cells@.len() as int));
        }
    }

    /// Writes a little-endian EWKB header; the SRID field only when `srid` is given.
    pub fn write_header(&mut self, t: GeomType, dim: Dimension, srid: Option<i32>)
        ensures
            final(self).cells@ == old(self).cells@ + enc_header(t, dim, srid),
    {
        let ghost o = self.cells@;
        self.write_u8(1);
        let flag: u32 = match srid {
            Some(_) => EWKB_SRID,
            None => 0,
        };
        let code = t.code() + dim.ewkb_flags() + flag;
        self.write_u32(code);
        match srid {
            Some(s) => {
                self.write_u32(s as u32);
                proof {
                    lemma_byte_cells_concat(seq![1u8], le4(code));
                    lemma_byte_cells_concat(seq![1u8] + le4(code), le4(s as u32));
                    assert(self.cells@ =~= o + enc_header(t, dim, srid));
                }
            },
            None => {
                proof {
                    lemma_byte_cells_concat(seq![1u8], le4(code));
                    assert(seq![1u8] + le4(code) + Seq::<u8>::empty() =~= seq![1u8] + le4(code));
                    assert(self.cells@ =~= o + enc_header(t, dim, srid));
                }
            },
        }
    }
}

/// Upper-case hex digit of a value below 16.
fn hex_char(v: u8) -> (c: char)
    requires
        v < 16,
    ensures
        c == hex_digit(v as int),
{
    if v < 10 {
        let c = (v + 48) as char;
        assert(c == hex_digit(v as int));
        c
    } else {
        let c = (v - 10 + 65) as char;
        assert(c == hex_digit(v as int));
        c
    }
}

/// Hex text of bytes with one more byte.
pub proof fn lemma_hex_push(b: Seq<u8>, v: u8)
    ensures
        hex_of(b.push(v)) == hex_of(b) + seq![hex_digit(v as int / 16), hex_digit(v as int % 16)],
{
    assert(hex_of(b.push(v)) =~= hex_of(b) + seq![hex_digit(v as int / 16), hex_digit(v as int % 16)]);
}

/// Hex text of bytes with one byte replaced.
pub proof fn lemma_hex_update(b: Seq<u8>, i: int, v: u8)
    requires
        0 <= i < b.len(),
    ensures
        hex_of(b.update(i, v)) == hex_of(b).update(2 * i, hex_digit(v as int / 16)).update(
            2 * i + 1,
            hex_digit(v as int % 16),
        ),
{
    let l = hex_of(b.update(i, v));
    let r = hex_of(b).update(2 * i, hex_digit(v as int / 16)).update(2 * i + 1, hex_digit(v as int % 16));
    assert forall|k: int| 0 <= k < l.len() implies l[k] == r[k] by {
        assert(k / 2 == i <==> (k == 2 * i || k == 2 * i + 1));
    }
    assert(l =~= r);
}

/// A growing upper-case hex text of little-endian EWKB bytes.
pub struct HexWkbWriter {
    pub buf: Vec<char>,
}

impl HexWkbWriter {
    /// The bytes written.
    pub open spec fn bytes(&self) -> Seq<u8> {
        hex_bytes(self.buf@)
    }

    /// The text is the upper-case hex text of the bytes written.
    pub open spec fn wf(&self) -> bool {
        self.buf@ == hex_of(self.bytes())
    }

    /// An empty writer with room for `n` bytes.
    pub fn with_capacity(n: usize) -> (r: Self)
        ensures
            r.wf(),
            r.bytes() == Seq::<u8>::empty(),
    {
        let cap = if n <= usize::MAX / 2 {
            n * 2
        } else {
            usize::MAX
        };
        let r = HexWkbWriter { buf: Vec::with_capacity(cap) };
        assert(r.bytes() =~= Seq::<u8>::empty());
        assert(hex_of(Seq::<u8>::empty()) =~= r.buf@);
        r
    }

    /// The text written.
    pub fn into_string(self) -> (r: String)
        requires
            self.wf(),
        ensures
            r@ == hex_of(self.bytes()),
    {
        crate::text::string_from_chars(self.buf.as_slice())
    }

    fn write_hex_byte(&mut self, v: u8)
        requires
            old(self).wf(),
        ensures
            final(self).wf(),
            final(self).bytes() == old(self).bytes().push(v),
    {
        let ghost b = self.bytes();
        let hi = hex_char(v / 16);
        let lo = hex_char(v % 16);
        self.buf.push(hi);
        self.buf.push(lo);
        proof {
            lemma_hex_push(b, v);
            crate::hex::law_hex_round_trip(b.push(v));
            assert(self.buf@ =~= hex_of(b.push(v)));
        }
    }

    /// Writes one byte.
    pub fn write_u8(&mut self, v: u8)
        requires
            old(self).wf(),
        ensures
            final(self).wf(),
            final(self).bytes() == old(self).bytes().push(v),
    {
        self.write_hex_byte(v);
    }

    /// Writes the bytes of `b` in order.
    fn write_bytes(&mut self, b: &[u8])
        requires
            old(self).wf(),
        ensures
            final(self).wf(),
            final(self).bytes() == old(self).bytes() + b@,
    {
        let ghost o = self.bytes();
        let mut i: usize = 0;
        while i < b.len()
            invariant
                i <= b@.len(),
                self.wf(),
                self.bytes() == o + b@.take(i as int),
            decreases b@.len() - i,
        {
            self.write_hex_byte(b[i]);
            assert(o + b@.take(i + 1) =~= (o + b@.take(i as int)).push(b@[i as int]));
            i = i + 1;
        }
        assert(b@.take(b@.len() as int) =~= b@);
    }

    /// Writes a `u32`, little-endian.
    pub fn write_u32(&mut self, v: u32)
        requires
            old(self).wf(),
        ensures
            final(self).wf(),
            final(self).bytes() == old(self).bytes() + le4(v),
    {
        let b = le_bytes(v);
        self.write_bytes(&b);
    }

    /// Writes the bit pattern of an `f64`, little-endian.
    pub fn write_f64(&mut self, bits: u64)
        requires
            old(self).wf(),
        ensures
            final(self).wf(),
            final(self).bytes() == old(self).bytes() + le8(bits),
    {
        let ghost o = self.bytes();
        self.write_u32((bits % 0x1_0000_0000) as u32);
        self.write_u32((bits / 0x1_0000_0000) as u32);
        assert(self.bytes() =~= o + le8(bits));
    }

    /// Writes a zero count and returns where it stands, to be patched later.
    pub fn reserve_u32(&mut self) -> (r: usize)
        requires
            old(self).wf(),
        ensures
            final(self).wf(),
            r == old(self).bytes().len(),
            final(self).bytes() == old(self).bytes() + le4(0),
    {
        let r = self.buf.len() / 2;
        self.write_u32(0);
        r
    }

    fn set_hex_byte(&mut self, i: usize, v: u8)
        requires
            old(self).wf(),
            i < old(self).bytes().len(),
        ensures
            final(self).wf(),
            final(self).bytes() == old(self).bytes().update(i as int, v),
    {
        let ghost b = self.bytes();
        let n = self.buf.len();
        assert(n == 2 * b.len());
        let hi = hex_char(v / 16);
        let lo = hex_char(v % 16);
        self.buf.set(2 * i, hi);
        self.buf.set(2 * i + 1, lo);
        proof {
            lemma_hex_update(b, i as int, v);
            crate::hex::law_hex_round_trip(b.update(i as int, v));
        }
    }

    /// Overwrites the four bytes at `pos` with the bytes of `v`.
    pub fn patch_u32(&mut self, pos: usize, v: u32)
        requires
            old(self).wf(),
            pos + 4 <= old(self).bytes().len(),
        ensures
            final(self).wf(),
            final(self).bytes() == old(self).bytes().subrange(0, pos as int) + le4(v) + old(
                self,
            ).bytes().subrange(pos + 4, old(self).bytes().len() as int),
    {
        let ghost o = self.bytes();
        let n = self.buf.len();
        assert(n == 2 * o.len());
        let b = le_bytes(v);
        self.set_hex_byte(pos, b[0]);
        self.set_hex_byte(pos + 1, b[1]);
        self.set_hex_byte(pos + 2, b[2]);
        self.set_hex_byte(pos + 3, b[3]);
        assert(self.bytes() =~= o.subrange(0, pos as int) + le4(v) + o.subrange(
            pos + 4,
            o.len() as int,
        ));
    }

    /// Writes a little-endian EWKB header; the SRID field only when `srid` is given.
    #[verifier::rlimit(40)]
    pub fn write_header(&mut self, t: GeomType, dim: Dimension, srid: Option<i32>)
        requires
            old(self).wf(),
        ensures
            final(self).wf(),
            final(self).bytes() == old(self).bytes() + crate::model::flatten_bits(
                enc_header(t, dim, srid),
            ),
    {
        let ghost o = self.bytes();
        self.write_u8(1);
        let flag: u32 = match srid {
            Some(_) => EWKB_SRID,
            None => 0,
        };
        let code = t.code() + dim.ewkb_flags() + flag;
        assert(code == crate::model::type_word(t, dim, srid.is_some()));
        self.write_u32(code);
        let ghost mid = self.bytes();
        assert(mid =~= o + (seq![1u8] + le4(code)));
        let ghost tail: Seq<u8> = match srid {
            Some(s) => le4(s as u32),
            None => seq![],
        };
        match srid {
            Some(s) => self.write_u32(s as u32),
            None => {},
        }
        proof {
            let hb = seq![1u8] + le4(code) + tail;
            assert(self.bytes() =~= mid + tail);
            crate::laws::lemma_fb_bytes(hb);
            assert(enc_header(t, dim, srid) == byte_cells(hb));
            assert(self.bytes() =~= o + hb);
        }
    }
}

} // verus!
