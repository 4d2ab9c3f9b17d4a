//! Conversion results whose coordinate values are still to be turned into, or
//! read from, decimal text.
//!
//! A WKT draft is the output text with a hole for each coordinate; a WKB draft
//! is the output bytes with a hole for each coordinate value.
use crate::error::{wkt_error, Fault, Result};
use crate::text::str_debug;
use crate::wkt_to_wkb::tokenizer::at_pos;
use crate::hex::hex_of;
use crate::model::{
    coord_count, coords_of, flatten, is_finite, le8, num_count, num_payloads, render_text, Cell,
    WktPart,
};
use crate::text::{lexeme, scan_number, string_from_chars};
use crate::wkt_to_wkb::writer::{le_bytes, HexWkbWriter};
use vstd::prelude::*;

verus! {

/// The character views of a sequence of strings.
pub open spec fn views(v: Seq<String>) -> Seq<Seq<char>> {
    v.map_values(|s: String| s@)
}

/// The error that checking `values` for the coordinates of `d` gives: a
/// count that differs, or the first value that is missing or not finite,
/// named by its lexeme when the draft has source text.
pub open spec fn check_fault(d: WktDraft, values: Seq<Option<u64>>) -> Fault {
    if values.len() != coord_count(d.parts@) {
        Fault::Wkt("one value per coordinate is required"@)
    } else {
        let j = first_unfit(values);
        match d.source {
            Some(src) => Fault::Wkt(unfit_message(values[j], src@, coords_of(d.parts@)[j] as int)),
            None => Fault::Wkt("invalid number"@),
        }
    }
}

/// WKT output with a hole for each coordinate.
///
/// Without `source`, each coordinate is the bit pattern of a double. With
/// `source`, each coordinate is the position in that text of the number
/// lexeme that denotes it.
pub struct WktDraft {
    pub parts: Vec<WktPart>,
    pub source: Option<Vec<char>>,
}

impl WktDraft {
    /// The coordinates, in output order.
    pub fn coords(&self) -> (r: Vec<u64>)
        ensures
            r@ == coords_of(self.parts@),
    {
        let mut out: Vec<u64> = Vec::new();
        let mut i: usize = 0;
        while i < self.parts.len()
            invariant
                i <= self.parts@.len(),
                out@ == coords_of(self.parts@.take(i as int)),
            decreases self.parts@.len() - i,
        {
            assert(self.parts@.take(i + 1).drop_last() =~= self.parts@.take(i as int));
            match self.parts[i] {
                WktPart::Coord(v) => out.push(v),
                WktPart::Char(_) => {},
            }
            i = i + 1;
        }
        assert(self.parts@ =~= self.parts@.take(self.parts@.len() as int));
        out
    }

    /// The number lexeme at `pos` of the source text, when there is one.
    pub fn lexeme(&self, pos: u64) -> (r: Option<String>)
        ensures
            match self.source {
                Some(s) => if pos <= s@.len() {
                    r matches Some(t) && t@ == lexeme(s@, pos as int)
                } else {
                    r is None
                },
                None => r is None,
            },
    {
        match &self.source {
            Some(s) => {
                if pos <= s.len() as u64 {
                    let p = pos as usize;
                    let e = scan_number(s.as_slice(), p);
                    let mut t: Vec<char> = Vec::new();
                    let mut i = p;
                    while i < e
                        invariant
                            p <= i <= e <= s@.len(),
                            t@ == s@.subrange(p as int, i as int),
                        decreases e - i,
                    {
                        t.push(s[i]);
                        assert(s@.subrange(p as int, i + 1) =~= s@.subrange(p as int, i as int).push(
                            s@[i as int],
                        ));
                        i = i + 1;
                    }
                    Some(string_from_chars(t.as_slice()))
                } else {
                    None
                }
            },
            None => None,
        }
    }

    /// Checks the values read from the lexemes of a draft's coordinates: one
    /// per coordinate, each present and finite. Otherwise fails with
    /// `InvalidWkt`, naming the first lexeme that does not denote a finite
    /// double and its byte offset in the source text, as reading the text
    /// into WKB does.
    pub fn check_values(&self, values: &[Option<u64>]) -> (r: Result<()>)
        ensures
            r is Ok <==> values@.len() == coord_count(self.parts@) && all_finite(values@),
            r matches Err(e) ==> e.fault() == check_fault(*self, values@),
    {
        let cs = self.coords();
        proof {
            lemma_coords_len(self.parts@);
        }
        if values.len() != cs.len() {
            return Err(wkt_error("one value per coordinate is required"));
        }
        let mut i: usize = 0;
        while i < values.len()
            invariant
                i <= values@.len(),
                cs@.len() == values@.len(),
                cs@ == coords_of(self.parts@),
                values@.len() == coord_count(self.parts@),
                all_finite(values@.take(i as int)),
            decreases values@.len() - i,
        {
            let bad = match values[i] {
                Some(b) => !finite_bits(b),
                None => true,
            };
            if bad {
                assert(!(values@[i as int] matches Some(b) && is_finite(b)));
                proof {
                    lemma_first_unfit(values@, i as int);
                }
                let what = match values[i] {
                    Some(_) => "non-finite coordinate ",
                    None => "invalid number ",
                };
                return match &self.source {
                    Some(src) => Err(number_error(what, src.as_slice(), cs[i])),
                    None => Err(wkt_error("invalid number")),
                };
            }
            assert(values@.take(i + 1) =~= values@.take(i as int).push(values@[i as int]));
            i = i + 1;
        }
        assert(values@ =~= values@.take(values@.len() as int));
        Ok(())
    }

    /// The text, the `j`-th coordinate written as `formatted[j]`. Fails with
    /// `InvalidWkt` unless there is one entry per coordinate and each is
    /// given; an entry is missing when its lexeme does not denote a finite
    /// double.
    pub fn render(&self, formatted: &[Option<String>]) -> (r: Result<String>)
        ensures
            formatted@.len() == coord_count(self.parts@) && all_given(formatted@) ==> (r matches Ok(
                t,
            ) && t@ == render_text(self.parts@, given_views(formatted@))),
            !(formatted@.len() == coord_count(self.parts@) && all_given(formatted@)) ==> (r matches Err(
                e,
            ) && e.fault() == Fault::Wkt(
                if formatted@.len() != coord_count(self.parts@) {
                    "one text per coordinate is required"@
                } else {
                    "invalid number"@
                },
            )),
    {
        let n = self.coords().len();
        proof {
            lemma_coords_len(self.parts@);
        }
        if formatted.len() != n {
            return Err(wkt_error("one text per coordinate is required"));
        }
        let mut i: usize = 0;
        while i < formatted.len()
            invariant
                i <= formatted@.len(),
                formatted@.len() == coord_count(self.parts@),
                forall|j: int| 0 <= j < i ==> (#[trigger] formatted@[j]) is Some,
            decreases formatted@.len() - i,
        {
            if formatted[i].is_none() {
                return Err(wkt_error("invalid number"));
            }
            i = i + 1;
        }
        let ghost fmt = given_views(formatted@);
        let mut out: Vec<char> = Vec::new();
        let mut k: usize = 0;
        let mut i: usize = 0;
        proof {
            lemma_coord_count_prefix(self.parts@, self.parts@.len() as int);
            assert(self.parts@.take(self.parts@.len() as int) =~= self.parts@);
        }
        while i < self.parts.len()
            invariant
                i <= self.parts@.len(),
                fmt == given_views(formatted@),
                all_given(formatted@),
                formatted@.len() == coord_count(self.parts@),
                k == coord_count(self.parts@.take(i as int)),
                k <= formatted@.len(),
                forall|j: int|
                    0 <= j <= self.parts@.len() ==> coord_count(#[trigger] self.parts@.take(j))
                        <= coord_count(self.parts@),
                out@ == render_text(self.parts@.take(i as int), fmt),
            decreases self.parts@.len() - i,
        {
            assert(self.parts@.take(i + 1).drop_last() =~= self.parts@.take(i as int));
            assert(coord_count(self.parts@.take(i + 1)) <= coord_count(self.parts@));
            match self.parts[i] {
                WktPart::Coord(_) => {
                    match &formatted[k] {
                        Some(s) => {
                            let ghost before = out@;
                            let ghost fs = s@;
                            for c in it: s.chars()
                                invariant
                                    out@ == before + it.seq().take(it.index() as int),
                            {
                                assert(it.seq().take(it.index() + 1) =~= it.seq().take(
                                    it.index() as int,
                                ).push(c));
                                out.push(c);
                            }
                            assert(fs =~= fs.take(fs.len() as int));
                            assert(fmt[k as int] == fs);
                        },
                        None => {
                            assert(formatted@[k as int] is Some);
                            return Err(wkt_error("invalid number"));
                        },
                    }
                    k = k + 1;
                },
                WktPart::Char(c) => {
                    out.push(c as char);
                },
            }
            i = i + 1;
        }
        assert(self.parts@ =~= self.parts@.take(self.parts@.len() as int));
        Ok(string_from_chars(out.as_slice()))
    }
}

/// Every entry is given.
pub open spec fn all_given(v: Seq<Option<String>>) -> bool {
    forall|j: int| 0 <= j < v.len() ==> (#[trigger] v[j]) is Some
}

/// The character views of the given entries (empty where one is missing).
pub open spec fn given_views(v: Seq<Option<String>>) -> Seq<Seq<char>> {
    Seq::new(
        v.len(),
        |j: int|
            match v[j] {
                Some(s) => s@,
                None => seq![],
            },
    )
}

/// Coordinate counts grow along prefixes.
pub proof fn lemma_coord_count_prefix(p: Seq<WktPart>, j: int)
    requires
        0 <= j <= p.len(),
    ensures
        forall|i: int| 0 <= i <= j ==> coord_count(#[trigger] p.take(i)) <= coord_count(p.take(j)),
    decreases j,
{
    if j > 0 {
        lemma_coord_count_prefix(p, j - 1);
        assert(p.take(j).drop_last() =~= p.take(j - 1));
    }
    assert(p.take(p.len() as int) =~= p);
}

/// Number of coordinates in a part sequence, as the number of its coordinate values.
pub proof fn lemma_coords_len(p: Seq<WktPart>)
    ensures
        coords_of(p).len() == coord_count(p),
    decreases p.len(),
{
    if p.len() > 0 {
        lemma_coords_len(p.drop_last());
    }
}

/// The lexeme at `v`, or nothing when `v` lies past the text.
pub open spec fn lexeme_of(src: Seq<char>, v: u64) -> Seq<char> {
    if v <= src.len() {
        lexeme(src, v as int)
    } else {
        seq![]
    }
}

/// The lexemes that the number cells point to, in order.
pub open spec fn lexemes_of(c: Seq<Cell>, src: Seq<char>) -> Seq<Seq<char>> {
    num_payloads(c).map_values(|v: u64| lexeme_of(src, v))
}

/// Every value is given and finite.
pub open spec fn all_finite(v: Seq<Option<u64>>) -> bool {
    forall|i: int| 0 <= i < v.len() ==> (#[trigger] v[i] matches Some(b) && is_finite(b))
}

/// The given values (0 where one is missing).
pub open spec fn unwrap_all(v: Seq<Option<u64>>) -> Seq<u64> {
    Seq::new(
        v.len(),
        |i: int|
            match v[i] {
                Some(b) => b,
                None => 0,
            },
    )
}

/// The value is given and finite.
pub open spec fn fits(v: Option<u64>) -> bool {
    v matches Some(b) && is_finite(b)
}

/// The first value that is missing or not finite, when there is one.
pub open spec fn first_unfit(v: Seq<Option<u64>>) -> int {
    choose|j: int| 0 <= j < v.len() && all_finite(v.take(j)) && !fits(#[trigger] v[j])
}

/// Only one value is the first that is missing or not finite.
pub proof fn lemma_first_unfit(v: Seq<Option<u64>>, j: int)
    requires
        0 <= j < v.len(),
        all_finite(v.take(j)),
        !fits(v[j]),
    ensures
        first_unfit(v) == j,
{
    let k = first_unfit(v);
    assert(0 <= k < v.len() && all_finite(v.take(k)) && !fits(v[k]));
    if k < j {
        assert(v.take(j)[k] == v[k]);
    } else if j < k {
        assert(v.take(k)[j] == v[j]);
    }
}

/// `what`, then the number lexeme of `source` at `p` as `{:?}` writes it and
/// its byte offset (nothing more when `p` lies past the text).
pub open spec fn number_message(what: Seq<char>, source: Seq<char>, p: int) -> Seq<char> {
    if p <= source.len() {
        what + str_debug(lexeme(source, p)) + at_pos(source, p)
    } else {
        what
    }
}

/// The message for the value `v` that does not fit, at lexeme position `p`.
pub open spec fn unfit_message(v: Option<u64>, source: Seq<char>, p: int) -> Seq<char> {
    if v is Some {
        number_message("non-finite coordinate "@, source, p)
    } else {
        number_message("invalid number "@, source, p)
    }
}

/// The error that filling `cells` with `values` gives when they do not fill
/// them: a count that differs, or the first value that is missing or not
/// finite, named by its lexeme in `source`.
pub open spec fn fill_fault(cells: Seq<Cell>, source: Seq<char>, values: Seq<Option<u64>>) -> Fault {
    if values.len() != num_count(cells) {
        Fault::Wkt("one value per number is required"@)
    } else {
        let j = first_unfit(values);
        Fault::Wkt(unfit_message(values[j], source, num_payloads(cells)[j] as int))
    }
}

/// The bytes of `cells` filled with `values`: one value per number cell,
/// each present and finite; `None` otherwise.
pub open spec fn filled(cells: Seq<Cell>, values: Seq<Option<u64>>) -> Option<Seq<u8>> {
    if values.len() == num_count(cells) && all_finite(values) {
        Some(flatten(cells, unwrap_all(values)))
    } else {
        None
    }
}

/// `r` holds the bytes of `cells` filled with `values`, or the error
/// `fill_fault` gives when they do not fill them.
pub open spec fn fill_is(
    r: Result<Vec<u8>>,
    cells: Seq<Cell>,
    source: Seq<char>,
    values: Seq<Option<u64>>,
) -> bool {
    match filled(cells, values) {
        Some(b) => r matches Ok(x) && x@ == b,
        None => r matches Err(e) && e.fault() == fill_fault(cells, source, values),
    }
}

/// `r` holds the hex text of the bytes of `cells` filled with `values`, or
/// the error `fill_fault` gives when they do not fill them.
pub open spec fn fill_hex_is(
    r: Result<String>,
    cells: Seq<Cell>,
    source: Seq<char>,
    values: Seq<Option<u64>>,
) -> bool {
    match filled(cells, values) {
        Some(b) => r matches Ok(h) && h@ == hex_of(b),
        None => r matches Err(e) && e.fault() == fill_fault(cells, source, values),
    }
}

/// Whether the bit pattern denotes a finite double.
pub fn finite_bits(b: u64) -> (r: bool)
    ensures
        r == is_finite(b),
{
    (b / 0x10_0000_0000_0000) % 0x800 != 0x7FF
}

/// Appends the little-endian bytes of `v`.
pub fn push_le8(out: &mut Vec<u8>, v: u64)
    ensures
        final(out)@ == old(out)@ + le8(v),
{
    let lo = le_bytes((v % 0x1_0000_0000) as u32);
    let hi = le_bytes((v / 0x1_0000_0000) as u32);
    out.push(lo[0]);
    out.push(lo[1]);
    out.push(lo[2]);
    out.push(lo[3]);
    out.push(hi[0]);
    out.push(hi[1]);
    out.push(hi[2]);
    out.push(hi[3]);
    assert(out@ =~= old(out)@ + le8(v));
}

/// The bytes of cells, the `j`-th number cell written as `vals[j]`.
pub fn flatten_cells(cells: &[Cell], vals: &[u64]) -> (r: Vec<u8>)
    requires
        vals@.len() >= num_count(cells@),
    ensures
        r@ == flatten(cells@, vals@),
{
    let mut out: Vec<u8> = Vec::new();
    let mut k: usize = 0;
    let mut i: usize = 0;
    proof {
        lemma_num_count_prefix(cells@, cells@.len() as int);
        assert(cells@.take(cells@.len() as int) =~= cells@);
    }
    while i < cells.len()
        invariant
            i <= cells@.len(),
            vals@.len() >= num_count(cells@),
            k == num_count(cells@.take(i as int)),
            forall|j: int|
                0 <= j <= cells@.len() ==> num_count(#[trigger] cells@.take(j)) <= num_count(
                    cells@,
                ),
            out@ == flatten(cells@.take(i as int), vals@),
        decreases cells@.len() - i,
    {
        assert(cells@.take(i + 1).drop_last() =~= cells@.take(i as int));
        assert(num_count(cells@.take(i + 1)) <= num_count(cells@));
        match cells[i] {
            Cell::Byte(b) => out.push(b),
            Cell::Num(_) => {
                push_le8(&mut out, vals[k]);
                k = k + 1;
            },
        }
        i = i + 1;
    }
    assert(cells@ =~= cells@.take(cells@.len() as int));
    out
}

/// The payloads of the number cells, in order.
pub fn payloads(cells: &[Cell]) -> (r: Vec<u64>)
    ensures
        r@ == num_payloads(cells@),
        r@.len() == num_count(cells@),
{
    let mut out: Vec<u64> = Vec::new();
    let mut i: usize = 0;
    while i < cells.len()
        invariant
            i <= cells@.len(),
            out@ == num_payloads(cells@.take(i as int)),
            out@.len() == num_count(cells@.take(i as int)),
        decreases cells@.len() - i,
    {
        assert(cells@.take(i + 1).drop_last() =~= cells@.take(i as int));
        match cells[i] {
            Cell::Byte(_) => {},
            Cell::Num(v) => out.push(v),
        }
        i = i + 1;
    }
    assert(cells@ =~= cells@.take(cells@.len() as int));
    out
}

/// Number-cell counts grow along prefixes.
pub proof fn lemma_num_count_prefix(c: Seq<Cell>, j: int)
    requires
        0 <= j <= c.len(),
    ensures
        forall|i: int| 0 <= i <= j ==> num_count(#[trigger] c.take(i)) <= num_count(c.take(j)),
    decreases j,
{
    if j > 0 {
        lemma_num_count_prefix(c, j - 1);
        assert(c.take(j).drop_last() =~= c.take(j - 1));
    }
}

/// WKB output with a hole for each coordinate value: the `j`-th number cell
/// stands for the number lexeme of `source` at the cell's payload.
pub struct WkbDraft {
    pub cells: Vec<Cell>,
    pub source: Vec<char>,
}

impl WkbDraft {
    /// The number lexemes, one per number cell, in order.
    pub fn lexemes(&self) -> (r: Vec<String>)
        ensures
            views(r@) == lexemes_of(self.cells@, self.source@),
    {
        let pos = payloads(self.cells.as_slice());
        let mut out: Vec<String> = Vec::new();
        let mut i: usize = 0;
        while i < pos.len()
            invariant
                i <= pos@.len(),
                pos@ == num_payloads(self.cells@),
                views(out@) == lexemes_of(self.cells@, self.source@).take(i as int),
            decreases pos@.len() - i,
        {
            let v = pos[i];
            let mut t: Vec<char> = Vec::new();
            if v <= self.source.len() as u64 {
                let p = v as usize;
                let e = scan_number(self.source.as_slice(), p);
                let mut j = p;
                while j < e
                    invariant
                        p <= j <= e <= self.source@.len(),
                        t@ == self.source@.subrange(p as int, j as int),
                    decreases e - j,
                {
                    t.push(self.source[j]);
                    assert(self.source@.subrange(p as int, j + 1) =~= self.source@.subrange(
                        p as int,
                        j as int,
                    ).push(self.source@[j as int]));
                    j = j + 1;
                }
            }
            let st = string_from_chars(t.as_slice());
            assert(st@ == lexeme_of(self.source@, v));
            let ghost before = out@;
            out.push(st);
            assert(views(out@) =~= views(before).push(st@));
            assert(views(out@) =~= lexemes_of(self.cells@, self.source@).take(i + 1));
            i = i + 1;
        }
        assert(lexemes_of(self.cells@, self.source@) =~= lexemes_of(self.cells@, self.source@).take(
            pos@.len() as int,
        ));
        out
    }

    /// The bytes, the `j`-th number cell written as `values[j]`. Fails with
    /// `InvalidWkt` unless there is one value per number cell and every value
    /// is present and finite.
    pub fn fill(&self, values: &[Option<u64>]) -> (r: Result<Vec<u8>>)
        ensures
            fill_is(r, self.cells@, self.source@, values@),
    {
        let vals = match checked_values(self.cells.as_slice(), self.source.as_slice(), values) {
            Ok(v) => v,
            Err(e) => return Err(e),
        };
        Ok(flatten_cells(self.cells.as_slice(), vals.as_slice()))
    }

    /// The upper-case hex text of the bytes that [`WkbDraft::fill`] gives,
    /// written as hex while the cells are read.
    pub fn fill_hex(&self, values: &[Option<u64>]) -> (r: Result<String>)
        ensures
            fill_hex_is(r, self.cells@, self.source@, values@),
    {
        let vals = match checked_values(self.cells.as_slice(), self.source.as_slice(), values) {
            Ok(v) => v,
            Err(e) => return Err(e),
        };
        let cells = self.cells.as_slice();
        let vals = vals.as_slice();
        let mut w = HexWkbWriter::with_capacity(cells.len());
        let mut k: usize = 0;
        let mut i: usize = 0;
        proof {
            lemma_num_count_prefix(cells@, cells@.len() as int);
            assert(cells@.take(cells@.len() as int) =~= cells@);
            assert(cells@.take(0) =~= Seq::<Cell>::empty());
        }
        while i < cells.len()
            invariant
                i <= cells@.len(),
                vals@.len() >= num_count(cells@),
                k == num_count(cells@.take(i as int)),
                forall|j: int|
                    0 <= j <= cells@.len() ==> num_count(#[trigger] cells@.take(j)) <= num_count(
                        cells@,
                    ),
                w.wf(),
                w.bytes() == flatten(cells@.take(i as int), vals@),
            decreases cells@.len() - i,
        {
            assert(cells@.take(i + 1).drop_last() =~= cells@.take(i as int));
            assert(num_count(cells@.take(i + 1)) <= num_count(cells@));
            match cells[i] {
                Cell::Byte(b) => {
                    w.write_u8(b);
                    assert(w.bytes() =~= flatten(cells@.take(i + 1), vals@));
                },
                Cell::Num(_) => {
                    w.write_f64(vals[k]);
                    k = k + 1;
                },
            }
            i = i + 1;
        }
        assert(cells@ =~= cells@.take(cells@.len() as int));
        Ok(w.into_string())
    }
}

/// An `InvalidWkt` error naming the number lexeme of `source` at `p`, as
/// `{:?}` writes it, and its byte offset.
fn number_error(what: &str, source: &[char], p: u64) -> (e: crate::error::Error)
    ensures
        e.fault() == Fault::Wkt(number_message(what@, source@, p as int)),
{
    let mut msg: Vec<char> = Vec::new();
    crate::error::push_chars(&mut msg, what);
    if p <= source.len() as u64 {
        let q = p as usize;
        let e = scan_number(source, q);
        let part = vstd::slice::slice_subrange(source, q, e);
        let text = string_from_chars(part);
        let d = crate::text::debug_str(text.as_str());
        crate::error::push_chars(&mut msg, d.as_str());
        crate::wkt_to_wkb::tokenizer::push_at_pos(&mut msg, source, q);
        assert(msg@ =~= number_message(what@, source@, p as int));
    } else {
        assert(msg@ =~= number_message(what@, source@, p as int));
    }
    crate::error::wkt_error_from(msg.as_slice())
}

/// The values, checked: one per number cell, each present and finite.
fn checked_values(cells: &[Cell], source: &[char], values: &[Option<u64>]) -> (r: Result<Vec<u64>>)
    ensures
        values@.len() == num_count(cells@) && all_finite(values@) ==> (r matches Ok(v) && v@
            == unwrap_all(values@)),
        !(values@.len() == num_count(cells@) && all_finite(values@)) ==> (r matches Err(e)
            && e.fault() == fill_fault(cells@, source@, values@)),
{
    let pos = payloads(cells);
    let n = pos.len();
    if values.len() != n {
        return Err(wkt_error("one value per number is required"));
    }
    let mut vals: Vec<u64> = Vec::new();
    let mut i: usize = 0;
    while i < values.len()
        invariant
            i <= values@.len(),
            vals@ == unwrap_all(values@).take(i as int),
            all_finite(values@.take(i as int)),
            pos@.len() == values@.len(),
            pos@ == num_payloads(cells@),
            values@.len() == num_count(cells@),
        decreases values@.len() - i,
    {
        match values[i] {
            Some(b) => {
                if !finite_bits(b) {
                    assert(!(values@[i as int] matches Some(b) && is_finite(b)));
                    proof {
                        lemma_first_unfit(values@, i as int);
                    }
                    return Err(number_error("non-finite coordinate ", source, pos[i]));
                }
                vals.push(b);
            },
            None => {
                assert(!(values@[i as int] matches Some(b) && is_finite(b)));
                proof {
                    lemma_first_unfit(values@, i as int);
                }
                return Err(number_error("invalid number ", source, pos[i]));
            },
        }
        assert(values@.take(i + 1) =~= values@.take(i as int).push(values@[i as int]));
        assert(vals@ =~= unwrap_all(values@).take(i + 1));
        i = i + 1;
    }
    assert(values@ =~= values@.take(values@.len() as int));
    assert(vals@ =~= unwrap_all(values@));
    Ok(vals)
}

/// WKT output: final text, or a draft whose coordinates are still to be written.
pub enum WktText {
    Text(String),
    Draft(WktDraft),
}

/// Hex WKB output: final text, or a draft whose number values are still to be given.
pub enum HexText {
    Text(String),
    Draft(WkbDraft),
}

/// A WKB draft that holds only bytes.
pub fn byte_draft(b: Vec<u8>) -> (r: WkbDraft)
    ensures
        r.cells@ == crate::model::byte_cells(b@),
        r.source@ == Seq::<char>::empty(),
{
    let mut cells: Vec<Cell> = Vec::new();
    let mut i: usize = 0;
    while i < b.len()
        invariant
            i <= b@.len(),
            cells@ == crate::model::byte_cells(b@.take(i as int)),
        decreases b@.len() - i,
    {
        assert(b@.take(i + 1).drop_last() =~= b@.take(i as int));
        cells.push(Cell::Byte(b[i]));
        i = i + 1;
    }
    assert(b@ =~= b@.take(b@.len() as int));
    WkbDraft { cells, source: Vec::new() }
}

} // verus!
