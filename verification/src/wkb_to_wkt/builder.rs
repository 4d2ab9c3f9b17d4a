//! Accumulates the parts of a WKT draft.
use crate::model::{
    lemma_text, comma_sep, empty_word, lemma_text_push, r_empty, r_tuple, lit, WktPart,
};
use vstd::prelude::*;

verus! {

/// A growing WKT draft: characters and coordinates in output order.
pub struct WktBuilder {
    pub parts: Vec<WktPart>,
}

impl WktBuilder {
    /// An empty builder with room for `n` parts.
    pub fn with_capacity(n: usize) -> (r: Self)
        ensures
            r.parts@ == Seq::<WktPart>::empty(),
    {
        WktBuilder { parts: Vec::with_capacity(n) }
    }

    /// The accumulated parts.
    pub fn finish(self) -> (r: Vec<WktPart>)
        ensures
            r@ == self.parts@,
    {
        self.parts
    }

    /// Appends literal text.
    pub fn push_str(&mut self, s: &str)
        ensures
            final(self).parts@ == old(self).parts@ + lit(s@),
    {
        for c in it: s.chars()
            invariant
                self.parts@ == old(self).parts@ + lit(it.seq().take(it.index() as int)),
        {
            proof {
                let t = it.seq().take(it.index() as int);
                assert(it.seq().take(it.index() + 1) =~= t.push(c));
                lemma_text_push(t, c);
            }
            self.parts.push(WktPart::Char(c as u8));
        }
        assert(s@ =~= s@.take(s@.len() as int));
    }

    /// Appends literal characters.
    pub fn push_chars(&mut self, s: &[char])
        ensures
            final(self).parts@ == old(self).parts@ + lit(s@),
    {
        let mut i: usize = 0;
        while i < s.len()
            invariant
                i <= s@.len(),
                self.parts@ == old(self).parts@ + lit(s@.take(i as int)),
            decreases s@.len() - i,
        {
            proof {
                let t = s@.take(i as int);
                assert(s@.take(i + 1) =~= t.push(s@[i as int]));
                lemma_text_push(t, s@[i as int]);
            }
            self.parts.push(WktPart::Char(s[i] as u8));
            i = i + 1;
        }
        assert(s@ =~= s@.take(s@.len() as int));
    }

    /// Appends one character.
    pub fn push_char(&mut self, c: char)
        ensures
            final(self).parts@ == old(self).parts@ + lit(seq![c]),
    {
        self.parts.push(WktPart::Char(c as u8));
        proof {
            assert(seq![c] =~= Seq::<char>::empty().push(c));
            lemma_text_push(Seq::<char>::empty(), c);
            assert(lit(seq![c]) =~= seq![WktPart::Char(c as u8)]);
        }
    }

    /// Appends `, `.
    pub fn push_comma(&mut self)
        ensures
            final(self).parts@ == old(self).parts@ + comma_sep(),
    {
        self.parts.push(WktPart::Char(44u8));
        self.parts.push(WktPart::Char(32u8));
        proof {
            lemma_text(seq![',', ' ']);
        }
        assert(comma_sep() =~= seq![WktPart::Char(44u8), WktPart::Char(32u8)]);
    }

    /// Appends ` (`.
    pub fn push_space_open(&mut self)
        ensures
            final(self).parts@ == old(self).parts@ + lit(seq![' ', '(']),
    {
        self.parts.push(WktPart::Char(32u8));
        self.parts.push(WktPart::Char(40u8));
        proof {
            lemma_text(seq![' ', '(']);
        }
        assert(lit(seq![' ', '(']) =~= seq![WktPart::Char(32u8), WktPart::Char(40u8)]);
    }

    /// Appends `EMPTY`.
    pub fn push_empty_word(&mut self)
        ensures
            final(self).parts@ == old(self).parts@ + lit(empty_word()),
    {
        self.parts.push(WktPart::Char(69u8));
        self.parts.push(WktPart::Char(77u8));
        self.parts.push(WktPart::Char(80u8));
        self.parts.push(WktPart::Char(84u8));
        self.parts.push(WktPart::Char(89u8));
        proof {
            lemma_text(empty_word());
        }
        assert(lit(empty_word()) =~= seq![
            WktPart::Char(69u8),
            WktPart::Char(77u8),
            WktPart::Char(80u8),
            WktPart::Char(84u8),
            WktPart::Char(89u8),
        ]);
    }

    /// Appends ` EMPTY`.
    pub fn push_empty(&mut self)
        ensures
            final(self).parts@ == old(self).parts@ + r_empty(),
    {
        self.push_char(' ');
        self.push_empty_word();
    }

    /// Writes space-separated coordinate values.
    pub fn push_coord(&mut self, coords: &[u64])
        ensures
            final(self).parts@ == old(self).parts@ + r_tuple(coords@),
    {
        let mut i: usize = 0;
        while i < coords.len()
            invariant
                i <= coords@.len(),
                self.parts@ == old(self).parts@ + r_tuple(coords@.take(i as int)),
            decreases coords@.len() - i,
        {
            let ghost t = coords@.take(i as int);
            assert(coords@.take(i + 1) =~= t.push(coords@[i as int]));
            assert(t.push(coords@[i as int]).drop_last() =~= t);
            if i > 0 {
                self.parts.push(WktPart::Char(32u8));
            }
            self.parts.push(WktPart::Coord(coords[i]));
            i = i + 1;
        }
        assert(coords@ =~= coords@.take(coords@.len() as int));
    }
}

} // verus!
