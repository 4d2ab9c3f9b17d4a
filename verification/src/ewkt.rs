//! The `SRID=<n>;` prefix of EWKT text, handled on the text alone.
use crate::text::{parse_i32, skip_whitespace, skip_ws, spec_parse_i32, trim_bounds, trimmed};
use crate::wkt_to_wkb::grammar::{prefix_ci, srid_word};
use crate::wkt_to_wkb::tokenizer::prefix_at;
use vstd::prelude::*;

verus! {

/// Index of the first `c` at or after `from`.
pub open spec fn find_char(s: Seq<char>, from: int, c: char) -> Option<int>
    decreases s.len() - from,
{
    if 0 <= from < s.len() {
        if s[from] == c {
            Some(from)
        } else {
            find_char(s, from + 1, c)
        }
    } else {
        None
    }
}

/// Where the text after an `SRID=...;` prefix starts (whitespace skipped);
/// 0 when the text has no such prefix.
pub open spec fn ewkt_body_start(s: Seq<char>) -> int {
    if prefix_ci(s, 0, srid_word()) {
        match find_char(s, 5, ';') {
            Some(k) => skip_ws(s, k + 1),
            None => 0,
        }
    } else {
        0
    }
}

/// Where the text after an `SRID=<n>;` prefix starts when `n` reads as an
/// `i32` that is not positive (an unknown SRID); 0 otherwise.
pub open spec fn unknown_srid_body_start(s: Seq<char>) -> int {
    if prefix_ci(s, 0, srid_word()) {
        match find_char(s, 5, ';') {
            Some(k) => match spec_parse_i32(trimmed(s.subrange(5, k))) {
                Some(n) => if n <= 0 {
                    skip_ws(s, k + 1)
                } else {
                    0
                },
                None => 0,
            },
            None => 0,
        }
    } else {
        0
    }
}

pub proof fn lemma_find_char(s: Seq<char>, from: int, c: char)
    requires
        0 <= from,
    ensures
        find_char(s, from, c) matches Some(k) ==> from <= k < s.len() && s[k] == c,
    decreases s.len() - from,
{
    if 0 <= from < s.len() && s[from] != c {
        lemma_find_char(s, from + 1, c);
    }
}

/// The index of the first `c` at or after `from`.
pub fn find(s: &[char], from: usize, c: char) -> (r: Option<usize>)
    requires
        from <= s@.len(),
    ensures
        match find_char(s@, from as int, c) {
            Some(k) => r == Some(k as usize),
            None => r is None,
        },
{
    let mut i = from;
    proof {
        lemma_find_char(s@, from as int, c);
    }
    while i < s.len()
        invariant
            from <= i <= s@.len(),
            find_char(s@, i as int, c) == find_char(s@, from as int, c),
        decreases s@.len() - i,
    {
        if s[i] == c {
            return Some(i);
        }
        i = i + 1;
    }
    None
}

/// Where the text after an `SRID=...;` prefix starts.
pub fn strip_ewkt_prefix(s: &[char]) -> (r: usize)
    ensures
        r as int == ewkt_body_start(s@),
        r <= s@.len(),
{
    proof {
        reveal_strlit("SRID=");
        assert("SRID="@ =~= srid_word());
    }
    let n = s.len();
    if prefix_at(s, 0, "SRID=") {
        assert(5 <= n);
        match find(s, 5, ';') {
            Some(k) => {
                proof {
                    lemma_find_char(s@, 5, ';');
                }
                assert(k < n);
                skip_whitespace(s, k + 1)
            },
            None => 0,
        }
    } else {
        0
    }
}

/// Where the text after an `SRID=<n>;` prefix with an unknown SRID starts.
pub fn strip_unknown_srid_prefix(s: &[char]) -> (r: usize)
    ensures
        r as int == unknown_srid_body_start(s@),
        r <= s@.len(),
{
    proof {
        reveal_strlit("SRID=");
        assert("SRID="@ =~= srid_word());
    }
    let n = s.len();
    if !prefix_at(s, 0, "SRID=") {
        return 0;
    }
    assert(5 <= n);
    let k = match find(s, 5, ';') {
        Some(k) => k,
        None => return 0,
    };
    proof {
        lemma_find_char(s@, 5, ';');
    }
    assert(5 <= k < n);
    let value = vstd::slice::slice_subrange(s, 5, k);
    let (a, e) = trim_bounds(value);
    match parse_i32(value, a, e) {
        Some(n) => {
            if n <= 0 {
                skip_whitespace(s, k + 1)
            } else {
                0
            }
        },
        None => 0,
    }
}

} // verus!
