use vstd::prelude::*;
use vstd::slice::slice_subrange;
use crate::text::{trim_text, trim_vec, chars_of, string_from_chars};

verus! {

/// The text that `std::str::from_utf8` decodes from `bytes`, or `None` when
/// they are not valid UTF-8.
pub uninterp spec fn utf8_text(bytes: Seq<u8>) -> Option<Seq<char>>;

/// Calls `std::str::from_utf8`. Claimed: the result is a function of the bytes
/// alone, named [`utf8_text`]; `None` stands for the decoding error. What the
/// decoding is (the UTF-8 rules) is not stated.
#[verifier::external_body]
pub(crate) fn decode_utf8(bytes: &[u8]) -> (r: Option<String>)
    ensures
        match r {
            Some(s) => utf8_text(bytes@) == Some(s@),
            None => utf8_text(bytes@) is None,
        },
{
    match std::str::from_utf8(bytes) {
        Ok(s) => Some(s.to_string()),
        Err(_) => None,
    }
}

/// The position of the first newline byte of `data` at or after `from`.
pub open spec fn newline_from(data: Seq<u8>, from: int) -> Option<int>
    decreases data.len() - from,
{
    if from < 0 || from >= data.len() {
        None
    } else if data[from] == 10u8 {
        Some(from)
    } else {
        newline_from(data, from + 1)
    }
}

/// The complete lines of `data` read from byte `from` on, as a transcript
/// reader takes them: every line that ends in a newline and is valid UTF-8,
/// trimmed, with blank lines left out; reading stops at an incomplete last
/// line (a write still in progress) or at a line that is not UTF-8. Also gives
/// the number of bytes taken, the point to resume from.
pub open spec fn framed_from(data: Seq<u8>, from: int) -> (Seq<Seq<char>>, int)
    decreases data.len() - from,
{
    match newline_from(data, from) {
        None => (Seq::empty(), 0),
        Some(k) => match utf8_text(data.subrange(from, k + 1)) {
            None => (Seq::empty(), 0),
            Some(t) => {
                proof {
                    lemma_newline_bounds(data, from);
                }
                let rest = framed_from(data, k + 1);
                let line = trim_text(t);
                (if line.len() > 0 { seq![line] + rest.0 } else { rest.0 }, (k + 1 - from) + rest.1)
            },
        },
    }
}

/// The newline found from `from` lies at or after `from`, inside `data`.
pub proof fn lemma_newline_bounds(data: Seq<u8>, from: int)
    ensures
        newline_from(data, from) matches Some(k) ==> from <= k < data.len() && data[k] == 10u8,
    decreases data.len() - from,
{
    if 0 <= from < data.len() && data[from] != 10u8 {
        lemma_newline_bounds(data, from + 1);
    }
}

proof fn lemma_framed_bounds(data: Seq<u8>, from: int)
    requires
        0 <= from <= data.len(),
    ensures
        0 <= framed_from(data, from).1 <= data.len() - from,
    decreases data.len() - from,
{
    lemma_newline_bounds(data, from);
    match newline_from(data, from) {
        Some(k) => {
            lemma_framed_bounds(data, k + 1);
        },
        None => {},
    }
}

/// Reading never advances past an incomplete line: the bytes taken end with
/// a newline (or none are taken).
pub proof fn lemma_framing_ends_at_newline(data: Seq<u8>, from: int)
    requires
        0 <= from <= data.len(),
    ensures
        framed_from(data, from).1 == 0 || data[from + framed_from(data, from).1 - 1] == 10u8,
    decreases data.len() - from,
{
    lemma_newline_bounds(data, from);
    match newline_from(data, from) {
        Some(k) => {
            lemma_framing_ends_at_newline(data, k + 1);
            lemma_framed_bounds(data, k + 1);
        },
        None => {},
    }
}

pub(crate) proof fn lemma_newline_extends(a: Seq<u8>, b: Seq<u8>, from: int)
    requires
        0 <= from,
        newline_from(a, from) is Some,
    ensures
        newline_from(a + b, from) == newline_from(a, from),
    decreases a.len() - from,
{
    if from < a.len() && a[from] != 10u8 {
        lemma_newline_extends(a, b, from + 1);
    }
}

proof fn lemma_framing_extends(a: Seq<u8>, b: Seq<u8>, from: int)
    requires
        0 <= from <= a.len(),
    ensures
        framed_from(a + b, from).0 == framed_from(a, from).0 + framed_from(a + b, from + framed_from(a, from).1).0,
        framed_from(a + b, from).1 == framed_from(a, from).1 + framed_from(a + b, from + framed_from(a, from).1).1,
    decreases a.len() - from,
{
    lemma_newline_bounds(a, from);
    match newline_from(a, from) {
        None => {
            assert(framed_from(a, from).0 + framed_from(a + b, from).0 =~= framed_from(a + b, from).0);
        },
        Some(k) => {
            lemma_newline_extends(a, b, from);
            assert((a + b).subrange(from, k + 1) =~= a.subrange(from, k + 1));
            match utf8_text(a.subrange(from, k + 1)) {
                None => {
                    assert(framed_from(a, from).0 + framed_from(a + b, from).0 =~= framed_from(a + b, from).0);
                },
                Some(t) => {
                    lemma_framing_extends(a, b, k + 1);
                    lemma_framed_bounds(a, k + 1);
                    let line = trim_text(t);
                    let rest_a = framed_from(a, k + 1);
                    let rest_ab = framed_from(a + b, k + 1 + rest_a.1);
                    if line.len() > 0 {
                        assert(seq![line] + (rest_a.0 + rest_ab.0) =~= (seq![line] + rest_a.0) + rest_ab.0);
                    }
                },
            }
        },
    }
}

pub(crate) proof fn lemma_newline_shift(d: Seq<u8>, from: int, j: int)
    requires
        0 <= from <= d.len(),
        0 <= j,
    ensures
        newline_from(d, from + j) == (match newline_from(d.skip(from), j) {
            Some(k) => Some(k + from),
            None => None,
        }),
    decreases d.len() - from - j,
{
    if from + j < d.len() && d[from + j] != 10u8 {
        lemma_newline_shift(d, from, j + 1);
    }
}

proof fn lemma_framing_shift(d: Seq<u8>, from: int, j: int)
    requires
        0 <= from <= d.len(),
        0 <= j,
    ensures
        framed_from(d, from + j) == framed_from(d.skip(from), j),
    decreases d.len() - from - j,
{
    lemma_newline_shift(d, from, j);
    lemma_newline_bounds(d.skip(from), j);
    match newline_from(d.skip(from), j) {
        Some(k) => {
            assert(d.subrange(from + j, k + from + 1) =~= d.skip(from).subrange(j, k + 1));
            lemma_framing_shift(d, from, k + 1);
        },
        None => {},
    }
}

/// Reading a growing transcript in steps gives what one read of the whole
/// gives: after a read of `a` took some bytes, a read of `a + b` from that
/// offset returns the rest of the lines that one read of `a + b` returns, and
/// the bytes taken add up.
pub proof fn lemma_incremental_read_agrees(a: Seq<u8>, b: Seq<u8>)
    ensures
        framed_from(a + b, 0).0 == framed_from(a, 0).0 + framed_from((a + b).skip(framed_from(a, 0).1), 0).0,
        framed_from(a + b, 0).1 == framed_from(a, 0).1 + framed_from((a + b).skip(framed_from(a, 0).1), 0).1,
{
    lemma_framing_extends(a, b, 0);
    lemma_framed_bounds(a, 0);
    lemma_framing_shift(a + b, framed_from(a, 0).1, 0);
}

/// Split the bytes of a transcript, read from some offset, into its complete
/// lines: each line that ends in a newline and is valid UTF-8, trimmed, blank
/// lines left out. Stops at an incomplete last line or at a line that is not
/// UTF-8. Returns the lines and the number of bytes taken, so that the next
/// read resumes at the first line not taken.
pub fn complete_lines(data: &[u8]) -> (r: (Vec<String>, u64))
    ensures
        r.0@.map_values(|l: String| l@) == framed_from(data@, 0).0,
        r.1 as int == framed_from(data@, 0).1,
{
    let mut lines: Vec<String> = Vec::new();
    let mut start: usize = 0;
    proof {
        lemma_framed_bounds(data@, 0);
    }
    loop
        invariant
            start <= data@.len(),
            framed_from(data@, 0).0 == lines@.map_values(|l: String| l@) + framed_from(data@, start as int).0,
            framed_from(data@, 0).1 == start + framed_from(data@, start as int).1,
        decreases data.len() - start,
    {
        let mut k = start;
        while k < data.len() && data[k] != 10u8
            invariant
                start <= k <= data@.len(),
                newline_from(data@, start as int) == newline_from(data@, k as int),
            decreases data.len() - k,
        {
            k = k + 1;
        }
        proof {
            lemma_newline_bounds(data@, k as int);
        }
        if k >= data.len() {
            assert(lines@.map_values(|l: String| l@) + Seq::<Seq<char>>::empty() =~= lines@.map_values(|l: String| l@));
            return (lines, start as u64);
        }
        let piece = slice_subrange(data, start, k + 1);
        match decode_utf8(piece) {
            None => {
                assert(lines@.map_values(|l: String| l@) + Seq::<Seq<char>>::empty() =~= lines@.map_values(|l: String| l@));
                return (lines, start as u64);
            },
            Some(text) => {
                let chars = chars_of(text.as_str());
                let trimmed = trim_vec(&chars);
                let ghost before = lines@.map_values(|l: String| l@);
                if trimmed.len() > 0 {
                    let line = string_from_chars(trimmed.as_slice());
                    lines.push(line);
                    assert(lines@.map_values(|l: String| l@) =~= before.push(trim_text(text@)));
                    assert(before + (seq![trim_text(text@)] + framed_from(data@, k + 1).0)
                        =~= before.push(trim_text(text@)) + framed_from(data@, k + 1).0);
                } else {
                    assert(lines@.map_values(|l: String| l@) =~= before);
                }
                proof {
                    lemma_framed_bounds(data@, k + 1);
                }
                start = k + 1;
            },
        }
    }
}

} // verus!
