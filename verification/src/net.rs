use vstd::prelude::*;
use vstd::string::StringExecFns;
use crate::text::chars_of;

verus! {

/// Default bind host of the HTTP API.
pub const DEFAULT_HTTP_HOST: &'static str = "127.0.0.1";

/// Default bind port of the HTTP API.
pub const DEFAULT_HTTP_PORT: u16 = 11423u16;

/// The host to bind: the configured value when it is non-empty, otherwise
/// [`DEFAULT_HTTP_HOST`].
pub fn pick_host(raw: Option<String>) -> (r: String)
    ensures
        r@ == (match raw {
            Some(s) => if s@.len() > 0 { s@ } else { DEFAULT_HTTP_HOST@ },
            None => DEFAULT_HTTP_HOST@,
        }),
{
    match raw {
        Some(s) => if s.as_str().is_empty() {
            String::from_str(DEFAULT_HTTP_HOST)
        } else {
            s
        },
        None => String::from_str(DEFAULT_HTTP_HOST),
    }
}

/// Whether every character is an ASCII decimal digit.
pub open spec fn all_digits(d: Seq<char>) -> bool {
    forall|i: int| 0 <= i < d.len() ==> '0' <= #[trigger] d[i] <= '9'
}

/// The number that a string of decimal digits denotes.
pub open spec fn digits_value(d: Seq<char>) -> int
    decreases d.len(),
{
    if d.len() == 0 {
        0
    } else {
        digits_value(d.drop_last()) * 10 + (d.last() as int - '0' as int)
    }
}

/// The `u16` that `str::parse::<u16>` reads from `s`: an optional `+` followed
/// by at least one decimal digit, with a value that fits in 16 bits; `None`
/// for anything else (signs alone, other characters, surrounding whitespace,
/// overflow).
pub open spec fn parse_u16_text(s: Seq<char>) -> Option<u16> {
    let d = if s.len() > 0 && s[0] == '+' { s.drop_first() } else { s };
    if d.len() > 0 && all_digits(d) && digits_value(d) <= 65535 {
        Some(digits_value(d) as u16)
    } else {
        None
    }
}

proof fn lemma_digits_value_nonneg(d: Seq<char>)
    requires
        all_digits(d),
    ensures
        digits_value(d) >= 0,
    decreases d.len(),
{
    if d.len() > 0 {
        assert(all_digits(d.drop_last())) by {
            assert forall|i: int| 0 <= i < d.drop_last().len() implies '0' <= #[trigger] d.drop_last()[i] <= '9' by {
                assert(d.drop_last()[i] == d[i]);
            }
        }
        lemma_digits_value_nonneg(d.drop_last());
    }
}

/// Parse a decimal `u16` the way `str::parse::<u16>` does.
pub fn parse_u16(s: &str) -> (r: Option<u16>)
    ensures
        r == parse_u16_text(s@),
{
    let v = chars_of(s);
    let start: usize = if v.len() > 0 && v[0] == '+' { 1 } else { 0 };
    let ghost d = if v@.len() > 0 && v@[0] == '+' { v@.drop_first() } else { v@ };
    assert(d =~= v@.skip(start as int));
    if start >= v.len() {
        return None;
    }
    let mut value: u32 = 0;
    let mut i = start;
    while i < v.len()
        invariant
            start <= i <= v@.len(),
            d == v@.skip(start as int),
            v@ == s@,
            d == (if v@.len() > 0 && v@[0] == '+' { v@.drop_first() } else { v@ }),
            d.len() > 0,
            all_digits(d.take(i - start)),
            value as int == if digits_value(d.take(i - start)) < 65536 { digits_value(d.take(i - start)) } else { 65536 },
        decreases v.len() - i,
    {
        let c = v[i];
        if !('0' <= c && c <= '9') {
            assert(d[i - start] == c);
            assert(!all_digits(d)) by {
                assert(!('0' <= d[i - start] <= '9'));
            }
            return None;
        }
        let digit = (c as u32) - ('0' as u32);
        let ghost prev = d.take(i - start);
        assert(d.take(i + 1 - start).drop_last() =~= prev);
        assert(d.take(i + 1 - start).last() == c);
        proof {
            lemma_digits_value_nonneg(prev);
        }
        let next = value * 10 + digit;
        value = if next < 65536 { next } else { 65536 };
        i = i + 1;
        assert(all_digits(d.take(i - start))) by {
            assert forall|k: int| 0 <= k < d.take(i - start).len() implies '0' <= #[trigger] d.take(i - start)[k] <= '9' by {
                if k < prev.len() {
                    assert(d.take(i - start)[k] == prev[k]);
                }
            }
        }
    }
    assert(d.take(v@.len() - start) =~= d);
    if value <= 65535 {
        Some(value as u16)
    } else {
        None
    }
}

/// The port to bind: the configured value when it parses as a `u16`,
/// otherwise [`DEFAULT_HTTP_PORT`].
pub fn pick_port(raw: Option<String>) -> (r: u16)
    ensures
        r == (match raw {
            Some(s) => match parse_u16_text(s@) {
                Some(p) => p,
                None => DEFAULT_HTTP_PORT,
            },
            None => DEFAULT_HTTP_PORT,
        }),
{
    match raw {
        Some(s) => match parse_u16(s.as_str()) {
            Some(p) => p,
            None => DEFAULT_HTTP_PORT,
        },
        None => DEFAULT_HTTP_PORT,
    }
}

/// The directory of static frontend assets to serve: the configured value when
/// it is non-empty.
pub fn pick_static_dir(raw: Option<String>) -> (r: Option<String>)
    ensures
        match raw {
            Some(s) => if s@.len() > 0 { r == Some(s) } else { r is None },
            None => r is None,
        },
{
    match raw {
        Some(s) => if s.as_str().is_empty() {
            None
        } else {
            Some(s)
        },
        None => None,
    }
}

} // verus!
