//! Reading request parameters: the `limit` of a listing and the endpoint
//! named in a page address.

use vstd::prelude::*;
use vstd::string::*;
use crate::log::{ListFilter, DEFAULT_LIMIT};
use crate::text::text_of;

verus! {

/// Whether a character is a decimal digit.
pub open spec fn is_digit(c: char) -> bool {
    '0' <= c && c <= '9'
}

/// The value of a decimal digit.
pub open spec fn digit_value(c: char) -> nat {
    (c as int - '0' as int) as nat
}

/// The number that a sequence of decimal digits writes; zero for none.
pub open spec fn number(digits: Seq<char>) -> nat
    decreases digits.len(),
{
    if digits.len() == 0 {
        0
    } else {
        number(digits.drop_last()) * 10 + digit_value(digits.last())
    }
}

/// Whether every character is a decimal digit.
pub open spec fn all_digits(text: Seq<char>) -> bool {
    forall|i: int| 0 <= i < text.len() ==> is_digit(#[trigger] text[i])
}

/// The text without a leading plus sign.
pub open spec fn unsigned_part(text: Seq<char>) -> Seq<char> {
    if text.len() > 0 && text[0] == '+' {
        text.drop_first()
    } else {
        text
    }
}

/// The limit that a parameter text writes: one or more decimal digits, with
/// or without a plus sign before them, whose number fits in 32 bits.
pub open spec fn written_limit(text: Seq<char>) -> Option<u32> {
    let digits = unsigned_part(text);
    if digits.len() > 0 && all_digits(digits) && number(digits) <= u32::MAX {
        Some(number(digits) as u32)
    } else {
        None
    }
}

/// The limit of a listing: what the parameter writes, or the default where
/// it is missing or writes no limit.
pub open spec fn limit_of(parameter: Option<Seq<char>>) -> u32 {
    match parameter {
        Some(text) => match written_limit(text) {
            Some(limit) => limit,
            None => DEFAULT_LIMIT,
        },
        None => DEFAULT_LIMIT,
    }
}

/// A number is at least the number of any prefix of its digits.
proof fn lemma_number_grows(digits: Seq<char>, n: int)
    requires
        0 <= n <= digits.len(),
    ensures
        number(digits.take(n)) <= number(digits),
    decreases digits.len(),
{
    if n == digits.len() {
        assert(digits.take(n) =~= digits);
    } else {
        assert(digits.drop_last().take(n) =~= digits.take(n));
        lemma_number_grows(digits.drop_last(), n);
        assert(number(digits.drop_last()) <= number(digits.drop_last()) * 10) by (nonlinear_arith);
    }
}

/// Reads a limit. `None` where the text writes none.
pub fn parse_limit(text: &str) -> (limit: Option<u32>)
    ensures
        limit == written_limit(text@),
{
    let len = text.unicode_len();
    let start: usize = if len > 0 && text.get_char(0) == '+' {
        1
    } else {
        0
    };
    if start == len {
        return None;
    }
    let ghost digits = unsigned_part(text@);
    let mut value: u64 = 0;
    let mut i: usize = start;
    proof {
        assert(digits =~= text@.skip(start as int));
        assert(digits.take(0) =~= Seq::<char>::empty());
    }
    while i < len
        invariant
            start <= i <= len,
            len == text@.len(),
            digits == text@.skip(start as int),
            digits == unsigned_part(text@),
            all_digits(digits.take(i - start)),
            value == number(digits.take(i - start)),
            value <= u32::MAX,
        decreases len - i,
    {
        let c = text.get_char(i);
        let ghost seen = digits.take(i - start);
        proof {
            assert(digits[i - start] == c);
            assert(digits.take(i + 1 - start) =~= seen.push(c));
            assert(seen.push(c).drop_last() =~= seen);
        }
        if !(c >= '0' && c <= '9') {
            return None;
        }
        let digit: u64 = (c as u32 - '0' as u32) as u64;
        value = value * 10 + digit;
        if value > u32::MAX as u64 {
            proof {
                lemma_number_grows(digits, i + 1 - start);
            }
            return None;
        }
        proof {
            assert forall|k: int| 0 <= k < i + 1 - start implies is_digit(
                #[trigger] digits.take(i + 1 - start)[k],
            ) by {
                if k < i - start {
                    assert(seen[k] == digits.take(i + 1 - start)[k]);
                }
            }
        }
        i = i + 1;
    }
    proof {
        assert(digits.take(len - start) =~= digits);
    }
    Some(value as u32)
}

/// The endpoint on whose behalf a page runs when its address names none.
pub open spec fn default_endpoint() -> Seq<char> {
    "endpoint-1"@
}

/// The endpoint that the query part of a page address names: what follows
/// `?id=`, or the default where the query does not begin so.
pub open spec fn endpoint_in(search: Seq<char>) -> Seq<char> {
    if search.len() >= 4 && search.take(4) == "?id="@ {
        search.skip(4)
    } else {
        default_endpoint()
    }
}

/// Reads the endpoint off the query part of a page address.
pub fn endpoint_from_search(search: &str) -> (endpoint: String)
    ensures
        endpoint@ == endpoint_in(search@),
{
    let len = search.unicode_len();
    proof {
        reveal_strlit("?id=");
    }
    if len >= 4 && search.get_char(0) == '?' && search.get_char(1) == 'i' && search.get_char(2)
        == 'd' && search.get_char(3) == '=' {
        proof {
            assert(search@.take(4) =~= "?id="@);
            assert(search@.skip(4) =~= search@.subrange(4, len as int));
        }
        String::from_str(search.substring_char(4, len))
    } else {
        proof {
            if search@.len() >= 4 && search@.take(4) == "?id="@ {
                assert(search@.take(4)[0] == '?');
                assert(search@.take(4)[1] == 'i');
                assert(search@.take(4)[2] == 'd');
                assert(search@.take(4)[3] == '=');
            }
        }
        String::from_str("endpoint-1")
    }
}

impl ListFilter {
    /// The filter of a listing request: the endpoint it names, if any, and
    /// the limit it writes, or the default.
    pub fn from_query(endpoint: Option<String>, limit: Option<&str>) -> (filter: ListFilter)
        ensures
            text_of(filter.endpoint) == text_of(endpoint),
            filter.limit == limit_of(
                match limit {
                    Some(text) => Some(text@),
                    None => None,
                },
            ),
    {
        let limit = match limit {
            Some(text) => match parse_limit(text) {
                Some(limit) => limit,
                None => DEFAULT_LIMIT,
            },
            None => DEFAULT_LIMIT,
        };
        ListFilter { endpoint, limit }
    }
}

} // verus!
