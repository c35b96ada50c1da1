//! Transaction identifiers: 128-bit values written as UUID text.
//!
//! Reading, writing and drawing identifiers is the work of the `uuid` crate.
//! The three functions that call it are believed, not proved; everything else
//! in the crate reasons from what is stated of them here.

use vstd::prelude::*;
use vstd::arithmetic::power::pow;

verus! {

/// The 128-bit value that `uuid::Uuid::parse_str` reads from a text, or
/// `None` where it rejects the text.
pub uninterp spec fn parsed_uuid(text: Seq<char>) -> Option<u128>;

/// The lower-case hexadecimal digit for a value below sixteen.
pub open spec fn hex_digit(value: int) -> char {
    "0123456789abcdef"@[value]
}

/// The `k`-th hexadecimal digit of `key`, counted from the most significant
/// (`k` from 0 to 31).
pub open spec fn nibble(key: u128, k: int) -> int {
    (key as int / pow(16, (31 - k) as nat)) % 16
}

/// The canonical text of an identifier: 32 lower-case hexadecimal digits, most
/// significant first, in groups of 8, 4, 4, 4 and 12 separated by hyphens.
pub open spec fn hyphenated(key: u128) -> Seq<char> {
    Seq::new(
        36,
        |i: int|
            if i == 8 || i == 13 || i == 18 || i == 23 {
                '-'
            } else if i < 8 {
                hex_digit(nibble(key, i))
            } else if i < 13 {
                hex_digit(nibble(key, i - 1))
            } else if i < 18 {
                hex_digit(nibble(key, i - 2))
            } else if i < 23 {
                hex_digit(nibble(key, i - 3))
            } else {
                hex_digit(nibble(key, i - 4))
            },
    )
}

/// Whether a text is accepted as an identifier.
pub open spec fn well_formed_id(text: Seq<char>) -> bool {
    parsed_uuid(text).is_some()
}

/// Calls `uuid::Uuid::parse_str` and hands back the parsed value as an
/// integer (`Uuid::as_u128`), or `None` where the text is rejected. Believed:
/// the answer depends on the text alone.
#[verifier::external_body]
pub(crate) fn parse_id(text: &str) -> (key: Option<u128>)
    ensures
        key == parsed_uuid(text@),
{
    match uuid::Uuid::parse_str(text) {
        Ok(id) => Some(id.as_u128()),
        Err(_) => None,
    }
}

/// Writes an identifier with `uuid::Uuid`'s `Display` (through
/// `Uuid::from_u128` and `to_string`). Believed: the text is the hyphenated
/// lower-case form, and `parse_str` reads the same value back from it.
#[verifier::external_body]
pub(crate) fn canonical_text(key: u128) -> (text: String)
    ensures
        text@ == hyphenated(key),
        parsed_uuid(text@) == Some(key),
{
    uuid::Uuid::from_u128(key).to_string()
}

/// Draws a random identifier with `uuid::Uuid::new_v4`. Nothing is claimed of
/// the value: two calls may return anything. `new_v4` panics where the
/// system's source of randomness fails; like running out of memory, that is
/// beyond what a caller can rule out.
#[verifier::external_body]
pub(crate) fn random_key() -> (key: u128)
{
    uuid::Uuid::new_v4().as_u128()
}

/// Whether a text is accepted as an identifier, decided by reading it.
pub fn is_well_formed_id(text: &str) -> (ok: bool)
    ensures
        ok == well_formed_id(text@),
{
    parse_id(text).is_some()
}

/// The canonical spelling of an identifier text: the same value, written in
/// hyphenated lower case. `None` exactly where the text is no identifier.
pub fn canonical_id(text: &str) -> (canonical: Option<String>)
    ensures
        canonical.is_some() == well_formed_id(text@),
        canonical.is_some() ==> {
            &&& canonical.unwrap()@ == hyphenated(parsed_uuid(text@).unwrap())
            &&& parsed_uuid(canonical.unwrap()@) == parsed_uuid(text@)
        },
{
    match parse_id(text) {
        Some(key) => Some(canonical_text(key)),
        None => None,
    }
}

/// A fresh identifier in canonical spelling. Which one is left open; that it
/// is well formed is not.
pub fn fresh_id() -> (id: String)
    ensures
        well_formed_id(id@),
        id@.len() == 36,
{
    let key = random_key();
    canonical_text(key)
}

} // verus!
