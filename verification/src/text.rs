//! The words of a length failure.

use vstd::prelude::*;
use vstd::string::*;

verus! {

/// The decimal digit `d`, for `d < 10`.
pub open spec fn digit(d: nat) -> Seq<char> {
    if d == 0 {
        "0"@
    } else if d == 1 {
        "1"@
    } else if d == 2 {
        "2"@
    } else if d == 3 {
        "3"@
    } else if d == 4 {
        "4"@
    } else if d == 5 {
        "5"@
    } else if d == 6 {
        "6"@
    } else if d == 7 {
        "7"@
    } else if d == 8 {
        "8"@
    } else {
        "9"@
    }
}

/// `n` in decimal digits, without leading zeros.
pub open spec fn decimal(n: nat) -> Seq<char>
    decreases n,
{
    if n < 10 {
        digit(n)
    } else {
        decimal(n / 10) + digit(n % 10)
    }
}

/// What a decode expects: an array of `n` elements.
pub open spec fn expecting_text(n: nat) -> Seq<char> {
    "an array of size "@ + decimal(n)
}

/// What a length failure says: the count that was found, then what was
/// expected.
pub open spec fn invalid_length_text(filled: nat, expected: Seq<char>) -> Seq<char> {
    "invalid length "@ + decimal(filled) + ", expected "@ + expected
}

fn digit_str(d: usize) -> (r: &'static str)
    requires
        d < 10,
    ensures
        r@ == digit(d as nat),
{
    if d == 0 {
        "0"
    } else if d == 1 {
        "1"
    } else if d == 2 {
        "2"
    } else if d == 3 {
        "3"
    } else if d == 4 {
        "4"
    } else if d == 5 {
        "5"
    } else if d == 6 {
        "6"
    } else if d == 7 {
        "7"
    } else if d == 8 {
        "8"
    } else {
        "9"
    }
}

/// Writes `n` in decimal digits.
pub fn to_decimal(n: usize) -> (r: String)
    ensures
        r@ == decimal(n as nat),
    decreases n,
{
    if n < 10 {
        String::from_str(digit_str(n))
    } else {
        to_decimal(n / 10).concat(digit_str(n % 10))
    }
}

/// Says what a decode into `n` slots expects.
pub fn expecting(n: usize) -> (r: String)
    ensures
        r@ == expecting_text(n as nat),
{
    let size = to_decimal(n);
    String::from_str("an array of size ").concat(size.as_str())
}

/// The framework's words for a sequence of the wrong length.
///
/// This is `serde::de::Error::invalid_length` on `serde::de::value::Error`,
/// and the text which that error displays: the words "invalid length", the
/// count in decimal digits, a comma, the word "expected", and `expected` as
/// it was given.
#[verifier::external_body]
pub(crate) fn invalid_length(filled: usize, expected: &str) -> (r: String)
    ensures
        r@ == invalid_length_text(filled as nat, expected@),
{
    let error: serde::de::value::Error = serde::de::Error::invalid_length(filled, &expected);
    error.to_string()
}

} // verus!
