//! Normalisation of the requested row limit.

use vstd::prelude::*;

verus! {

/// The limit used when the request carries none, or one that is no integer.
pub const DEFAULT_LIMIT: i32 = 100;

/// The largest limit that is ever handed on.
pub const MAX_LIMIT: i32 = 1000;

/// The limit that a request is served with, given what its parameter parsed to:
/// the default where nothing parsed, and never more than the ceiling. Small
/// values, zero and negative ones included, pass unchanged.
pub open spec fn normalized(parsed: Option<i32>) -> i32 {
    match parsed {
        Some(n) => if n > MAX_LIMIT { MAX_LIMIT } else { n },
        None => DEFAULT_LIMIT,
    }
}

/// Applies the default and the ceiling to a parsed limit.
pub fn normalize_parsed(parsed: Option<i32>) -> (limit: i32)
    ensures
        limit == normalized(parsed),
        limit <= MAX_LIMIT,
        parsed.is_none() ==> limit == DEFAULT_LIMIT,
{
    match parsed {
        Some(n) => if n > MAX_LIMIT { MAX_LIMIT } else { n },
        None => DEFAULT_LIMIT,
    }
}

/// Whether a character is one of the ten decimal digits.
pub open spec fn is_digit(c: char) -> bool {
    c == '0' || c == '1' || c == '2' || c == '3' || c == '4' || c == '5' || c == '6' || c == '7'
        || c == '8' || c == '9'
}

/// The value of a decimal digit.
pub open spec fn digit_value(c: char) -> nat {
    if c == '1' {
        1
    } else if c == '2' {
        2
    } else if c == '3' {
        3
    } else if c == '4' {
        4
    } else if c == '5' {
        5
    } else if c == '6' {
        6
    } else if c == '7' {
        7
    } else if c == '8' {
        8
    } else if c == '9' {
        9
    } else {
        0
    }
}

/// The number that a run of decimal digits stands for, most significant
/// digit first.
pub open spec fn digits_value(digits: Seq<char>) -> nat
    decreases digits.len(),
{
    if digits.len() == 0 {
        0
    } else {
        10 * digits_value(digits.drop_last()) + digit_value(digits.last())
    }
}

/// Whether a text has a sign in front.
pub open spec fn has_sign(text: Seq<char>) -> bool {
    text.len() > 0 && (text[0] == '-' || text[0] == '+')
}

/// A text without its sign, where it has one.
pub open spec fn unsigned_part(text: Seq<char>) -> Seq<char> {
    if has_sign(text) {
        text.skip(1)
    } else {
        text
    }
}

/// The integer that a text stands for: the digits' number, negated behind a
/// minus sign.
pub open spec fn text_value(text: Seq<char>) -> int {
    if has_sign(text) && text[0] == '-' {
        -digits_value(unsigned_part(text))
    } else {
        digits_value(unsigned_part(text)) as int
    }
}

/// Whether a text is a decimal integer: an optional sign, then one digit or
/// more and nothing else.
pub open spec fn is_integer_text(text: Seq<char>) -> bool {
    unsigned_part(text).len() > 0 && forall|i: int|
        0 <= i < unsigned_part(text).len() ==> is_digit(#[trigger] unsigned_part(text)[i])
}

/// What a limit parameter parses to: the integer that the text stands for,
/// where it is a decimal integer within the range of `i32`; nothing otherwise.
pub open spec fn parsed_i32(text: Seq<char>) -> Option<i32> {
    if is_integer_text(text) && i32::MIN <= text_value(text) <= i32::MAX {
        Some(text_value(text) as i32)
    } else {
        None
    }
}

/// `str::parse::<i32>`, with its error dropped. Trusted: std reads an optional
/// `+` or `-` followed by decimal digits only, at least one, and reports an
/// error for every other text, the empty one and a lone sign included, and
/// for a number outside the range of `i32`.
#[verifier::external_body]
fn parse_i32(text: &str) -> (parsed: Option<i32>)
    ensures
        parsed == parsed_i32(text@),
{
    match text.parse::<i32>() {
        Ok(n) => Some(n),
        Err(_) => None,
    }
}

/// The characters of a request's limit parameter, where it has one.
pub open spec fn param_text(param: Option<&str>) -> Option<Seq<char>> {
    match param {
        Some(text) => Some(text@),
        None => None,
    }
}

/// What the limit parameter of a request parses to: nothing where the
/// parameter is absent or is no integer.
pub open spec fn parsed_param(param: Option<Seq<char>>) -> Option<i32> {
    match param {
        Some(text) => parsed_i32(text),
        None => None,
    }
}

/// The limit that a request with this limit parameter is served with.
/// A parameter that is absent or does not parse gives the default and no
/// error; no result is above the ceiling.
pub fn normalize(param: Option<&str>) -> (limit: i32)
    ensures
        limit == normalized(parsed_param(param_text(param))),
        limit <= MAX_LIMIT,
        parsed_param(param_text(param)).is_none() ==> limit == DEFAULT_LIMIT,
{
    let parsed = match param {
        Some(text) => parse_i32(text),
        None => None,
    };
    normalize_parsed(parsed)
}

} // verus!
