//! Errors of the small-value proving helpers, and the text they carry.

use vstd::prelude::*;

verus! {

/// Errors reported by the small-value proving helpers.
#[derive(Debug, Clone, PartialEq, Eq)]
pub enum SpartanError {
    /// A slice or table did not have the length the operation needs.
    InvalidInputLength { reason: String },
    /// A small value exceeded the bound certified for native arithmetic.
    SmallValueOverflow { value: String, context: String },
    /// An element that had to be inverted was zero.
    DivisionByZero,
    /// State carried between proving phases is inconsistent.
    InternalError { reason: String },
}

/// The character of a decimal digit.
pub open spec fn digit_char(d: nat) -> char {
    if d == 0 {
        '0'
    } else if d == 1 {
        '1'
    } else if d == 2 {
        '2'
    } else if d == 3 {
        '3'
    } else if d == 4 {
        '4'
    } else if d == 5 {
        '5'
    } else if d == 6 {
        '6'
    } else if d == 7 {
        '7'
    } else if d == 8 {
        '8'
    } else {
        '9'
    }
}

/// Decimal digits of a natural number, most significant first, no leading zeros.
pub open spec fn decimal_digits(n: nat) -> Seq<char>
    decreases n,
{
    if n < 10 {
        seq![digit_char(n)]
    } else {
        decimal_digits(n / 10).push(digit_char(n % 10))
    }
}

/// Decimal text of an integer, with a leading `-` for negative numbers.
pub open spec fn decimal_text(v: int) -> Seq<char> {
    if v < 0 {
        seq!['-'] + decimal_digits((-v) as nat)
    } else {
        decimal_digits(v as nat)
    }
}

/// `i128::to_string` (its `Display`): the decimal text of `v`.
#[verifier::external_body]
pub(crate) fn i128_to_decimal(v: i128) -> (r: String)
    ensures
        r@ == decimal_text(v as int),
{
    v.to_string()
}

/// `usize::to_string` (its `Display`): the decimal text of `v`.
#[verifier::external_body]
pub(crate) fn usize_to_decimal(v: usize) -> (r: String)
    ensures
        r@ == decimal_text(v as int),
{
    v.to_string()
}

/// The concatenation of two strings.
pub(crate) fn concat(a: &str, b: &str) -> (r: String)
    ensures
        r@ == a@ + b@,
{
    let mut s = a.to_owned();
    s.append(b);
    s
}

/// An `InvalidInputLength` error with the given reason.
pub fn invalid_input(reason: &str) -> (r: SpartanError)
    ensures
        r matches SpartanError::InvalidInputLength { reason: t } && t@ == reason@,
{
    SpartanError::InvalidInputLength { reason: reason.to_owned() }
}

/// Whether `e` is an `InvalidInputLength` error with the given reason.
pub open spec fn is_invalid_input(e: SpartanError, reason: Seq<char>) -> bool {
    e matches SpartanError::InvalidInputLength { reason: t } && t@ == reason
}

/// Whether `r` failed with an `InvalidInputLength` error with the given reason.
pub open spec fn fails_with<T>(r: Result<T, SpartanError>, reason: Seq<char>) -> bool {
    match r {
        Err(e) => is_invalid_input(e, reason),
        Ok(_) => false,
    }
}

/// Whether `r` failed with an `InternalError` with the given reason.
pub open spec fn fails_internally_with<T>(r: Result<T, SpartanError>, reason: Seq<char>) -> bool {
    r matches Err(SpartanError::InternalError { reason: t }) && t@ == reason
}

/// An `InvalidInputLength` error with an owned reason.
pub fn invalid_input_owned(reason: String) -> (r: SpartanError)
    ensures
        is_invalid_input(r, reason@),
{
    SpartanError::InvalidInputLength { reason }
}

/// `a + decimal(n) + b` as a string.
pub fn text_with_number(a: &str, n: usize, b: &str) -> (r: String)
    ensures
        r@ == a@ + decimal_text(n as int) + b@,
{
    let d = usize_to_decimal(n);
    let s = concat(a, d.as_str());
    concat(s.as_str(), b)
}

/// `a + decimal(n) + b + decimal(m) + c` as a string.
pub fn text_with_two_numbers(a: &str, n: usize, b: &str, m: usize, c: &str) -> (r: String)
    ensures
        r@ == a@ + decimal_text(n as int) + b@ + decimal_text(m as int) + c@,
{
    let s = text_with_number(a, n, b);
    let d = usize_to_decimal(m);
    let s = concat(s.as_str(), d.as_str());
    concat(s.as_str(), c)
}

} // verus!
