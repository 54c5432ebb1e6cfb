//! Arbitrary-precision integers, which `num_bigint` provides.
use vstd::prelude::*;
use core::str::FromStr;
use num_bigint::BigInt;
use num_bigint::ParseBigIntError;

verus! {

/// `num_bigint::BigInt`, carried through unopened.
#[verifier::external_type_specification]
#[verifier::external_body]
pub struct ExBigInt(BigInt);

/// `num_bigint::ParseBigIntError`, carried through unopened.
#[verifier::external_type_specification]
#[verifier::external_body]
pub struct ExParseBigIntError(ParseBigIntError);

/// The integer that `<BigInt as FromStr>::from_str` makes of `text`.
pub uninterp spec fn decimal_bigint(text: Seq<char>) -> BigInt;

/// A non-empty text of ASCII decimal digits.
pub open spec fn is_decimal_text(text: Seq<char>) -> bool {
    &&& text.len() > 0
    &&& forall|i: int| 0 <= i < text.len() ==> '0' <= #[trigger] text[i] <= '9'
}

/// Calls `<BigInt as FromStr>::from_str`. Two things are taken from its
/// source without proof: that a text made of decimal digits alone, one at
/// least, is always accepted, and that what comes back depends on the text
/// and on nothing else. Of other texts nothing is claimed.
#[verifier::external_body]
pub(crate) fn bigint_from_decimal(text: &str) -> (r: Result<BigInt, ParseBigIntError>)
    ensures
        is_decimal_text(text@) ==> r is Ok,
        r matches Ok(n) ==> n == decimal_bigint(text@),
{
    BigInt::from_str(text)
}

} // verus!
