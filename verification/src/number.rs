//! Numbers in decimal text: runs of digits that name a `usize`, and the
//! literals of floating-point numbers.
use vstd::prelude::*;
use crate::text::is_ascii_bytes;
use crate::utils::{is_digit, lemma_run_len_is, run_len, Content};

verus! {

/// The number that a run of ASCII decimal digits writes, most significant
/// digit first.
pub open spec fn decimal_value(digits: Seq<u8>) -> nat
    decreases digits.len(),
{
    if digits.len() == 0 {
        0
    } else {
        decimal_value(digits.drop_last()) * 10 + (digits.last() - 48) as nat
    }
}

/// Every byte is an ASCII decimal digit.
pub open spec fn all_digits(digits: Seq<u8>) -> bool {
    forall|i: int| 0 <= i < digits.len() ==> is_digit(#[trigger] digits[i])
}

/// Appending digits never makes the number smaller.
pub proof fn lemma_decimal_value_grows(digits: Seq<u8>, i: int, j: int)
    requires
        0 <= i <= j <= digits.len(),
    ensures
        decimal_value(digits.take(i)) <= decimal_value(digits.take(j)),
    decreases j - i,
{
    if i < j {
        lemma_decimal_value_grows(digits, i, j - 1);
        assert(digits.take(j).drop_last() =~= digits.take(j - 1));
    }
}

/// What a text of decimal digits says as a `usize`: nothing where the
/// text is empty, holds another byte, or names a number that does not fit.
pub open spec fn decimal_usize(digits: Seq<u8>) -> Option<usize> {
    if digits.len() > 0 && all_digits(digits) && decimal_value(digits) <= usize::MAX {
        Some(decimal_value(digits) as usize)
    } else {
        None
    }
}

/// Converts a text of decimal digits to a `usize`.
pub fn decimal_to_usize(digits: &[u8]) -> (r: Option<usize>)
    ensures
        r == decimal_usize(digits@),
{
    if digits.len() == 0 {
        return None;
    }
    let mut acc: usize = 0;
    let mut i: usize = 0;
    assert(digits@.take(0) =~= Seq::<u8>::empty());
    while i < digits.len()
        invariant
            i <= digits@.len(),
            all_digits(digits@.take(i as int)),
            acc == decimal_value(digits@.take(i as int)),
        decreases digits@.len() - i,
    {
        let byte = digits[i];
        if byte < 48 || byte > 57 {
            return None;
        }
        let digit: usize = (byte - 48) as usize;
        proof {
            assert(digits@.take(i + 1).drop_last() =~= digits@.take(i as int));
            assert(digits@.take(i + 1).last() == digits@[i as int]);
            assert(all_digits(digits@.take(i + 1))) by {
                assert forall|k: int| 0 <= k < i + 1 implies is_digit(
                    #[trigger] digits@.take(i + 1)[k],
                ) by {
                    if k < i {
                        assert(digits@.take(i + 1)[k] == digits@.take(i as int)[k]);
                    }
                }
            }
            lemma_decimal_value_grows(digits@, i + 1, digits@.len() as int);
            assert(digits@.take(digits@.len() as int) =~= digits@);
        }
        match acc.checked_mul(10) {
            None => {
                return None;
            },
            Some(shifted) => match shifted.checked_add(digit) {
                None => {
                    return None;
                },
                Some(next) => {
                    acc = next;
                },
            },
        }
        i += 1;
    }
    assert(digits@.take(digits@.len() as int) =~= digits@);
    Some(acc)
}

/// The byte `+`.
pub const PLUS: u8 = 43;

/// The byte `-`.
pub const MINUS: u8 = 45;

/// The byte `.`.
pub const DOT: u8 = 46;

/// A sign takes one byte where there is one at `at`, and none otherwise.
pub open spec fn sign_len(s: Seq<u8>, at: int) -> int {
    if 0 <= at < s.len() && (s[at] == PLUS || s[at] == MINUS) {
        1
    } else {
        0
    }
}

/// Where the digits that start at `at` end.
pub open spec fn digits_end(s: Seq<u8>, at: int) -> int {
    if 0 <= at <= s.len() {
        at + run_len(s.skip(at), Content::Digits)
    } else {
        at
    }
}

/// Where the mantissa that starts at `from` ends: digits with an optional
/// point and optional further digits, or a point and digits. `None` where
/// neither form stands at `from`.
pub open spec fn mantissa_end(s: Seq<u8>, from: int) -> Option<int> {
    let whole = digits_end(s, from);
    if whole > from {
        if whole < s.len() && s[whole] == DOT {
            Some(digits_end(s, whole + 1))
        } else {
            Some(whole)
        }
    } else if 0 <= from < s.len() && s[from] == DOT && digits_end(s, from + 1) > from + 1 {
        Some(digits_end(s, from + 1))
    } else {
        None
    }
}

/// Where the exponent that starts at `from` ends: `e` or `E`, an optional
/// sign, and at least one digit. `None` where no exponent stands at `from`.
pub open spec fn exponent_end(s: Seq<u8>, from: int) -> Option<int> {
    if 0 <= from < s.len() && (s[from] == 101 || s[from] == 69) {
        let digits = from + 1 + sign_len(s, from + 1);
        if digits_end(s, digits) > digits {
            Some(digits_end(s, digits))
        } else {
            None
        }
    } else {
        None
    }
}

/// `s` is, from its first byte to its last, a decimal floating-point
/// literal: an optional sign, a mantissa, an optional exponent.
pub open spec fn is_float_literal(s: Seq<u8>) -> bool {
    match mantissa_end(s, sign_len(s, 0)) {
        None => false,
        Some(m) => m == s.len() || exponent_end(s, m) == Some(s.len() as int),
    }
}

fn skip_sign(s: &[u8], at: usize) -> (r: usize)
    requires
        at <= s@.len(),
    ensures
        r == at + sign_len(s@, at as int),
        r <= s@.len(),
{
    if at < s.len() && (s[at] == PLUS || s[at] == MINUS) {
        at + 1
    } else {
        at
    }
}

fn skip_digits(s: &[u8], at: usize) -> (r: usize)
    requires
        at <= s@.len(),
    ensures
        r == digits_end(s@, at as int),
        at <= r <= s@.len(),
        forall|i: int| at <= i < r ==> is_digit(#[trigger] s@[i]),
{
    let mut end: usize = at;
    while end < s.len() && 48 <= s[end] && s[end] <= 57
        invariant
            at <= end <= s@.len(),
            forall|i: int| at <= i < end ==> is_digit(#[trigger] s@[i]),
        decreases s@.len() - end,
    {
        end += 1;
    }
    proof {
        let tail = s@.skip(at as int);
        assert forall|i: int| 0 <= i < end - at implies Content::Digits.admits(
            #[trigger] tail[i],
        ) by {
            assert(tail[i] == s@[at + i]);
        }
        lemma_run_len_is(tail, Content::Digits, (end - at) as nat);
    }
    end
}

fn skip_mantissa(s: &[u8], from: usize) -> (r: Option<usize>)
    requires
        from <= s@.len(),
    ensures
        match mantissa_end(s@, from as int) {
            Some(end) => r == Some(end as usize) && from < end <= s@.len(),
            None => r.is_none(),
        },
        r matches Some(end) ==> forall|i: int| from <= i < end ==> #[trigger] s@[i] < 128,
{
    let whole = skip_digits(s, from);
    if whole > from {
        if whole < s.len() && s[whole] == DOT {
            Some(skip_digits(s, whole + 1))
        } else {
            Some(whole)
        }
    } else if from < s.len() && s[from] == DOT {
        let fraction = skip_digits(s, from + 1);
        if fraction > from + 1 {
            Some(fraction)
        } else {
            None
        }
    } else {
        None
    }
}

fn skip_exponent(s: &[u8], from: usize) -> (r: Option<usize>)
    requires
        from <= s@.len(),
    ensures
        match exponent_end(s@, from as int) {
            Some(end) => r == Some(end as usize) && from < end <= s@.len(),
            None => r.is_none(),
        },
        r matches Some(end) ==> forall|i: int| from <= i < end ==> #[trigger] s@[i] < 128,
{
    if from < s.len() && (s[from] == 101 || s[from] == 69) {
        let digits = skip_sign(s, from + 1);
        let end = skip_digits(s, digits);
        if end > digits {
            Some(end)
        } else {
            None
        }
    } else {
        None
    }
}

/// Tells whether `s` is a decimal floating-point literal.
pub fn check_float_literal(s: &[u8]) -> (r: bool)
    ensures
        r == is_float_literal(s@),
        r ==> is_ascii_bytes(s@),
{
    let start = skip_sign(s, 0);
    match skip_mantissa(s, start) {
        None => false,
        Some(m) => {
            if m == s.len() {
                true
            } else {
                match skip_exponent(s, m) {
                    None => false,
                    Some(end) => end == s.len(),
                }
            }
        },
    }
}

} // verus!
