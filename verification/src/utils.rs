//! The fields that both formats are made of.
//!
//! A field is read from the start of a byte sequence. It yields a value and
//! the number of bytes it spans, or it fails: as incomplete where the
//! sequence ends too early, as malformed where a byte contradicts the
//! grammar. The spec functions say which; the executable functions are
//! proved to agree with them.
use vstd::prelude::*;
use vstd::slice::slice_subrange;
use vstd::string::StringSliceAdditionalSpecFns;
use vstd::utf8::{decode_utf8, valid_utf8};
use crate::failure::{agrees, DecodeFailure, Outcome};
use crate::number::{check_float_literal, decimal_to_usize, decimal_usize, is_float_literal};
use crate::text::{as_text, lemma_ascii_is_utf8};

verus! {

/// Carriage return, the first byte of the line terminator.
pub const CR: u8 = 13;

/// Line feed, the second byte of the line terminator.
pub const LF: u8 = 10;

/// ASCII decimal digit.
pub open spec fn is_digit(b: u8) -> bool {
    48 <= b <= 57
}

/// The class of bytes that a field holds between its prefix and its
/// terminator.
#[derive(Debug, Clone, Copy, PartialEq, Eq, Structural)]
pub enum Content {
    /// Anything but a carriage return or a line feed.
    Line,
    /// ASCII decimal digits.
    Digits,
}

impl Content {
    pub open spec fn admits(self, b: u8) -> bool {
        match self {
            Content::Line => b != CR && b != LF,
            Content::Digits => is_digit(b),
        }
    }

    pub fn accepts(self, b: u8) -> (r: bool)
        ensures
            r == self.admits(b),
    {
        match self {
            Content::Line => b != CR && b != LF,
            Content::Digits => 48 <= b && b <= 57,
        }
    }
}

/// Length of the longest prefix of `s` whose bytes `content` admits.
pub open spec fn run_len(s: Seq<u8>, content: Content) -> nat
    decreases s.len(),
{
    if s.len() > 0 && content.admits(s[0]) {
        1 + run_len(s.skip(1), content)
    } else {
        0
    }
}

/// A run is pinned down by its end: `n` bytes that are admitted, followed
/// by the end of `s` or by a byte that is not.
pub proof fn lemma_run_len_is(s: Seq<u8>, content: Content, n: nat)
    requires
        n <= s.len(),
        forall|i: int| 0 <= i < n ==> content.admits(#[trigger] s[i]),
        n < s.len() ==> !content.admits(s[n as int]),
    ensures
        run_len(s, content) == n,
    decreases n,
{
    if n > 0 {
        let t = s.skip(1);
        assert forall|i: int| 0 <= i < n - 1 implies content.admits(#[trigger] t[i]) by {
            assert(t[i] == s[i + 1]);
        }
        lemma_run_len_is(t, content, (n - 1) as nat);
    }
}

/// The converse: what holds of the run that `run_len` measures.
pub proof fn lemma_run_len_bounds(s: Seq<u8>, content: Content)
    ensures
        run_len(s, content) <= s.len(),
        forall|i: int| 0 <= i < run_len(s, content) ==> content.admits(#[trigger] s[i]),
        run_len(s, content) < s.len() ==> !content.admits(s[run_len(s, content) as int]),
    decreases s.len(),
{
    if s.len() > 0 && content.admits(s[0]) {
        let t = s.skip(1);
        lemma_run_len_bounds(t, content);
        assert forall|i: int| 0 <= i < run_len(s, content) implies content.admits(
            #[trigger] s[i],
        ) by {
            if i > 0 {
                assert(s[i] == t[i - 1]);
            }
        }
    }
}

/// The first byte of a field, read as a character, is its prefix.
pub open spec fn has_prefix(s: Seq<u8>, prefix: char) -> bool {
    s.len() > 0 && s[0] as char == prefix
}

/// Looks for the two-byte terminator at `at`: a byte that differs from it is
/// malformed as soon as it is seen, a terminator cut short is incomplete.
pub open spec fn terminator_at(s: Seq<u8>, at: int) -> Result<(), DecodeFailure> {
    if at >= s.len() {
        Err(DecodeFailure::Incomplete)
    } else if s[at] != CR {
        Err(DecodeFailure::Malformed)
    } else if at + 1 >= s.len() {
        Err(DecodeFailure::Incomplete)
    } else if s[at + 1] != LF {
        Err(DecodeFailure::Malformed)
    } else {
        Ok(())
    }
}

/// The frame shared by every field without a declared length: the prefix,
/// a non-empty run of bytes of one class, the terminator. The value is the
/// run.
pub open spec fn read_field(s: Seq<u8>, prefix: char, content: Content) -> Outcome<Seq<u8>> {
    if s.len() == 0 {
        Err(DecodeFailure::Incomplete)
    } else if !has_prefix(s, prefix) {
        Err(DecodeFailure::Malformed)
    } else {
        let n = run_len(s.skip(1), content);
        if 1 + n == s.len() {
            Err(DecodeFailure::Incomplete)
        } else if n == 0 {
            Err(DecodeFailure::Malformed)
        } else {
            match terminator_at(s, 1 + n as int) {
                Err(failure) => Err(failure),
                Ok(()) => Ok((s.subrange(1, 1 + n as int), 1 + n + 2)),
            }
        }
    }
}

fn check_terminator(input: &[u8], at: usize) -> (r: Result<(), DecodeFailure>)
    requires
        at <= input@.len(),
    ensures
        r == terminator_at(input@, at as int),
{
    if at >= input.len() {
        Err(DecodeFailure::Incomplete)
    } else if input[at] != CR {
        Err(DecodeFailure::Malformed)
    } else if at + 1 >= input.len() {
        Err(DecodeFailure::Incomplete)
    } else if input[at + 1] != LF {
        Err(DecodeFailure::Malformed)
    } else {
        Ok(())
    }
}

/// Reads one field framed as [`read_field`] says and returns the run
/// between prefix and terminator, borrowed from `input`.
pub fn parse_field<'a>(input: &'a [u8], prefix: char, content: Content) -> (r: Result<
    (&'a [u8], &'a [u8]),
    DecodeFailure,
>)
    ensures
        agrees(r, input@, read_field(input@, prefix, content)),
{
    if input.len() == 0 {
        return Err(DecodeFailure::Incomplete);
    }
    if input[0] as char != prefix {
        return Err(DecodeFailure::Malformed);
    }
    let mut end: usize = 1;
    while end < input.len() && content.accepts(input[end])
        invariant
            1 <= end <= input@.len(),
            forall|i: int| 1 <= i < end ==> content.admits(#[trigger] input@[i]),
        decreases input@.len() - end,
    {
        end += 1;
    }
    proof {
        let tail = input@.skip(1);
        assert forall|i: int| 0 <= i < end - 1 implies content.admits(#[trigger] tail[i]) by {
            assert(tail[i] == input@[i + 1]);
        }
        lemma_run_len_is(tail, content, (end - 1) as nat);
    }
    if end == input.len() {
        return Err(DecodeFailure::Incomplete);
    }
    if end == 1 {
        return Err(DecodeFailure::Malformed);
    }
    match check_terminator(input, end) {
        Err(failure) => Err(failure),
        Ok(()) => {
            let run = slice_subrange(input, 1, end);
            let rest = slice_subrange(input, end + 2, input.len());
            Ok((rest, run))
        },
    }
}

/// A line of text: the frame of [`read_field`] around bytes that hold no
/// line break, which must be well-formed UTF-8.
pub open spec fn line_field(s: Seq<u8>, prefix: char) -> Outcome<Seq<char>> {
    match read_field(s, prefix, Content::Line) {
        Err(failure) => Err(failure),
        Ok((run, used)) => if valid_utf8(run) {
            Ok((decode_utf8(run), used))
        } else {
            Err(DecodeFailure::Malformed)
        },
    }
}

/// An unsigned integer: the frame of [`read_field`] around decimal digits,
/// whose number must fit a `usize`.
pub open spec fn integer_field(s: Seq<u8>, prefix: char) -> Outcome<usize> {
    match read_field(s, prefix, Content::Digits) {
        Err(failure) => Err(failure),
        Ok((run, used)) => match decimal_usize(run) {
            Some(n) => Ok((n, used)),
            None => Err(DecodeFailure::Malformed),
        },
    }
}

/// A floating-point number: a line whose bytes are, as a whole, a decimal
/// floating-point literal. The value is the literal's text.
pub open spec fn double_field(s: Seq<u8>, prefix: char) -> Outcome<Seq<char>> {
    match read_field(s, prefix, Content::Line) {
        Err(failure) => Err(failure),
        Ok((run, used)) => if is_float_literal(run) {
            Ok((decode_utf8(run), used))
        } else {
            Err(DecodeFailure::Malformed)
        },
    }
}

/// A payload of declared length: `length` bytes of any kind and the
/// terminator. With fewer than `length + 2` bytes the field is incomplete.
pub open spec fn exact_field(s: Seq<u8>, length: nat) -> Outcome<Seq<u8>> {
    if s.len() < length + 2 {
        Err(DecodeFailure::Incomplete)
    } else if s[length as int] != CR || s[length as int + 1] != LF {
        Err(DecodeFailure::Malformed)
    } else {
        Ok((s.take(length as int), length + 2))
    }
}

/// A payload of declared length that must be well-formed UTF-8.
pub open spec fn exact_text_field(s: Seq<u8>, length: nat) -> Outcome<Seq<char>> {
    match exact_field(s, length) {
        Err(failure) => Err(failure),
        Ok((body, used)) => if valid_utf8(body) {
            Ok((decode_utf8(body), used))
        } else {
            Err(DecodeFailure::Malformed)
        },
    }
}

/// A payload behind its declared length: an integer field that gives the
/// length, then that many bytes and the terminator.
pub open spec fn sized_field(s: Seq<u8>, prefix: char) -> Outcome<Seq<u8>> {
    match integer_field(s, prefix) {
        Err(failure) => Err(failure),
        Ok((length, used)) => match exact_field(s.skip(used as int), length as nat) {
            Err(failure) => Err(failure),
            Ok((body, more)) => Ok((body, used + more)),
        },
    }
}

/// A fixed byte string at the start of `s`: present, cut short by the end
/// of `s` (incomplete), or contradicted by a byte of `s` (malformed).
pub open spec fn read_literal(s: Seq<u8>, literal: Seq<u8>) -> Outcome<()> {
    if literal.len() <= s.len() && s.take(literal.len() as int) == literal {
        Ok(((), literal.len()))
    } else if s.len() < literal.len() && literal.take(s.len() as int) == s {
        Err(DecodeFailure::Incomplete)
    } else {
        Err(DecodeFailure::Malformed)
    }
}

/// Reads a line of text behind `prefix`.
pub fn parse_str_with_prefix<'a>(input: &'a [u8], prefix: char) -> (r: Result<
    (&'a [u8], &'a str),
    DecodeFailure,
>)
    ensures
        agrees(r, input@, line_field(input@, prefix)),
{
    match parse_field(input, prefix, Content::Line) {
        Err(failure) => Err(failure),
        Ok((rest, run)) => match as_text(run) {
            None => Err(DecodeFailure::Malformed),
            Some(text) => Ok((rest, text)),
        },
    }
}

/// Reads an unsigned decimal integer behind `prefix`.
pub fn parse_integer_with_prefix<'a>(input: &'a [u8], prefix: char) -> (r: Result<
    (&'a [u8], usize),
    DecodeFailure,
>)
    ensures
        agrees(r, input@, integer_field(input@, prefix)),
{
    match parse_field(input, prefix, Content::Digits) {
        Err(failure) => Err(failure),
        Ok((rest, run)) => match decimal_to_usize(run) {
            None => Err(DecodeFailure::Malformed),
            Some(value) => Ok((rest, value)),
        },
    }
}

/// Reads a floating-point literal behind `prefix` and returns its text,
/// which any decimal parser can convert.
pub fn parse_double_with_prefix<'a>(input: &'a [u8], prefix: char) -> (r: Result<
    (&'a [u8], &'a str),
    DecodeFailure,
>)
    ensures
        agrees(r, input@, double_field(input@, prefix)),
{
    match parse_field(input, prefix, Content::Line) {
        Err(failure) => Err(failure),
        Ok((rest, run)) => {
            if !check_float_literal(run) {
                return Err(DecodeFailure::Malformed);
            }
            proof {
                lemma_ascii_is_utf8(run@);
            }
            match as_text(run) {
                None => Err(DecodeFailure::Malformed),
                Some(text) => Ok((rest, text)),
            }
        },
    }
}

/// Reads `length` bytes and the terminator behind them.
pub fn parse_bytes_with_length<'a>(input: &'a [u8], length: usize) -> (r: Result<
    (&'a [u8], &'a [u8]),
    DecodeFailure,
>)
    ensures
        agrees(r, input@, exact_field(input@, length as nat)),
{
    if input.len() < 2 || input.len() - 2 < length {
        return Err(DecodeFailure::Incomplete);
    }
    if input[length] != CR || input[length + 1] != LF {
        return Err(DecodeFailure::Malformed);
    }
    let body = slice_subrange(input, 0, length);
    let rest = slice_subrange(input, length + 2, input.len());
    Ok((rest, body))
}

/// Reads `length` bytes of text and the terminator behind them.
pub fn parse_str_with_length<'a>(input: &'a [u8], length: usize) -> (r: Result<
    (&'a [u8], &'a str),
    DecodeFailure,
>)
    ensures
        agrees(r, input@, exact_text_field(input@, length as nat)),
{
    match parse_bytes_with_length(input, length) {
        Err(failure) => Err(failure),
        Ok((rest, body)) => match as_text(body) {
            None => Err(DecodeFailure::Malformed),
            Some(text) => Ok((rest, text)),
        },
    }
}

/// Reads a length behind `prefix`, then that many bytes and the terminator
/// behind them.
pub fn parse_sized<'a>(input: &'a [u8], prefix: char) -> (r: Result<
    (&'a [u8], &'a [u8]),
    DecodeFailure,
>)
    ensures
        agrees(r, input@, sized_field(input@, prefix)),
{
    match parse_integer_with_prefix(input, prefix) {
        Err(failure) => Err(failure),
        Ok((payload, length)) => match parse_bytes_with_length(payload, length) {
            Err(failure) => Err(failure),
            Ok((rest, body)) => {
                proof {
                    let used = integer_field(input@, prefix)->Ok_0.1;
                    let more = exact_field(payload@, length as nat)->Ok_0.1;
                    assert(input@.skip(used as int).skip(more as int) =~= input@.skip(
                        (used + more) as int,
                    ));
                }
                Ok((rest, body))
            },
        },
    }
}

/// Reads the fixed text `literal` at the start of `input`.
pub fn parse_literal<'a>(input: &'a [u8], literal: &str) -> (r: Result<
    (&'a [u8], ()),
    DecodeFailure,
>)
    ensures
        agrees(r, input@, read_literal(input@, literal.spec_bytes())),
{
    let expected = literal.as_bytes();
    let mut i: usize = 0;
    while i < expected.len() && i < input.len()
        invariant
            expected@ == literal.spec_bytes(),
            i <= expected@.len(),
            i <= input@.len(),
            forall|k: int| 0 <= k < i ==> input@[k] == expected@[k],
        decreases expected@.len() - i,
    {
        if input[i] != expected[i] {
            proof {
                if expected@.len() <= input@.len() {
                    assert(input@.take(expected@.len() as int)[i as int] != expected@[i as int]);
                } else {
                    assert(expected@.take(input@.len() as int)[i as int] != input@[i as int]);
                }
            }
            return Err(DecodeFailure::Malformed);
        }
        i += 1;
    }
    if input.len() < expected.len() {
        assert(expected@.take(input@.len() as int) =~= input@);
        Err(DecodeFailure::Incomplete)
    } else {
        assert(input@.take(expected@.len() as int) =~= expected@);
        Ok((slice_subrange(input, expected.len(), input.len()), ()))
    }
}

} // verus!
