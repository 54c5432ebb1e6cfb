//! The RESP3 decoder: nineteen value shapes, told apart by their leading
//! byte, and where two share it, by a literal that is tried first.
use vstd::prelude::*;
use vstd::string::StringSliceAdditionalSpecFns;
use vstd::utf8::{decode_utf8, valid_utf8};
use num_bigint::BigInt;
use num_bigint::ParseBigIntError;
use crate::bignum::{bigint_from_decimal, decimal_bigint, is_decimal_text};
use crate::failure::{agrees, DecodeFailure, Outcome};
use crate::text::{
    as_text, ascii_chars, before_space, behind_space, is_ascii_bytes, lemma_ascii_is_utf8,
    split_at_space,
};
use crate::utils::{
    double_field, has_prefix, integer_field, lemma_run_len_bounds, line_field,
    parse_double_with_prefix, parse_field, parse_integer_with_prefix, parse_literal, parse_sized,
    parse_str_with_prefix, read_field, read_literal, sized_field, Content,
};

verus! {

/// How the text of a verbatim string is meant to be shown.
#[derive(Debug, Clone, Copy, PartialEq, Eq, PartialOrd)]
pub enum VerbatimStringFormat {
    Text,
    Markdown,
}

/// A decoded RESP3 value. Text and bytes are borrowed from the input.
///
/// A double holds the text of its literal, exactly as it stood on the
/// wire. A map, a set and an attribute hold their declared count only; the
/// members follow as values of their own. A push is decoded to an `Array`;
/// no input decodes to `Push`.
#[derive(Debug, PartialEq)]
pub enum Resp3Type<'a> {
    Blob(&'a [u8]),
    String(&'a str),
    Error(&'a str),
    Number(usize),
    Null,
    Double(&'a str),
    Boolean(bool),
    BlobError { code: &'a str, message: &'a str },
    VerbatimString { format: VerbatimStringFormat, text: &'a str },
    BigNumber(BigInt),
    Array(Vec<Resp3Type<'a>>),
    HashMap(usize),
    HashSet(usize),
    Attribute(usize),
    Push(Vec<Resp3Type<'a>>),
    StreamArray,
    StreamSet,
    StreamMap,
    StreamEnd,
}

/// What a [`Resp3Type`] stands for, free of borrows.
pub enum Resp3Value {
    Blob(Seq<u8>),
    String(Seq<char>),
    Error(Seq<char>),
    Number(usize),
    Null,
    Double(Seq<char>),
    Boolean(bool),
    BlobError { code: Seq<char>, message: Seq<char> },
    VerbatimString { format: VerbatimStringFormat, text: Seq<char> },
    BigNumber(BigInt),
    Array(Seq<Resp3Value>),
    HashMap(usize),
    HashSet(usize),
    Attribute(usize),
    Push(Seq<Resp3Value>),
    StreamArray,
    StreamSet,
    StreamMap,
    StreamEnd,
}

/// The value that `item` stands for.
pub open spec fn value_of(item: Resp3Type) -> Resp3Value
    decreases item,
{
    match item {
        Resp3Type::Blob(bytes) => Resp3Value::Blob(bytes@),
        Resp3Type::String(text) => Resp3Value::String(text@),
        Resp3Type::Error(text) => Resp3Value::Error(text@),
        Resp3Type::Number(n) => Resp3Value::Number(n),
        Resp3Type::Null => Resp3Value::Null,
        Resp3Type::Double(literal) => Resp3Value::Double(literal@),
        Resp3Type::Boolean(b) => Resp3Value::Boolean(b),
        Resp3Type::BlobError { code, message } => Resp3Value::BlobError {
            code: code@,
            message: message@,
        },
        Resp3Type::VerbatimString { format, text } => Resp3Value::VerbatimString {
            format,
            text: text@,
        },
        Resp3Type::BigNumber(n) => Resp3Value::BigNumber(n),
        Resp3Type::Array(items) => Resp3Value::Array(
            Seq::new(
                items.len() as nat,
                |i: int|
                    if 0 <= i < items.len() {
                        value_of(items[i])
                    } else {
                        Resp3Value::Null
                    },
            ),
        ),
        Resp3Type::HashMap(count) => Resp3Value::HashMap(count),
        Resp3Type::HashSet(count) => Resp3Value::HashSet(count),
        Resp3Type::Attribute(count) => Resp3Value::Attribute(count),
        Resp3Type::Push(items) => Resp3Value::Push(
            Seq::new(
                items.len() as nat,
                |i: int|
                    if 0 <= i < items.len() {
                        value_of(items[i])
                    } else {
                        Resp3Value::Null
                    },
            ),
        ),
        Resp3Type::StreamArray => Resp3Value::StreamArray,
        Resp3Type::StreamSet => Resp3Value::StreamSet,
        Resp3Type::StreamMap => Resp3Value::StreamMap,
        Resp3Type::StreamEnd => Resp3Value::StreamEnd,
    }
}

impl<'a> View for Resp3Type<'a> {
    type V = Resp3Value;

    open spec fn view(&self) -> Resp3Value {
        value_of(*self)
    }
}

/// The views of the items of an array, in order.
pub open spec fn views(items: Seq<Resp3Type>) -> Seq<Resp3Value> {
    items.map_values(|item: Resp3Type| item@)
}

/// The view of an array is the array of its items' views.
pub proof fn lemma_array_view(items: Vec<Resp3Type>)
    ensures
        Resp3Type::Array(items)@ == Resp3Value::Array(views(items@)),
{
    assert(value_of(Resp3Type::Array(items))->Array_0 =~= views(items@));
}

/// A value that is one fixed text, `literal`.
pub open spec fn marker(s: Seq<u8>, literal: &str, value: Resp3Value) -> Outcome<Resp3Value> {
    match read_literal(s, literal.spec_bytes()) {
        Err(failure) => Err(failure),
        Ok(((), used)) => Ok((value, used)),
    }
}

/// `$`, a length, and that many bytes.
#[verifier::opaque]
pub open spec fn blob_string(s: Seq<u8>) -> Outcome<Resp3Value> {
    match sized_field(s, '$') {
        Err(failure) => Err(failure),
        Ok((bytes, used)) => Ok((Resp3Value::Blob(bytes), used)),
    }
}

/// `+`, a line of text.
#[verifier::opaque]
pub open spec fn simple_string(s: Seq<u8>) -> Outcome<Resp3Value> {
    match line_field(s, '+') {
        Err(failure) => Err(failure),
        Ok((text, used)) => Ok((Resp3Value::String(text), used)),
    }
}

/// `-`, a line of text.
#[verifier::opaque]
pub open spec fn error(s: Seq<u8>) -> Outcome<Resp3Value> {
    match line_field(s, '-') {
        Err(failure) => Err(failure),
        Ok((text, used)) => Ok((Resp3Value::Error(text), used)),
    }
}

/// `:`, an unsigned integer.
#[verifier::opaque]
pub open spec fn number(s: Seq<u8>) -> Outcome<Resp3Value> {
    match integer_field(s, ':') {
        Err(failure) => Err(failure),
        Ok((n, used)) => Ok((Resp3Value::Number(n), used)),
    }
}

/// `_` and the terminator.
#[verifier::opaque]
pub open spec fn null(s: Seq<u8>) -> Outcome<Resp3Value> {
    marker(s, "_\r\n", Resp3Value::Null)
}

/// `,`, a floating-point literal.
#[verifier::opaque]
pub open spec fn double(s: Seq<u8>) -> Outcome<Resp3Value> {
    match double_field(s, ',') {
        Err(failure) => Err(failure),
        Ok((literal, used)) => Ok((Resp3Value::Double(literal), used)),
    }
}

/// `#t` or `#f`, and the terminator.
#[verifier::opaque]
pub open spec fn boolean(s: Seq<u8>) -> Outcome<Resp3Value> {
    match marker(s, "#t\r\n", Resp3Value::Boolean(true)) {
        Err(DecodeFailure::Malformed) => marker(s, "#f\r\n", Resp3Value::Boolean(false)),
        found => found,
    }
}

/// `!`, a length, and that many bytes of text: a code, and behind the
/// first space, if there is one, a message.
#[verifier::opaque]
pub open spec fn blob_error(s: Seq<u8>) -> Outcome<Resp3Value> {
    match sized_field(s, '!') {
        Err(failure) => Err(failure),
        Ok((body, used)) => if valid_utf8(body) {
            Ok(
                (
                    Resp3Value::BlobError {
                        code: before_space(body),
                        message: behind_space(body),
                    },
                    used,
                ),
            )
        } else {
            Err(DecodeFailure::Malformed)
        },
    }
}

/// The format that the body of a verbatim string names in its first four
/// bytes, with the number of those bytes, or `None` for any other start.
pub open spec fn verbatim_format(body: Seq<u8>) -> Option<(VerbatimStringFormat, nat)> {
    match read_literal(body, "txt:".spec_bytes()) {
        Ok(((), used)) => Some((VerbatimStringFormat::Text, used)),
        Err(_) => match read_literal(body, "mkd:".spec_bytes()) {
            Ok(((), used)) => Some((VerbatimStringFormat::Markdown, used)),
            Err(_) => None,
        },
    }
}

/// `=`, a length, and that many bytes: `txt:` or `mkd:`, then text.
#[verifier::opaque]
pub open spec fn verbatim_string(s: Seq<u8>) -> Outcome<Resp3Value> {
    match sized_field(s, '=') {
        Err(failure) => Err(failure),
        Ok((body, used)) => match verbatim_format(body) {
            None => Err(DecodeFailure::Malformed),
            Some((format, tag)) => if valid_utf8(body.skip(tag as int)) {
                Ok(
                    (
                        Resp3Value::VerbatimString {
                            format,
                            text: decode_utf8(body.skip(tag as int)),
                        },
                        used,
                    ),
                )
            } else {
                Err(DecodeFailure::Malformed)
            },
        },
    }
}

/// `(`, a run of decimal digits of any length.
#[verifier::opaque]
pub open spec fn big_number(s: Seq<u8>) -> Outcome<Resp3Value> {
    match read_field(s, '(', Content::Digits) {
        Err(failure) => Err(failure),
        Ok((digits, used)) => Ok(
            (Resp3Value::BigNumber(decimal_bigint(ascii_chars(digits))), used),
        ),
    }
}

/// `count` values, one behind the other. A value that fails, fails the
/// sequence with its own failure.
pub open spec fn sequence(s: Seq<u8>, count: nat) -> Outcome<Seq<Resp3Value>>
    decreases s.len(), count + 2,
{
    if count == 0 {
        Ok((Seq::empty(), 0))
    } else {
        match decode(s) {
            Err(failure) => Err(failure),
            // A value never spans more than there is; the test serves the
            // proof that this definition ends.
            Ok((first, used)) => if used > s.len() {
                Err(DecodeFailure::Malformed)
            } else {
                match sequence(s.skip(used as int), (count - 1) as nat) {
                    Err(failure) => Err(failure),
                    Ok((others, more)) => Ok((seq![first] + others, used + more)),
                }
            },
        }
    }
}

/// A count behind `prefix`, and that many values.
pub open spec fn counted(s: Seq<u8>, prefix: char) -> Outcome<Seq<Resp3Value>>
    decreases s.len(), 0nat,
{
    match integer_field(s, prefix) {
        Err(failure) => Err(failure),
        Ok((count, used)) => match sequence(s.skip(used as int), count as nat) {
            Err(failure) => Err(failure),
            Ok((items, more)) => Ok((items, used + more)),
        },
    }
}

/// `*`, a count, and that many values.
pub open spec fn array(s: Seq<u8>) -> Outcome<Resp3Value>
    decreases s.len(), 1nat,
{
    match counted(s, '*') {
        Err(failure) => Err(failure),
        Ok((items, used)) => Ok((Resp3Value::Array(items), used)),
    }
}

/// `%`, a count. The entries are not read with it.
#[verifier::opaque]
pub open spec fn hash_map(s: Seq<u8>) -> Outcome<Resp3Value> {
    match integer_field(s, '%') {
        Err(failure) => Err(failure),
        Ok((count, used)) => Ok((Resp3Value::HashMap(count), used)),
    }
}

/// `~`, a count. The members are not read with it.
#[verifier::opaque]
pub open spec fn hash_set(s: Seq<u8>) -> Outcome<Resp3Value> {
    match integer_field(s, '~') {
        Err(failure) => Err(failure),
        Ok((count, used)) => Ok((Resp3Value::HashSet(count), used)),
    }
}

/// `|`, a count. The entries are not read with it.
#[verifier::opaque]
pub open spec fn attribute(s: Seq<u8>) -> Outcome<Resp3Value> {
    match integer_field(s, '|') {
        Err(failure) => Err(failure),
        Ok((count, used)) => Ok((Resp3Value::Attribute(count), used)),
    }
}

/// `>`, a count, and that many values, which come out as an array.
pub open spec fn push(s: Seq<u8>) -> Outcome<Resp3Value>
    decreases s.len(), 1nat,
{
    match counted(s, '>') {
        Err(failure) => Err(failure),
        Ok((items, used)) => Ok((Resp3Value::Array(items), used)),
    }
}

/// `*?` and the terminator: an array of unknown length begins.
#[verifier::opaque]
pub open spec fn stream_array(s: Seq<u8>) -> Outcome<Resp3Value> {
    marker(s, "*?\r\n", Resp3Value::StreamArray)
}

/// `~?` and the terminator: a set of unknown length begins.
#[verifier::opaque]
pub open spec fn stream_set(s: Seq<u8>) -> Outcome<Resp3Value> {
    marker(s, "~?\r\n", Resp3Value::StreamSet)
}

/// `%?` and the terminator: a map of unknown length begins.
#[verifier::opaque]
pub open spec fn stream_map(s: Seq<u8>) -> Outcome<Resp3Value> {
    marker(s, "%?\r\n", Resp3Value::StreamMap)
}

/// `.` and the terminator: an aggregate of unknown length ends.
#[verifier::opaque]
pub open spec fn stream_end(s: Seq<u8>) -> Outcome<Resp3Value> {
    marker(s, ".\r\n", Resp3Value::StreamEnd)
}

/// The value at the start of `s`, chosen by the leading byte. Where a
/// marker shares its leading byte with a counted aggregate, the marker is
/// tried first.
pub open spec fn decode(s: Seq<u8>) -> Outcome<Resp3Value>
    decreases s.len(), 2nat,
{
    if s.len() == 0 {
        Err(DecodeFailure::Incomplete)
    } else if has_prefix(s, '$') {
        blob_string(s)
    } else if has_prefix(s, '+') {
        simple_string(s)
    } else if has_prefix(s, '-') {
        error(s)
    } else if has_prefix(s, ':') {
        number(s)
    } else if has_prefix(s, '_') {
        null(s)
    } else if has_prefix(s, ',') {
        double(s)
    } else if has_prefix(s, '#') {
        boolean(s)
    } else if has_prefix(s, '!') {
        blob_error(s)
    } else if has_prefix(s, '=') {
        verbatim_string(s)
    } else if has_prefix(s, '(') {
        big_number(s)
    } else if has_prefix(s, '*') {
        match stream_array(s) {
            Err(DecodeFailure::Malformed) => array(s),
            found => found,
        }
    } else if has_prefix(s, '%') {
        match stream_map(s) {
            Err(DecodeFailure::Malformed) => hash_map(s),
            found => found,
        }
    } else if has_prefix(s, '~') {
        match stream_set(s) {
            Err(DecodeFailure::Malformed) => hash_set(s),
            found => found,
        }
    } else if has_prefix(s, '|') {
        attribute(s)
    } else if has_prefix(s, '>') {
        push(s)
    } else if has_prefix(s, '.') {
        stream_end(s)
    } else {
        Err(DecodeFailure::Malformed)
    }
}

/// Reads the marker `literal` and returns `value` for it.
fn parse_marker<'a>(input: &'a [u8], literal: &str, value: Resp3Type<'a>) -> (r: Result<
    (&'a [u8], Resp3Type<'a>),
    DecodeFailure,
>)
    ensures
        agrees(r, input@, marker(input@, literal, value@)),
{
    match parse_literal(input, literal) {
        Err(failure) => Err(failure),
        Ok((rest, _)) => Ok((rest, value)),
    }
}

/// Reads a blob: `$`, its length, and that many bytes.
pub fn parse_blob_string<'a>(input: &'a [u8]) -> (r: Result<
    (&'a [u8], Resp3Type<'a>),
    DecodeFailure,
>)
    ensures
        agrees(r, input@, blob_string(input@)),
{
    proof {
        reveal(blob_string);
    }
    match parse_sized(input, '$') {
        Err(failure) => Err(failure),
        Ok((rest, bytes)) => Ok((rest, Resp3Type::Blob(bytes))),
    }
}

/// Reads a simple string: `+`, a line of text.
pub fn parse_simple_string<'a>(input: &'a [u8]) -> (r: Result<
    (&'a [u8], Resp3Type<'a>),
    DecodeFailure,
>)
    ensures
        agrees(r, input@, simple_string(input@)),
{
    proof {
        reveal(simple_string);
    }
    match parse_str_with_prefix(input, '+') {
        Err(failure) => Err(failure),
        Ok((rest, text)) => Ok((rest, Resp3Type::String(text))),
    }
}

/// Reads an error: `-`, a line of text.
pub fn parse_error<'a>(input: &'a [u8]) -> (r: Result<(&'a [u8], Resp3Type<'a>), DecodeFailure>)
    ensures
        agrees(r, input@, error(input@)),
{
    proof {
        reveal(error);
    }
    match parse_str_with_prefix(input, '-') {
        Err(failure) => Err(failure),
        Ok((rest, text)) => Ok((rest, Resp3Type::Error(text))),
    }
}

/// Reads a number: `:`, decimal digits.
pub fn parse_number<'a>(input: &'a [u8]) -> (r: Result<(&'a [u8], Resp3Type<'a>), DecodeFailure>)
    ensures
        agrees(r, input@, number(input@)),
{
    proof {
        reveal(number);
    }
    match parse_integer_with_prefix(input, ':') {
        Err(failure) => Err(failure),
        Ok((rest, n)) => Ok((rest, Resp3Type::Number(n))),
    }
}

/// Reads the null value, `_`.
pub fn parse_null<'a>(input: &'a [u8]) -> (r: Result<(&'a [u8], Resp3Type<'a>), DecodeFailure>)
    ensures
        agrees(r, input@, null(input@)),
{
    proof {
        reveal(null);
    }
    parse_marker(input, "_\r\n", Resp3Type::Null)
}

/// Reads a double: `,`, a floating-point literal, which is returned as
/// text.
pub fn parse_double<'a>(input: &'a [u8]) -> (r: Result<(&'a [u8], Resp3Type<'a>), DecodeFailure>)
    ensures
        agrees(r, input@, double(input@)),
{
    proof {
        reveal(double);
    }
    match parse_double_with_prefix(input, ',') {
        Err(failure) => Err(failure),
        Ok((rest, literal)) => Ok((rest, Resp3Type::Double(literal))),
    }
}

/// Reads a boolean, `#t` or `#f`.
pub fn parse_boolean<'a>(input: &'a [u8]) -> (r: Result<(&'a [u8], Resp3Type<'a>), DecodeFailure>)
    ensures
        agrees(r, input@, boolean(input@)),
{
    proof {
        reveal(boolean);
    }
    match parse_marker(input, "#t\r\n", Resp3Type::Boolean(true)) {
        Err(DecodeFailure::Malformed) => parse_marker(input, "#f\r\n", Resp3Type::Boolean(false)),
        found => found,
    }
}

/// Reads a blob error: `!`, its length, and that many bytes of text, which
/// are parted at the first space into a code and a message.
pub fn parse_blob_error<'a>(input: &'a [u8]) -> (r: Result<
    (&'a [u8], Resp3Type<'a>),
    DecodeFailure,
>)
    ensures
        agrees(r, input@, blob_error(input@)),
{
    proof {
        reveal(blob_error);
    }
    match parse_sized(input, '!') {
        Err(failure) => Err(failure),
        Ok((rest, body)) => match as_text(body) {
            None => Err(DecodeFailure::Malformed),
            Some(text) => {
                let (code, message) = split_at_space(text);
                Ok((rest, Resp3Type::BlobError { code, message }))
            },
        },
    }
}

/// Reads the format that `body` names and returns it with the bytes
/// behind the colon.
pub fn parse_verbatim_format<'a>(body: &'a [u8]) -> (r: Option<(VerbatimStringFormat, &'a [u8])>)
    ensures
        match verbatim_format(body@) {
            None => r.is_none(),
            Some((format, tag)) => r matches Some((f, text)) && f == format && tag <= body@.len()
                && text@ == body@.skip(tag as int),
        },
{
    match parse_literal(body, "txt:") {
        Ok((text, _)) => Some((VerbatimStringFormat::Text, text)),
        Err(_) => match parse_literal(body, "mkd:") {
            Ok((text, _)) => Some((VerbatimStringFormat::Markdown, text)),
            Err(_) => None,
        },
    }
}

/// Reads a verbatim string: `=`, its length, and that many bytes, of which
/// the first four name the format and the others are the text.
pub fn parse_verbatim_string<'a>(input: &'a [u8]) -> (r: Result<
    (&'a [u8], Resp3Type<'a>),
    DecodeFailure,
>)
    ensures
        agrees(r, input@, verbatim_string(input@)),
{
    proof {
        reveal(verbatim_string);
    }
    match parse_sized(input, '=') {
        Err(failure) => Err(failure),
        Ok((rest, body)) => match parse_verbatim_format(body) {
            None => Err(DecodeFailure::Malformed),
            Some((format, bytes)) => match as_text(bytes) {
                None => Err(DecodeFailure::Malformed),
                Some(text) => Ok((rest, Resp3Type::VerbatimString { format, text })),
            },
        },
    }
}

/// Makes a big number of what the conversion of its digits returned.
pub fn big_number_from<'a>(converted: Result<BigInt, ParseBigIntError>) -> (r: Result<
    Resp3Type<'a>,
    DecodeFailure,
>)
    ensures
        match converted {
            Ok(n) => r matches Ok(value) && value@ == Resp3Value::BigNumber(n),
            Err(_) => r matches Err(failure) && failure == DecodeFailure::Malformed,
        },
{
    match converted {
        Ok(n) => Ok(Resp3Type::BigNumber(n)),
        Err(_) => Err(DecodeFailure::Malformed),
    }
}

/// Reads a big number: `(`, decimal digits of any number.
pub fn parse_big_number<'a>(input: &'a [u8]) -> (r: Result<
    (&'a [u8], Resp3Type<'a>),
    DecodeFailure,
>)
    ensures
        agrees(r, input@, big_number(input@)),
{
    proof {
        reveal(big_number);
    }
    match parse_field(input, '(', Content::Digits) {
        Err(failure) => Err(failure),
        Ok((rest, digits)) => {
            proof {
                lemma_run_len_bounds(input@.skip(1), Content::Digits);
                assert forall|i: int| 0 <= i < digits@.len() implies 48 <= #[trigger] digits@[i]
                    <= 57 by {
                    assert(digits@[i] == input@.skip(1)[i]);
                }
                assert(is_ascii_bytes(digits@));
                lemma_ascii_is_utf8(digits@);
                assert(is_decimal_text(ascii_chars(digits@)));
            }
            match as_text(digits) {
                None => Err(DecodeFailure::Malformed),
                Some(text) => match big_number_from(bigint_from_decimal(text)) {
                    Err(failure) => Err(failure),
                    Ok(value) => Ok((rest, value)),
                },
            }
        },
    }
}

/// The outcome of a sequence of which `done` has been read over `consumed`
/// bytes and `tail` is the outcome of what is left.
pub open spec fn joined(done: Seq<Resp3Value>, consumed: nat, tail: Outcome<Seq<Resp3Value>>) -> Outcome<
    Seq<Resp3Value>,
> {
    match tail {
        Err(failure) => Err(failure),
        Ok((others, more)) => Ok((done + others, consumed + more)),
    }
}

/// Reads a count behind `prefix` and then that many values.
pub fn parse_counted<'a>(input: &'a [u8], prefix: char) -> (r: Result<
    (&'a [u8], Vec<Resp3Type<'a>>),
    DecodeFailure,
>)
    ensures
        match counted(input@, prefix) {
            Err(failure) => r matches Err(f) && f == failure,
            Ok((values, used)) => {
                &&& used <= input@.len()
                &&& r matches Ok((rest, items))
                &&& views(items@) == values
                &&& rest@ == input@.skip(used as int)
            },
        },
    decreases input@.len(), 0nat,
{
    let (body, count) = match parse_integer_with_prefix(input, prefix) {
        Err(failure) => {
            return Err(failure);
        },
        Ok(header) => header,
    };
    let ghost header_len = integer_field(input@, prefix)->Ok_0.1;
    let mut items: Vec<Resp3Type<'a>> = Vec::new();
    let mut rest = body;
    let mut i: usize = 0;
    let ghost mut consumed: nat = 0;
    proof {
        assert(body@.skip(0) =~= body@);
        assert(views(items@) + sequence(body@, count as nat)->Ok_0.0 =~= sequence(
            body@,
            count as nat,
        )->Ok_0.0);
    }
    while i < count
        invariant
            i <= count,
            integer_field(input@, prefix) == Ok::<_, DecodeFailure>((count, header_len)),
            body@ == input@.skip(header_len as int),
            body@.len() < input@.len(),
            consumed <= body@.len(),
            rest@ == body@.skip(consumed as int),
            sequence(body@, count as nat) == joined(
                views(items@),
                consumed,
                sequence(rest@, (count - i) as nat),
            ),
        decreases count - i,
    {
        let ghost before = views(items@);
        match parse(rest) {
            Err(failure) => {
                return Err(failure);
            },
            Ok((next, item)) => {
                proof {
                    let used = decode(rest@)->Ok_0.1;
                    let tail = sequence(next@, (count - i - 1) as nat);
                    assert(next@ =~= body@.skip((consumed + used) as int));
                    assert(views(items@.push(item)) =~= before.push(item@));
                    if tail is Ok {
                        assert(before + (seq![item@] + tail->Ok_0.0) =~= before.push(item@)
                            + tail->Ok_0.0);
                    }
                    consumed = consumed + used;
                }
                items.push(item);
                rest = next;
                i += 1;
            },
        }
    }
    proof {
        assert(views(items@) + Seq::<Resp3Value>::empty() =~= views(items@));
        assert(input@.skip(header_len as int).skip(consumed as int) =~= input@.skip(
            (header_len + consumed) as int,
        ));
    }
    Ok((rest, items))
}

/// Reads an array: `*`, its count, and that many values.
pub fn parse_array<'a>(input: &'a [u8]) -> (r: Result<(&'a [u8], Resp3Type<'a>), DecodeFailure>)
    ensures
        agrees(r, input@, array(input@)),
    decreases input@.len(), 1nat,
{
    match parse_counted(input, '*') {
        Err(failure) => Err(failure),
        Ok((rest, items)) => {
            proof {
                lemma_array_view(items);
            }
            Ok((rest, Resp3Type::Array(items)))
        },
    }
}

/// Reads the count of a map: `%`, decimal digits.
pub fn parse_map<'a>(input: &'a [u8]) -> (r: Result<(&'a [u8], Resp3Type<'a>), DecodeFailure>)
    ensures
        agrees(r, input@, hash_map(input@)),
{
    proof {
        reveal(hash_map);
    }
    match parse_integer_with_prefix(input, '%') {
        Err(failure) => Err(failure),
        Ok((rest, count)) => Ok((rest, Resp3Type::HashMap(count))),
    }
}

/// Reads the count of a set: `~`, decimal digits.
pub fn parse_set<'a>(input: &'a [u8]) -> (r: Result<(&'a [u8], Resp3Type<'a>), DecodeFailure>)
    ensures
        agrees(r, input@, hash_set(input@)),
{
    proof {
        reveal(hash_set);
    }
    match parse_integer_with_prefix(input, '~') {
        Err(failure) => Err(failure),
        Ok((rest, count)) => Ok((rest, Resp3Type::HashSet(count))),
    }
}

/// Reads the count of an attribute: `|`, decimal digits.
pub fn parse_attribute<'a>(input: &'a [u8]) -> (r: Result<
    (&'a [u8], Resp3Type<'a>),
    DecodeFailure,
>)
    ensures
        agrees(r, input@, attribute(input@)),
{
    proof {
        reveal(attribute);
    }
    match parse_integer_with_prefix(input, '|') {
        Err(failure) => Err(failure),
        Ok((rest, count)) => Ok((rest, Resp3Type::Attribute(count))),
    }
}

/// Reads a push: `>`, its count, and that many values. It comes out as an
/// array.
pub fn parse_push<'a>(input: &'a [u8]) -> (r: Result<(&'a [u8], Resp3Type<'a>), DecodeFailure>)
    ensures
        agrees(r, input@, push(input@)),
    decreases input@.len(), 1nat,
{
    match parse_counted(input, '>') {
        Err(failure) => Err(failure),
        Ok((rest, items)) => {
            proof {
                lemma_array_view(items);
            }
            Ok((rest, Resp3Type::Array(items)))
        },
    }
}

/// Reads the marker that opens an array of unknown length, `*?`.
pub fn parse_stream_array<'a>(input: &'a [u8]) -> (r: Result<
    (&'a [u8], Resp3Type<'a>),
    DecodeFailure,
>)
    ensures
        agrees(r, input@, stream_array(input@)),
{
    proof {
        reveal(stream_array);
    }
    parse_marker(input, "*?\r\n", Resp3Type::StreamArray)
}

/// Reads the marker that opens a set of unknown length, `~?`.
pub fn parse_stream_set<'a>(input: &'a [u8]) -> (r: Result<
    (&'a [u8], Resp3Type<'a>),
    DecodeFailure,
>)
    ensures
        agrees(r, input@, stream_set(input@)),
{
    proof {
        reveal(stream_set);
    }
    parse_marker(input, "~?\r\n", Resp3Type::StreamSet)
}

/// Reads the marker that opens a map of unknown length, `%?`.
pub fn parse_stream_map<'a>(input: &'a [u8]) -> (r: Result<
    (&'a [u8], Resp3Type<'a>),
    DecodeFailure,
>)
    ensures
        agrees(r, input@, stream_map(input@)),
{
    proof {
        reveal(stream_map);
    }
    parse_marker(input, "%?\r\n", Resp3Type::StreamMap)
}

/// Reads the marker that closes an aggregate of unknown length, `.`.
pub fn parse_stream_end<'a>(input: &'a [u8]) -> (r: Result<
    (&'a [u8], Resp3Type<'a>),
    DecodeFailure,
>)
    ensures
        agrees(r, input@, stream_end(input@)),
{
    proof {
        reveal(stream_end);
    }
    parse_marker(input, ".\r\n", Resp3Type::StreamEnd)
}

/// Decodes the value at the start of `input` and returns it with the bytes
/// that follow it.
///
/// Arrays and pushes nest by recursion, one call per level; the depth of
/// nesting is not bounded here.
pub fn parse<'a>(input: &'a [u8]) -> (r: Result<(&'a [u8], Resp3Type<'a>), DecodeFailure>)
    ensures
        agrees(r, input@, decode(input@)),
    decreases input@.len(), 2nat,
{
    if input.len() == 0 {
        return Err(DecodeFailure::Incomplete);
    }
    let lead = input[0] as char;
    if lead == '$' {
        parse_blob_string(input)
    } else if lead == '+' {
        parse_simple_string(input)
    } else if lead == '-' {
        parse_error(input)
    } else if lead == ':' {
        parse_number(input)
    } else if lead == '_' {
        parse_null(input)
    } else if lead == ',' {
        parse_double(input)
    } else if lead == '#' {
        parse_boolean(input)
    } else if lead == '!' {
        parse_blob_error(input)
    } else if lead == '=' {
        parse_verbatim_string(input)
    } else if lead == '(' {
        parse_big_number(input)
    } else if lead == '*' {
        match parse_stream_array(input) {
            Err(DecodeFailure::Malformed) => parse_array(input),
            found => found,
        }
    } else if lead == '%' {
        match parse_stream_map(input) {
            Err(DecodeFailure::Malformed) => parse_map(input),
            found => found,
        }
    } else if lead == '~' {
        match parse_stream_set(input) {
            Err(DecodeFailure::Malformed) => parse_set(input),
            found => found,
        }
    } else if lead == '|' {
        parse_attribute(input)
    } else if lead == '>' {
        parse_push(input)
    } else if lead == '.' {
        parse_stream_end(input)
    } else {
        Err(DecodeFailure::Malformed)
    }
}

} // verus!
