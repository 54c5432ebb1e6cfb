//! The RESP2 decoder: six value shapes, told apart by their leading byte.
use vstd::prelude::*;
use vstd::string::StringSliceAdditionalSpecFns;
use crate::failure::{agrees, DecodeFailure, Outcome};
use crate::utils::{
    has_prefix, integer_field, line_field, parse_integer_with_prefix, parse_literal,
    parse_sized, parse_str_with_prefix, read_literal, sized_field,
};

verus! {

/// A decoded RESP2 value. Text and bytes are borrowed from the input.
#[derive(Debug, PartialEq)]
pub enum Resp2Type<'a> {
    String(&'a str),
    Error(&'a str),
    Integer(usize),
    BulkString(&'a [u8]),
    Null,
    Array(Vec<Resp2Type<'a>>),
}

/// What a [`Resp2Type`] stands for, free of borrows.
pub enum Resp2Value {
    String(Seq<char>),
    Error(Seq<char>),
    Integer(usize),
    BulkString(Seq<u8>),
    Null,
    Array(Seq<Resp2Value>),
}

/// The value that `item` stands for.
pub open spec fn value_of(item: Resp2Type) -> Resp2Value
    decreases item,
{
    match item {
        Resp2Type::String(text) => Resp2Value::String(text@),
        Resp2Type::Error(text) => Resp2Value::Error(text@),
        Resp2Type::Integer(n) => Resp2Value::Integer(n),
        Resp2Type::BulkString(bytes) => Resp2Value::BulkString(bytes@),
        Resp2Type::Null => Resp2Value::Null,
        Resp2Type::Array(items) => Resp2Value::Array(
            Seq::new(
                items.len() as nat,
                |i: int|
                    if 0 <= i < items.len() {
                        value_of(items[i])
                    } else {
                        Resp2Value::Null
                    },
            ),
        ),
    }
}

impl<'a> View for Resp2Type<'a> {
    type V = Resp2Value;

    open spec fn view(&self) -> Resp2Value {
        value_of(*self)
    }
}

/// The views of the items of an array, in order.
pub open spec fn views(items: Seq<Resp2Type>) -> Seq<Resp2Value> {
    items.map_values(|item: Resp2Type| item@)
}

/// The view of an array is the array of its items' views.
pub proof fn lemma_array_view(items: Vec<Resp2Type>)
    ensures
        Resp2Type::Array(items)@ == Resp2Value::Array(views(items@)),
{
    assert(value_of(Resp2Type::Array(items))->Array_0 =~= views(items@));
}

/// The null string, `$-1` and the terminator.
pub open spec fn null_literal() -> Seq<u8> {
    "$-1\r\n".spec_bytes()
}

/// `+`, a line of text.
#[verifier::opaque]
pub open spec fn simple_string(s: Seq<u8>) -> Outcome<Resp2Value> {
    match line_field(s, '+') {
        Err(failure) => Err(failure),
        Ok((text, used)) => Ok((Resp2Value::String(text), used)),
    }
}

/// `-`, a line of text.
#[verifier::opaque]
pub open spec fn error(s: Seq<u8>) -> Outcome<Resp2Value> {
    match line_field(s, '-') {
        Err(failure) => Err(failure),
        Ok((text, used)) => Ok((Resp2Value::Error(text), used)),
    }
}

/// `:`, an unsigned integer.
#[verifier::opaque]
pub open spec fn integer(s: Seq<u8>) -> Outcome<Resp2Value> {
    match integer_field(s, ':') {
        Err(failure) => Err(failure),
        Ok((n, used)) => Ok((Resp2Value::Integer(n), used)),
    }
}

/// `$`, a length, and that many bytes.
#[verifier::opaque]
pub open spec fn bulk_string(s: Seq<u8>) -> Outcome<Resp2Value> {
    match sized_field(s, '$') {
        Err(failure) => Err(failure),
        Ok((bytes, used)) => Ok((Resp2Value::BulkString(bytes), used)),
    }
}

/// The null string, as a literal.
#[verifier::opaque]
pub open spec fn null_string(s: Seq<u8>) -> Outcome<Resp2Value> {
    match read_literal(s, null_literal()) {
        Err(failure) => Err(failure),
        Ok(((), used)) => Ok((Resp2Value::Null, used)),
    }
}

/// `count` values, one behind the other. A value that fails, fails the
/// sequence with its own failure.
pub open spec fn sequence(s: Seq<u8>, count: nat) -> Outcome<Seq<Resp2Value>>
    decreases s.len(), count + 2,
{
    if count == 0 {
        Ok((Seq::empty(), 0))
    } else {
        match decode(s) {
            Err(failure) => Err(failure),
            // A value never spans more than there is; the test serves the
            // proof that this definition ends.
            Ok((first, used)) => if used > s.len() {
                Err(DecodeFailure::Malformed)
            } else {
                match sequence(s.skip(used as int), (count - 1) as nat) {
                    Err(failure) => Err(failure),
                    Ok((others, more)) => Ok((seq![first] + others, used + more)),
                }
            },
        }
    }
}

/// `*`, a count, and that many values.
pub open spec fn array(s: Seq<u8>) -> Outcome<Resp2Value>
    decreases s.len(), 0nat,
{
    match integer_field(s, '*') {
        Err(failure) => Err(failure),
        Ok((count, used)) => match sequence(s.skip(used as int), count as nat) {
            Err(failure) => Err(failure),
            Ok((items, more)) => Ok((Resp2Value::Array(items), used + more)),
        },
    }
}

/// The value at the start of `s`, chosen by the leading byte. The null
/// string is tried before the bulk string, with which it shares `$`.
pub open spec fn decode(s: Seq<u8>) -> Outcome<Resp2Value>
    decreases s.len(), 1nat,
{
    if s.len() == 0 {
        Err(DecodeFailure::Incomplete)
    } else if has_prefix(s, '+') {
        simple_string(s)
    } else if has_prefix(s, '-') {
        error(s)
    } else if has_prefix(s, ':') {
        integer(s)
    } else if has_prefix(s, '$') {
        match null_string(s) {
            Err(DecodeFailure::Malformed) => bulk_string(s),
            found => found,
        }
    } else if has_prefix(s, '*') {
        array(s)
    } else {
        Err(DecodeFailure::Malformed)
    }
}

/// Reads a simple string: `+`, a line of text.
pub fn parse_simple_string<'a>(input: &'a [u8]) -> (r: Result<
    (&'a [u8], Resp2Type<'a>),
    DecodeFailure,
>)
    ensures
        agrees(r, input@, simple_string(input@)),
{
    proof {
        reveal(simple_string);
    }
    match parse_str_with_prefix(input, '+') {
        Err(failure) => Err(failure),
        Ok((rest, text)) => Ok((rest, Resp2Type::String(text))),
    }
}

/// Reads an error: `-`, a line of text.
pub fn parse_error<'a>(input: &'a [u8]) -> (r: Result<(&'a [u8], Resp2Type<'a>), DecodeFailure>)
    ensures
        agrees(r, input@, error(input@)),
{
    proof {
        reveal(error);
    }
    match parse_str_with_prefix(input, '-') {
        Err(failure) => Err(failure),
        Ok((rest, text)) => Ok((rest, Resp2Type::Error(text))),
    }
}

/// Reads an integer: `:`, decimal digits.
pub fn parse_integer<'a>(input: &'a [u8]) -> (r: Result<(&'a [u8], Resp2Type<'a>), DecodeFailure>)
    ensures
        agrees(r, input@, integer(input@)),
{
    proof {
        reveal(integer);
    }
    match parse_integer_with_prefix(input, ':') {
        Err(failure) => Err(failure),
        Ok((rest, n)) => Ok((rest, Resp2Type::Integer(n))),
    }
}

/// Reads a bulk string: `$`, its length, and that many bytes.
pub fn parse_bulk_string<'a>(input: &'a [u8]) -> (r: Result<
    (&'a [u8], Resp2Type<'a>),
    DecodeFailure,
>)
    ensures
        agrees(r, input@, bulk_string(input@)),
{
    proof {
        reveal(bulk_string);
    }
    match parse_sized(input, '$') {
        Err(failure) => Err(failure),
        Ok((rest, bytes)) => Ok((rest, Resp2Type::BulkString(bytes))),
    }
}

/// Reads the null string, `$-1`.
pub fn parse_null_string<'a>(input: &'a [u8]) -> (r: Result<
    (&'a [u8], Resp2Type<'a>),
    DecodeFailure,
>)
    ensures
        agrees(r, input@, null_string(input@)),
{
    proof {
        reveal(null_string);
    }
    match parse_literal(input, "$-1\r\n") {
        Err(failure) => Err(failure),
        Ok((rest, _)) => Ok((rest, Resp2Type::Null)),
    }
}

/// The outcome of a sequence of which `done` has been read over `consumed`
/// bytes and `tail` is the outcome of what is left.
pub open spec fn joined(done: Seq<Resp2Value>, consumed: nat, tail: Outcome<Seq<Resp2Value>>) -> Outcome<
    Seq<Resp2Value>,
> {
    match tail {
        Err(failure) => Err(failure),
        Ok((others, more)) => Ok((done + others, consumed + more)),
    }
}

/// Reads an array: `*`, its count, and that many values, each of any
/// shape. The array fails as the first of its values that fails.
pub fn parse_array<'a>(input: &'a [u8]) -> (r: Result<(&'a [u8], Resp2Type<'a>), DecodeFailure>)
    ensures
        agrees(r, input@, array(input@)),
    decreases input@.len(), 0nat,
{
    let (body, count) = match parse_integer_with_prefix(input, '*') {
        Err(failure) => {
            return Err(failure);
        },
        Ok(header) => header,
    };
    let ghost header_len = integer_field(input@, '*')->Ok_0.1;
    let mut items: Vec<Resp2Type<'a>> = Vec::new();
    let mut rest = body;
    let mut i: usize = 0;
    let ghost mut consumed: nat = 0;
    proof {
        assert(body@.skip(0) =~= body@);
        assert(views(items@) + sequence(body@, count as nat)->Ok_0.0 =~= sequence(
            body@,
            count as nat,
        )->Ok_0.0);
    }
    while i < count
        invariant
            i <= count,
            integer_field(input@, '*') == Ok::<_, DecodeFailure>((count, header_len)),
            body@ == input@.skip(header_len as int),
            body@.len() < input@.len(),
            consumed <= body@.len(),
            rest@ == body@.skip(consumed as int),
            sequence(body@, count as nat) == joined(
                views(items@),
                consumed,
                sequence(rest@, (count - i) as nat),
            ),
        decreases count - i,
    {
        let ghost before = views(items@);
        match parse(rest) {
            Err(failure) => {
                return Err(failure);
            },
            Ok((next, item)) => {
                proof {
                    let used = decode(rest@)->Ok_0.1;
                    let tail = sequence(next@, (count - i - 1) as nat);
                    assert(next@ =~= body@.skip((consumed + used) as int));
                    assert(views(items@.push(item)) =~= before.push(item@));
                    if tail is Ok {
                        assert(before + (seq![item@] + tail->Ok_0.0) =~= before.push(item@)
                            + tail->Ok_0.0);
                    }
                    consumed = consumed + used;
                }
                items.push(item);
                rest = next;
                i += 1;
            },
        }
    }
    proof {
        assert(views(items@) + Seq::<Resp2Value>::empty() =~= views(items@));
        assert(input@.skip(header_len as int).skip(consumed as int) =~= input@.skip(
            (header_len + consumed) as int,
        ));
        lemma_array_view(items);
    }
    Ok((rest, Resp2Type::Array(items)))
}

/// Decodes the value at the start of `input` and returns it with the bytes
/// that follow it.
///
/// Arrays nest by recursion, one call per level; the depth of nesting is
/// not bounded here.
pub fn parse<'a>(input: &'a [u8]) -> (r: Result<(&'a [u8], Resp2Type<'a>), DecodeFailure>)
    ensures
        agrees(r, input@, decode(input@)),
    decreases input@.len(), 1nat,
{
    if input.len() == 0 {
        return Err(DecodeFailure::Incomplete);
    }
    let lead = input[0] as char;
    if lead == '+' {
        parse_simple_string(input)
    } else if lead == '-' {
        parse_error(input)
    } else if lead == ':' {
        parse_integer(input)
    } else if lead == '$' {
        match parse_null_string(input) {
            Err(DecodeFailure::Malformed) => parse_bulk_string(input),
            found => found,
        }
    } else if lead == '*' {
        parse_array(input)
    } else {
        Err(DecodeFailure::Malformed)
    }
}

} // verus!
