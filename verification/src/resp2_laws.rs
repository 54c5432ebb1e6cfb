//! What holds of every RESP2 input: how much a value spans, that it does
//! not depend on what follows it, and that it is incomplete wherever it is
//! cut.
use vstd::prelude::*;
use vstd::string::{is_ascii_spec_bytes, StringSliceAdditionalSpecFns};
use crate::failure::DecodeFailure;
use crate::field_laws::{
    is_digit_at, lemma_literal_differs, lemma_literal_local, lemma_literal_patient,
    lemma_literal_terminated,
    lemma_read_field_local, lemma_read_field_patient, lemma_read_field_span,
    lemma_sized_field_local, lemma_sized_field_patient, lemma_sized_field_span, same_start,
    terminated,
};
use crate::resp2::{
    array, bulk_string, decode, error, integer, null_literal, null_string, sequence,
    simple_string, Resp2Value,
};
use crate::utils::{has_prefix, integer_field, read_literal, Content};

verus! {

/// The null string is the five bytes `$`, `-`, `1`, CR, LF.
pub proof fn lemma_null_literal()
    ensures
        null_literal() == seq![36u8, 45u8, 49u8, 13u8, 10u8],
{
    reveal_strlit("$-1\r\n");
    is_ascii_spec_bytes("$-1\r\n");
    assert(null_literal() =~= seq![36u8, 45u8, 49u8, 13u8, 10u8]);
}

/// A value spans at least one byte and no more than there is, and the
/// last two bytes that it spans are the terminator: no value is returned
/// before it has been seen whole.
pub proof fn lemma_decode_span(s: Seq<u8>)
    requires
        decode(s) is Ok,
    ensures
        0 < decode(s)->Ok_0.1 <= s.len(),
        terminated(s, decode(s)->Ok_0.1),
    decreases s.len(), 1nat,
{
    if has_prefix(s, '+') {
        reveal(simple_string);
        lemma_read_field_span(s, '+', Content::Line);
    } else if has_prefix(s, '-') {
        reveal(error);
        lemma_read_field_span(s, '-', Content::Line);
    } else if has_prefix(s, ':') {
        reveal(integer);
        lemma_read_field_span(s, ':', Content::Digits);
    } else if has_prefix(s, '$') {
        reveal(null_string);
        reveal(bulk_string);
        lemma_null_literal();
        if null_string(s) is Err {
            lemma_sized_field_span(s, '$');
        } else {
            lemma_literal_terminated(s, null_literal());
        }
    } else {
        lemma_read_field_span(s, '*', Content::Digits);
        let (count, used) = integer_field(s, '*')->Ok_0;
        lemma_sequence_span(s.skip(used as int), count as nat);
        let more = sequence(s.skip(used as int), count as nat)->Ok_0.1;
        if count > 0 {
            assert(s.skip(used as int)[more - 2] == s[used + more - 2]);
            assert(s.skip(used as int)[more - 1] == s[used + more - 1]);
        }
    }
}

/// A sequence spans no more than there is, and holds as many values as
/// were asked for. Where it holds any, it ends in the terminator; where it
/// holds none, it spans nothing.
pub proof fn lemma_sequence_span(s: Seq<u8>, count: nat)
    requires
        sequence(s, count) is Ok,
    ensures
        sequence(s, count)->Ok_0.1 <= s.len(),
        sequence(s, count)->Ok_0.0.len() == count,
        count > 0 ==> terminated(s, sequence(s, count)->Ok_0.1),
        count == 0 ==> sequence(s, count)->Ok_0.1 == 0,
    decreases s.len(), count + 2,
{
    if count > 0 {
        lemma_decode_span(s);
        let used = decode(s)->Ok_0.1;
        lemma_sequence_span(s.skip(used as int), (count - 1) as nat);
        let more = sequence(s.skip(used as int), (count - 1) as nat)->Ok_0.1;
        if count > 1 {
            assert(s.skip(used as int)[more - 2] == s[used + more - 2]);
            assert(s.skip(used as int)[more - 1] == s[used + more - 1]);
        }
    }
}

/// An array that decodes holds exactly as many values as its count says.
pub proof fn lemma_array_arity(s: Seq<u8>)
    requires
        array(s) is Ok,
    ensures
        array(s)->Ok_0.0 is Array,
        integer_field(s, '*') is Ok,
        array(s)->Ok_0.0->Array_0.len() == integer_field(s, '*')->Ok_0.0,
{
    let (count, used) = integer_field(s, '*')->Ok_0;
    lemma_sequence_span(s.skip(used as int), count as nat);
}

/// The leading byte decides the shape of the value; behind `$`, the byte
/// that follows tells a bulk string, which has a digit there, from the null
/// string.
pub proof fn lemma_shape_by_prefix(s: Seq<u8>)
    requires
        decode(s) is Ok,
    ensures
        decode(s)->Ok_0.0 is String <==> has_prefix(s, '+'),
        decode(s)->Ok_0.0 is Error <==> has_prefix(s, '-'),
        decode(s)->Ok_0.0 is Integer <==> has_prefix(s, ':'),
        decode(s)->Ok_0.0 is BulkString <==> has_prefix(s, '$') && is_digit_at(s, 1),
        decode(s)->Ok_0.0 is Null <==> has_prefix(s, '$') && !is_digit_at(s, 1),
        decode(s)->Ok_0.0 is Array <==> has_prefix(s, '*'),
{
    lemma_decode_span(s);
    reveal(simple_string);
    reveal(error);
    reveal(integer);
    reveal(null_string);
    reveal(bulk_string);
    if has_prefix(s, '$') {
        lemma_null_literal();
        if null_string(s) is Ok {
            assert(s.take(5)[1] == s[1]);
        } else {
            lemma_sized_field_span(s, '$');
        }
    }
}

/// The null string decodes to `Null` whatever follows it.
pub proof fn lemma_null_first(rest: Seq<u8>)
    ensures
        decode(null_literal() + rest) == Ok::<_, DecodeFailure>((Resp2Value::Null, 5nat)),
{
    reveal(null_string);
    lemma_null_literal();
    let s = null_literal() + rest;
    assert(s.take(5) =~= null_literal());
    assert(s[0] == 36u8);
}

/// A value is the same on every input that starts with the bytes it spans.
pub proof fn lemma_decode_local(s: Seq<u8>, t: Seq<u8>)
    requires
        decode(s) is Ok,
        same_start(s, t, decode(s)->Ok_0.1),
    ensures
        decode(t) == decode(s),
    decreases s.len(), 1nat,
{
    lemma_decode_span(s);
    assert(s[0] == t[0]);
    if has_prefix(s, '+') {
        reveal(simple_string);
        lemma_read_field_local(s, t, '+', Content::Line);
    } else if has_prefix(s, '-') {
        reveal(error);
        lemma_read_field_local(s, t, '-', Content::Line);
    } else if has_prefix(s, ':') {
        reveal(integer);
        lemma_read_field_local(s, t, ':', Content::Digits);
    } else if has_prefix(s, '$') {
        reveal(null_string);
        reveal(bulk_string);
        lemma_null_literal();
        if null_string(s) is Ok {
            lemma_literal_local(s, t, null_literal());
        } else {
            lemma_sized_field_span(s, '$');
            lemma_sized_field_local(s, t, '$');
            lemma_literal_differs(s, null_literal(), 1);
            lemma_literal_differs(t, null_literal(), 1);
        }
    } else {
        lemma_read_field_span(s, '*', Content::Digits);
        lemma_read_field_local(s, t, '*', Content::Digits);
        let (count, used) = integer_field(s, '*')->Ok_0;
        let more = sequence(s.skip(used as int), count as nat)->Ok_0.1;
        assert(same_start(s.skip(used as int), t.skip(used as int), more)) by {
            assert forall|i: int| 0 <= i < more implies s.skip(used as int)[i] == t.skip(
                used as int,
            )[i] by {
                assert(s[used + i] == t[used + i]);
            }
        }
        lemma_sequence_local(s.skip(used as int), t.skip(used as int), count as nat);
    }
}

/// A sequence is the same on every input that starts with the bytes it
/// spans.
pub proof fn lemma_sequence_local(s: Seq<u8>, t: Seq<u8>, count: nat)
    requires
        sequence(s, count) is Ok,
        same_start(s, t, sequence(s, count)->Ok_0.1),
    ensures
        sequence(t, count) == sequence(s, count),
    decreases s.len(), count + 2,
{
    if count > 0 {
        lemma_decode_span(s);
        let used = decode(s)->Ok_0.1;
        let more = sequence(s.skip(used as int), (count - 1) as nat)->Ok_0.1;
        lemma_decode_local(s, t);
        assert(same_start(s.skip(used as int), t.skip(used as int), more)) by {
            assert forall|i: int| 0 <= i < more implies s.skip(used as int)[i] == t.skip(
                used as int,
            )[i] by {
                assert(s[used + i] == t[used + i]);
            }
        }
        lemma_sequence_local(s.skip(used as int), t.skip(used as int), (count - 1) as nat);
    }
}

/// A value cut short of its last byte is incomplete: neither malformed
/// nor another value.
pub proof fn lemma_decode_patient(s: Seq<u8>, k: int)
    requires
        decode(s) is Ok,
        0 <= k < decode(s)->Ok_0.1,
    ensures
        decode(s.take(k)) == Err::<(Resp2Value, nat), _>(DecodeFailure::Incomplete),
    decreases s.len(), 1nat,
{
    lemma_decode_span(s);
    let cut = s.take(k);
    if k > 0 {
        assert(cut[0] == s[0]);
        if has_prefix(s, '+') {
            reveal(simple_string);
            lemma_read_field_patient(s, k, '+', Content::Line);
        } else if has_prefix(s, '-') {
            reveal(error);
            lemma_read_field_patient(s, k, '-', Content::Line);
        } else if has_prefix(s, ':') {
            reveal(integer);
            lemma_read_field_patient(s, k, ':', Content::Digits);
        } else if has_prefix(s, '$') {
            reveal(null_string);
            reveal(bulk_string);
            lemma_null_literal();
            if null_string(s) is Ok {
                lemma_literal_patient(s, k, null_literal());
            } else {
                lemma_sized_field_patient(s, k, '$');
                if read_literal(cut, null_literal()) is Ok {
                    assert(s.take(5) =~= cut.take(5));
                }
            }
        } else {
            let (count, used) = integer_field(s, '*')->Ok_0;
            if k < used {
                lemma_read_field_patient(s, k, '*', Content::Digits);
            } else {
                lemma_read_field_local(s, cut, '*', Content::Digits);
                assert(cut.skip(used as int) =~= s.skip(used as int).take(k - used));
                lemma_sequence_patient(s.skip(used as int), k - used, count as nat);
            }
        }
    }
}

/// A sequence cut short of its last byte is incomplete.
pub proof fn lemma_sequence_patient(s: Seq<u8>, k: int, count: nat)
    requires
        sequence(s, count) is Ok,
        0 <= k < sequence(s, count)->Ok_0.1,
    ensures
        sequence(s.take(k), count) == Err::<(Seq<Resp2Value>, nat), _>(
            DecodeFailure::Incomplete,
        ),
    decreases s.len(), count + 2,
{
    lemma_sequence_span(s, count);
    lemma_decode_span(s);
    let used = decode(s)->Ok_0.1;
    let cut = s.take(k);
    if k < used {
        lemma_decode_patient(s, k);
    } else {
        lemma_decode_local(s, cut);
        assert(cut.skip(used as int) =~= s.skip(used as int).take(k - used));
        lemma_sequence_patient(s.skip(used as int), k - used, (count - 1) as nat);
    }
}

/// Values that stand one behind the other decode one after the other: a
/// buffer that starts with a whole value yields that value, and what
/// remains is exactly what stood behind it.
pub proof fn lemma_decode_chain(first: Seq<u8>, more: Seq<u8>)
    requires
        decode(first) is Ok,
        decode(first)->Ok_0.1 == first.len(),
    ensures
        decode(first + more) == decode(first),
        (first + more).skip(first.len() as int) == more,
{
    lemma_decode_local(first, first + more);
    assert((first + more).skip(first.len() as int) =~= more);
}

/// A buffer made of `count + 1` whole values, the first of them `first`,
/// is consumed to its end as a sequence of that many values.
pub proof fn lemma_sequence_chain(first: Seq<u8>, others: Seq<u8>, count: nat)
    requires
        decode(first) is Ok,
        decode(first)->Ok_0.1 == first.len(),
        sequence(others, count) is Ok,
        sequence(others, count)->Ok_0.1 == others.len(),
    ensures
        sequence(first + others, count + 1) == Ok::<_, DecodeFailure>(
            (
                seq![decode(first)->Ok_0.0] + sequence(others, count)->Ok_0.0,
                first.len() + others.len(),
            ),
        ),
{
    lemma_decode_chain(first, others);
}

} // verus!
