//! What holds of every RESP3 input: how much a value spans, that it does
//! not depend on what follows it, and that it is incomplete wherever it is
//! cut.
use vstd::prelude::*;
use vstd::string::{is_ascii_spec_bytes, StringSliceAdditionalSpecFns};
use crate::failure::DecodeFailure;
use crate::field_laws::{
    is_digit_at, lemma_integer_field_span, lemma_literal_differs, lemma_literal_local,
    lemma_literal_patient, lemma_literal_terminated,
    lemma_read_field_local, lemma_read_field_patient, lemma_read_field_span,
    lemma_sized_field_local, lemma_sized_field_patient, lemma_sized_field_span, same_start,
    terminated,
};
use crate::resp3::{
    array, attribute, big_number, blob_error, blob_string, boolean, counted, decode, double,
    error, hash_map, hash_set, marker, null, number, push, sequence, simple_string,
    stream_array, stream_end, stream_map, stream_set, verbatim_format, verbatim_string,
    Resp3Value, VerbatimStringFormat,
};
use crate::utils::{has_prefix, integer_field, sized_field, Content};

verus! {

/// The bytes of the markers.
pub proof fn lemma_markers()
    ensures
        "_\r\n".spec_bytes() == seq![95u8, 13u8, 10u8],
        "#t\r\n".spec_bytes() == seq![35u8, 116u8, 13u8, 10u8],
        "#f\r\n".spec_bytes() == seq![35u8, 102u8, 13u8, 10u8],
        "*?\r\n".spec_bytes() == seq![42u8, 63u8, 13u8, 10u8],
        "~?\r\n".spec_bytes() == seq![126u8, 63u8, 13u8, 10u8],
        "%?\r\n".spec_bytes() == seq![37u8, 63u8, 13u8, 10u8],
        ".\r\n".spec_bytes() == seq![46u8, 13u8, 10u8],
{
    reveal_strlit("_\r\n");
    reveal_strlit("#t\r\n");
    reveal_strlit("#f\r\n");
    reveal_strlit("*?\r\n");
    reveal_strlit("~?\r\n");
    reveal_strlit("%?\r\n");
    reveal_strlit(".\r\n");
    is_ascii_spec_bytes("_\r\n");
    is_ascii_spec_bytes("#t\r\n");
    is_ascii_spec_bytes("#f\r\n");
    is_ascii_spec_bytes("*?\r\n");
    is_ascii_spec_bytes("~?\r\n");
    is_ascii_spec_bytes("%?\r\n");
    is_ascii_spec_bytes(".\r\n");
    assert("_\r\n".spec_bytes() =~= seq![95u8, 13u8, 10u8]);
    assert("#t\r\n".spec_bytes() =~= seq![35u8, 116u8, 13u8, 10u8]);
    assert("#f\r\n".spec_bytes() =~= seq![35u8, 102u8, 13u8, 10u8]);
    assert("*?\r\n".spec_bytes() =~= seq![42u8, 63u8, 13u8, 10u8]);
    assert("~?\r\n".spec_bytes() =~= seq![126u8, 63u8, 13u8, 10u8]);
    assert("%?\r\n".spec_bytes() =~= seq![37u8, 63u8, 13u8, 10u8]);
    assert(".\r\n".spec_bytes() =~= seq![46u8, 13u8, 10u8]);
}

/// What tells the markers apart from the counts and from one another: the
/// second byte of each, which is no digit.
pub proof fn lemma_second_bytes()
    ensures
        "_\r\n".spec_bytes().len() == 3,
        ".\r\n".spec_bytes().len() == 3,
        "#t\r\n".spec_bytes().len() == 4 && "#t\r\n".spec_bytes()[1] == 116,
        "#f\r\n".spec_bytes().len() == 4 && "#f\r\n".spec_bytes()[1] == 102,
        "*?\r\n".spec_bytes().len() == 4 && "*?\r\n".spec_bytes()[1] == 63,
        "~?\r\n".spec_bytes().len() == 4 && "~?\r\n".spec_bytes()[1] == 63,
        "%?\r\n".spec_bytes().len() == 4 && "%?\r\n".spec_bytes()[1] == 63,
{
    lemma_markers();
}

/// Every marker ends in the terminator.
pub proof fn lemma_markers_terminated()
    ensures
        ends_terminated("_\r\n"),
        ends_terminated(".\r\n"),
        ends_terminated("#t\r\n"),
        ends_terminated("#f\r\n"),
        ends_terminated("*?\r\n"),
        ends_terminated("~?\r\n"),
        ends_terminated("%?\r\n"),
{
    lemma_markers();
}

/// The last two bytes of `literal` are the terminator.
pub open spec fn ends_terminated(literal: &str) -> bool {
    terminated(literal.spec_bytes(), literal.spec_bytes().len())
}

/// Where a marker is present, the last two bytes that it spans are the
/// terminator.
pub proof fn lemma_marker_terminated(s: Seq<u8>, literal: &str, value: Resp3Value)
    requires
        marker(s, literal, value) is Ok,
        ends_terminated(literal),
    ensures
        terminated(s, marker(s, literal, value)->Ok_0.1),
{
    lemma_literal_terminated(s, literal.spec_bytes());
}

/// The bytes of the two format tags of a verbatim string.
pub proof fn lemma_format_tags()
    ensures
        "txt:".spec_bytes() == seq![116u8, 120u8, 116u8, 58u8],
        "mkd:".spec_bytes() == seq![109u8, 107u8, 100u8, 58u8],
{
    reveal_strlit("txt:");
    reveal_strlit("mkd:");
    is_ascii_spec_bytes("txt:");
    is_ascii_spec_bytes("mkd:");
    assert("txt:".spec_bytes() =~= seq![116u8, 120u8, 116u8, 58u8]);
    assert("mkd:".spec_bytes() =~= seq![109u8, 107u8, 100u8, 58u8]);
}

/// A marker is the same on every input that starts with its bytes.
pub proof fn lemma_marker_local(s: Seq<u8>, t: Seq<u8>, literal: &str, value: Resp3Value)
    requires
        marker(s, literal, value) is Ok,
        same_start(s, t, marker(s, literal, value)->Ok_0.1),
    ensures
        marker(t, literal, value) == marker(s, literal, value),
{
    lemma_literal_local(s, t, literal.spec_bytes());
}

/// A marker cut short of its last byte is incomplete.
pub proof fn lemma_marker_patient(s: Seq<u8>, k: int, literal: &str, value: Resp3Value)
    requires
        marker(s, literal, value) is Ok,
        0 <= k < marker(s, literal, value)->Ok_0.1,
    ensures
        marker(s.take(k), literal, value) == Err::<(Resp3Value, nat), _>(
            DecodeFailure::Incomplete,
        ),
{
    lemma_literal_patient(s, k, literal.spec_bytes());
}

/// A marker that is present on a part of `s` is present on `s`.
pub proof fn lemma_marker_grows(s: Seq<u8>, k: int, literal: &str, value: Resp3Value)
    requires
        0 <= k <= s.len(),
        marker(s.take(k), literal, value) is Ok,
    ensures
        marker(s, literal, value) is Ok,
{
    let n = literal.spec_bytes().len() as int;
    assert(s.take(n) =~= s.take(k).take(n));
}

/// A value spans at least one byte and no more than there is, and the
/// last two bytes that it spans are the terminator: no value is returned
/// before it has been seen whole.
pub proof fn lemma_decode_span(s: Seq<u8>)
    requires
        decode(s) is Ok,
    ensures
        0 < decode(s)->Ok_0.1 <= s.len(),
        terminated(s, decode(s)->Ok_0.1),
    decreases s.len(), 2nat,
{
    lemma_markers_terminated();
    if has_prefix(s, '$') {
        reveal(blob_string);
        lemma_sized_field_span(s, '$');
    } else if has_prefix(s, '+') {
        reveal(simple_string);
        lemma_read_field_span(s, '+', Content::Line);
    } else if has_prefix(s, '-') {
        reveal(error);
        lemma_read_field_span(s, '-', Content::Line);
    } else if has_prefix(s, ':') {
        reveal(number);
        lemma_read_field_span(s, ':', Content::Digits);
    } else if has_prefix(s, '_') {
        reveal(null);
        lemma_marker_terminated(s, "_\r\n", Resp3Value::Null);
    } else if has_prefix(s, ',') {
        reveal(double);
        lemma_read_field_span(s, ',', Content::Line);
    } else if has_prefix(s, '#') {
        reveal(boolean);
        if marker(s, "#t\r\n", Resp3Value::Boolean(true)) is Ok {
            lemma_marker_terminated(s, "#t\r\n", Resp3Value::Boolean(true));
        } else {
            lemma_marker_terminated(s, "#f\r\n", Resp3Value::Boolean(false));
        }
    } else if has_prefix(s, '!') {
        reveal(blob_error);
        lemma_sized_field_span(s, '!');
    } else if has_prefix(s, '=') {
        reveal(verbatim_string);
        lemma_sized_field_span(s, '=');
    } else if has_prefix(s, '(') {
        reveal(big_number);
        lemma_read_field_span(s, '(', Content::Digits);
    } else if has_prefix(s, '*') {
        reveal(stream_array);
        if stream_array(s) is Err {
            lemma_counted_span(s, '*');
        } else {
            lemma_marker_terminated(s, "*?\r\n", Resp3Value::StreamArray);
        }
    } else if has_prefix(s, '%') {
        reveal(stream_map);
        reveal(hash_map);
        if stream_map(s) is Err {
            lemma_read_field_span(s, '%', Content::Digits);
        } else {
            lemma_marker_terminated(s, "%?\r\n", Resp3Value::StreamMap);
        }
    } else if has_prefix(s, '~') {
        reveal(stream_set);
        reveal(hash_set);
        if stream_set(s) is Err {
            lemma_read_field_span(s, '~', Content::Digits);
        } else {
            lemma_marker_terminated(s, "~?\r\n", Resp3Value::StreamSet);
        }
    } else if has_prefix(s, '|') {
        reveal(attribute);
        lemma_read_field_span(s, '|', Content::Digits);
    } else if has_prefix(s, '>') {
        lemma_counted_span(s, '>');
    } else {
        reveal(stream_end);
        lemma_marker_terminated(s, ".\r\n", Resp3Value::StreamEnd);
    }
}

/// A sequence spans no more than there is, and holds as many values as
/// were asked for. Where it holds any, it ends in the terminator; where it
/// holds none, it spans nothing.
pub proof fn lemma_sequence_span(s: Seq<u8>, count: nat)
    requires
        sequence(s, count) is Ok,
    ensures
        sequence(s, count)->Ok_0.1 <= s.len(),
        sequence(s, count)->Ok_0.0.len() == count,
        count > 0 ==> terminated(s, sequence(s, count)->Ok_0.1),
        count == 0 ==> sequence(s, count)->Ok_0.1 == 0,
    decreases s.len(), count + 2,
{
    if count > 0 {
        lemma_decode_span(s);
        let used = decode(s)->Ok_0.1;
        lemma_sequence_span(s.skip(used as int), (count - 1) as nat);
        let more = sequence(s.skip(used as int), (count - 1) as nat)->Ok_0.1;
        if count > 1 {
            assert(s.skip(used as int)[more - 2] == s[used + more - 2]);
            assert(s.skip(used as int)[more - 1] == s[used + more - 1]);
        }
    }
}

/// A counted sequence spans at least its count and no more than there is,
/// holds exactly as many values as its count says, and ends in the
/// terminator.
pub proof fn lemma_counted_span(s: Seq<u8>, prefix: char)
    requires
        counted(s, prefix) is Ok,
    ensures
        4 <= counted(s, prefix)->Ok_0.1 <= s.len(),
        integer_field(s, prefix) is Ok,
        counted(s, prefix)->Ok_0.0.len() == integer_field(s, prefix)->Ok_0.0,
        terminated(s, counted(s, prefix)->Ok_0.1),
    decreases s.len(), 0nat,
{
    lemma_read_field_span(s, prefix, Content::Digits);
    let (count, used) = integer_field(s, prefix)->Ok_0;
    lemma_sequence_span(s.skip(used as int), count as nat);
    let more = sequence(s.skip(used as int), count as nat)->Ok_0.1;
    if count > 0 {
        assert(s.skip(used as int)[more - 2] == s[used + more - 2]);
        assert(s.skip(used as int)[more - 1] == s[used + more - 1]);
    }
}

/// A value is the same on every input that starts with the bytes it spans.
pub proof fn lemma_decode_local(s: Seq<u8>, t: Seq<u8>)
    requires
        decode(s) is Ok,
        same_start(s, t, decode(s)->Ok_0.1),
    ensures
        decode(t) == decode(s),
    decreases s.len(), 2nat,
{
    lemma_decode_span(s);
    lemma_second_bytes();
    assert(s[0] == t[0]);
    if has_prefix(s, '$') {
        reveal(blob_string);
        lemma_sized_field_local(s, t, '$');
    } else if has_prefix(s, '+') {
        reveal(simple_string);
        lemma_read_field_local(s, t, '+', Content::Line);
    } else if has_prefix(s, '-') {
        reveal(error);
        lemma_read_field_local(s, t, '-', Content::Line);
    } else if has_prefix(s, ':') {
        reveal(number);
        lemma_read_field_local(s, t, ':', Content::Digits);
    } else if has_prefix(s, '_') {
        reveal(null);
        lemma_marker_local(s, t, "_\r\n", Resp3Value::Null);
    } else if has_prefix(s, ',') {
        reveal(double);
        lemma_read_field_local(s, t, ',', Content::Line);
    } else if has_prefix(s, '#') {
        reveal(boolean);
        if marker(s, "#t\r\n", Resp3Value::Boolean(true)) is Ok {
            lemma_marker_local(s, t, "#t\r\n", Resp3Value::Boolean(true));
        } else {
            lemma_marker_local(s, t, "#f\r\n", Resp3Value::Boolean(false));
            assert(s.take(4)[1] == s[1]);
            lemma_literal_differs(t, "#t\r\n".spec_bytes(), 1);
        }
    } else if has_prefix(s, '!') {
        reveal(blob_error);
        lemma_sized_field_local(s, t, '!');
    } else if has_prefix(s, '=') {
        reveal(verbatim_string);
        lemma_sized_field_local(s, t, '=');
    } else if has_prefix(s, '(') {
        reveal(big_number);
        lemma_read_field_local(s, t, '(', Content::Digits);
    } else if has_prefix(s, '*') {
        reveal(stream_array);
        if stream_array(s) is Ok {
            lemma_marker_local(s, t, "*?\r\n", Resp3Value::StreamArray);
        } else {
            lemma_counted_local(s, t, '*');
            lemma_integer_field_span(s, '*');
            lemma_literal_differs(t, "*?\r\n".spec_bytes(), 1);
        }
    } else if has_prefix(s, '%') {
        reveal(stream_map);
        reveal(hash_map);
        if stream_map(s) is Ok {
            lemma_marker_local(s, t, "%?\r\n", Resp3Value::StreamMap);
        } else {
            lemma_read_field_local(s, t, '%', Content::Digits);
            lemma_integer_field_span(s, '%');
            lemma_literal_differs(t, "%?\r\n".spec_bytes(), 1);
        }
    } else if has_prefix(s, '~') {
        reveal(stream_set);
        reveal(hash_set);
        if stream_set(s) is Ok {
            lemma_marker_local(s, t, "~?\r\n", Resp3Value::StreamSet);
        } else {
            lemma_read_field_local(s, t, '~', Content::Digits);
            lemma_integer_field_span(s, '~');
            lemma_literal_differs(t, "~?\r\n".spec_bytes(), 1);
        }
    } else if has_prefix(s, '|') {
        reveal(attribute);
        lemma_read_field_local(s, t, '|', Content::Digits);
    } else if has_prefix(s, '>') {
        lemma_counted_local(s, t, '>');
    } else {
        reveal(stream_end);
        lemma_marker_local(s, t, ".\r\n", Resp3Value::StreamEnd);
    }
}

/// A sequence is the same on every input that starts with the bytes it
/// spans.
pub proof fn lemma_sequence_local(s: Seq<u8>, t: Seq<u8>, count: nat)
    requires
        sequence(s, count) is Ok,
        same_start(s, t, sequence(s, count)->Ok_0.1),
    ensures
        sequence(t, count) == sequence(s, count),
    decreases s.len(), count + 2,
{
    if count > 0 {
        lemma_decode_span(s);
        let used = decode(s)->Ok_0.1;
        let more = sequence(s.skip(used as int), (count - 1) as nat)->Ok_0.1;
        lemma_decode_local(s, t);
        assert(same_start(s.skip(used as int), t.skip(used as int), more)) by {
            assert forall|i: int| 0 <= i < more implies s.skip(used as int)[i] == t.skip(
                used as int,
            )[i] by {
                assert(s[used + i] == t[used + i]);
            }
        }
        lemma_sequence_local(s.skip(used as int), t.skip(used as int), (count - 1) as nat);
    }
}

/// A counted sequence is the same on every input that starts with the
/// bytes it spans.
pub proof fn lemma_counted_local(s: Seq<u8>, t: Seq<u8>, prefix: char)
    requires
        counted(s, prefix) is Ok,
        same_start(s, t, counted(s, prefix)->Ok_0.1),
    ensures
        counted(t, prefix) == counted(s, prefix),
    decreases s.len(), 0nat,
{
    lemma_read_field_span(s, prefix, Content::Digits);
    lemma_read_field_local(s, t, prefix, Content::Digits);
    let (count, used) = integer_field(s, prefix)->Ok_0;
    let more = sequence(s.skip(used as int), count as nat)->Ok_0.1;
    assert(same_start(s.skip(used as int), t.skip(used as int), more)) by {
        assert forall|i: int| 0 <= i < more implies s.skip(used as int)[i] == t.skip(
            used as int,
        )[i] by {
            assert(s[used + i] == t[used + i]);
        }
    }
    lemma_sequence_local(s.skip(used as int), t.skip(used as int), count as nat);
}

/// A value cut short of its last byte is incomplete: neither malformed
/// nor another value.
pub proof fn lemma_decode_patient(s: Seq<u8>, k: int)
    requires
        decode(s) is Ok,
        0 <= k < decode(s)->Ok_0.1,
    ensures
        decode(s.take(k)) == Err::<(Resp3Value, nat), _>(DecodeFailure::Incomplete),
    decreases s.len(), 2nat,
{
    lemma_decode_span(s);
    let cut = s.take(k);
    if k > 0 {
        assert(cut[0] == s[0]);
        if has_prefix(s, '$') {
            reveal(blob_string);
            lemma_sized_field_patient(s, k, '$');
        } else if has_prefix(s, '+') {
            reveal(simple_string);
            lemma_read_field_patient(s, k, '+', Content::Line);
        } else if has_prefix(s, '-') {
            reveal(error);
            lemma_read_field_patient(s, k, '-', Content::Line);
        } else if has_prefix(s, ':') {
            reveal(number);
            lemma_read_field_patient(s, k, ':', Content::Digits);
        } else if has_prefix(s, '_') {
            reveal(null);
            lemma_marker_patient(s, k, "_\r\n", Resp3Value::Null);
        } else if has_prefix(s, ',') {
            reveal(double);
            lemma_read_field_patient(s, k, ',', Content::Line);
        } else if has_prefix(s, '#') {
            reveal(boolean);
            if marker(s, "#t\r\n", Resp3Value::Boolean(true)) is Ok {
                lemma_marker_patient(s, k, "#t\r\n", Resp3Value::Boolean(true));
            } else {
                lemma_marker_patient(s, k, "#f\r\n", Resp3Value::Boolean(false));
                if marker(cut, "#t\r\n", Resp3Value::Boolean(true)) is Ok {
                    lemma_marker_grows(s, k, "#t\r\n", Resp3Value::Boolean(true));
                }
            }
        } else if has_prefix(s, '!') {
            reveal(blob_error);
            lemma_sized_field_patient(s, k, '!');
        } else if has_prefix(s, '=') {
            reveal(verbatim_string);
            lemma_sized_field_patient(s, k, '=');
        } else if has_prefix(s, '(') {
            reveal(big_number);
            lemma_read_field_patient(s, k, '(', Content::Digits);
        } else if has_prefix(s, '*') {
            reveal(stream_array);
            if stream_array(s) is Ok {
                lemma_marker_patient(s, k, "*?\r\n", Resp3Value::StreamArray);
            } else {
                lemma_counted_patient(s, k, '*');
                if stream_array(cut) is Ok {
                    lemma_marker_grows(s, k, "*?\r\n", Resp3Value::StreamArray);
                }
            }
        } else if has_prefix(s, '%') {
            reveal(stream_map);
            reveal(hash_map);
            if stream_map(s) is Ok {
                lemma_marker_patient(s, k, "%?\r\n", Resp3Value::StreamMap);
            } else {
                lemma_read_field_patient(s, k, '%', Content::Digits);
                if stream_map(cut) is Ok {
                    lemma_marker_grows(s, k, "%?\r\n", Resp3Value::StreamMap);
                }
            }
        } else if has_prefix(s, '~') {
            reveal(stream_set);
            reveal(hash_set);
            if stream_set(s) is Ok {
                lemma_marker_patient(s, k, "~?\r\n", Resp3Value::StreamSet);
            } else {
                lemma_read_field_patient(s, k, '~', Content::Digits);
                if stream_set(cut) is Ok {
                    lemma_marker_grows(s, k, "~?\r\n", Resp3Value::StreamSet);
                }
            }
        } else if has_prefix(s, '|') {
            reveal(attribute);
            lemma_read_field_patient(s, k, '|', Content::Digits);
        } else if has_prefix(s, '>') {
            lemma_counted_patient(s, k, '>');
        } else {
            reveal(stream_end);
            lemma_marker_patient(s, k, ".\r\n", Resp3Value::StreamEnd);
        }
    }
}

/// A sequence cut short of its last byte is incomplete.
pub proof fn lemma_sequence_patient(s: Seq<u8>, k: int, count: nat)
    requires
        sequence(s, count) is Ok,
        0 <= k < sequence(s, count)->Ok_0.1,
    ensures
        sequence(s.take(k), count) == Err::<(Seq<Resp3Value>, nat), _>(
            DecodeFailure::Incomplete,
        ),
    decreases s.len(), count + 2,
{
    lemma_sequence_span(s, count);
    lemma_decode_span(s);
    let used = decode(s)->Ok_0.1;
    let cut = s.take(k);
    if k < used {
        lemma_decode_patient(s, k);
    } else {
        lemma_decode_local(s, cut);
        assert(cut.skip(used as int) =~= s.skip(used as int).take(k - used));
        lemma_sequence_patient(s.skip(used as int), k - used, (count - 1) as nat);
    }
}

/// A counted sequence cut short of its last byte is incomplete.
pub proof fn lemma_counted_patient(s: Seq<u8>, k: int, prefix: char)
    requires
        counted(s, prefix) is Ok,
        0 <= k < counted(s, prefix)->Ok_0.1,
    ensures
        counted(s.take(k), prefix) == Err::<(Seq<Resp3Value>, nat), _>(
            DecodeFailure::Incomplete,
        ),
    decreases s.len(), 0nat,
{
    lemma_counted_span(s, prefix);
    let (count, used) = integer_field(s, prefix)->Ok_0;
    let cut = s.take(k);
    if k < used {
        lemma_read_field_patient(s, k, prefix, Content::Digits);
    } else {
        lemma_read_field_local(s, cut, prefix, Content::Digits);
        assert(cut.skip(used as int) =~= s.skip(used as int).take(k - used));
        lemma_sequence_patient(s.skip(used as int), k - used, count as nat);
    }
}

/// Values that stand one behind the other decode one after the other: a
/// buffer that starts with a whole value yields that value, and what
/// remains is exactly what stood behind it.
pub proof fn lemma_decode_chain(first: Seq<u8>, more: Seq<u8>)
    requires
        decode(first) is Ok,
        decode(first)->Ok_0.1 == first.len(),
    ensures
        decode(first + more) == decode(first),
        (first + more).skip(first.len() as int) == more,
{
    lemma_decode_local(first, first + more);
    assert((first + more).skip(first.len() as int) =~= more);
}

/// A buffer made of `count + 1` whole values, the first of them `first`,
/// is consumed to its end as a sequence of that many values.
pub proof fn lemma_sequence_chain(first: Seq<u8>, others: Seq<u8>, count: nat)
    requires
        decode(first) is Ok,
        decode(first)->Ok_0.1 == first.len(),
        sequence(others, count) is Ok,
        sequence(others, count)->Ok_0.1 == others.len(),
    ensures
        sequence(first + others, count + 1) == Ok::<_, DecodeFailure>(
            (
                seq![decode(first)->Ok_0.0] + sequence(others, count)->Ok_0.0,
                first.len() + others.len(),
            ),
        ),
{
    lemma_decode_chain(first, others);
}

/// An array or a push that decodes holds exactly as many values as its
/// count says.
pub proof fn lemma_array_arity(s: Seq<u8>)
    ensures
        array(s) is Ok ==> integer_field(s, '*') is Ok && array(s)->Ok_0.0 is Array && array(
            s,
        )->Ok_0.0->Array_0.len() == integer_field(s, '*')->Ok_0.0,
        push(s) is Ok ==> integer_field(s, '>') is Ok && push(s)->Ok_0.0 is Array && push(
            s,
        )->Ok_0.0->Array_0.len() == integer_field(s, '>')->Ok_0.0,
{
    if array(s) is Ok {
        lemma_counted_span(s, '*');
    }
    if push(s) is Ok {
        lemma_counted_span(s, '>');
    }
}

/// The leading byte decides the shape of the value, together with the
/// byte behind it where a marker and a count share the leading byte.
pub proof fn lemma_shape_by_prefix(s: Seq<u8>)
    requires
        decode(s) is Ok,
    ensures
        decode(s)->Ok_0.0 is Blob <==> has_prefix(s, '$'),
        decode(s)->Ok_0.0 is String <==> has_prefix(s, '+'),
        decode(s)->Ok_0.0 is Error <==> has_prefix(s, '-'),
        decode(s)->Ok_0.0 is Number <==> has_prefix(s, ':'),
        decode(s)->Ok_0.0 is Null <==> has_prefix(s, '_'),
        decode(s)->Ok_0.0 is Double <==> has_prefix(s, ','),
        decode(s)->Ok_0.0 is Boolean <==> has_prefix(s, '#'),
        decode(s)->Ok_0.0 is BlobError <==> has_prefix(s, '!'),
        decode(s)->Ok_0.0 is VerbatimString <==> has_prefix(s, '='),
        decode(s)->Ok_0.0 is BigNumber <==> has_prefix(s, '('),
        decode(s)->Ok_0.0 is Array <==> (has_prefix(s, '*') && is_digit_at(s, 1)) || has_prefix(
            s,
            '>',
        ),
        decode(s)->Ok_0.0 is HashMap <==> has_prefix(s, '%') && is_digit_at(s, 1),
        decode(s)->Ok_0.0 is HashSet <==> has_prefix(s, '~') && is_digit_at(s, 1),
        decode(s)->Ok_0.0 is Attribute <==> has_prefix(s, '|'),
        !(decode(s)->Ok_0.0 is Push),
        decode(s)->Ok_0.0 is StreamArray <==> has_prefix(s, '*') && !is_digit_at(s, 1),
        decode(s)->Ok_0.0 is StreamMap <==> has_prefix(s, '%') && !is_digit_at(s, 1),
        decode(s)->Ok_0.0 is StreamSet <==> has_prefix(s, '~') && !is_digit_at(s, 1),
        decode(s)->Ok_0.0 is StreamEnd <==> has_prefix(s, '.'),
{
    lemma_second_bytes();
    if has_prefix(s, '$') {
        reveal(blob_string);
    } else if has_prefix(s, '+') {
        reveal(simple_string);
    } else if has_prefix(s, '-') {
        reveal(error);
    } else if has_prefix(s, ':') {
        reveal(number);
    } else if has_prefix(s, '_') {
        reveal(null);
    } else if has_prefix(s, ',') {
        reveal(double);
    } else if has_prefix(s, '#') {
        reveal(boolean);
    } else if has_prefix(s, '!') {
        reveal(blob_error);
    } else if has_prefix(s, '=') {
        reveal(verbatim_string);
    } else if has_prefix(s, '(') {
        reveal(big_number);
    } else if has_prefix(s, '*') {
        reveal(stream_array);
        if stream_array(s) is Ok {
            assert(s.take(4)[1] == s[1]);
        } else {
            lemma_integer_field_span(s, '*');
        }
    } else if has_prefix(s, '%') {
        reveal(stream_map);
        reveal(hash_map);
        if stream_map(s) is Ok {
            assert(s.take(4)[1] == s[1]);
        } else {
            lemma_integer_field_span(s, '%');
        }
    } else if has_prefix(s, '~') {
        reveal(stream_set);
        reveal(hash_set);
        if stream_set(s) is Ok {
            assert(s.take(4)[1] == s[1]);
        } else {
            lemma_integer_field_span(s, '~');
        }
    } else if has_prefix(s, '|') {
        reveal(attribute);
    } else if has_prefix(s, '>') {
    } else {
        reveal(stream_end);
    }
}

/// A verbatim string whose body starts with neither `txt:` nor `mkd:` is
/// malformed, whatever else it holds.
pub proof fn lemma_verbatim_needs_format(s: Seq<u8>)
    requires
        sized_field(s, '=') is Ok,
        verbatim_format(sized_field(s, '=')->Ok_0.0) is None,
    ensures
        decode(s) == Err::<(Resp3Value, nat), _>(DecodeFailure::Malformed),
{
    reveal(verbatim_string);
    lemma_sized_field_span(s, '=');
}

/// The body of a verbatim string names a format exactly where it starts
/// with the three letters of one and a colon.
pub proof fn lemma_verbatim_format(body: Seq<u8>)
    ensures
        verbatim_format(body) matches Some((format, tag)) ==> tag == 4,
        verbatim_format(body) is Some <==> body.len() >= 4 && body[3] == 58 && ({
            ||| (body[0] == 116 && body[1] == 120 && body[2] == 116)
            ||| (body[0] == 109 && body[1] == 107 && body[2] == 100)
        }),
        verbatim_format(body) matches Some((format, tag)) ==> (format
            == VerbatimStringFormat::Text <==> body[0] == 116),
{
    lemma_format_tags();
    let txt = "txt:".spec_bytes();
    let mkd = "mkd:".spec_bytes();
    if body.len() >= 4 {
        let head = body.take(4);
        assert(head[0] == body[0] && head[1] == body[1] && head[2] == body[2] && head[3]
            == body[3]);
        if body[3] == 58 && body[0] == 116 && body[1] == 120 && body[2] == 116 {
            assert(head =~= txt);
        }
        if body[3] == 58 && body[0] == 109 && body[1] == 107 && body[2] == 100 {
            assert(head =~= mkd);
        }
    }
}

} // verus!
