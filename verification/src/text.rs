//! Text among the bytes: UTF-8 as the standard library checks it, and the
//! parting of an error's text into code and message.
use vstd::prelude::*;
use vstd::string::StringSliceAdditionalSpecFns;
use vstd::utf8::{
    decode_utf8, encode_utf8, encode_utf8_decode_utf8, encode_utf8_valid_utf8, is_ascii_chars,
    is_ascii_chars_encode_utf8, is_char_boundary, is_char_boundary_iff_not_is_continuation_byte,
    is_char_boundary_start_end_of_seq, pop_first_scalar, valid_utf8, valid_utf8_split,
};

verus! {

/// The error of `core::str::from_utf8`, carried through unopened.
#[verifier::external_type_specification]
#[verifier::external_body]
pub struct ExUtf8Error(core::str::Utf8Error);

/// `core::str::from_utf8` succeeds exactly on well-formed UTF-8, and the
/// text it returns is made of the very bytes it was given.
pub assume_specification<'a>[ core::str::from_utf8 ](v: &'a [u8]) -> (r: Result<
    &'a str,
    core::str::Utf8Error,
>)
    ensures
        r is Ok <==> valid_utf8(v@),
        r matches Ok(s) ==> s.spec_bytes() == v@,
;

/// Every byte is below 128.
pub open spec fn is_ascii_bytes(bytes: Seq<u8>) -> bool {
    forall|i: int| 0 <= i < bytes.len() ==> #[trigger] bytes[i] < 128
}

/// The characters whose codes are the given bytes.
pub open spec fn ascii_chars(bytes: Seq<u8>) -> Seq<char> {
    Seq::new(bytes.len(), |i: int| bytes[i] as char)
}

/// ASCII bytes are well-formed UTF-8, and each of them encodes the
/// character that has its code.
pub proof fn lemma_ascii_is_utf8(bytes: Seq<u8>)
    requires
        is_ascii_bytes(bytes),
    ensures
        valid_utf8(bytes),
        decode_utf8(bytes) == ascii_chars(bytes),
{
    let chars = ascii_chars(bytes);
    assert(is_ascii_chars(chars));
    is_ascii_chars_encode_utf8(chars);
    assert(encode_utf8(chars) =~= bytes);
    encode_utf8_valid_utf8(chars);
    encode_utf8_decode_utf8(chars);
}

/// Borrows `bytes` as text where they are well-formed UTF-8.
pub fn as_text<'a>(bytes: &'a [u8]) -> (r: Option<&'a str>)
    ensures
        r is Some <==> valid_utf8(bytes@),
        r matches Some(s) ==> s@ == decode_utf8(bytes@) && s.spec_bytes() == bytes@,
{
    match core::str::from_utf8(bytes) {
        Ok(s) => {
            proof {
                encode_utf8_decode_utf8(s@);
            }
            Some(s)
        },
        Err(_) => None,
    }
}

/// The byte that parts the code of an error from its message.
pub const SPACE: u8 = 32;

/// The text before the first space of `bytes`, or all of it where there is
/// no space.
pub open spec fn before_space(bytes: Seq<u8>) -> Seq<char> {
    match bytes.index_of_first(SPACE) {
        Some(at) => decode_utf8(bytes.take(at)),
        None => decode_utf8(bytes),
    }
}

/// The text behind the first space of `bytes`, empty where there is no
/// space.
pub open spec fn behind_space(bytes: Seq<u8>) -> Seq<char> {
    match bytes.index_of_first(SPACE) {
        Some(at) => decode_utf8(bytes.skip(at + 1)),
        None => Seq::empty(),
    }
}

/// Parts `text` at its first space, which belongs to neither part.
pub fn split_at_space<'a>(text: &'a str) -> (r: (&'a str, &'a str))
    ensures
        r.0@ == before_space(text.spec_bytes()),
        r.1@ == behind_space(text.spec_bytes()),
{
    let bytes = text.as_bytes();
    let mut at: usize = 0;
    while at < bytes.len() && bytes[at] != SPACE
        invariant
            at <= bytes@.len(),
            forall|i: int| 0 <= i < at ==> bytes@[i] != SPACE,
        decreases bytes@.len() - at,
    {
        at += 1;
    }
    proof {
        bytes@.index_of_first_ensures(SPACE);
        encode_utf8_valid_utf8(text@);
        encode_utf8_decode_utf8(text@);
    }
    if at == bytes.len() {
        proof {
            reveal_strlit("");
            assert(!bytes@.contains(SPACE));
            assert(""@ =~= Seq::<char>::empty());
        }
        (text, "")
    } else {
        proof {
            assert(bytes@.contains(SPACE)) by {
                assert(bytes@[at as int] == SPACE);
            }
            assert(bytes@.index_of_first(SPACE) == Some(at as int));
            is_char_boundary_iff_not_is_continuation_byte(bytes@, at as int);
            valid_utf8_split(bytes@, at as int);
        }
        let (code, tail) = text.split_at(at);
        proof {
            let tail_bytes = bytes@.subrange(at as int, bytes@.len() as int);
            assert(tail.spec_bytes() == tail_bytes);
            assert(tail_bytes[0] == SPACE);
            assert(pop_first_scalar(tail_bytes) =~= tail_bytes.subrange(1, tail_bytes.len() as int));
            is_char_boundary_start_end_of_seq(pop_first_scalar(tail_bytes));
            assert(is_char_boundary(tail_bytes, 1));
        }
        let (_, message) = tail.split_at(1);
        proof {
            encode_utf8_decode_utf8(code@);
            encode_utf8_decode_utf8(message@);
            assert(code.spec_bytes() =~= bytes@.take(at as int));
            assert(message.spec_bytes() =~= bytes@.skip(at + 1));
        }
        (code, message)
    }
}

} // verus!
