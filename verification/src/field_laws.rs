//! What the fields make of a longer and of a shorter input.
//!
//! Each field is *local*: its outcome, once it is a value, depends on the
//! bytes it spans and on nothing behind them. And each field is *patient*:
//! cut anywhere inside those bytes, it is incomplete.
use vstd::prelude::*;
use crate::failure::DecodeFailure;
use crate::utils::{
    exact_field, has_prefix, integer_field, lemma_run_len_bounds, lemma_run_len_is, read_field,
    read_literal, run_len, sized_field, Content, CR, LF,
};

verus! {

/// `t` starts with the same `n` bytes as `s`.
pub open spec fn same_start(s: Seq<u8>, t: Seq<u8>, n: nat) -> bool {
    &&& n <= s.len()
    &&& n <= t.len()
    &&& forall|i: int| 0 <= i < n ==> s[i] == t[i]
}

/// The last two of the first `used` bytes of `s` are the terminator.
pub open spec fn terminated(s: Seq<u8>, used: nat) -> bool {
    &&& 2 <= used <= s.len()
    &&& s[used - 2] == CR
    &&& s[used - 1] == LF
}

/// A field spans at least its prefix, a byte and the terminator, and no
/// more than there is; its last two bytes are the terminator.
pub proof fn lemma_read_field_span(s: Seq<u8>, prefix: char, content: Content)
    requires
        read_field(s, prefix, content) is Ok,
    ensures
        4 <= read_field(s, prefix, content)->Ok_0.1 <= s.len(),
        has_prefix(s, prefix),
        terminated(s, read_field(s, prefix, content)->Ok_0.1),
{
}

/// The frame, said directly: behind the prefix stand `n` bytes that the
/// class admits, one at least, and behind them the terminator.
pub proof fn lemma_read_field_is(s: Seq<u8>, prefix: char, content: Content, n: nat)
    requires
        has_prefix(s, prefix),
        n > 0,
        n + 3 <= s.len(),
        forall|i: int| 1 <= i <= n ==> content.admits(#[trigger] s[i]),
        s[n as int + 1] == CR,
        s[n as int + 2] == LF,
    ensures
        read_field(s, prefix, content) == Ok::<_, DecodeFailure>(
            (s.subrange(1, n as int + 1), n + 3),
        ),
{
    assert forall|i: int| 0 <= i < n implies content.admits(#[trigger] s.skip(1)[i]) by {
        assert(s.skip(1)[i] == s[i + 1]);
    }
    assert(s.skip(1)[n as int] == s[n as int + 1]);
    lemma_run_len_is(s.skip(1), content, n);
}

/// A field is the same on every input that starts with the bytes it spans.
pub proof fn lemma_read_field_local(s: Seq<u8>, t: Seq<u8>, prefix: char, content: Content)
    requires
        read_field(s, prefix, content) is Ok,
        same_start(s, t, read_field(s, prefix, content)->Ok_0.1),
    ensures
        read_field(t, prefix, content) == read_field(s, prefix, content),
{
    let n = run_len(s.skip(1), content);
    lemma_run_len_bounds(s.skip(1), content);
    assert forall|i: int| 0 <= i < n implies content.admits(#[trigger] t.skip(1)[i]) by {
        assert(t.skip(1)[i] == t[i + 1]);
        assert(s.skip(1)[i] == s[i + 1]);
    }
    assert(t.skip(1)[n as int] == s.skip(1)[n as int]);
    lemma_run_len_is(t.skip(1), content, n);
    assert(t.subrange(1, 1 + n as int) =~= s.subrange(1, 1 + n as int));
}

/// A field cut short of its last byte is incomplete.
pub proof fn lemma_read_field_patient(s: Seq<u8>, k: int, prefix: char, content: Content)
    requires
        read_field(s, prefix, content) is Ok,
        0 <= k < read_field(s, prefix, content)->Ok_0.1,
    ensures
        read_field(s.take(k), prefix, content) == Err::<(Seq<u8>, nat), _>(
            DecodeFailure::Incomplete,
        ),
{
    let n = run_len(s.skip(1), content);
    let cut = s.take(k);
    lemma_run_len_bounds(s.skip(1), content);
    if k >= 1 {
        let m: nat = if k - 1 < n {
            (k - 1) as nat
        } else {
            n
        };
        assert forall|i: int| 0 <= i < m implies content.admits(#[trigger] cut.skip(1)[i]) by {
            assert(cut.skip(1)[i] == s.skip(1)[i]);
        }
        if m < cut.skip(1).len() {
            assert(cut.skip(1)[m as int] == s.skip(1)[n as int]);
        }
        lemma_run_len_is(cut.skip(1), content, m);
    }
}

/// A payload of declared length is the same on every input that starts
/// with the bytes it spans.
pub proof fn lemma_exact_field_local(s: Seq<u8>, t: Seq<u8>, length: nat)
    requires
        exact_field(s, length) is Ok,
        same_start(s, t, exact_field(s, length)->Ok_0.1),
    ensures
        exact_field(t, length) == exact_field(s, length),
{
    assert(t.take(length as int) =~= s.take(length as int));
}

/// A payload of declared length cut short of its last byte is incomplete.
pub proof fn lemma_exact_field_patient(s: Seq<u8>, k: int, length: nat)
    requires
        exact_field(s, length) is Ok,
        0 <= k < exact_field(s, length)->Ok_0.1,
    ensures
        exact_field(s.take(k), length) == Err::<(Seq<u8>, nat), _>(DecodeFailure::Incomplete),
{
}

/// Where a literal that ends in the terminator is present, its last two
/// bytes in `s` are the terminator.
pub proof fn lemma_literal_terminated(s: Seq<u8>, literal: Seq<u8>)
    requires
        read_literal(s, literal) is Ok,
        terminated(literal, literal.len()),
    ensures
        terminated(s, literal.len()),
{
    let n = literal.len() as int;
    assert(s.take(n)[n - 2] == s[n - 2]);
    assert(s.take(n)[n - 1] == s[n - 1]);
}

/// A literal that is present is present on every input that starts with
/// its bytes.
pub proof fn lemma_literal_local(s: Seq<u8>, t: Seq<u8>, literal: Seq<u8>)
    requires
        read_literal(s, literal) is Ok,
        same_start(s, t, literal.len()),
    ensures
        read_literal(t, literal) == read_literal(s, literal),
{
    assert(t.take(literal.len() as int) =~= s.take(literal.len() as int));
}

/// A literal cut short of its last byte is incomplete.
pub proof fn lemma_literal_patient(s: Seq<u8>, k: int, literal: Seq<u8>)
    requires
        read_literal(s, literal) is Ok,
        0 <= k < literal.len(),
    ensures
        read_literal(s.take(k), literal) == Err::<((), nat), _>(DecodeFailure::Incomplete),
{
    assert(literal.take(k) =~= s.take(k));
    assert(s.take(k).len() == k);
}

/// A literal that a byte contradicts is contradicted on every input that
/// starts with the bytes up to that one.
pub proof fn lemma_literal_differs(s: Seq<u8>, literal: Seq<u8>, at: int)
    requires
        0 <= at < s.len(),
        at < literal.len(),
        s[at] != literal[at],
    ensures
        read_literal(s, literal) == Err::<((), nat), _>(DecodeFailure::Malformed),
{
    if literal.len() <= s.len() {
        assert(s.take(literal.len() as int)[at] == s[at]);
    } else {
        assert(literal.take(s.len() as int)[at] == literal[at]);
    }
}

/// A payload behind its length spans no more than there is; a digit
/// stands behind its prefix, and its last two bytes are the terminator.
pub proof fn lemma_sized_field_span(s: Seq<u8>, prefix: char)
    requires
        sized_field(s, prefix) is Ok,
    ensures
        6 <= sized_field(s, prefix)->Ok_0.1 <= s.len(),
        has_prefix(s, prefix),
        is_digit_at(s, 1),
        terminated(s, sized_field(s, prefix)->Ok_0.1),
{
    lemma_run_len_bounds(s.skip(1), Content::Digits);
    assert(s.skip(1)[0] == s[1]);
    let (length, used) = integer_field(s, prefix)->Ok_0;
    assert(s.skip(used as int)[length as int] == s[used + length]);
    assert(s.skip(used as int)[length + 1] == s[used + length + 1]);
}

/// The byte of `s` at `at` is an ASCII decimal digit.
pub open spec fn is_digit_at(s: Seq<u8>, at: int) -> bool {
    0 <= at < s.len() && 48 <= s[at] <= 57
}

/// An integer field has a digit behind its prefix, and its last two bytes
/// are the terminator.
pub proof fn lemma_integer_field_span(s: Seq<u8>, prefix: char)
    requires
        integer_field(s, prefix) is Ok,
    ensures
        4 <= integer_field(s, prefix)->Ok_0.1 <= s.len(),
        has_prefix(s, prefix),
        is_digit_at(s, 1),
        terminated(s, integer_field(s, prefix)->Ok_0.1),
{
    lemma_run_len_bounds(s.skip(1), Content::Digits);
    assert(s.skip(1)[0] == s[1]);
}

/// A payload behind its length is the same on every input that starts
/// with the bytes it spans.
pub proof fn lemma_sized_field_local(s: Seq<u8>, t: Seq<u8>, prefix: char)
    requires
        sized_field(s, prefix) is Ok,
        same_start(s, t, sized_field(s, prefix)->Ok_0.1),
    ensures
        sized_field(t, prefix) == sized_field(s, prefix),
{
    let (length, used) = integer_field(s, prefix)->Ok_0;
    lemma_read_field_local(s, t, prefix, Content::Digits);
    let more = exact_field(s.skip(used as int), length as nat)->Ok_0.1;
    assert(same_start(s.skip(used as int), t.skip(used as int), more)) by {
        assert forall|i: int| 0 <= i < more implies s.skip(used as int)[i] == t.skip(
            used as int,
        )[i] by {
            assert(s[used + i] == t[used + i]);
        }
    }
    lemma_exact_field_local(s.skip(used as int), t.skip(used as int), length as nat);
}

/// A payload behind its length, cut short of its last byte, is incomplete.
pub proof fn lemma_sized_field_patient(s: Seq<u8>, k: int, prefix: char)
    requires
        sized_field(s, prefix) is Ok,
        0 <= k < sized_field(s, prefix)->Ok_0.1,
    ensures
        sized_field(s.take(k), prefix) == Err::<(Seq<u8>, nat), _>(DecodeFailure::Incomplete),
{
    let (length, used) = integer_field(s, prefix)->Ok_0;
    if k < used {
        lemma_read_field_patient(s, k, prefix, Content::Digits);
    } else {
        lemma_read_field_local(s, s.take(k), prefix, Content::Digits);
        assert(s.take(k).skip(used as int) =~= s.skip(used as int).take(k - used));
        lemma_exact_field_patient(s.skip(used as int), k - used, length as nat);
    }
}

} // verus!
