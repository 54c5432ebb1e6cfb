//! Failures, and what it means for a result to be the right one.
use vstd::prelude::*;

verus! {

/// Why a decode attempt produced no value.
#[derive(Debug, Clone, Copy, PartialEq, Eq, Structural)]
pub enum DecodeFailure {
    /// The buffer ends before the value does; the same call may succeed on a
    /// longer buffer.
    Incomplete,
    /// The bytes violate the grammar; no further bytes can repair them.
    Malformed,
}

/// What a grammar rule yields on a byte sequence: the value it denotes and
/// the number of bytes it spans, or the reason there is none.
pub type Outcome<V> = Result<(V, nat), DecodeFailure>;

/// An executable result `r` on `input` is the one that `outcome` calls for:
/// the same failure, or a value with the expected view and, as remaining
/// input, exactly the bytes behind those the rule spans.
pub open spec fn agrees<T: View>(
    r: Result<(&[u8], T), DecodeFailure>,
    input: Seq<u8>,
    outcome: Outcome<T::V>,
) -> bool {
    match outcome {
        Ok((value, used)) => {
            &&& used <= input.len()
            &&& r matches Ok((rest, t))
            &&& t@ == value
            &&& rest@ == input.skip(used as int)
        },
        Err(failure) => r matches Err(f) && f == failure,
    }
}

} // verus!
