//! A decoder for the two Redis wire formats, RESP2 and RESP3.
//!
//! Every entry point is a pure function from a byte slice to either a decoded
//! value together with the bytes that follow it, or a
//! [`failure::DecodeFailure`]. Nothing is buffered between calls: on
//! `Incomplete` the caller presents a longer buffer and calls again.
pub mod bignum;
pub mod failure;
pub mod field_laws;
pub mod number;
pub mod resp2;
pub mod resp2_laws;
pub mod resp3;
pub mod resp3_laws;
pub mod text;
pub mod utils;
