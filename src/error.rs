//! Errors of the codec.

use vstd::prelude::*;

verus! {

/// Why a decode or an encode did not complete.
#[derive(Clone, Copy, Debug, PartialEq, Eq, Structural)]
pub enum Kv6Error {
    /// The input ends before a field or an array that it declares.
    TruncatedInput,
    /// A declared count or size does not fit the platform's address space.
    ArithmeticOverflow,
    /// The output buffer is shorter than the encoding.
    BufferTooSmall,
    /// The magic number is not the KV6 tag.
    MagicMismatch,
}

} // verus!
