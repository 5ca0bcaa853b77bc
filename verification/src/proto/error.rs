//! The ways in which a buffer can fail to be a value.

use vstd::prelude::*;

verus! {

/// Why a buffer was rejected. Reading stops at the first fault, and the
/// caller gets exactly that fault.
#[derive(Debug, Clone, Copy, PartialEq, Eq, Structural)]
pub enum ProtoError {
    /// A fixed-width field or a declared length reaches past the end of the
    /// buffer.
    Truncated,
    /// A discriminant that names no variant of the union being read.
    InvalidTag,
    /// The bytes of a text string are not valid UTF-8.
    InvalidUtf8,
    /// A whole value was read and bytes are left over.
    TrailingBytes,
}

/// The result of every fallible operation of the codec.
pub type ProtoResult<T> = Result<T, ProtoError>;

} // verus!
