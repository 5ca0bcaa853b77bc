//! What a type owes the codec: its byte format in both directions, and the
//! proofs that the two directions agree.

use vstd::prelude::*;
use crate::proto::de::tail;
use crate::proto::error::{ProtoError, ProtoResult};

verus! {

/// A type with a place in the wire format.
///
/// The format is stated over the type's view: which values can be written,
/// what bytes a value becomes, and what a reader finds at the start of a
/// sequence of bytes. Three laws tie the directions together, and every
/// implementation proves them for its own format.
pub trait Wire: View + Sized {
    /// Whether the value can be written: every length in it fits the 32-bit
    /// field that carries it.
    spec fn encodable(value: Self::V) -> bool;

    /// The bytes of a value.
    spec fn encoding(value: Self::V) -> Seq<u8>;

    /// What a reader finds at the start of `bytes`: a value and the number
    /// of bytes it takes, or the first fault.
    spec fn parse(bytes: Seq<u8>) -> ProtoResult<(Self::V, nat)>;

    /// Reading what was written gives the value back, takes exactly its
    /// bytes, and does not depend on what follows them.
    proof fn lemma_parse_encoding(value: Self::V, rest: Seq<u8>)
        requires
            Self::encodable(value),
        ensures
            Self::parse(Self::encoding(value) + rest) == Ok::<_, ProtoError>(
                (value, Self::encoding(value).len()),
            ),
    ;

    /// Reading an encoding that was cut short fails with `Truncated`,
    /// wherever the cut falls.
    proof fn lemma_parse_cut(value: Self::V, kept: int)
        requires
            Self::encodable(value),
            0 <= kept < Self::encoding(value).len(),
        ensures
            Self::parse(Self::encoding(value).take(kept)) == Err::<(Self::V, nat), _>(
                ProtoError::Truncated,
            ),
    ;

    /// Whatever a reader accepts is the encoding of the value it found:
    /// the bytes it took are exactly the bytes that writing that value
    /// gives, so no two buffers read as the same value.
    proof fn lemma_parse_exact(bytes: Seq<u8>)
        ensures
            Self::parse(bytes) matches Ok((value, taken)) ==> {
                &&& taken <= bytes.len()
                &&& Self::encodable(value)
                &&& Self::encoding(value) == bytes.take(taken as int)
            },
    ;

    /// Tells whether the value can be written.
    fn is_encodable(&self) -> (fits: bool)
        ensures
            fits == Self::encodable(self@),
    ;

    /// Appends the value's bytes to `out`.
    fn write_fields(&self, out: &mut Vec<u8>)
        requires
            Self::encodable(self@),
        ensures
            final(out)@ == old(out)@ + Self::encoding(self@),
    ;

    /// Reads a value at `offset` and says where the next one starts.
    fn read_fields(buffer: &[u8], offset: usize) -> (r: ProtoResult<(Self, usize)>)
        ensures
            match r {
                Ok((value, next)) => {
                    &&& Self::parse(tail(buffer@, offset as int)) == Ok::<_, ProtoError>(
                        (value@, (next - offset) as nat),
                    )
                    &&& offset <= next <= buffer@.len()
                },
                Err(e) => Self::parse(tail(buffer@, offset as int)) == Err::<(Self::V, nat), _>(
                    e,
                ),
            },
    ;
}

/// What a whole buffer is: the value that takes every one of its bytes.
/// A value that stops short of the end is a fault of its own.
pub open spec fn decode<T: Wire>(bytes: Seq<u8>) -> ProtoResult<T::V> {
    match T::parse(bytes) {
        Err(e) => Err(e),
        Ok((value, taken)) => {
            if taken == bytes.len() {
                Ok(value)
            } else {
                Err(ProtoError::TrailingBytes)
            }
        },
    }
}

/// Decoding the encoding of a value gives the value back.
pub proof fn lemma_decode_encoding<T: Wire>(value: T::V)
    requires
        T::encodable(value),
    ensures
        decode::<T>(T::encoding(value)) == Ok::<_, ProtoError>(value),
{
    T::lemma_parse_encoding(value, Seq::empty());
    assert(T::encoding(value) + Seq::<u8>::empty() =~= T::encoding(value));
}

/// Decoding an encoding that lost bytes at its end, however many, fails
/// with `Truncated`.
pub proof fn lemma_decode_cut<T: Wire>(value: T::V, kept: int)
    requires
        T::encodable(value),
        0 <= kept < T::encoding(value).len(),
    ensures
        decode::<T>(T::encoding(value).take(kept)) == Err::<T::V, _>(ProtoError::Truncated),
{
    T::lemma_parse_cut(value, kept);
}

/// Decoding an encoding with anything appended to it fails with
/// `TrailingBytes`.
pub proof fn lemma_decode_trailing<T: Wire>(value: T::V, extra: Seq<u8>)
    requires
        T::encodable(value),
        extra.len() > 0,
    ensures
        decode::<T>(T::encoding(value) + extra) == Err::<T::V, _>(ProtoError::TrailingBytes),
{
    T::lemma_parse_encoding(value, extra);
}

/// A buffer decodes to a value only if it is, byte for byte, the encoding
/// of that value. With the round trip this makes decoding the exact inverse
/// of encoding.
pub proof fn lemma_decode_exact<T: Wire>(bytes: Seq<u8>)
    ensures
        decode::<T>(bytes) matches Ok(value) ==> T::encodable(value) && T::encoding(value)
            == bytes,
{
    T::lemma_parse_exact(bytes);
    assert(bytes.take(bytes.len() as int) =~= bytes);
}

} // verus!
