//! Reading the primitives of the wire format.
//!
//! A reader looks at the bytes that are left of a buffer and finds either a
//! value together with the number of bytes it took, or the first fault. No
//! read ever looks past the end of the buffer: a declared length is held
//! against what is left before a single byte is taken.

use vstd::prelude::*;
use vstd::slice::{slice_subrange, slice_to_vec};
use vstd::utf8::{decode_utf8, encode_utf8, valid_utf8};
use crate::proto::error::{ProtoError, ProtoResult};
use crate::proto::ser::{bytes_wire, string_wire, u32_wire};
use crate::proto::wire::{decode, Wire};

verus! {

/// What is left of `buffer` from `offset` on; nothing where `offset` lies
/// past its end.
pub open spec fn tail(buffer: Seq<u8>, offset: int) -> Seq<u8> {
    if 0 <= offset <= buffer.len() {
        buffer.skip(offset)
    } else {
        Seq::empty()
    }
}

/// Reading a single byte.
pub open spec fn parse_u8(bytes: Seq<u8>) -> ProtoResult<(u8, nat)> {
    if bytes.len() < 1 {
        Err(ProtoError::Truncated)
    } else {
        Ok((bytes[0], 1))
    }
}

/// The integer whose big-endian bytes are the first four of `bytes`.
pub open spec fn u32_value(bytes: Seq<u8>) -> u32
    recommends
        bytes.len() >= 4,
{
    (bytes[0] * 0x100_0000 + bytes[1] * 0x1_0000 + bytes[2] * 0x100 + bytes[3]) as u32
}

/// Reading a 32-bit integer: it takes four bytes.
pub open spec fn parse_u32(bytes: Seq<u8>) -> ProtoResult<(u32, nat)> {
    if bytes.len() < 4 {
        Err(ProtoError::Truncated)
    } else {
        Ok((u32_value(bytes), 4))
    }
}

/// Reading a byte string: a 32-bit length, then exactly that many bytes.
pub open spec fn parse_bytes(bytes: Seq<u8>) -> ProtoResult<(Seq<u8>, nat)> {
    match parse_u32(bytes) {
        Err(e) => Err(e),
        Ok((declared, _)) => {
            if bytes.len() - 4 < declared {
                Err(ProtoError::Truncated)
            } else {
                Ok((bytes.subrange(4, 4 + declared), (4 + declared) as nat))
            }
        },
    }
}

/// Reading a text string: a byte string whose bytes are valid UTF-8.
pub open spec fn parse_string(bytes: Seq<u8>) -> ProtoResult<(Seq<char>, nat)> {
    match parse_bytes(bytes) {
        Err(e) => Err(e),
        Ok((raw, taken)) => {
            if valid_utf8(raw) {
                Ok((decode_utf8(raw), taken))
            } else {
                Err(ProtoError::InvalidUtf8)
            }
        },
    }
}

/// A 32-bit integer is read back from its four bytes, whatever follows them.
pub proof fn lemma_parse_u32_wire(value: u32, rest: Seq<u8>)
    ensures
        parse_u32(u32_wire(value) + rest) == Ok::<_, ProtoError>((value, 4nat)),
{
}

/// Fewer than the four bytes of a 32-bit integer read as `Truncated`.
pub proof fn lemma_parse_u32_cut(value: u32, kept: int)
    requires
        0 <= kept < 4,
    ensures
        parse_u32(u32_wire(value).take(kept)) == Err::<(u32, nat), _>(ProtoError::Truncated),
{
}

/// A byte string is read back from its encoding, whatever follows it.
pub proof fn lemma_parse_bytes_wire(bytes: Seq<u8>, rest: Seq<u8>)
    requires
        bytes.len() <= u32::MAX,
    ensures
        parse_bytes(bytes_wire(bytes) + rest) == Ok::<_, ProtoError>(
            (bytes, bytes_wire(bytes).len()),
        ),
{
    let whole = bytes_wire(bytes) + rest;
    lemma_parse_u32_wire(bytes.len() as u32, bytes + rest);
    assert(whole =~= u32_wire(bytes.len() as u32) + (bytes + rest));
    assert(whole.subrange(4, 4 + bytes.len() as int) =~= bytes);
}

/// A byte string whose encoding was cut short reads as `Truncated`.
pub proof fn lemma_parse_bytes_cut(bytes: Seq<u8>, kept: int)
    requires
        bytes.len() <= u32::MAX,
        0 <= kept < bytes_wire(bytes).len(),
    ensures
        parse_bytes(bytes_wire(bytes).take(kept)) == Err::<(Seq<u8>, nat), _>(
            ProtoError::Truncated,
        ),
{
    let cut = bytes_wire(bytes).take(kept);
    if kept >= 4 {
        lemma_parse_u32_wire(bytes.len() as u32, bytes.take(kept - 4));
        assert(cut =~= u32_wire(bytes.len() as u32) + bytes.take(kept - 4));
    }
}

/// A text string is read back from its encoding, whatever follows it.
pub proof fn lemma_parse_string_wire(text: Seq<char>, rest: Seq<u8>)
    requires
        encode_utf8(text).len() <= u32::MAX,
    ensures
        parse_string(string_wire(text) + rest) == Ok::<_, ProtoError>(
            (text, string_wire(text).len()),
        ),
{
    lemma_parse_bytes_wire(encode_utf8(text), rest);
    vstd::utf8::encode_utf8_valid_utf8(text);
    vstd::utf8::encode_utf8_decode_utf8(text);
}

/// A text string whose encoding was cut short reads as `Truncated`: its
/// bytes are never looked at before all of them are there.
pub proof fn lemma_parse_string_cut(text: Seq<char>, kept: int)
    requires
        encode_utf8(text).len() <= u32::MAX,
        0 <= kept < string_wire(text).len(),
    ensures
        parse_string(string_wire(text).take(kept)) == Err::<(Seq<char>, nat), _>(
            ProtoError::Truncated,
        ),
{
    lemma_parse_bytes_cut(encode_utf8(text), kept);
}

/// The four bytes that a 32-bit integer was read from are the bytes that
/// writing it gives.
pub proof fn lemma_parse_u32_exact(bytes: Seq<u8>)
    ensures
        parse_u32(bytes) matches Ok((value, taken)) ==> taken <= bytes.len() && u32_wire(value)
            == bytes.take(taken as int),
{
    if bytes.len() >= 4 {
        lemma_be_digits(bytes[0] as int, bytes[1] as int, bytes[2] as int, bytes[3] as int);
        assert(u32_wire(u32_value(bytes)) =~= bytes.take(4));
    }
}

/// Four digits in base 256 are found again in the number they make.
proof fn lemma_be_digits(d0: int, d1: int, d2: int, d3: int)
    requires
        0 <= d0 < 0x100,
        0 <= d1 < 0x100,
        0 <= d2 < 0x100,
        0 <= d3 < 0x100,
    ensures
        ({
            let value = d0 * 0x100_0000 + d1 * 0x1_0000 + d2 * 0x100 + d3;
            &&& 0 <= value <= u32::MAX
            &&& value / 0x100_0000 == d0
            &&& value / 0x1_0000 % 0x100 == d1
            &&& value / 0x100 % 0x100 == d2
            &&& value % 0x100 == d3
        }),
{
    let low = d2 * 0x100 + d3;
    let mid = d1 * 0x1_0000 + low;
    let value = d0 * 0x100_0000 + mid;
    assert(low / 0x100 == d2 && low % 0x100 == d3);
    assert(mid / 0x1_0000 == d1 && mid % 0x1_0000 == low);
    assert(value / 0x100_0000 == d0 && value % 0x100_0000 == mid);
    assert(value / 0x1_0000 == d0 * 0x100 + d1);
    assert(value / 0x100 == d0 * 0x1_0000 + d1 * 0x100 + d2);
}

/// The bytes that a byte string was read from are the bytes that writing
/// it gives.
pub proof fn lemma_parse_bytes_exact(bytes: Seq<u8>)
    ensures
        parse_bytes(bytes) matches Ok((found, taken)) ==> {
            &&& taken <= bytes.len()
            &&& found.len() <= u32::MAX
            &&& bytes_wire(found) == bytes.take(taken as int)
        },
{
    if let Ok((found, taken)) = parse_bytes(bytes) {
        lemma_parse_u32_exact(bytes);
        assert(bytes_wire(found) =~= bytes.take(4) + found);
        assert(bytes.take(4) + found =~= bytes.take(taken as int));
    }
}

/// The bytes that a text string was read from are the bytes that writing
/// it gives.
pub proof fn lemma_parse_string_exact(bytes: Seq<u8>)
    ensures
        parse_string(bytes) matches Ok((text, taken)) ==> {
            &&& taken <= bytes.len()
            &&& encode_utf8(text).len() <= u32::MAX
            &&& string_wire(text) == bytes.take(taken as int)
        },
{
    if let Ok((text, taken)) = parse_string(bytes) {
        lemma_parse_bytes_exact(bytes);
        vstd::utf8::decode_utf8_encode_utf8(parse_bytes(bytes)->Ok_0.0);
    }
}

/// Moving on in a buffer by the bytes that a read took.
pub proof fn lemma_tail_skip(buffer: Seq<u8>, offset: int, taken: int)
    requires
        0 <= offset,
        0 <= taken,
        offset + taken <= buffer.len(),
    ensures
        tail(buffer, offset).skip(taken) == tail(buffer, offset + taken),
{
    assert(tail(buffer, offset).skip(taken) =~= tail(buffer, offset + taken));
}

/// `std::string::FromUtf8Error`, the error of `String::from_utf8`. Nothing
/// is read from it: that it came back is all that the codec goes by.
#[verifier::external_type_specification]
#[verifier::external_body]
pub struct ExFromUtf8Error(std::string::FromUtf8Error);

/// `String::from_utf8` of the standard library. Taken on trust, as its
/// documentation has it: the call succeeds exactly where the bytes are
/// valid UTF-8, and the string it then returns is made of those very bytes.
pub assume_specification[ String::from_utf8 ](vec: Vec<u8>) -> (r: Result<
    String,
    std::string::FromUtf8Error,
>)
    ensures
        r is Ok <==> valid_utf8(vec@),
        r matches Ok(text) ==> encode_utf8(text@) == vec@,
;

/// Reads a single byte at `offset`.
///
/// Fails with `Truncated` where no byte is left.
pub fn read_u8(buffer: &[u8], offset: usize) -> (r: ProtoResult<(u8, usize)>)
    ensures
        match r {
            Ok((value, next)) => {
                &&& parse_u8(tail(buffer@, offset as int)) == Ok::<_, ProtoError>(
                    (value, (next - offset) as nat),
                )
                &&& offset <= next <= buffer@.len()
            },
            Err(e) => parse_u8(tail(buffer@, offset as int)) == Err::<(u8, nat), _>(e),
        },
{
    if offset >= buffer.len() {
        return Err(ProtoError::Truncated);
    }
    Ok((buffer[offset], offset + 1))
}

/// Reads a 32-bit integer in network byte order at `offset`.
///
/// Fails with `Truncated` where fewer than four bytes are left.
pub fn read_u32(buffer: &[u8], offset: usize) -> (r: ProtoResult<(u32, usize)>)
    ensures
        match r {
            Ok((value, next)) => {
                &&& parse_u32(tail(buffer@, offset as int)) == Ok::<_, ProtoError>(
                    (value, (next - offset) as nat),
                )
                &&& offset <= next <= buffer@.len()
            },
            Err(e) => parse_u32(tail(buffer@, offset as int)) == Err::<(u32, nat), _>(e),
        },
{
    let len: usize = buffer.len();
    if offset > len || len - offset < 4 {
        return Err(ProtoError::Truncated);
    }
    let b0: u32 = buffer[offset] as u32;
    let b1: u32 = buffer[offset + 1] as u32;
    let b2: u32 = buffer[offset + 2] as u32;
    let b3: u32 = buffer[offset + 3] as u32;
    Ok((b0 * 0x100_0000 + b1 * 0x1_0000 + b2 * 0x100 + b3, offset + 4))
}

/// Reads a byte string at `offset`: a 32-bit length, then the bytes.
///
/// Fails with `Truncated` where the length field is cut short or declares
/// more bytes than are left.
pub fn read_bytes(buffer: &[u8], offset: usize) -> (r: ProtoResult<(Vec<u8>, usize)>)
    ensures
        match r {
            Ok((bytes, next)) => {
                &&& parse_bytes(tail(buffer@, offset as int)) == Ok::<_, ProtoError>(
                    (bytes@, (next - offset) as nat),
                )
                &&& offset <= next <= buffer@.len()
            },
            Err(e) => parse_bytes(tail(buffer@, offset as int)) == Err::<(Seq<u8>, nat), _>(e),
        },
{
    let (declared, start) = match read_u32(buffer, offset) {
        Ok(field) => field,
        Err(e) => {
            return Err(e);
        },
    };
    let count: usize = declared as usize;
    if buffer.len() - start < count {
        return Err(ProtoError::Truncated);
    }
    let bytes = slice_to_vec(slice_subrange(buffer, start, start + count));
    assert(bytes@ =~= tail(buffer@, offset as int).subrange(4, 4 + declared));
    Ok((bytes, start + count))
}

/// Reads a text string at `offset`: a byte string that must be valid UTF-8.
///
/// Fails with `Truncated` as a byte string does, and with `InvalidUtf8`
/// where the bytes are all there but are no UTF-8.
pub fn read_string(buffer: &[u8], offset: usize) -> (r: ProtoResult<(String, usize)>)
    ensures
        match r {
            Ok((text, next)) => {
                &&& parse_string(tail(buffer@, offset as int)) == Ok::<_, ProtoError>(
                    (text@, (next - offset) as nat),
                )
                &&& offset <= next <= buffer@.len()
            },
            Err(e) => parse_string(tail(buffer@, offset as int)) == Err::<(Seq<char>, nat), _>(
                e,
            ),
        },
{
    let (raw, next) = match read_bytes(buffer, offset) {
        Ok(field) => field,
        Err(e) => {
            return Err(e);
        },
    };
    match String::from_utf8(raw) {
        Ok(text) => {
            proof {
                vstd::utf8::encode_utf8_decode_utf8(text@);
            }
            Ok((text, next))
        },
        Err(_) => Err(ProtoError::InvalidUtf8),
    }
}

/// Decodes a whole buffer as a value of any type that has a wire format.
///
/// The value has to take every byte: where it ends before the buffer does,
/// the buffer is rejected with `TrailingBytes`. Any fault met while reading
/// the value is returned as it is.
pub fn from_bytes<T: Wire>(bytes: &[u8]) -> (r: ProtoResult<T>)
    ensures
        match r {
            Ok(value) => decode::<T>(bytes@) == Ok::<_, ProtoError>(value@),
            Err(e) => decode::<T>(bytes@) == Err::<T::V, _>(e),
        },
{
    assert(tail(bytes@, 0) =~= bytes@);
    let (value, next) = match T::read_fields(bytes, 0) {
        Ok(read) => read,
        Err(e) => {
            return Err(e);
        },
    };
    if next != bytes.len() {
        return Err(ProtoError::TrailingBytes);
    }
    Ok(value)
}

} // verus!
