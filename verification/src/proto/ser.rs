//! Writing the primitives of the wire format.
//!
//! Every value on the wire is built from three primitives: a 32-bit integer
//! in network byte order, a byte string that carries its length in front,
//! and a text string, which is the byte string of its UTF-8 encoding.

use vstd::prelude::*;
use vstd::utf8::encode_utf8;
use crate::proto::error::ProtoResult;
use crate::proto::wire::Wire;

verus! {

/// The four bytes of a 32-bit integer, most significant first.
pub open spec fn u32_wire(value: u32) -> Seq<u8> {
    seq![
        (value / 0x100_0000) as u8,
        (value / 0x1_0000 % 0x100) as u8,
        (value / 0x100 % 0x100) as u8,
        (value % 0x100) as u8,
    ]
}

/// A byte string on the wire: its length as a 32-bit integer, then the
/// bytes themselves.
pub open spec fn bytes_wire(bytes: Seq<u8>) -> Seq<u8>
    recommends
        bytes.len() <= u32::MAX,
{
    u32_wire(bytes.len() as u32) + bytes
}

/// A text string on the wire: the byte string of its UTF-8 encoding.
pub open spec fn string_wire(text: Seq<char>) -> Seq<u8>
    recommends
        encode_utf8(text).len() <= u32::MAX,
{
    bytes_wire(encode_utf8(text))
}

/// Appends the single byte `value` to `out`.
pub fn write_u8(value: u8, out: &mut Vec<u8>)
    ensures
        final(out)@ == old(out)@ + seq![value],
{
    out.push(value);
    assert(out@ =~= old(out)@ + seq![value]);
}

/// Appends `value` to `out` as four bytes in network byte order.
pub fn write_u32(value: u32, out: &mut Vec<u8>)
    ensures
        final(out)@ == old(out)@ + u32_wire(value),
{
    out.push((value / 0x100_0000) as u8);
    out.push((value / 0x1_0000 % 0x100) as u8);
    out.push((value / 0x100 % 0x100) as u8);
    out.push((value % 0x100) as u8);
    assert(out@ =~= old(out)@ + u32_wire(value));
}

/// Appends `bytes` to `out` as a byte string: the length, then the bytes.
/// The length has to fit the 32-bit prefix.
pub fn write_bytes(bytes: &[u8], out: &mut Vec<u8>)
    requires
        bytes@.len() <= u32::MAX,
    ensures
        final(out)@ == old(out)@ + bytes_wire(bytes@),
{
    write_u32(bytes.len() as u32, out);
    out.extend_from_slice(bytes);
    assert(out@ =~= old(out)@ + bytes_wire(bytes@));
}

/// Appends `text` to `out` as a text string: the byte string of its UTF-8
/// encoding. The encoded length has to fit the 32-bit prefix.
pub fn write_string(text: &str, out: &mut Vec<u8>)
    requires
        encode_utf8(text@).len() <= u32::MAX,
    ensures
        final(out)@ == old(out)@ + string_wire(text@),
{
    write_bytes(text.as_bytes(), out);
}

/// Encodes a value of any type that has a wire format into a buffer of its
/// own. For a value that can be written this never fails.
pub fn to_bytes<T: Wire>(value: &T) -> (r: ProtoResult<Vec<u8>>)
    requires
        T::encodable(value@),
    ensures
        r matches Ok(bytes) && bytes@ == T::encoding(value@),
{
    let mut out: Vec<u8> = Vec::new();
    value.write_fields(&mut out);
    assert(out@ =~= T::encoding(value@));
    Ok(out)
}

} // verus!
