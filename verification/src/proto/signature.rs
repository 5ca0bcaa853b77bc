//! Signatures: the name of the scheme and the bytes it produced.

use vstd::prelude::*;
use vstd::utf8::encode_utf8;
use crate::proto::de::{
    lemma_parse_bytes_cut, lemma_parse_bytes_exact, lemma_parse_bytes_wire,
    lemma_parse_string_cut, lemma_parse_string_exact, lemma_parse_string_wire, lemma_tail_skip,
    parse_bytes, parse_string, read_bytes, read_string,
};
use crate::proto::error::ProtoResult;
use crate::proto::ser::{bytes_wire, string_wire, write_bytes, write_string};
use crate::proto::wire::Wire;

verus! {

/// A signature: the name of the signing scheme, and the signature in that
/// scheme's own encoding, which this layer does not look into.
#[derive(Debug, Clone, PartialEq, Eq)]
pub struct Signature {
    pub algorithm: String,
    pub blob: Vec<u8>,
}

/// A signature as a mathematical value.
#[verifier::ext_equal]
pub struct SignatureView {
    pub algorithm: Seq<char>,
    pub blob: Seq<u8>,
}

impl View for Signature {
    type V = SignatureView;

    open spec fn view(&self) -> SignatureView {
        SignatureView { algorithm: self.algorithm@, blob: self.blob@ }
    }
}

/// A signature on the wire: the name of the scheme as a text string, then
/// the signature's bytes as a byte string.
impl Wire for Signature {
    open spec fn encodable(value: SignatureView) -> bool {
        &&& encode_utf8(value.algorithm).len() <= u32::MAX
        &&& value.blob.len() <= u32::MAX
    }

    open spec fn encoding(value: SignatureView) -> Seq<u8> {
        string_wire(value.algorithm) + bytes_wire(value.blob)
    }

    open spec fn parse(bytes: Seq<u8>) -> ProtoResult<(SignatureView, nat)> {
        match parse_string(bytes) {
            Err(e) => Err(e),
            Ok((algorithm, n1)) => match parse_bytes(bytes.skip(n1 as int)) {
                Err(e) => Err(e),
                Ok((blob, n2)) => Ok((SignatureView { algorithm, blob }, n1 + n2)),
            },
        }
    }

    proof fn lemma_parse_encoding(value: SignatureView, rest: Seq<u8>) {
        let a = string_wire(value.algorithm);
        let b = bytes_wire(value.blob);
        assert((a + b) + rest =~= a + (b + rest));
        lemma_parse_string_wire(value.algorithm, b + rest);
        assert((a + (b + rest)).skip(a.len() as int) =~= b + rest);
        lemma_parse_bytes_wire(value.blob, rest);
    }

    proof fn lemma_parse_cut(value: SignatureView, kept: int) {
        let a = string_wire(value.algorithm);
        let b = bytes_wire(value.blob);
        if kept < a.len() {
            assert((a + b).take(kept) =~= a.take(kept));
            lemma_parse_string_cut(value.algorithm, kept);
        } else {
            let left = b.take(kept - a.len());
            assert((a + b).take(kept) =~= a + left);
            lemma_parse_string_wire(value.algorithm, left);
            assert((a + left).skip(a.len() as int) =~= left);
            lemma_parse_bytes_cut(value.blob, kept - a.len());
        }
    }

    proof fn lemma_parse_exact(bytes: Seq<u8>) {
        if let Ok((value, taken)) = Self::parse(bytes) {
            let n1 = parse_string(bytes)->Ok_0.1;
            lemma_parse_string_exact(bytes);
            lemma_parse_bytes_exact(bytes.skip(n1 as int));
            assert(Self::encoding(value) =~= bytes.take(taken as int));
        }
    }

    fn is_encodable(&self) -> (fits: bool) {
        self.algorithm.as_str().as_bytes().len() <= u32::MAX as usize && self.blob.len()
            <= u32::MAX as usize
    }

    fn write_fields(&self, out: &mut Vec<u8>) {
        write_string(self.algorithm.as_str(), out);
        write_bytes(self.blob.as_slice(), out);
        assert(out@ =~= old(out)@ + Self::encoding(self@));
    }

    fn read_fields(buffer: &[u8], offset: usize) -> (r: ProtoResult<(Signature, usize)>) {
        let (algorithm, p1) = match read_string(buffer, offset) {
            Ok(field) => field,
            Err(e) => {
                return Err(e);
            },
        };
        proof {
            lemma_tail_skip(buffer@, offset as int, p1 - offset);
        }
        let (blob, p2) = match read_bytes(buffer, p1) {
            Ok(field) => field,
            Err(e) => {
                return Err(e);
            },
        };
        Ok((Signature { algorithm, blob }, p2))
    }
}

} // verus!
