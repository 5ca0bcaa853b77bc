//! Public keys: one variant for each key algorithm, told apart on the wire
//! by a tag of their own.

use vstd::prelude::*;
use crate::proto::de::{
    lemma_parse_bytes_cut, lemma_parse_bytes_exact, lemma_parse_bytes_wire, lemma_tail_skip,
    parse_bytes, parse_u8, read_bytes, read_u8,
};
use crate::proto::error::{ProtoError, ProtoResult};
use crate::proto::ser::{bytes_wire, write_bytes, write_u8};
use crate::proto::wire::{decode, Wire};

verus! {

/// The tag of an RSA public key. Tags are one byte wide and assigned by
/// this library; a tag, once given to an algorithm, is never given to
/// another, and a new algorithm gets a tag that was never in use.
pub const RSA_TAG: u8 = 1;

/// Whether `tag` is the tag of a key algorithm that this library knows.
pub open spec fn is_key_tag(tag: u8) -> bool {
    tag == RSA_TAG
}

/// An RSA public key. Both numbers are unsigned and stored as big-endian
/// bytes, which the codec carries as they are.
#[derive(Debug, Clone, PartialEq, Eq)]
pub struct RsaPublicKey {
    /// The public exponent.
    pub e: Vec<u8>,
    /// The modulus.
    pub n: Vec<u8>,
}

/// A public key of one of the supported algorithms.
#[derive(Debug, Clone, PartialEq, Eq)]
pub enum PublicKey {
    /// An RSA key, under `RSA_TAG`.
    Rsa(RsaPublicKey),
}

/// An RSA public key as a mathematical value.
#[verifier::ext_equal]
pub struct RsaPublicKeyView {
    pub e: Seq<u8>,
    pub n: Seq<u8>,
}

/// A public key as a mathematical value.
#[verifier::ext_equal]
pub enum PublicKeyView {
    Rsa(RsaPublicKeyView),
}

impl View for RsaPublicKey {
    type V = RsaPublicKeyView;

    open spec fn view(&self) -> RsaPublicKeyView {
        RsaPublicKeyView { e: self.e@, n: self.n@ }
    }
}

impl View for PublicKey {
    type V = PublicKeyView;

    open spec fn view(&self) -> PublicKeyView {
        match self {
            PublicKey::Rsa(key) => PublicKeyView::Rsa(key@),
        }
    }
}

/// The fields of an RSA key on the wire: the exponent, then the modulus,
/// each a byte string.
impl Wire for RsaPublicKey {
    open spec fn encodable(value: RsaPublicKeyView) -> bool {
        &&& value.e.len() <= u32::MAX
        &&& value.n.len() <= u32::MAX
    }

    open spec fn encoding(value: RsaPublicKeyView) -> Seq<u8> {
        bytes_wire(value.e) + bytes_wire(value.n)
    }

    open spec fn parse(bytes: Seq<u8>) -> ProtoResult<(RsaPublicKeyView, nat)> {
        match parse_bytes(bytes) {
            Err(e) => Err(e),
            Ok((e, n1)) => match parse_bytes(bytes.skip(n1 as int)) {
                Err(e) => Err(e),
                Ok((n, n2)) => Ok((RsaPublicKeyView { e, n }, n1 + n2)),
            },
        }
    }

    proof fn lemma_parse_encoding(value: RsaPublicKeyView, rest: Seq<u8>) {
        let a = bytes_wire(value.e);
        let b = bytes_wire(value.n);
        assert((a + b) + rest =~= a + (b + rest));
        lemma_parse_bytes_wire(value.e, b + rest);
        assert((a + (b + rest)).skip(a.len() as int) =~= b + rest);
        lemma_parse_bytes_wire(value.n, rest);
    }

    proof fn lemma_parse_cut(value: RsaPublicKeyView, kept: int) {
        let a = bytes_wire(value.e);
        let b = bytes_wire(value.n);
        if kept < a.len() {
            assert((a + b).take(kept) =~= a.take(kept));
            lemma_parse_bytes_cut(value.e, kept);
        } else {
            let left = b.take(kept - a.len());
            assert((a + b).take(kept) =~= a + left);
            lemma_parse_bytes_wire(value.e, left);
            assert((a + left).skip(a.len() as int) =~= left);
            lemma_parse_bytes_cut(value.n, kept - a.len());
        }
    }

    proof fn lemma_parse_exact(bytes: Seq<u8>) {
        if let Ok((value, taken)) = Self::parse(bytes) {
            let n1 = parse_bytes(bytes)->Ok_0.1;
            lemma_parse_bytes_exact(bytes);
            lemma_parse_bytes_exact(bytes.skip(n1 as int));
            assert(Self::encoding(value) =~= bytes.take(taken as int));
        }
    }

    fn is_encodable(&self) -> (fits: bool) {
        self.e.len() <= u32::MAX as usize && self.n.len() <= u32::MAX as usize
    }

    fn write_fields(&self, out: &mut Vec<u8>) {
        write_bytes(self.e.as_slice(), out);
        write_bytes(self.n.as_slice(), out);
        assert(out@ =~= old(out)@ + Self::encoding(self@));
    }

    fn read_fields(buffer: &[u8], offset: usize) -> (r: ProtoResult<(RsaPublicKey, usize)>) {
        let (e, p1) = match read_bytes(buffer, offset) {
            Ok(field) => field,
            Err(e) => {
                return Err(e);
            },
        };
        proof {
            lemma_tail_skip(buffer@, offset as int, p1 - offset);
        }
        let (n, p2) = match read_bytes(buffer, p1) {
            Ok(field) => field,
            Err(e) => {
                return Err(e);
            },
        };
        Ok((RsaPublicKey { e, n }, p2))
    }
}

/// A public key on the wire: the tag of its algorithm, then the fields that
/// the tag stands for.
impl Wire for PublicKey {
    open spec fn encodable(value: PublicKeyView) -> bool {
        match value {
            PublicKeyView::Rsa(key) => RsaPublicKey::encodable(key),
        }
    }

    open spec fn encoding(value: PublicKeyView) -> Seq<u8> {
        match value {
            PublicKeyView::Rsa(key) => seq![RSA_TAG] + RsaPublicKey::encoding(key),
        }
    }

    open spec fn parse(bytes: Seq<u8>) -> ProtoResult<(PublicKeyView, nat)> {
        match parse_u8(bytes) {
            Err(e) => Err(e),
            Ok((tag, _)) => {
                if tag == RSA_TAG {
                    match RsaPublicKey::parse(bytes.skip(1)) {
                        Err(e) => Err(e),
                        Ok((key, taken)) => Ok((PublicKeyView::Rsa(key), 1 + taken)),
                    }
                } else {
                    Err(ProtoError::InvalidTag)
                }
            },
        }
    }

    proof fn lemma_parse_encoding(value: PublicKeyView, rest: Seq<u8>) {
        match value {
            PublicKeyView::Rsa(key) => {
                let fields = RsaPublicKey::encoding(key);
                assert(((seq![RSA_TAG] + fields) + rest).skip(1) =~= fields + rest);
                RsaPublicKey::lemma_parse_encoding(key, rest);
            },
        }
    }

    proof fn lemma_parse_cut(value: PublicKeyView, kept: int) {
        match value {
            PublicKeyView::Rsa(key) => {
                let fields = RsaPublicKey::encoding(key);
                if kept >= 1 {
                    assert((seq![RSA_TAG] + fields).take(kept).skip(1) =~= fields.take(kept - 1));
                    RsaPublicKey::lemma_parse_cut(key, kept - 1);
                }
            },
        }
    }

    proof fn lemma_parse_exact(bytes: Seq<u8>) {
        if let Ok((value, taken)) = Self::parse(bytes) {
            RsaPublicKey::lemma_parse_exact(bytes.skip(1));
            assert(Self::encoding(value) =~= bytes.take(taken as int));
        }
    }

    fn is_encodable(&self) -> (fits: bool) {
        match self {
            PublicKey::Rsa(key) => key.is_encodable(),
        }
    }

    fn write_fields(&self, out: &mut Vec<u8>) {
        match self {
            PublicKey::Rsa(key) => {
                write_u8(RSA_TAG, out);
                key.write_fields(out);
                assert(out@ =~= old(out)@ + Self::encoding(self@));
            },
        }
    }

    fn read_fields(buffer: &[u8], offset: usize) -> (r: ProtoResult<(PublicKey, usize)>) {
        let (tag, start) = match read_u8(buffer, offset) {
            Ok(field) => field,
            Err(e) => {
                return Err(e);
            },
        };
        proof {
            lemma_tail_skip(buffer@, offset as int, 1);
        }
        if tag == RSA_TAG {
            match RsaPublicKey::read_fields(buffer, start) {
                Ok((key, next)) => Ok((PublicKey::Rsa(key), next)),
                Err(e) => Err(e),
            }
        } else {
            Err(ProtoError::InvalidTag)
        }
    }
}

/// A buffer that starts with a byte that is no key tag is rejected with
/// `InvalidTag`, whatever follows.
pub proof fn lemma_unknown_key_tag(bytes: Seq<u8>)
    requires
        bytes.len() > 0,
        !is_key_tag(bytes[0]),
    ensures
        decode::<PublicKey>(bytes) == Err::<PublicKeyView, _>(ProtoError::InvalidTag),
{
}

} // verus!
