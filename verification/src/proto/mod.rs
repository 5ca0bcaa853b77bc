//! The wire protocol: the data model, its byte format, and the entry points
//! that turn one into the other.

use vstd::prelude::*;

pub mod de;
pub mod error;
pub mod message;
pub mod public_key;
pub mod ser;
pub mod signature;
pub mod wire;

pub use self::de::{from_bytes, read_bytes, read_string, read_u32, read_u8};
pub use self::error::{ProtoError, ProtoResult};
pub use self::message::{
    Identity, IdentityView, Message, MessageView, SignRequest, SignRequestView,
    IDENTITIES_ANSWER_TAG, SIGN_REQUEST_TAG, SIGN_RESPONSE_TAG, SUCCESS_TAG,
};
pub use self::public_key::{PublicKey, PublicKeyView, RsaPublicKey, RsaPublicKeyView, RSA_TAG};
pub use self::ser::{to_bytes, write_bytes, write_string, write_u32, write_u8};
pub use self::signature::{Signature, SignatureView};
pub use self::wire::{decode, Wire};

verus! {

/// One pair of entry points for every type that has a wire format: a value
/// to its bytes, and a whole buffer back to a value.
pub trait Blob: Wire {
    /// The value's bytes, in a buffer of their own.
    fn to_blob(&self) -> (r: ProtoResult<Vec<u8>>)
        requires
            Self::encodable(self@),
        ensures
            r matches Ok(bytes) && bytes@ == Self::encoding(self@),
    ;

    /// The value that `blob` holds from its first byte to its last.
    fn from_blob(blob: &[u8]) -> (r: ProtoResult<Self>)
        ensures
            match r {
                Ok(value) => decode::<Self>(blob@) == Ok::<_, ProtoError>(value@),
                Err(e) => decode::<Self>(blob@) == Err::<Self::V, _>(e),
            },
    ;
}

impl<T: Wire> Blob for T {
    fn to_blob(&self) -> (r: ProtoResult<Vec<u8>>) {
        to_bytes(self)
    }

    fn from_blob(blob: &[u8]) -> (r: ProtoResult<T>) {
        from_bytes(blob)
    }
}

} // verus!
