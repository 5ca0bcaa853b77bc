use agent_proto::proto::public_key::{PublicKey, RsaPublicKey, RSA_TAG};
use agent_proto::proto::signature::Signature;
use agent_proto::proto::wire::Wire;
use agent_proto::proto::{from_bytes, to_bytes, Blob, ProtoError};

fn sample_key() -> PublicKey {
    PublicKey::Rsa(RsaPublicKey {
        e: vec![1, 0, 1],
        n: vec![0, 1, 2, 3, 4, 5, 6, 7, 8, 9],
    })
}

fn sample_key_bytes() -> Vec<u8> {
    vec![
        1, 0, 0, 0, 3, 1, 0, 1, 0, 0, 0, 10, 0, 1, 2, 3, 4, 5, 6, 7, 8, 9,
    ]
}

#[test]
fn rsa_key_has_its_exact_bytes() {
    assert_eq!(RSA_TAG, 1);
    assert_eq!(sample_key().to_blob(), Ok(sample_key_bytes()));
    assert_eq!(to_bytes(&sample_key()), Ok(sample_key_bytes()));
}

#[test]
fn rsa_key_is_read_from_its_exact_bytes() {
    assert_eq!(PublicKey::from_blob(&sample_key_bytes()), Ok(sample_key()));
    assert_eq!(from_bytes::<PublicKey>(&sample_key_bytes()), Ok(sample_key()));
}

#[test]
fn rsa_fields_alone_have_no_tag() {
    let fields = RsaPublicKey {
        e: vec![1, 0, 1],
        n: vec![0xc3],
    };
    let bytes = fields.to_blob().unwrap();
    assert_eq!(bytes, vec![0, 0, 0, 3, 1, 0, 1, 0, 0, 0, 1, 0xc3]);
    assert_eq!(RsaPublicKey::from_blob(&bytes), Ok(fields));
}

#[test]
fn key_with_empty_numbers_round_trips() {
    let key = PublicKey::Rsa(RsaPublicKey {
        e: vec![],
        n: vec![],
    });
    let bytes = key.to_blob().unwrap();
    assert_eq!(bytes, vec![1, 0, 0, 0, 0, 0, 0, 0, 0]);
    assert_eq!(PublicKey::from_blob(&bytes), Ok(key));
}

#[test]
fn key_fields_are_not_swapped() {
    let key = PublicKey::Rsa(RsaPublicKey {
        e: vec![7],
        n: vec![8, 9],
    });
    let bytes = key.to_blob().unwrap();
    assert_eq!(bytes, vec![1, 0, 0, 0, 1, 7, 0, 0, 0, 2, 8, 9]);
    match PublicKey::from_blob(&bytes).unwrap() {
        PublicKey::Rsa(fields) => {
            assert_eq!(fields.e, vec![7]);
            assert_eq!(fields.n, vec![8, 9]);
        }
    }
}

#[test]
fn unknown_key_tag_is_rejected() {
    for tag in 0..=255u8 {
        if tag == RSA_TAG {
            continue;
        }
        let mut bytes = sample_key_bytes();
        bytes[0] = tag;
        assert_eq!(PublicKey::from_blob(&bytes), Err(ProtoError::InvalidTag));
        assert_eq!(PublicKey::from_blob(&[tag]), Err(ProtoError::InvalidTag));
    }
}

#[test]
fn empty_buffer_is_no_key() {
    assert_eq!(PublicKey::from_blob(&[]), Err(ProtoError::Truncated));
    assert_eq!(PublicKey::from_blob(&[RSA_TAG]), Err(ProtoError::Truncated));
}

#[test]
fn key_cut_anywhere_is_truncated() {
    let bytes = sample_key_bytes();
    for kept in 0..bytes.len() {
        assert_eq!(
            PublicKey::from_blob(&bytes[..kept]),
            Err(ProtoError::Truncated),
            "cut at {}",
            kept
        );
    }
}

#[test]
fn key_with_a_byte_too_many_is_rejected() {
    for extra in [0u8, 1, 255] {
        let mut bytes = sample_key_bytes();
        bytes.push(extra);
        assert_eq!(PublicKey::from_blob(&bytes), Err(ProtoError::TrailingBytes));
    }
}

#[test]
fn reading_a_key_in_place_says_where_it_ends() {
    let mut buffer = vec![0xaa, 0xbb];
    buffer.extend_from_slice(&sample_key_bytes());
    buffer.extend_from_slice(&[0xcc, 0xdd, 0xee]);
    assert_eq!(PublicKey::read_fields(&buffer, 2), Ok((sample_key(), 24)));
}

#[test]
fn writing_a_key_appends() {
    let mut out = vec![0xaa];
    sample_key().write_fields(&mut out);
    let mut expected = vec![0xaa];
    expected.extend_from_slice(&sample_key_bytes());
    assert_eq!(out, expected);
}

#[test]
fn small_values_can_be_written() {
    assert!(sample_key().is_encodable());
    assert!(RsaPublicKey { e: vec![], n: vec![] }.is_encodable());
    assert!(Signature {
        algorithm: String::new(),
        blob: vec![]
    }
    .is_encodable());
}

#[test]
fn signature_has_its_exact_bytes() {
    let signature = Signature {
        algorithm: "rsa".to_string(),
        blob: vec![0xde, 0xad],
    };
    let bytes = signature.to_blob().unwrap();
    assert_eq!(bytes, vec![0, 0, 0, 3, b'r', b's', b'a', 0, 0, 0, 2, 0xde, 0xad]);
    assert_eq!(Signature::from_blob(&bytes), Ok(signature));
}

#[test]
fn signature_round_trips() {
    let signature = Signature {
        algorithm: "signature algorithm".to_string(),
        blob: b"signature_blob".to_vec(),
    };
    let bytes = signature.to_blob().unwrap();
    assert_eq!(bytes.len(), 4 + 19 + 4 + 14);
    assert_eq!(Signature::from_blob(&bytes), Ok(signature));
}

#[test]
fn signature_with_empty_fields_round_trips() {
    let signature = Signature {
        algorithm: String::new(),
        blob: Vec::new(),
    };
    let bytes = signature.to_blob().unwrap();
    assert_eq!(bytes, vec![0, 0, 0, 0, 0, 0, 0, 0]);
    assert_eq!(Signature::from_blob(&bytes), Ok(signature));
}

#[test]
fn signature_with_a_name_beyond_ascii_round_trips() {
    let signature = Signature {
        algorithm: "sch\u{e9}ma-\u{1f511}".to_string(),
        blob: vec![0, 255],
    };
    let bytes = signature.to_blob().unwrap();
    assert_eq!(&bytes[..4], &[0, 0, 0, 12]);
    assert_eq!(Signature::from_blob(&bytes), Ok(signature));
}

#[test]
fn signature_name_must_be_utf8() {
    let bytes = [0, 0, 0, 2, 0xff, 0xfe, 0, 0, 0, 1, 5];
    assert_eq!(Signature::from_blob(&bytes), Err(ProtoError::InvalidUtf8));
}

#[test]
fn signature_blob_need_not_be_utf8() {
    let bytes = [0, 0, 0, 1, b'x', 0, 0, 0, 2, 0xff, 0xfe];
    assert_eq!(
        Signature::from_blob(&bytes),
        Ok(Signature {
            algorithm: "x".to_string(),
            blob: vec![0xff, 0xfe],
        })
    );
}

#[test]
fn bad_name_is_reported_before_a_missing_blob() {
    let bytes = [0, 0, 0, 1, 0xff];
    assert_eq!(Signature::from_blob(&bytes), Err(ProtoError::InvalidUtf8));
}

#[test]
fn signature_cut_anywhere_is_truncated() {
    let signature = Signature {
        algorithm: "cl\u{e9}".to_string(),
        blob: vec![1, 2, 3],
    };
    let bytes = signature.to_blob().unwrap();
    for kept in 0..bytes.len() {
        assert_eq!(
            Signature::from_blob(&bytes[..kept]),
            Err(ProtoError::Truncated),
            "cut at {}",
            kept
        );
    }
}

#[test]
fn signature_with_a_byte_too_many_is_rejected() {
    let signature = Signature {
        algorithm: "rsa".to_string(),
        blob: vec![1],
    };
    let mut bytes = signature.to_blob().unwrap();
    bytes.push(0);
    assert_eq!(Signature::from_blob(&bytes), Err(ProtoError::TrailingBytes));
}
