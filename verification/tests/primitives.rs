use agent_proto::proto::{
    read_bytes, read_string, read_u32, read_u8, write_bytes, write_string, write_u32, write_u8,
    ProtoError,
};

#[test]
fn u32_is_written_big_endian() {
    let mut out = Vec::new();
    write_u32(0x0102_0304, &mut out);
    assert_eq!(out, vec![1, 2, 3, 4]);
    write_u32(24, &mut out);
    assert_eq!(out, vec![1, 2, 3, 4, 0, 0, 0, 24]);
    write_u32(u32::MAX, &mut out);
    assert_eq!(&out[8..], &[255, 255, 255, 255]);
    write_u32(0, &mut out);
    assert_eq!(&out[12..], &[0, 0, 0, 0]);
}

#[test]
fn u32_is_read_big_endian() {
    assert_eq!(read_u32(&[1, 2, 3, 4], 0), Ok((0x0102_0304, 4)));
    assert_eq!(read_u32(&[9, 0, 0, 1, 2], 1), Ok((258, 5)));
    assert_eq!(read_u32(&[255, 255, 255, 255], 0), Ok((u32::MAX, 4)));
    assert_eq!(read_u32(&[0, 0, 0, 0, 7], 0), Ok((0, 4)));
}

#[test]
fn u32_round_trips() {
    for value in [0u32, 1, 255, 256, 65_535, 65_536, 0x00ff_ffff, 0x0100_0000, 0xdead_beef, u32::MAX] {
        let mut out = Vec::new();
        write_u32(value, &mut out);
        assert_eq!(out.len(), 4);
        assert_eq!(read_u32(&out, 0), Ok((value, 4)));
    }
}

#[test]
fn u32_cut_short_is_truncated() {
    assert_eq!(read_u32(&[], 0), Err(ProtoError::Truncated));
    assert_eq!(read_u32(&[1, 2, 3], 0), Err(ProtoError::Truncated));
    assert_eq!(read_u32(&[1, 2, 3, 4], 1), Err(ProtoError::Truncated));
    assert_eq!(read_u32(&[1, 2, 3, 4], 4), Err(ProtoError::Truncated));
}

#[test]
fn offset_past_the_end_is_truncated() {
    assert_eq!(read_u8(&[1], 2), Err(ProtoError::Truncated));
    assert_eq!(read_u32(&[1, 2, 3, 4], 5), Err(ProtoError::Truncated));
    assert_eq!(read_u32(&[1, 2, 3, 4], usize::MAX), Err(ProtoError::Truncated));
    assert_eq!(read_bytes(&[0, 0, 0, 0], 9), Err(ProtoError::Truncated));
    assert_eq!(read_string(&[0, 0, 0, 0], usize::MAX), Err(ProtoError::Truncated));
}

#[test]
fn u8_is_one_byte() {
    let mut out = vec![7];
    write_u8(200, &mut out);
    assert_eq!(out, vec![7, 200]);
    assert_eq!(read_u8(&out, 0), Ok((7, 1)));
    assert_eq!(read_u8(&out, 1), Ok((200, 2)));
    assert_eq!(read_u8(&out, 2), Err(ProtoError::Truncated));
    assert_eq!(read_u8(&[], 0), Err(ProtoError::Truncated));
}

#[test]
fn bytes_carry_their_length_in_front() {
    let mut out = Vec::new();
    write_bytes(b"data", &mut out);
    assert_eq!(out, vec![0, 0, 0, 4, b'd', b'a', b't', b'a']);
    assert_eq!(read_bytes(&out, 0), Ok((b"data".to_vec(), 8)));
}

#[test]
fn bytes_are_appended_to_what_is_there() {
    let mut out = vec![9, 9];
    write_bytes(&[1, 0, 1], &mut out);
    write_bytes(&[], &mut out);
    assert_eq!(out, vec![9, 9, 0, 0, 0, 3, 1, 0, 1, 0, 0, 0, 0]);
    assert_eq!(read_bytes(&out, 2), Ok((vec![1, 0, 1], 9)));
    assert_eq!(read_bytes(&out, 9), Ok((vec![], 13)));
}

#[test]
fn empty_bytes_round_trip() {
    let mut out = Vec::new();
    write_bytes(&[], &mut out);
    assert_eq!(out, vec![0, 0, 0, 0]);
    assert_eq!(read_bytes(&out, 0), Ok((Vec::new(), 4)));
}

#[test]
fn long_bytes_round_trip() {
    let bytes: Vec<u8> = (0..70_000u32).map(|i| (i % 251) as u8).collect();
    let mut out = Vec::new();
    write_bytes(&bytes, &mut out);
    assert_eq!(&out[..4], &[0, 1, 0x11, 0x70]);
    assert_eq!(out.len(), 70_004);
    assert_eq!(read_bytes(&out, 0), Ok((bytes, 70_004)));
}

#[test]
fn bytes_stop_at_their_length() {
    let buffer = [0, 0, 0, 2, 10, 20, 30, 40];
    assert_eq!(read_bytes(&buffer, 0), Ok((vec![10, 20], 6)));
}

#[test]
fn declared_length_past_the_end_is_truncated() {
    assert_eq!(read_bytes(&[0, 0, 0, 5, 1, 2, 3, 4], 0), Err(ProtoError::Truncated));
    assert_eq!(read_bytes(&[0, 0, 0, 1], 0), Err(ProtoError::Truncated));
    assert_eq!(read_bytes(&[0, 0, 0], 0), Err(ProtoError::Truncated));
    assert_eq!(read_bytes(&[], 0), Err(ProtoError::Truncated));
}

#[test]
fn hostile_length_is_truncated() {
    assert_eq!(
        read_bytes(&[255, 255, 255, 255, 1, 2, 3], 0),
        Err(ProtoError::Truncated)
    );
    assert_eq!(
        read_string(&[255, 255, 255, 255, b'a'], 0),
        Err(ProtoError::Truncated)
    );
    assert_eq!(
        read_bytes(&[128, 0, 0, 0], 0),
        Err(ProtoError::Truncated)
    );
}

#[test]
fn string_is_its_utf8_bytes() {
    let mut out = Vec::new();
    write_string("comment_1", &mut out);
    assert_eq!(
        out,
        vec![0, 0, 0, 9, b'c', b'o', b'm', b'm', b'e', b'n', b't', b'_', b'1']
    );
    assert_eq!(read_string(&out, 0), Ok(("comment_1".to_string(), 13)));
}

#[test]
fn string_length_counts_bytes() {
    let mut out = Vec::new();
    write_string("h\u{e9}\u{20ac}\u{1f511}", &mut out);
    assert_eq!(
        out,
        vec![0, 0, 0, 10, b'h', 0xc3, 0xa9, 0xe2, 0x82, 0xac, 0xf0, 0x9f, 0x94, 0x91]
    );
    assert_eq!(
        read_string(&out, 0),
        Ok(("h\u{e9}\u{20ac}\u{1f511}".to_string(), 14))
    );
}

#[test]
fn empty_string_round_trips() {
    let mut out = Vec::new();
    write_string("", &mut out);
    assert_eq!(out, vec![0, 0, 0, 0]);
    assert_eq!(read_string(&out, 0), Ok((String::new(), 4)));
}

#[test]
fn string_that_is_no_utf8_is_rejected() {
    assert_eq!(read_string(&[0, 0, 0, 1, 0xff], 0), Err(ProtoError::InvalidUtf8));
    assert_eq!(read_string(&[0, 0, 0, 2, 0xc3, 0x28], 0), Err(ProtoError::InvalidUtf8));
    assert_eq!(read_string(&[0, 0, 0, 1, 0x80], 0), Err(ProtoError::InvalidUtf8));
}

#[test]
fn overlong_and_surrogate_strings_are_rejected() {
    assert_eq!(read_string(&[0, 0, 0, 2, 0xc0, 0x80], 0), Err(ProtoError::InvalidUtf8));
    assert_eq!(
        read_string(&[0, 0, 0, 3, 0xed, 0xa0, 0x80], 0),
        Err(ProtoError::InvalidUtf8)
    );
    assert_eq!(
        read_string(&[0, 0, 0, 4, 0xf4, 0x90, 0x80, 0x80], 0),
        Err(ProtoError::InvalidUtf8)
    );
}

#[test]
fn string_cut_inside_a_character_is_rejected() {
    assert_eq!(read_string(&[0, 0, 0, 2, 0xe2, 0x82, 0xac], 0), Err(ProtoError::InvalidUtf8));
    assert_eq!(read_string(&[0, 0, 0, 3, 0xe2, 0x82], 0), Err(ProtoError::Truncated));
}

#[test]
fn truncation_comes_before_utf8() {
    assert_eq!(read_string(&[0, 0, 0, 3, 0xff, 0xff], 0), Err(ProtoError::Truncated));
}

#[test]
fn string_keeps_what_follows_untouched() {
    let buffer = [0, 0, 0, 2, b'o', b'k', 0xff, 0xff];
    assert_eq!(read_string(&buffer, 0), Ok(("ok".to_string(), 6)));
}
