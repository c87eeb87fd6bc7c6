use voidproto::error::ProtoError;
use voidproto::protocol::{
    read_generic_packet, read_i64_be, read_string, read_u16_be, write_generic_packet, write_string,
};

#[test]
fn frame_round_trip() {
    for id in [0i32, 1, 0x25, 0x7f, 300] {
        for payload in [vec![], vec![1u8, 2, 3], vec![0u8; 1000]] {
            let frame = write_generic_packet(id, &payload);
            let (rid, rpayload, used) = read_generic_packet(&frame, 0).unwrap();
            assert_eq!(rid, id);
            assert_eq!(rpayload, payload);
            assert_eq!(used, frame.len());
        }
    }
}

#[test]
fn frame_round_trip_with_trailing_bytes() {
    let mut frame = write_generic_packet(7, b"hello");
    let flen = frame.len();
    frame.extend_from_slice(&[0xaa, 0xbb]);
    let (id, payload, used) = read_generic_packet(&frame, 0).unwrap();
    assert_eq!(id, 7);
    assert_eq!(payload, b"hello");
    assert_eq!(used, flen);
}

#[test]
fn truncated_frame() {
    let frame = write_generic_packet(7, b"hello");
    let cut = &frame[..frame.len() - 1];
    assert_eq!(read_generic_packet(cut, 0), Err(ProtoError::Truncated));
}

#[test]
fn length_shorter_than_id_is_malformed() {
    // outer length 0, then a packet id byte
    let bytes = [0x00u8, 0x05];
    assert_eq!(read_generic_packet(&bytes, 0), Err(ProtoError::MalformedVarInt));
}

#[test]
fn big_endian_fields() {
    let bytes = [0x12u8, 0x34, 0x56, 0x78, 0x9a, 0xbc, 0xde, 0xf0];
    assert_eq!(read_u16_be(&bytes, 0), Ok(0x1234));
    assert_eq!(read_i64_be(&bytes, 0), Ok(0x123456789abcdef0));
    let neg = [0xffu8; 8];
    assert_eq!(read_i64_be(&neg, 0), Ok(-1));
    assert_eq!(read_u16_be(&bytes, 7), Err(ProtoError::Truncated));
}

#[test]
fn string_field_reads() {
    // length 5, then "hello"
    let bytes = [0x05u8, b'h', b'e', b'l', b'l', b'o'];
    let (s, used) = read_string(&bytes, 0).unwrap();
    assert_eq!(s, b"hello");
    assert_eq!(used, 6);
}

#[test]
fn string_field_round_trip() {
    for s in ["", "hello", "caf\u{e9} \u{1f600}"] {
        let field = write_string(s);
        let (bytes, used) = read_string(&field, 0).unwrap();
        assert_eq!(bytes, s.as_bytes());
        assert_eq!(used, field.len());
    }
}

#[test]
fn string_field_rejects_invalid_utf8() {
    let bytes = [0x02u8, 0xff, 0xfe];
    assert_eq!(read_string(&bytes, 0), Err(ProtoError::InvalidUtf8));
}

#[test]
fn string_field_truncated() {
    let bytes = [0x05u8, b'h', b'i'];
    assert_eq!(read_string(&bytes, 0), Err(ProtoError::Truncated));
}
