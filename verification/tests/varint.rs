use voidproto::error::ProtoError;
use voidproto::varint::VarInt;

fn round_trip(v: i32) {
    let enc = VarInt::new(v).to_bytes();
    assert_eq!(VarInt::new(v).length(), enc.len());
    let (decoded, used) = VarInt::read(&enc, 0).unwrap();
    assert_eq!(decoded, v);
    assert_eq!(used, enc.len());
}

#[test]
fn round_trips_small() {
    for v in [0, 1, 2, 5, 127, 128, 255, 300, 16383, 16384, 2097151] {
        round_trip(v);
    }
}

#[test]
fn round_trips_negative() {
    for v in [-1, -2, -128, -32768, i32::MIN, i32::MIN + 1] {
        round_trip(v);
    }
}

#[test]
fn round_trips_extremes() {
    round_trip(i32::MAX);
    round_trip(i32::MIN);
}

#[test]
fn canonical_bytes() {
    assert_eq!(VarInt::new(0).to_bytes(), vec![0x00]);
    assert_eq!(VarInt::new(1).to_bytes(), vec![0x01]);
    assert_eq!(VarInt::new(127).to_bytes(), vec![0x7f]);
    assert_eq!(VarInt::new(128).to_bytes(), vec![0x80, 0x01]);
    assert_eq!(VarInt::new(300).to_bytes(), vec![0xac, 0x02]);
    assert_eq!(VarInt::new(-1).to_bytes(), vec![0xff, 0xff, 0xff, 0xff, 0x0f]);
}

#[test]
fn six_continuation_bytes_are_malformed() {
    let bytes = [0x80u8, 0x80, 0x80, 0x80, 0x80, 0x80];
    assert_eq!(VarInt::read(&bytes, 0), Err(ProtoError::MalformedVarInt));
}

#[test]
fn truncated_input_is_truncated() {
    let bytes = [0x80u8, 0x80];
    assert_eq!(VarInt::read(&bytes, 0), Err(ProtoError::Truncated));
    let empty: [u8; 0] = [];
    assert_eq!(VarInt::read(&empty, 0), Err(ProtoError::Truncated));
}

#[test]
fn non_canonical_decodes() {
    // A two-byte encoding of zero is accepted by the decoder.
    let bytes = [0x80u8, 0x00];
    assert_eq!(VarInt::read(&bytes, 0), Ok((0, 2)));
}

#[test]
fn accessors() {
    let v = VarInt::new(42);
    assert_eq!(v.value, 42);
    assert_eq!(v.into_inner(), 42);
}
