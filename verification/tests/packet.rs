use voidproto::nbt::{NamedTag, NBT};
use voidproto::packet::PacketBuilder;
use voidproto::varint::VarInt;

#[test]
fn build_frames_the_payload() {
    let frame = PacketBuilder::new(0x00).with_string("{}").build();
    // length 3 (id byte + 3-byte string field), id 0, len 2, '{', '}'
    assert_eq!(frame, vec![0x04, 0x00, 0x02, b'{', b'}']);
}

#[test]
fn field_encodings() {
    let b = PacketBuilder::new(0x10)
        .with_var_int(300)
        .with_i64(-1)
        .with_i32(0x01020304)
        .with_i16(-2)
        .with_u8(7)
        .with_bool(true)
        .with_bool(false)
        .with_raw_bytes(&[0xaa, 0xbb]);
    let mut expected = vec![0xac, 0x02];
    expected.extend_from_slice(&[0xff; 8]);
    expected.extend_from_slice(&[1, 2, 3, 4]);
    expected.extend_from_slice(&[0xff, 0xfe]);
    expected.push(7);
    expected.push(1);
    expected.push(0);
    expected.extend_from_slice(&[0xaa, 0xbb]);
    assert_eq!(b.buffer, expected);
    assert_eq!(b.id, 0x10);
}

#[test]
fn uuid_is_sixteen_big_endian_bytes() {
    let b = PacketBuilder::new(0).with_uuid(0x0102030405060708090a0b0c0d0e0f10);
    assert_eq!(
        b.buffer,
        vec![1, 2, 3, 4, 5, 6, 7, 8, 9, 10, 11, 12, 13, 14, 15, 16]
    );
    let z = PacketBuilder::new(0).with_uuid(0);
    assert_eq!(z.buffer, vec![0u8; 16]);
}

#[test]
fn string_field_is_varint_length_then_bytes() {
    let b = PacketBuilder::new(0).with_string("hello");
    assert_eq!(b.buffer, vec![5, b'h', b'e', b'l', b'l', b'o']);
    let b2 = PacketBuilder::new(0).with_string_bytes(b"hello");
    assert_eq!(b2.buffer, b.buffer);
}

#[test]
fn nbt_field_is_the_named_serialization() {
    let tag = NamedTag::new(b"a".to_vec(), NBT::Byte(1));
    let b = PacketBuilder::new(0).with_nbt(&tag);
    assert_eq!(b.buffer, tag.to_bytes());
}

#[test]
fn position_packs_the_three_coordinates() {
    let b = PacketBuilder::new(0).with_position(1, 2, 3);
    let packed: u64 = ((1u64 & 0x3ff_ffff) << 38) | ((3u64 & 0x3ff_ffff) << 12) | (2u64 & 0xfff);
    assert_eq!(b.buffer, packed.to_be_bytes().to_vec());

    let b = PacketBuilder::new(0).with_position(-1, -1, -1);
    let packed: u64 =
        (((-1i64 as u64) & 0x3ff_ffff) << 38) | (((-1i64 as u64) & 0x3ff_ffff) << 12) | ((-1i64
            as u64) & 0xfff);
    assert_eq!(b.buffer, packed.to_be_bytes().to_vec());
}

#[test]
fn build_length_covers_id_and_payload() {
    let payload_len = 300;
    let frame = PacketBuilder::new(0x25).with_raw_bytes(&vec![0u8; payload_len]).build();
    let expected_len = VarInt::new((payload_len + 1) as i32).to_bytes();
    assert_eq!(&frame[..expected_len.len()], &expected_len[..]);
}
