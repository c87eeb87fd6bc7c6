use voidproto::nbt::{NamedTag, NBT};

#[test]
fn compound_with_int_exact_bytes() {
    let root = NamedTag::new(
        Vec::new(),
        NBT::Compound(vec![NamedTag::new(b"a".to_vec(), NBT::Int(1))]),
    );
    let bytes = root.to_bytes();
    assert_eq!(
        bytes,
        vec![0x0a, 0x00, 0x00, 0x03, 0x00, 0x01, b'a', 0x00, 0x00, 0x00, 0x01, 0x00]
    );
}

#[test]
fn empty_compound_exact_bytes() {
    let root = NamedTag::new(Vec::new(), NBT::Compound(vec![]));
    assert_eq!(root.to_bytes(), vec![0x0a, 0x00, 0x00, 0x00]);
}

#[test]
fn type_ids() {
    assert_eq!(NBT::End.type_id(), 0);
    assert_eq!(NBT::Byte(0).type_id(), 1);
    assert_eq!(NBT::Short(0).type_id(), 2);
    assert_eq!(NBT::Int(0).type_id(), 3);
    assert_eq!(NBT::Long(0).type_id(), 4);
    assert_eq!(NBT::Float(0).type_id(), 5);
    assert_eq!(NBT::Double(0).type_id(), 6);
    assert_eq!(NBT::ByteArray(vec![]).type_id(), 7);
    assert_eq!(NBT::Str(vec![]).type_id(), 8);
    assert_eq!(NBT::List(vec![]).type_id(), 9);
    assert_eq!(NBT::Compound(vec![]).type_id(), 10);
    assert_eq!(NBT::IntArray(vec![]).type_id(), 11);
    assert_eq!(NBT::LongArray(vec![]).type_id(), 12);
}

#[test]
fn fixed_width_payloads() {
    assert_eq!(NBT::Byte(1).to_bytes(), vec![0x01]);
    assert_eq!(NBT::Byte(-1).to_bytes(), vec![0xff]);
    assert_eq!(NBT::Short(-2).to_bytes(), vec![0xff, 0xfe]);
    assert_eq!(NBT::Int(0x01020304).to_bytes(), vec![1, 2, 3, 4]);
    assert_eq!(
        NBT::Long(-1).to_bytes(),
        vec![0xff, 0xff, 0xff, 0xff, 0xff, 0xff, 0xff, 0xff]
    );
    assert_eq!(
        NBT::Float((1.5f32).to_bits()).to_bytes(),
        (1.5f32).to_be_bytes().to_vec()
    );
    assert_eq!(
        NBT::Double((1.5f64).to_bits()).to_bytes(),
        (1.5f64).to_be_bytes().to_vec()
    );
}

#[test]
fn string_and_arrays() {
    assert_eq!(NBT::Str(b"hi".to_vec()).to_bytes(), vec![0x00, 0x02, b'h', b'i']);
    assert_eq!(
        NBT::ByteArray(vec![9, 8, 7]).to_bytes(),
        vec![0x00, 0x03, 9, 8, 7]
    );
    assert_eq!(
        NBT::IntArray(vec![1, -1]).to_bytes(),
        vec![0, 0, 0, 2, 0, 0, 0, 1, 0xff, 0xff, 0xff, 0xff]
    );
    assert_eq!(
        NBT::LongArray(vec![1]).to_bytes(),
        vec![0, 0, 0, 1, 0, 0, 0, 0, 0, 0, 0, 1]
    );
}

#[test]
fn list_payload() {
    // element type, 32-bit count, then bare element values
    let list = NBT::List(vec![NBT::Int(1), NBT::Int(2)]);
    assert_eq!(
        list.to_bytes(),
        vec![0x03, 0, 0, 0, 2, 0, 0, 0, 1, 0, 0, 0, 2]
    );
    let empty = NBT::List(vec![]);
    assert_eq!(empty.to_bytes(), vec![0x00, 0, 0, 0, 0]);
}

#[test]
fn named_end_is_a_single_byte() {
    let t = NamedTag::new(b"ignored".to_vec(), NBT::End);
    assert_eq!(t.to_bytes(), vec![0x00]);
    assert_eq!(t.to_bytes_internal(false), vec![0x00]);
}

#[test]
fn unnamed_root_omits_the_name() {
    let t = NamedTag::new(b"name".to_vec(), NBT::Int(7));
    assert_eq!(t.to_bytes_internal(false), vec![0x03, 0, 0, 0, 7]);
    assert_eq!(
        t.to_bytes_internal(true),
        vec![0x03, 0x00, 0x04, b'n', b'a', b'm', b'e', 0, 0, 0, 7]
    );
}
