use voidproto::json::from_json;
use voidproto::nbt::{NamedTag, NBT};

fn root_children(nt: &NamedTag) -> &Vec<NamedTag> {
    match &nt.tag {
        NBT::Compound(v) => v,
        _ => panic!("root is not a compound"),
    }
}

#[test]
fn bool_becomes_byte() {
    let nt = from_json("{\"x\": true}").unwrap();
    assert_eq!(nt.name, b"");
    let children = root_children(&nt);
    assert_eq!(children.len(), 1);
    assert_eq!(children[0].name, b"x");
    assert_eq!(children[0].tag, NBT::Byte(1));

    let nt = from_json("{\"x\": false}").unwrap();
    assert_eq!(root_children(&nt)[0].tag, NBT::Byte(0));
}

#[test]
fn integral_number_becomes_int() {
    let nt = from_json("{\"n\": 3}").unwrap();
    assert_eq!(root_children(&nt)[0].tag, NBT::Int(3));
}

#[test]
fn fractional_number_becomes_float() {
    let nt = from_json("{\"n\": 3.5}").unwrap();
    assert_eq!(root_children(&nt)[0].tag, NBT::Float((3.5f32).to_bits()));
}

#[test]
fn more_numbers() {
    let cases: &[(&str, NBT)] = &[
        ("{\"n\": 0}", NBT::Int(0)),
        ("{\"n\": -7}", NBT::Int(-7)),
        ("{\"n\": 2.0}", NBT::Int(2)),
        ("{\"n\": -0.5}", NBT::Float((-0.5f32).to_bits())),
        ("{\"n\": 0.1}", NBT::Float((0.1f32).to_bits())),
        ("{\"n\": 123.456}", NBT::Float((123.456f32).to_bits())),
        ("{\"n\": 1e2}", NBT::Int(100)),
        ("{\"n\": 1.5e1}", NBT::Int(15)),
        ("{\"n\": 25e-1}", NBT::Float((2.5f32).to_bits())),
        ("{\"n\": 1e12}", NBT::Int(i32::MAX)),
        ("{\"n\": -1e12}", NBT::Int(i32::MIN)),
        ("{\"n\": 0.0000152587890625}", NBT::Float((0.0000152587890625f32).to_bits())),
        ("{\"n\": 1e-30}", NBT::Float((1e-30f32).to_bits())),
        // below the normal range the importer collapses to zero
        ("{\"n\": 1e-40}", NBT::Float(0)),
    ];
    for (text, expected) in cases {
        let nt = from_json(text).unwrap();
        assert_eq!(&root_children(&nt)[0].tag, expected, "input {}", text);
    }
}

#[test]
fn strings_and_escapes() {
    let nt = from_json("{\"s\": \"hi\"}").unwrap();
    assert_eq!(root_children(&nt)[0].tag, NBT::Str(b"hi".to_vec()));

    let nt = from_json("{\"s\": \"a\\n\\t\\\"\\\\b\"}").unwrap();
    assert_eq!(root_children(&nt)[0].tag, NBT::Str(b"a\n\t\"\\b".to_vec()));

    let nt = from_json("{\"s\": \"\\u0041\\u00e9\\u20ac\"}").unwrap();
    assert_eq!(
        root_children(&nt)[0].tag,
        NBT::Str("A\u{e9}\u{20ac}".as_bytes().to_vec())
    );

    // a surrogate pair combines into one scalar
    let nt = from_json("{\"s\": \"\\ud83d\\ude00\"}").unwrap();
    assert_eq!(
        root_children(&nt)[0].tag,
        NBT::Str("\u{1f600}".as_bytes().to_vec())
    );
}

#[test]
fn arrays_become_lists() {
    let nt = from_json("{\"a\": [1, 2, 3]}").unwrap();
    assert_eq!(
        root_children(&nt)[0].tag,
        NBT::List(vec![NBT::Int(1), NBT::Int(2), NBT::Int(3)])
    );
    let nt = from_json("{\"a\": []}").unwrap();
    assert_eq!(root_children(&nt)[0].tag, NBT::List(vec![]));
}

#[test]
fn mixed_array_is_rejected() {
    assert!(from_json("{\"a\": [1, \"x\"]}").is_none());
}

#[test]
fn nested_objects() {
    let nt = from_json("{ \"outer\" : { \"inner\" : 1 } }").unwrap();
    let children = root_children(&nt);
    assert_eq!(children[0].name, b"outer");
    match &children[0].tag {
        NBT::Compound(inner) => {
            assert_eq!(inner[0].name, b"inner");
            assert_eq!(inner[0].tag, NBT::Int(1));
        }
        other => panic!("unexpected tag {:?}", other),
    }
}

#[test]
fn key_order_is_preserved() {
    let nt = from_json("{\"b\": 1, \"a\": 2, \"c\": 3}").unwrap();
    let names: Vec<&[u8]> = root_children(&nt).iter().map(|c| c.name.as_slice()).collect();
    assert_eq!(names, vec![b"b" as &[u8], b"a", b"c"]);
}

#[test]
fn bad_documents_are_rejected() {
    assert!(from_json("").is_none());
    assert!(from_json("3").is_none());
    assert!(from_json("[1]").is_none());
    assert!(from_json("{\"x\": null}").is_none());
    assert!(from_json("{\"x\": true} trailing").is_none());
    assert!(from_json("{\"x\": }").is_none());
    assert!(from_json("{\"x\" true}").is_none());
    assert!(from_json("{\"x\": tru}").is_none());
    assert!(from_json("{\"x\": \"unterminated}").is_none());
}

#[test]
fn imported_tree_encodes() {
    let nt = from_json("{\"a\": {\"b\": [1, 2]}, \"c\": \"hi\"}").unwrap();
    // the importer only produces encodable trees
    let bytes = nt.to_bytes();
    assert!(bytes.len() > 0);
    assert_eq!(bytes[0], 0x0a);
    assert_eq!(*bytes.last().unwrap(), 0x00);
}
