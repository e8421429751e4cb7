use valve_key_value::kv3::kv3_text::serializer::{serialize_object, write_indent};
use valve_key_value::kv3::{Kv3Id, KvHeader, ENC_BIN, ENC_EXT, FMT_GENERIC};
use valve_key_value::parser::kv3_text::parse_kv3_text;
use valve_key_value::rect_sets::{rectangle_sets, rectangle_sets_text, Rect, RectProperties};
use valve_key_value::serializer::kv3_text;
use valve_key_value::{KvFormat, KvMap, KvMapEntry, KvObject};

fn table(entries: Vec<(&str, KvObject)>) -> KvObject {
    let mut map = KvMap::new();
    for (k, v) in entries {
        map.insert(k.to_string(), KvMapEntry::new(v));
    }
    KvObject::Table(map)
}

#[test]
fn uuid_constants_are_written_hyphenated() {
    let id = Kv3Id { name: "text".to_string(), id: ENC_EXT };
    assert_eq!(id.to_text(), "text:version{e21c7f3c-8a33-41c5-9977-a76d3a32aa0d}");
    let id = Kv3Id { name: "generic".to_string(), id: FMT_GENERIC };
    assert_eq!(id.to_text(), "generic:version{7412167c-06e9-4698-aff2-e63eb59037e7}");
    let id = Kv3Id { name: "bin".to_string(), id: ENC_BIN };
    assert_eq!(id.to_text(), "bin:version{1b860500-f7d8-40c1-ad82-75a48267e714}");
}

#[test]
fn document_with_default_header() {
    let mut out = String::new();
    table(vec![("a", KvObject::Int(1))]).serialize(&mut out, KvFormat::Kv3Text, None);
    assert_eq!(
        out,
        "<!-- kv3 encoding:text:version{e21c7f3c-8a33-41c5-9977-a76d3a32aa0d} format:generic:version{7412167c-06e9-4698-aff2-e63eb59037e7} -->\r\n{\r\n\ta = 1\r\n}\r\n"
    );
}

#[test]
fn document_with_header() {
    let header = KvHeader {
        encoding: Kv3Id { name: "binary".to_string(), id: ENC_BIN },
        format: Kv3Id { name: "generic".to_string(), id: FMT_GENERIC },
    };
    let mut out = String::new();
    KvObject::Bool(true).serialize(&mut out, KvFormat::Kv3Text, Some(&header));
    assert_eq!(
        out,
        "<!-- kv3 encoding:binary:version{1b860500-f7d8-40c1-ad82-75a48267e714} format:generic:version{7412167c-06e9-4698-aff2-e63eb59037e7} -->\r\ntrue\r\n"
    );
}

#[test]
fn written_document_reads_back() {
    let value = table(vec![
        ("name", KvObject::String("a \\ b".replace('\\', "/"))),
        ("count", KvObject::Int(-9223372036854775808)),
        ("ratio", KvObject::Float((-2.5f64).to_string())),
        ("on", KvObject::Bool(false)),
        ("empty", KvObject::String(String::new())),
        (
            "nested",
            KvObject::Array(vec![
                table(vec![("x", KvObject::Int(1))]),
                KvObject::Array(vec![]),
                table(vec![]),
            ]),
        ),
        ("list", KvObject::Array(vec![KvObject::Int(1), KvObject::String("s".to_string())])),
    ]);
    let mut out = String::new();
    value.serialize(&mut out, KvFormat::Kv3Text, None);
    assert_eq!(parse_kv3_text(&out), Ok(value));
}

#[test]
fn null_does_not_read_back() {
    let mut out = String::new();
    serialize_object(&mut out, &KvObject::Null, 0);
    assert!(parse_kv3_text(&out).is_err());
}

#[test]
fn nested_values_are_indented() {
    let value = table(vec![(
        "a",
        table(vec![("b", KvObject::Array(vec![KvObject::Array(vec![KvObject::Int(1)])]))]),
    )]);
    let mut out = String::new();
    serialize_object(&mut out, &value, 1);
    assert_eq!(
        out,
        "{\r\n\t\ta = \r\n\t\t{\r\n\t\t\tb = \r\n\t\t\t[\r\n\t\t\t\t[ 1 ]\r\n\t\t\t]\r\n\t\t}\r\n\t}"
    );
}

#[test]
fn empty_collections() {
    let mut out = String::new();
    serialize_object(&mut out, &KvObject::Array(vec![]), 0);
    assert_eq!(out, "[ ]");
    let mut out = String::new();
    serialize_object(&mut out, &table(vec![]), 0);
    assert_eq!(out, "{\r\n}");
}

#[test]
fn integers_are_written_in_decimal() {
    let mut out = String::new();
    serialize_object(&mut out, &KvObject::Int(i64::MIN), 0);
    assert_eq!(out, "-9223372036854775808");
    let mut out = String::new();
    serialize_object(&mut out, &KvObject::Int(0), 0);
    assert_eq!(out, "0");
}

#[test]
fn indents_are_tabs() {
    let mut out = String::from("x");
    write_indent(&mut out, 3);
    assert_eq!(out, "x\t\t\t");
    let mut out = String::new();
    kv3_text::write_indent(2, &mut out);
    assert_eq!(out, "\t\t");
}

#[test]
fn spaced_layout_nests_tables() {
    let value = table(vec![("a", table(vec![("b", KvObject::Float("1.5".to_string()))]))]);
    let mut out = String::new();
    kv3_text::serialize_object(&value, 0, &mut out);
    assert_eq!(out, "\r\n{\r\n\ta =\r\n\t{\r\n\t\tb = 1.5\r\n\t}\r\n}");
}

#[test]
fn table_keeps_insertion_order_and_replaces_in_place() {
    let mut map = KvMap::new();
    assert_eq!(map.insert("b".to_string(), KvMapEntry::new(KvObject::Int(1))), None);
    assert_eq!(map.insert("a".to_string(), KvMapEntry::new(KvObject::Int(2))), None);
    assert_eq!(
        map.insert("b".to_string(), KvMapEntry::new(KvObject::Int(3))),
        Some(KvMapEntry::new(KvObject::Int(1)))
    );
    assert_eq!(map.len(), 2);
    assert!(map.contains_key("a"));
    assert!(!map.contains_key("c"));
    let (k, e) = map.get_index(0).unwrap();
    assert_eq!(k, "b");
    assert_eq!(e.value, KvObject::Int(3));
    assert!(map.get_index(2).is_none());
}

#[test]
fn clone_is_equal() {
    let value = table(vec![("a", KvObject::Array(vec![KvObject::Bin(vec![1, 2])]))]);
    assert_eq!(value.clone(), value);
}

#[test]
fn rectangle_sets_document() {
    let rects = vec![Rect {
        x: 1,
        y: 2,
        width: 10,
        height: 20,
        properties: Some(RectProperties { allow_tiling: false, allow_rotation: true }),
    }];
    let kv = rectangle_sets(&rects);
    let mut out = String::new();
    kv.serialize(&mut out, KvFormat::Kv3Text, None);
    assert_eq!(
        out,
        "<!-- kv3 encoding:text:version{e21c7f3c-8a33-41c5-9977-a76d3a32aa0d} format:generic:version{7412167c-06e9-4698-aff2-e63eb59037e7} -->\r\n\
{\r\n\
\tRectangleSets = \r\n\
\t[\r\n\
\t\t{\r\n\
\t\t\tname = \"\"\r\n\
\t\t\tproperties = null\r\n\
\t\t\trectangles = \r\n\
\t\t\t[\r\n\
\t\t\t\t{\r\n\
\t\t\t\t\tmin = [ 1, 2 ]\r\n\
\t\t\t\t\tmax = [ 11, 22 ]\r\n\
\t\t\t\t\tinset = [ 0, 0 ]\r\n\
\t\t\t\t\tproperties = \r\n\
\t\t\t\t\t{\r\n\
\t\t\t\t\t\tallowTiling = false\r\n\
\t\t\t\t\t\tallowRotation = true\r\n\
\t\t\t\t\t}\r\n\
\t\t\t\t}\r\n\
\t\t\t]\r\n\
\t\t}\r\n\
\t]\r\n\
}\r\n"
    );
}

#[test]
fn rectangle_sets_file_text() {
    let rects = vec![Rect { x: 3, y: 4, width: 5, height: 6, properties: None }];
    assert_eq!(
        rectangle_sets_text(&rects),
        "<!-- kv3 encoding:text:version{e21c7f3c-8a33-41c5-9977-a76d3a32aa0d} format:generic:version{7412167c-06e9-4698-aff2-e63eb59037e7} -->\r\n\
{\r\n\
\tRectangleSets =\r\n\
\t[\r\n\
\t\t{\r\n\
\t\t\tname = \"\"\r\n\
\t\t\tproperties = null\r\n\
\t\t\trectangles =\r\n\
\t\t\t[\r\n\
\t\t\t\t{\r\n\
\t\t\t\t\tmin = [ 3, 4 ]\r\n\
\t\t\t\t\tmax = [ 8, 10 ]\r\n\
\t\t\t\t\tinset = [ 0, 0 ]\r\n\
\t\t\t\t\tproperties = null\r\n\
\t\t\t\t},\r\n\
\t\t\t]\r\n\
\t\t}\r\n\
\t]\r\n\
}\r\n"
    );
}

#[test]
fn comments_do_not_change_what_is_read() {
    let with = parse_kv3_text("<!-- h -->{ /* c */ a = // x\n [ 1, /* y */ 2 ] b /* z */ = true }");
    let without = parse_kv3_text("{ a = [ 1, 2 ] b = true }");
    assert!(with.is_ok());
    assert_eq!(with, without);
}

#[test]
fn a_parsed_value_can_be_written_back() {
    let value = parse_kv3_text("{ a = [ { b = 1.50 } ] c = \"x\\\"y\" }").unwrap();
    let mut out = String::new();
    value.serialize(&mut out, KvFormat::Kv3Text, None);
    assert!(out.ends_with("{\r\n\ta = \r\n\t[\r\n\t\t{\r\n\t\t\tb = 1.50\r\n\t\t}\r\n\t]\r\n\tc = \"x\"y\"\r\n}\r\n"));
}
