use valve_key_value::kv3::kv3_text::serializer::{serialize_array, serialize_map, serialize_object};
use valve_key_value::{KvMap, KvMapEntry, KvObject};

fn map_of(entries: Vec<(&str, KvMapEntry)>) -> KvMap {
    let mut map = KvMap::new();
    for (k, v) in entries {
        map.insert(k.to_string(), v);
    }
    map
}

#[test]
fn serializer_test_null() {
    let mut buf = String::new();
    serialize_object(&mut buf, &KvObject::Null, 0);
    assert_eq!(buf, "null");
}

#[test]
fn serializer_test_string() {
    let mut buf = String::new();
    serialize_object(&mut buf, &KvObject::String("test string".to_string()), 0);
    assert_eq!(buf, "\"test string\"");
}

#[test]
fn serializer_test_int() {
    let mut buf = String::new();
    serialize_object(&mut buf, &KvObject::Int(1234567890), 0);
    assert_eq!(buf, "1234567890");
}

#[test]
fn serializer_test_bool_true() {
    let mut buf = String::new();
    serialize_object(&mut buf, &KvObject::Bool(true), 0);
    assert_eq!(buf, "true");
}

#[test]
fn serializer_test_bool_false() {
    let mut buf = String::new();
    serialize_object(&mut buf, &KvObject::Bool(false), 0);
    assert_eq!(buf, "false");
}

#[test]
fn serializer_test_serialize_map() {
    let mut buf = String::new();
    serialize_map(
        &mut buf,
        &map_of(vec![
            ("foo", KvMapEntry::new(KvObject::Null)),
            ("bar", KvMapEntry::new(KvObject::Int(1234))),
            (
                "baz",
                KvMapEntry {
                    value: KvObject::String("my string".to_string()),
                    flag: Some("flag1".to_string()),
                },
            ),
        ]),
        0,
    );
    assert_eq!(
        buf,
        "{\r\n\tfoo = null\r\n\tbar = 1234\r\n\tbaz = flag1:\"my string\"\r\n}"
    );
}

#[test]
fn serializer_test_serialize_array() {
    let mut buf = String::new();
    serialize_array(
        &mut buf,
        &vec![
            KvObject::Int(1234),
            KvObject::Int(5678),
            KvObject::Int(9012),
        ],
        0,
    );
    assert_eq!(buf, "[ 1234, 5678, 9012 ]");
}

#[test]
fn serializer_test_serialize_multiline_array() {
    let mut buf = String::new();
    serialize_array(
        &mut buf,
        &vec![
            KvObject::Table(map_of(vec![
                ("foo", KvMapEntry::new(KvObject::Int(1))),
                ("bar", KvMapEntry::new(KvObject::Int(2))),
            ])),
            KvObject::Table(map_of(vec![
                ("foo", KvMapEntry::new(KvObject::Int(3))),
                ("bar", KvMapEntry::new(KvObject::Int(4))),
            ])),
        ],
        0,
    );
    assert_eq!(
        buf,
        "[\r\n\t{\r\n\t\tfoo = 1\r\n\t\tbar = 2\r\n\t},\r\n\t{\r\n\t\tfoo = 3\r\n\t\tbar = 4\r\n\t}\r\n]"
    );
}
