use valve_key_value::serializer::kv3_text::{serialize_array, serialize_map, serialize_object};
use valve_key_value::{KvMap, KvMapEntry, KvObject};

fn map_of(entries: Vec<(&str, KvObject)>) -> KvMap {
    let mut map = KvMap::new();
    for (k, v) in entries {
        map.insert(k.to_string(), KvMapEntry::new(v));
    }
    map
}

#[test]
fn kv3_text_test_null() {
    let mut buf = String::new();
    serialize_object(&KvObject::Null, 0, &mut buf);
    assert_eq!(buf, " null");
}

#[test]
fn kv3_text_test_string() {
    let mut buf = String::new();
    serialize_object(&KvObject::String("test string".to_string()), 0, &mut buf);
    assert_eq!(buf, " \"test string\"");
}

#[test]
fn kv3_text_test_int() {
    let mut buf = String::new();
    serialize_object(&KvObject::Int(1234567890), 0, &mut buf);
    assert_eq!(buf, " 1234567890");
}

#[test]
fn kv3_text_test_bool_true() {
    let mut buf = String::new();
    serialize_object(&KvObject::Bool(true), 0, &mut buf);
    assert_eq!(buf, " true");
}

#[test]
fn kv3_text_test_bool_false() {
    let mut buf = String::new();
    serialize_object(&KvObject::Bool(false), 0, &mut buf);
    assert_eq!(buf, " false");
}

#[test]
fn kv3_text_test_serialize_map() {
    let mut buf = String::new();
    serialize_map(
        &map_of(vec![("foo", KvObject::Null), ("bar", KvObject::Int(1234))]),
        0,
        &mut buf,
    );
    assert_eq!(buf, "\r\n{\r\n\tfoo = null\r\n\tbar = 1234\r\n}");
}

#[test]
fn kv3_text_test_serialize_array() {
    let mut buf = String::new();
    serialize_array(
        &vec![
            KvObject::Int(1234),
            KvObject::Int(5678),
            KvObject::Int(9012),
        ],
        0,
        &mut buf,
    );
    assert_eq!(buf, " [ 1234, 5678, 9012 ]");
}

#[test]
fn kv3_text_test_serialize_multiline_array() {
    let mut buf = String::new();
    serialize_array(
        &vec![
            KvObject::Table(map_of(vec![("foo", KvObject::Int(1)), ("bar", KvObject::Int(2))])),
            KvObject::Table(map_of(vec![("foo", KvObject::Int(3)), ("bar", KvObject::Int(4))])),
        ],
        0,
        &mut buf,
    );
    assert_eq!(
        buf,
        "\r\n[\r\n\t{\r\n\t\tfoo = 1\r\n\t\tbar = 2\r\n\t},\r\n\t{\r\n\t\tfoo = 3\r\n\t\tbar = 4\r\n\t}\r\n]"
    );
}
