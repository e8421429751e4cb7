use valve_key_value::parser::kv3_text::parse_kv3_text;
use valve_key_value::parser::KvParseError;
use valve_key_value::{KvMap, KvMapEntry, KvObject};

/// A table holding the given entries, without flags, in order.
fn table(entries: Vec<(&str, KvObject)>) -> KvObject {
    let mut map = KvMap::new();
    for (k, v) in entries {
        map.insert(k.to_string(), KvMapEntry::new(v));
    }
    KvObject::Table(map)
}

#[test]
fn parse_empty_object() -> Result<(), KvParseError> {
    let input = "{}";
    let expected = KvObject::Table(KvMap::new());

    let actual = parse_kv3_text(input)?;

    assert_eq!(actual, expected);

    Ok(())
}

#[test]
fn parse_empty_array() -> Result<(), KvParseError> {
    let input = "[]";
    let expected = KvObject::Array(Vec::new());

    let actual = parse_kv3_text(input)?;

    assert_eq!(actual, expected);

    Ok(())
}

#[test]
fn parse_simple_object() -> Result<(), KvParseError> {
    let input = "\n{\n    foo = 1\n    bar = 3.14\n    baz = \"my string\"\n}\n";
    let expected = table(vec![
        ("foo", KvObject::Int(1)),
        ("bar", KvObject::Float(3.14f64.to_string())),
        ("baz", KvObject::String("my string".to_string())),
    ]);

    let actual = parse_kv3_text(input)?;

    assert_eq!(actual, expected);

    Ok(())
}

#[test]
fn parse_simple_array() -> Result<(), KvParseError> {
    let input = "[ 1, 2, 3 ]";
    let expected = KvObject::Array(vec![KvObject::Int(1), KvObject::Int(2), KvObject::Int(3)]);

    let actual = parse_kv3_text(input)?;

    assert_eq!(actual, expected);

    Ok(())
}

#[test]
fn parse_map_with_array() -> Result<(), KvParseError> {
    let input = "{ foo = [ 1, 2, 3 ] }";
    let expected = table(vec![(
        "foo",
        KvObject::Array(vec![KvObject::Int(1), KvObject::Int(2), KvObject::Int(3)]),
    )]);

    let actual = parse_kv3_text(input)?;

    assert_eq!(actual, expected);

    Ok(())
}

#[test]
fn parse_complex_map() -> Result<(), KvParseError> {
    let input = r#"
<!-- Header -->
{
    // This is a comment
    foo = true
    bar=false
    baz = "my string"
    aa =
    {
        foo = 12
        bar = 3.14
    }
    bb = /* Inner comment */ [ 0, 1, 2 ]
    cc =
    [
        {
            inner = true
        }
    ]
}
"#;
    let expected = table(vec![
        ("foo", KvObject::Bool(true)),
        ("bar", KvObject::Bool(false)),
        ("baz", KvObject::String("my string".to_string())),
        (
            "aa",
            table(vec![
                ("foo", KvObject::Int(12)),
                ("bar", KvObject::Float(3.14f64.to_string())),
            ]),
        ),
        (
            "bb",
            KvObject::Array(vec![KvObject::Int(0), KvObject::Int(1), KvObject::Int(2)]),
        ),
        (
            "cc",
            KvObject::Array(vec![table(vec![("inner", KvObject::Bool(true))])]),
        ),
    ]);

    let actual = parse_kv3_text(input)?;

    assert_eq!(actual, expected);

    Ok(())
}
