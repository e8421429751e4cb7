use valve_key_value::parser::kv3_text::tokenizer::{tokenize, Token};
use valve_key_value::parser::KvParseError;

#[test]
fn comma() -> Result<(), KvParseError> {
    let input = ",";
    let expected = [Token::Comma];

    let actual = tokenize(input)?;

    assert_eq!(actual, expected);

    Ok(())
}

#[test]
fn all_punctuation() -> Result<(), KvParseError> {
    let input = "[{]},=";
    let expected = [
        Token::LeftSquare,
        Token::LeftCurly,
        Token::RightSquare,
        Token::RightCurly,
        Token::Comma,
        Token::Equal,
    ];

    let actual = tokenize(input)?;

    assert_eq!(actual, expected);

    Ok(())
}

#[test]
fn xml_comment() -> Result<(), KvParseError> {
    let input = r#"<!-- This is a comment -->"#;
    let expected = [Token::Comment("This is a comment".to_string())];

    let actual = tokenize(input)?;

    assert_eq!(actual, expected);

    Ok(())
}

#[test]
fn empty_xml_comment() -> Result<(), KvParseError> {
    let input = r#"<!---->"#;
    let expected = [Token::Comment("".to_string())];

    let actual = tokenize(input)?;

    assert_eq!(actual, expected);

    Ok(())
}

#[test]
fn single_line_comment() -> Result<(), KvParseError> {
    let input = "foo // bar \n  baz";
    let expected = [
        Token::Identifier("foo".to_string()),
        Token::Comment("bar".to_string()),
        Token::Identifier("baz".to_string()),
    ];

    let actual = tokenize(input)?;

    assert_eq!(actual, expected);

    Ok(())
}

#[test]
fn multi_line_comment() -> Result<(), KvParseError> {
    let input = "foo /* bar \n\n baz */  baz";
    let expected = [
        Token::Identifier("foo".to_string()),
        Token::Comment("bar \n\n baz".to_string()),
        Token::Identifier("baz".to_string()),
    ];

    let actual = tokenize(input)?;

    assert_eq!(actual, expected);

    Ok(())
}

#[test]
fn trick_end_comment() -> Result<(), KvParseError> {
    let input = r#"<!-- Test --->"#;
    let expected = [Token::Comment("Test -".to_string())];

    let actual = tokenize(input)?;

    assert_eq!(actual, expected);

    Ok(())
}

#[test]
fn string() -> Result<(), KvParseError> {
    let input = r#""Hello \" \r \n \t world""#;
    let expected = [Token::String("Hello \" \r \n \t world".to_string())];

    let actual = tokenize(input)?;

    assert_eq!(actual, expected);

    Ok(())
}

#[test]
fn empty_string() -> Result<(), KvParseError> {
    let input = r#""""#;
    let expected = [Token::String("".to_string())];

    let actual = tokenize(input)?;

    assert_eq!(actual, expected);

    Ok(())
}

#[test]
fn multi_line_string() -> Result<(), KvParseError> {
    let input = "\n{\n\"\"\"\nHello \" \\\"\n\\t world\n\"\"\"\n]\n";
    let expected = [
        Token::LeftCurly,
        Token::String("Hello \" \\\"\n\\t world".to_string()),
        Token::RightSquare,
    ];

    let actual = tokenize(input)?;

    assert_eq!(actual, expected);

    Ok(())
}

#[test]
fn identifier() -> Result<(), KvParseError> {
    let input = "name";
    let expected = [Token::Identifier("name".to_string())];

    let actual = tokenize(input)?;

    assert_eq!(actual, expected);

    Ok(())
}

#[test]
fn identifier_no_space() -> Result<(), KvParseError> {
    let input = "name=2";
    let expected = [
        Token::Identifier("name".to_string()),
        Token::Equal,
        Token::Int(2),
    ];

    let actual = tokenize(input)?;

    assert_eq!(actual, expected);

    Ok(())
}

#[test]
fn integer() -> Result<(), KvParseError> {
    let input = "1234";
    let expected = [Token::Int(1234)];

    let actual = tokenize(input)?;

    assert_eq!(actual, expected);

    Ok(())
}

#[test]
fn negative_integer() -> Result<(), KvParseError> {
    let input = "-1234";
    let expected = [Token::Int(-1234)];

    let actual = tokenize(input)?;

    assert_eq!(actual, expected);

    Ok(())
}

#[test]
fn float() -> Result<(), KvParseError> {
    let input = "3.14159";
    let expected = [Token::Float(3.14159f64.to_string())];

    let actual = tokenize(input)?;

    assert_eq!(actual, expected);

    Ok(())
}

#[test]
fn negative_float() -> Result<(), KvParseError> {
    let input = "-3.14159";
    let expected = [Token::Float((-3.14159f64).to_string())];

    let actual = tokenize(input)?;

    assert_eq!(actual, expected);

    Ok(())
}

#[test]
fn complex() -> Result<(), KvParseError> {
    let input = r#"{ name=["1", 3.14159 , {}  ] }"#;
    let expected = [
        Token::LeftCurly,
        Token::Identifier("name".to_string()),
        Token::Equal,
        Token::LeftSquare,
        Token::String("1".to_string()),
        Token::Comma,
        Token::Float(3.14159f64.to_string()),
        Token::Comma,
        Token::LeftCurly,
        Token::RightCurly,
        Token::RightSquare,
        Token::RightCurly,
    ];

    let actual = tokenize(input)?;

    assert_eq!(actual, expected);

    Ok(())
}
