use valve_key_value::parser::kv3_text::parse_kv3_text;
use valve_key_value::parser::kv3_text::tokenizer::{tokenize, Token};
use valve_key_value::parser::{parse_kv, KvParseError};
use valve_key_value::{KvFormat, KvMap, KvMapEntry, KvObject};

fn symbol(m: &str) -> KvParseError {
    KvParseError::UnexpectedSymbol(m.to_string())
}

fn token_err(m: &str) -> KvParseError {
    KvParseError::UnexpectedToken(m.to_string())
}

#[test]
fn xml_comment_needs_its_opening() {
    assert_eq!(
        tokenize("<!- x -->"),
        Err(symbol("XML style comments must start with <!--"))
    );
}

#[test]
fn unterminated_comments() {
    assert_eq!(tokenize("<!-- abc --"), Err(KvParseError::UnterminatedComment));
    assert_eq!(tokenize("/* abc *"), Err(KvParseError::UnterminatedComment));
    assert_eq!(tokenize("/"), Err(KvParseError::UnterminatedComment));
}

#[test]
fn slash_without_comment() {
    assert_eq!(tokenize("/x"), Err(symbol("Expected<'/' | '*'>  Actual<'x'>")));
}

#[test]
fn unexpected_symbol() {
    assert_eq!(tokenize("{ @ }"), Err(symbol("'@'")));
    assert_eq!(tokenize(".5"), Err(symbol("'.'")));
}

#[test]
fn string_errors() {
    assert_eq!(tokenize("\"abc"), Err(KvParseError::UnterminatedString));
    assert_eq!(tokenize("\"a\\"), Err(KvParseError::UnterminatedString));
    assert_eq!(tokenize("\"a\\q\""), Err(KvParseError::InvalidEscape));
    assert_eq!(
        tokenize("\"\"\"x"),
        Err(symbol("Multiline string must start with \"\"\"\\n"))
    );
    assert_eq!(tokenize("\"\"\"\nabc\"\"\""), Err(KvParseError::UnterminatedString));
}

#[test]
fn escapes() {
    assert_eq!(
        tokenize("\"a\\\\b\\tc\""),
        Ok(vec![Token::String("a\\b\tc".to_string())])
    );
}

#[test]
fn integer_edges() {
    assert_eq!(tokenize("+5"), Ok(vec![Token::Int(5)]));
    assert_eq!(tokenize("-0"), Ok(vec![Token::Int(0)]));
    assert_eq!(tokenize("-9223372036854775808"), Ok(vec![Token::Int(i64::MIN)]));
    assert_eq!(tokenize("9223372036854775807"), Ok(vec![Token::Int(i64::MAX)]));
    assert_eq!(tokenize("9223372036854775808"), Err(symbol("Expected integer")));
    assert_eq!(tokenize("1+2"), Err(symbol("Expected integer")));
    assert_eq!(tokenize("-"), Err(symbol("Expected integer")));
}

#[test]
fn float_edges() {
    assert_eq!(tokenize("1."), Ok(vec![Token::Float("1.".to_string())]));
    assert_eq!(tokenize("-.5"), Ok(vec![Token::Float("-.5".to_string())]));
    assert_eq!(tokenize("1.2.3"), Err(symbol("Expected float")));
    assert_eq!(tokenize("-."), Err(symbol("Expected float")));
    assert_eq!(tokenize("1-.2"), Err(symbol("Expected float")));
    // every float text the tokenizer accepts is one that f64 parses
    for t in ["1.", "-.5", "+2.25", "10.0"] {
        match &tokenize(t).unwrap()[0] {
            Token::Float(s) => assert!(s.parse::<f64>().is_ok()),
            other => panic!("{:?}", other),
        }
    }
}

#[test]
fn identifier_characters() {
    assert_eq!(
        tokenize("a_1B=x"),
        Ok(vec![
            Token::Identifier("a_1B".to_string()),
            Token::Equal,
            Token::Identifier("x".to_string()),
        ])
    );
}

#[test]
fn comments_are_trimmed_of_unicode_space() {
    assert_eq!(
        tokenize("// \u{3000}x y\u{a0}\t"),
        Ok(vec![Token::Comment("x y".to_string())])
    );
    assert_eq!(tokenize("/**/"), Ok(vec![Token::Comment("".to_string())]));
    assert_eq!(tokenize("/***/"), Ok(vec![Token::Comment("*".to_string())]));
}

#[test]
fn parse_errors() {
    assert_eq!(parse_kv3_text(""), Err(KvParseError::EarlyEnd));
    assert_eq!(parse_kv3_text("// only a comment"), Err(KvParseError::EarlyEnd));
    assert_eq!(parse_kv3_text("{"), Err(KvParseError::UnterminatedMap));
    assert_eq!(parse_kv3_text("{ a = 1"), Err(KvParseError::UnterminatedMap));
    assert_eq!(parse_kv3_text("{ a"), Err(KvParseError::EarlyEnd));
    assert_eq!(parse_kv3_text("["), Err(KvParseError::UnterminatedArray));
    assert_eq!(parse_kv3_text("[ 1,"), Err(KvParseError::UnterminatedArray));
    assert_eq!(parse_kv3_text("[ // c"), Err(KvParseError::EarlyEnd));
    assert_eq!(
        parse_kv3_text("{ a = 1 a = 2 }"),
        Err(KvParseError::DuplicateKey("a".to_string()))
    );
    assert_eq!(parse_kv3_text("{ a 1 }"), Err(token_err("Expected<=>  Actual<Int(1)>")));
    assert_eq!(
        parse_kv3_text("{ 1 }"),
        Err(token_err("Expected<'}' | Identifier>  Actual<Int(1)>"))
    );
    assert_eq!(
        parse_kv3_text("null"),
        Err(token_err("Expected<true | false>  Actual<null>"))
    );
    assert_eq!(parse_kv3_text("]"), Err(token_err("RightSquare")));
    assert_eq!(parse_kv3_text("{ a = }"), Err(token_err("RightCurly")));
    assert_eq!(parse_kv3_text("[ , 1 ]"), Err(token_err("Comma")));
}

#[test]
fn arrays_without_commas_and_with_a_trailing_one() {
    assert_eq!(
        parse_kv3_text("[1 2]"),
        Ok(KvObject::Array(vec![KvObject::Int(1), KvObject::Int(2)]))
    );
    assert_eq!(
        parse_kv3_text("[1, /* c */ ]"),
        Ok(KvObject::Array(vec![KvObject::Int(1)]))
    );
}

#[test]
fn only_the_first_value_is_read() {
    assert_eq!(parse_kv3_text("1 2 }"), Ok(KvObject::Int(1)));
}

#[test]
fn parse_kv_reads_kv3_text() {
    let mut map = KvMap::new();
    map.insert("a".to_string(), KvMapEntry::new(KvObject::String("b".to_string())));
    assert_eq!(
        parse_kv("{ a = \"b\" }", Some(KvFormat::Kv3Text)),
        Ok(KvObject::Table(map))
    );
}

#[test]
fn error_messages() {
    assert_eq!(KvParseError::EarlyEnd.message(), "Early end");
    assert_eq!(symbol("'@'").message(), "Unexpected symbol: '@'");
    assert_eq!(KvParseError::UnterminatedComment.message(), "Unterminated comment");
    assert_eq!(KvParseError::UnterminatedString.message(), "Unterminated string");
    assert_eq!(KvParseError::InvalidEscape.message(), "Invalid escape");
    assert_eq!(token_err("Comma").message(), "Unexpected token: Comma");
    assert_eq!(KvParseError::UnterminatedMap.message(), "Unterminated map");
    assert_eq!(KvParseError::UnterminatedArray.message(), "Unterminated array");
    assert_eq!(
        KvParseError::DuplicateKey("k".to_string()).message(),
        "Duplicate key in map \"k\""
    );
}
