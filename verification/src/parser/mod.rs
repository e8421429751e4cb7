//! Parsing of key-value text into `KvObject` values.
use vstd::prelude::*;
use vstd::string::StringExecFns;

use crate::{KvFormat, KvObject, KvValue};
use crate::kv3::kv3_text::serializer::writable;
use kv3_text::{parse_kv3_text, plain_value, spec_parse_kv3_text};

pub mod kv3_text;

verus! {

/// Why a text could not be parsed.
#[derive(Debug, PartialEq)]
pub enum KvParseError {
    // Tokenizer
    EarlyEnd,
    UnexpectedSymbol(String),
    UnterminatedComment,
    UnterminatedString,
    InvalidEscape,
    // Parser
    UnexpectedToken(String),
    UnterminatedMap,
    UnterminatedArray,
    DuplicateKey(String),
}

/// The mathematical value of a `KvParseError`: the same variants, with the
/// messages and keys as character sequences.
pub enum KvParseErrorView {
    EarlyEnd,
    UnexpectedSymbol(Seq<char>),
    UnterminatedComment,
    UnterminatedString,
    InvalidEscape,
    UnexpectedToken(Seq<char>),
    UnterminatedMap,
    UnterminatedArray,
    DuplicateKey(Seq<char>),
}

impl View for KvParseError {
    type V = KvParseErrorView;

    open spec fn view(&self) -> KvParseErrorView {
        match self {
            KvParseError::EarlyEnd => KvParseErrorView::EarlyEnd,
            KvParseError::UnexpectedSymbol(m) => KvParseErrorView::UnexpectedSymbol(m@),
            KvParseError::UnterminatedComment => KvParseErrorView::UnterminatedComment,
            KvParseError::UnterminatedString => KvParseErrorView::UnterminatedString,
            KvParseError::InvalidEscape => KvParseErrorView::InvalidEscape,
            KvParseError::UnexpectedToken(m) => KvParseErrorView::UnexpectedToken(m@),
            KvParseError::UnterminatedMap => KvParseErrorView::UnterminatedMap,
            KvParseError::UnterminatedArray => KvParseErrorView::UnterminatedArray,
            KvParseError::DuplicateKey(k) => KvParseErrorView::DuplicateKey(k@),
        }
    }
}


/// The message that describes an error.
pub open spec fn error_message(e: KvParseErrorView) -> Seq<char> {
    match e {
        KvParseErrorView::EarlyEnd => "Early end"@,
        KvParseErrorView::UnexpectedSymbol(m) => "Unexpected symbol: "@ + m,
        KvParseErrorView::UnterminatedComment => "Unterminated comment"@,
        KvParseErrorView::UnterminatedString => "Unterminated string"@,
        KvParseErrorView::InvalidEscape => "Invalid escape"@,
        KvParseErrorView::UnexpectedToken(m) => "Unexpected token: "@ + m,
        KvParseErrorView::UnterminatedMap => "Unterminated map"@,
        KvParseErrorView::UnterminatedArray => "Unterminated array"@,
        KvParseErrorView::DuplicateKey(k) => "Duplicate key in map \""@ + k + "\""@,
    }
}

impl KvParseError {
    /// The message that describes the error.
    pub fn message(&self) -> (m: String)
        ensures
            m@ == error_message(self@),
    {
        match self {
            KvParseError::EarlyEnd => String::from_str("Early end"),
            KvParseError::UnexpectedSymbol(s) => {
                let mut m = String::from_str("Unexpected symbol: ");
                m.append(s.as_str());
                m
            },
            KvParseError::UnterminatedComment => String::from_str("Unterminated comment"),
            KvParseError::UnterminatedString => String::from_str("Unterminated string"),
            KvParseError::InvalidEscape => String::from_str("Invalid escape"),
            KvParseError::UnexpectedToken(s) => {
                let mut m = String::from_str("Unexpected token: ");
                m.append(s.as_str());
                m
            },
            KvParseError::UnterminatedMap => String::from_str("Unterminated map"),
            KvParseError::UnterminatedArray => String::from_str("Unterminated array"),
            KvParseError::DuplicateKey(k) => {
                let mut m = String::from_str("Duplicate key in map \"");
                m.append(k.as_str());
                m.append("\"");
                m
            },
        }
    }
}

/// Parses `input` in the given format.
pub fn parse_kv(input: &str, format: Option<KvFormat>) -> (r: Result<KvObject, KvParseError>)
    requires
        format is Some,
    ensures
        match r {
            Ok(o) => spec_parse_kv3_text(input@) == Ok::<KvValue, KvParseErrorView>(o@),
            Err(e) => spec_parse_kv3_text(input@) == Err::<KvValue, KvParseErrorView>(e@),
        },
        r matches Ok(o) ==> plain_value(o@) && writable(o@, usize::MAX as int),
{
    let format = format.unwrap();
    match format {
        KvFormat::Kv3Text => parse_kv3_text(input),
    }
}

}
