//! Splitting KV3 text into tokens.
use vstd::prelude::*;
use vstd::string::StringExecFns;

use crate::parser::{KvParseError, KvParseErrorView};
use crate::text::{
    chars_of, push_char, string_of_range, trim, trimmed_range,
};

verus! {

/// One lexical unit of KV3 text.
#[derive(Debug, PartialEq)]
pub enum Token {
    /// `{`
    LeftCurly,
    /// `}`
    RightCurly,
    /// `[`
    LeftSquare,
    /// `]`
    RightSquare,
    /// `,`
    Comma,
    /// `=`
    Equal,
    /// `<!--` ... `-->`, `//` ... or `/*` ... `*/`, with the text trimmed
    Comment(String),
    /// `"hello"`
    String(String),
    /// `3`
    Int(i64),
    /// `3.14`, held as its text, which has the shape of a Rust float literal
    Float(String),
    Identifier(String),
}

/// The mathematical value of a `Token`.
pub enum TokenView {
    LeftCurly,
    RightCurly,
    LeftSquare,
    RightSquare,
    Comma,
    Equal,
    Comment(Seq<char>),
    Str(Seq<char>),
    Int(i64),
    Float(Seq<char>),
    Identifier(Seq<char>),
}

impl View for Token {
    type V = TokenView;

    open spec fn view(&self) -> TokenView {
        match self {
            Token::LeftCurly => TokenView::LeftCurly,
            Token::RightCurly => TokenView::RightCurly,
            Token::LeftSquare => TokenView::LeftSquare,
            Token::RightSquare => TokenView::RightSquare,
            Token::Comma => TokenView::Comma,
            Token::Equal => TokenView::Equal,
            Token::Comment(s) => TokenView::Comment(s@),
            Token::String(s) => TokenView::Str(s@),
            Token::Int(v) => TokenView::Int(*v),
            Token::Float(s) => TokenView::Float(s@),
            Token::Identifier(s) => TokenView::Identifier(s@),
        }
    }
}

pub open spec fn view_tokens(ts: Seq<Token>) -> Seq<TokenView> {
    ts.map_values(|t: Token| t@)
}

// ---------------------------------------------------------------------------
// Character classes

pub open spec fn is_digit(c: char) -> bool {
    '0' <= c && c <= '9'
}

pub open spec fn is_alpha(c: char) -> bool {
    ('a' <= c && c <= 'z') || ('A' <= c && c <= 'Z')
}

/// The characters that a number token runs over.
pub open spec fn is_number_char(c: char) -> bool {
    is_digit(c) || c == '+' || c == '-' || c == '.'
}

/// The characters that an identifier token runs over.
pub open spec fn is_identifier_char(c: char) -> bool {
    is_alpha(c) || is_digit(c) || c == '_'
}

/// The white space that separates tokens.
pub open spec fn is_separator(c: char) -> bool {
    c == ' ' || c == '\t' || c == '\r' || c == '\n'
}

pub open spec fn all_digits(s: Seq<char>) -> bool {
    forall|i: int| 0 <= i < s.len() ==> is_digit(#[trigger] s[i])
}

// ---------------------------------------------------------------------------
// Numbers

/// The value of a run of decimal digits.
pub open spec fn digits_value(d: Seq<char>) -> nat
    decreases d.len(),
{
    if d.len() == 0 {
        0
    } else {
        digits_value(d.subrange(0, d.len() - 1)) * 10 + (d[d.len() - 1] as nat - '0' as nat) as nat
    }
}

/// `t` without a leading `+` or `-`.
pub open spec fn unsigned_part(t: Seq<char>) -> Seq<char> {
    if t.len() > 0 && (t[0] == '+' || t[0] == '-') {
        t.subrange(1, t.len() as int)
    } else {
        t
    }
}

/// What `str::parse::<i64>` gives for `t`: an optional sign and at least one
/// digit, whose value fits in an `i64`.
pub open spec fn i64_of_text(t: Seq<char>) -> Option<i64> {
    let d = unsigned_part(t);
    let neg = t.len() > 0 && t[0] == '-';
    let v: int = if neg { -(digits_value(d) as int) } else { digits_value(d) as int };
    if d.len() == 0 || !all_digits(d) || v < i64::MIN || v > i64::MAX {
        None
    } else {
        Some(v as i64)
    }
}

/// The texts that `str::parse::<f64>` accepts among those made of digits,
/// signs and dots: an optional sign, then `Digit+`, `Digit+ '.' Digit*` or
/// `Digit* '.' Digit+`.
pub open spec fn is_float_text(t: Seq<char>) -> bool {
    let b = unsigned_part(t);
    ||| (b.len() > 0 && all_digits(b))
    ||| exists|i: int|
        0 <= i < b.len() && #[trigger] b[i] == '.' && b.len() > 1 && all_digits(b.subrange(0, i))
            && all_digits(b.subrange(i + 1, b.len() as int))
}

// ---------------------------------------------------------------------------
// Scanning

/// The end of the run of number characters that starts at `p`.
pub open spec fn number_end(s: Seq<char>, p: int) -> int
    decreases s.len() - p,
{
    if 0 <= p < s.len() && is_number_char(s[p]) {
        number_end(s, p + 1)
    } else {
        p
    }
}

/// The end of the run of identifier characters that starts at `p`.
pub open spec fn identifier_end(s: Seq<char>, p: int) -> int
    decreases s.len() - p,
{
    if 0 <= p < s.len() && is_identifier_char(s[p]) {
        identifier_end(s, p + 1)
    } else {
        p
    }
}

/// The first `'\n'` at or after `p`, or the end of `s`.
pub open spec fn line_end(s: Seq<char>, p: int) -> int
    decreases s.len() - p,
{
    if 0 <= p < s.len() && s[p] != '\n' {
        line_end(s, p + 1)
    } else {
        p
    }
}

/// The first `k >= from` at which the text read since `start` ends with `-->`.
pub open spec fn xml_comment_end(s: Seq<char>, start: int, from: int) -> Option<int>
    decreases s.len() - from,
{
    if from < 0 || from >= s.len() {
        None
    } else if from >= start + 2 && s[from - 2] == '-' && s[from - 1] == '-' && s[from] == '>' {
        Some(from)
    } else {
        xml_comment_end(s, start, from + 1)
    }
}

/// The first `k >= from` at which a `/` follows a `*` read since `start`.
pub open spec fn block_comment_end(s: Seq<char>, start: int, from: int) -> Option<int>
    decreases s.len() - from,
{
    if from < 0 || from >= s.len() {
        None
    } else if from > start && s[from - 1] == '*' && s[from] == '/' {
        Some(from)
    } else {
        block_comment_end(s, start, from + 1)
    }
}

/// The first `k >= from` at which the text read since `start` ends with a
/// line break and three quotes.
pub open spec fn multiline_string_end(s: Seq<char>, start: int, from: int) -> Option<int>
    decreases s.len() - from,
{
    if from < 0 || from >= s.len() {
        None
    } else if from >= start + 3 && s[from - 3] == '\n' && s[from - 2] == '"' && s[from - 1] == '"'
        && s[from] == '"' {
        Some(from)
    } else {
        multiline_string_end(s, start, from + 1)
    }
}

// ---------------------------------------------------------------------------
// Lexers: each gives the token read and the position after it, or an error.

pub open spec fn view_lexed(r: Result<(Token, usize), KvParseError>) -> Result<
    (TokenView, int),
    KvParseErrorView,
> {
    match r {
        Ok((t, q)) => Ok((t@, q as int)),
        Err(e) => Err(e@),
    }
}

/// An XML style comment starting at `p`.
pub open spec fn lex_xml_comment(s: Seq<char>, p: int) -> Result<(TokenView, int), KvParseErrorView> {
    if 0 <= p && p + 3 < s.len() && s[p] == '<' && s[p + 1] == '!' && s[p + 2] == '-' && s[p + 3]
        == '-' {
        match xml_comment_end(s, p + 4, p + 4) {
            Some(k) => Ok((TokenView::Comment(trim(s.subrange(p + 4, k - 2))), k + 1)),
            None => Err(KvParseErrorView::UnterminatedComment),
        }
    } else {
        Err(KvParseErrorView::UnexpectedSymbol("XML style comments must start with <!--"@))
    }
}

/// A `//` comment whose text starts at `p`; the line break stays unread.
pub open spec fn lex_line_comment(s: Seq<char>, p: int) -> Result<(TokenView, int), KvParseErrorView> {
    let k = line_end(s, p);
    Ok((TokenView::Comment(trim(s.subrange(p, k))), k))
}

/// A `/*` comment whose text starts at `p`.
pub open spec fn lex_block_comment(s: Seq<char>, p: int) -> Result<(TokenView, int), KvParseErrorView> {
    match block_comment_end(s, p, p) {
        Some(k) => Ok((TokenView::Comment(trim(s.subrange(p, k - 1))), k + 1)),
        None => Err(KvParseErrorView::UnterminatedComment),
    }
}

/// A `"""` string whose first character after the quotes is at `p`.
pub open spec fn lex_multiline_string(s: Seq<char>, p: int) -> Result<(TokenView, int), KvParseErrorView> {
    if 0 <= p < s.len() && s[p] == '\n' {
        match multiline_string_end(s, p + 1, p + 1) {
            Some(k) => Ok((TokenView::Str(s.subrange(p + 1, k - 3)), k + 1)),
            None => Err(KvParseErrorView::UnterminatedString),
        }
    } else {
        Err(KvParseErrorView::UnexpectedSymbol("Multiline string must start with \"\"\"\\n"@))
    }
}

/// The rest of a quoted string from `k`, `acc` being what was read so far.
pub open spec fn lex_string_body(s: Seq<char>, k: int, acc: Seq<char>) -> Result<
    (TokenView, int),
    KvParseErrorView,
>
    decreases s.len() - k,
{
    if k < 0 || k >= s.len() {
        Err(KvParseErrorView::UnterminatedString)
    } else if s[k] == '"' {
        Ok((TokenView::Str(acc), k + 1))
    } else if s[k] == '\\' {
        if k + 1 >= s.len() {
            Err(KvParseErrorView::UnterminatedString)
        } else {
            let e = s[k + 1];
            if e == '"' || e == '\\' {
                lex_string_body(s, k + 2, acc.push(e))
            } else if e == 'n' {
                lex_string_body(s, k + 2, acc.push('\n'))
            } else if e == 'r' {
                lex_string_body(s, k + 2, acc.push('\r'))
            } else if e == 't' {
                lex_string_body(s, k + 2, acc.push('\t'))
            } else {
                Err(KvParseErrorView::InvalidEscape)
            }
        }
    } else {
        lex_string_body(s, k + 1, acc.push(s[k]))
    }
}

/// A string whose opening quote stands just before `p`.
pub open spec fn lex_string(s: Seq<char>, p: int) -> Result<(TokenView, int), KvParseErrorView> {
    if 0 <= p < s.len() && s[p] == '"' {
        if p + 1 < s.len() && s[p + 1] == '"' {
            lex_multiline_string(s, p + 2)
        } else {
            Ok((TokenView::Str(Seq::empty()), p + 1))
        }
    } else {
        lex_string_body(s, p, Seq::empty())
    }
}

/// A number starting at `p`: an integer when its text has no dot.
pub open spec fn lex_number(s: Seq<char>, p: int) -> Result<(TokenView, int), KvParseErrorView> {
    let q = number_end(s, p);
    let t = s.subrange(p, q);
    if !t.contains('.') {
        match i64_of_text(t) {
            Some(v) => Ok((TokenView::Int(v), q)),
            None => Err(KvParseErrorView::UnexpectedSymbol("Expected integer"@)),
        }
    } else if is_float_text(t) {
        Ok((TokenView::Float(t), q))
    } else {
        Err(KvParseErrorView::UnexpectedSymbol("Expected float"@))
    }
}

/// An identifier starting at `p`.
pub open spec fn lex_identifier(s: Seq<char>, p: int) -> Result<(TokenView, int), KvParseErrorView> {
    let q = identifier_end(s, p);
    Ok((TokenView::Identifier(s.subrange(p, q)), q))
}


/// Wraps the token of a lexer's result as present.
pub open spec fn some_token(r: Result<(TokenView, int), KvParseErrorView>) -> Result<
    (Option<TokenView>, int),
    KvParseErrorView,
> {
    match r {
        Ok((t, q)) => Ok((Some(t), q)),
        Err(e) => Err(e),
    }
}

/// What the tokenizer reads at `p`: a token, or nothing (white space), and the
/// position after it; or the error it stops with.
pub open spec fn lex_step(s: Seq<char>, p: int) -> Result<(Option<TokenView>, int), KvParseErrorView> {
    let c = s[p];
    if c == '{' {
        Ok((Some(TokenView::LeftCurly), p + 1))
    } else if c == '}' {
        Ok((Some(TokenView::RightCurly), p + 1))
    } else if c == '[' {
        Ok((Some(TokenView::LeftSquare), p + 1))
    } else if c == ']' {
        Ok((Some(TokenView::RightSquare), p + 1))
    } else if c == ',' {
        Ok((Some(TokenView::Comma), p + 1))
    } else if c == '=' {
        Ok((Some(TokenView::Equal), p + 1))
    } else if c == '<' {
        some_token(lex_xml_comment(s, p))
    } else if c == '/' {
        if p + 1 >= s.len() {
            Err(KvParseErrorView::UnterminatedComment)
        } else if s[p + 1] == '/' {
            some_token(lex_line_comment(s, p + 2))
        } else if s[p + 1] == '*' {
            some_token(lex_block_comment(s, p + 2))
        } else {
            Err(
                KvParseErrorView::UnexpectedSymbol(
                    "Expected<'/' | '*'>  Actual<'"@.push(s[p + 1]) + "'>"@,
                ),
            )
        }
    } else if c == '"' {
        some_token(lex_string(s, p + 1))
    } else if is_digit(c) || c == '+' || c == '-' {
        some_token(lex_number(s, p))
    } else if is_alpha(c) {
        some_token(lex_identifier(s, p))
    } else if is_separator(c) {
        Ok((None, p + 1))
    } else {
        Err(KvParseErrorView::UnexpectedSymbol("'"@.push(c) + "'"@))
    }
}

/// The tokens of `s` from position `p` on, or the first error met.
pub open spec fn tokens_from(s: Seq<char>, p: int) -> Result<Seq<TokenView>, KvParseErrorView>
    decreases s.len() - p,
{
    if p < 0 || p >= s.len() {
        Ok(Seq::empty())
    } else {
        match lex_step(s, p) {
            Err(e) => Err(e),
            Ok((t, q)) => if q <= p || q > s.len() {
                // never taken: see `lemma_lex_step_progress`
                Err(KvParseErrorView::EarlyEnd)
            } else {
                match tokens_from(s, q) {
                    Err(e) => Err(e),
                    Ok(ts) => Ok(
                        match t {
                            Some(t) => seq![t] + ts,
                            None => ts,
                        },
                    ),
                }
            },
        }
    }
}

/// What `tokenize` gives for the text `s`.
pub open spec fn spec_tokenize(s: Seq<char>) -> Result<Seq<TokenView>, KvParseErrorView> {
    tokens_from(s, 0)
}

pub open spec fn prepend_tokens(
    acc: Seq<TokenView>,
    r: Result<Seq<TokenView>, KvParseErrorView>,
) -> Result<Seq<TokenView>, KvParseErrorView> {
    match r {
        Ok(ts) => Ok(acc + ts),
        Err(e) => Err(e),
    }
}

pub open spec fn view_tokenized(r: Result<Vec<Token>, KvParseError>) -> Result<
    Seq<TokenView>,
    KvParseErrorView,
> {
    match r {
        Ok(ts) => Ok(view_tokens(ts@)),
        Err(e) => Err(e@),
    }
}

// ---------------------------------------------------------------------------
// Progress: every token read moves forward and stays within the text.

proof fn lemma_number_end(s: Seq<char>, p: int)
    requires
        0 <= p <= s.len(),
    ensures
        p <= number_end(s, p) <= s.len(),
        p < s.len() && is_number_char(s[p]) ==> p < number_end(s, p),
    decreases s.len() - p,
{
    if p < s.len() && is_number_char(s[p]) {
        lemma_number_end(s, p + 1);
    }
}

proof fn lemma_identifier_end(s: Seq<char>, p: int)
    requires
        0 <= p <= s.len(),
    ensures
        p <= identifier_end(s, p) <= s.len(),
        p < s.len() && is_identifier_char(s[p]) ==> p < identifier_end(s, p),
    decreases s.len() - p,
{
    if p < s.len() && is_identifier_char(s[p]) {
        lemma_identifier_end(s, p + 1);
    }
}

proof fn lemma_line_end(s: Seq<char>, p: int)
    requires
        0 <= p <= s.len(),
    ensures
        p <= line_end(s, p) <= s.len(),
    decreases s.len() - p,
{
    if p < s.len() && s[p] != '\n' {
        lemma_line_end(s, p + 1);
    }
}

proof fn lemma_xml_comment_end(s: Seq<char>, start: int, from: int)
    ensures
        xml_comment_end(s, start, from) matches Some(k) ==> from <= k < s.len(),
    decreases s.len() - from,
{
    if 0 <= from < s.len() {
        lemma_xml_comment_end(s, start, from + 1);
    }
}

proof fn lemma_block_comment_end(s: Seq<char>, start: int, from: int)
    ensures
        block_comment_end(s, start, from) matches Some(k) ==> from <= k < s.len(),
    decreases s.len() - from,
{
    if 0 <= from < s.len() {
        lemma_block_comment_end(s, start, from + 1);
    }
}

proof fn lemma_multiline_string_end(s: Seq<char>, start: int, from: int)
    ensures
        multiline_string_end(s, start, from) matches Some(k) ==> from <= k < s.len(),
    decreases s.len() - from,
{
    if 0 <= from < s.len() {
        lemma_multiline_string_end(s, start, from + 1);
    }
}

proof fn lemma_string_body(s: Seq<char>, k: int, acc: Seq<char>)
    ensures
        lex_string_body(s, k, acc) matches Ok((_, q)) ==> k < q <= s.len(),
    decreases s.len() - k,
{
    if 0 <= k < s.len() && s[k] != '"' {
        if s[k] == '\\' {
            if k + 1 < s.len() {
                let e = s[k + 1];
                if e == '"' || e == '\\' {
                    lemma_string_body(s, k + 2, acc.push(e));
                } else if e == 'n' {
                    lemma_string_body(s, k + 2, acc.push('\n'));
                } else if e == 'r' {
                    lemma_string_body(s, k + 2, acc.push('\r'));
                } else if e == 't' {
                    lemma_string_body(s, k + 2, acc.push('\t'));
                }
            }
        } else {
            lemma_string_body(s, k + 1, acc.push(s[k]));
        }
    }
}

/// Each step of the tokenizer that succeeds reads at least one character and
/// no character past the end of the text.
pub proof fn lemma_lex_step_progress(s: Seq<char>, p: int)
    requires
        0 <= p < s.len(),
    ensures
        lex_step(s, p) matches Ok((_, q)) ==> p < q <= s.len(),
{
    lemma_number_end(s, p);
    lemma_identifier_end(s, p);
    lemma_xml_comment_end(s, p + 4, p + 4);
    if p + 2 <= s.len() {
        lemma_line_end(s, p + 2);
    }
    lemma_block_comment_end(s, p + 2, p + 2);
    lemma_multiline_string_end(s, p + 4, p + 4);
    lemma_string_body(s, p + 1, Seq::empty());
}

// ---------------------------------------------------------------------------
// Executable lexers

fn is_digit_char(c: char) -> (b: bool)
    ensures
        b == is_digit(c),
{
    '0' <= c && c <= '9'
}

/// Whether `s[a..b]` holds only digits.
fn all_digits_in(s: &Vec<char>, a: usize, b: usize) -> (r: bool)
    requires
        a <= b <= s.len(),
    ensures
        r == all_digits(s@.subrange(a as int, b as int)),
{
    let mut i = a;
    while i < b
        invariant
            a <= i <= b <= s.len(),
            all_digits(s@.subrange(a as int, i as int)),
        decreases b - i,
    {
        if !is_digit_char(s[i]) {
            assert(s@.subrange(a as int, b as int)[i - a] == s@[i as int]);
            return false;
        }
        assert forall|j: int| 0 <= j < i + 1 - a implies is_digit(
            #[trigger] s@.subrange(a as int, i + 1)[j],
        ) by {
            if j < i - a {
                assert(s@.subrange(a as int, i + 1)[j] == s@.subrange(a as int, i as int)[j]);
            }
        }
        i = i + 1;
    }
    true
}

/// A prefix of a run of digits has no larger value than the run.
proof fn lemma_digits_value_prefix(d: Seq<char>, k: int)
    requires
        all_digits(d),
        0 <= k <= d.len(),
    ensures
        digits_value(d.subrange(0, k)) <= digits_value(d),
    decreases d.len(),
{
    if k < d.len() {
        let d1 = d.subrange(0, d.len() - 1);
        assert(all_digits(d1)) by {
            assert forall|i: int| 0 <= i < d1.len() implies is_digit(#[trigger] d1[i]) by {
                assert(d1[i] == d[i]);
            }
        }
        lemma_digits_value_prefix(d1, k);
        assert(d1.subrange(0, k) == d.subrange(0, k));
        assert(is_digit(d[d.len() - 1]));
    } else {
        assert(d.subrange(0, k) == d);
    }
}

/// Reads `s[a..b]` as `str::parse::<i64>` does.
fn parse_i64(s: &Vec<char>, a: usize, b: usize) -> (r: Option<i64>)
    requires
        a <= b <= s.len(),
    ensures
        r == i64_of_text(s@.subrange(a as int, b as int)),
{
    let ghost t = s@.subrange(a as int, b as int);
    let mut i = a;
    let mut neg = false;
    if i < b && (s[i] == '+' || s[i] == '-') {
        neg = s[i] == '-';
        i = i + 1;
    }
    let start = i;
    assert(unsigned_part(t) == s@.subrange(start as int, b as int));
    if i == b {
        return None;
    }
    let ghost d = s@.subrange(start as int, b as int);
    let mut acc: u64 = 0;
    while i < b
        invariant
            a <= start <= i <= b <= s.len(),
            d == s@.subrange(start as int, b as int),
            t == s@.subrange(a as int, b as int),
            unsigned_part(t) == d,
            d.len() > 0,
            neg == (t.len() > 0 && t[0] == '-'),
            all_digits(s@.subrange(start as int, i as int)),
            acc as nat == digits_value(s@.subrange(start as int, i as int)),
            acc <= 9223372036854775808u64,
        decreases b - i,
    {
        let c = s[i];
        assert(d[i - start] == c);
        if !is_digit_char(c) {
            assert(!all_digits(d)) by {
                assert(!is_digit(d[i - start]));
            }
            return None;
        }
        let ghost next = s@.subrange(start as int, i + 1);
        assert(next.subrange(0, next.len() - 1) == s@.subrange(start as int, i as int));
        assert(all_digits(next)) by {
            assert forall|j: int| 0 <= j < next.len() implies is_digit(#[trigger] next[j]) by {
                if j < next.len() - 1 {
                    assert(next[j] == s@.subrange(start as int, i as int)[j]);
                }
            }
        }
        let dv: u64 = (c as u32 - '0' as u32) as u64;
        if acc > 922337203685477580u64 || (acc == 922337203685477580u64 && dv > 8) {
            proof {
                assert(next[next.len() - 1] == c);
                assert(digits_value(next) == acc * 10 + dv);
                assert(digits_value(next) > 9223372036854775808);
                assert(next == d.subrange(0, i + 1 - start));
                if all_digits(d) {
                    lemma_digits_value_prefix(d, i + 1 - start);
                }
            }
            return None;
        }
        acc = acc * 10 + dv;
        i = i + 1;
    }
    assert(s@.subrange(start as int, i as int) == d);
    assert(neg == (t.len() > 0 && t[0] == '-'));
    if neg {
        if acc == 9223372036854775808u64 {
            Some(i64::MIN)
        } else {
            Some(-(acc as i64))
        }
    } else if acc > 9223372036854775807u64 {
        None
    } else {
        Some(acc as i64)
    }
}


/// Whether `s[a..b]` is text that `str::parse::<f64>` accepts (see `is_float_text`).
fn float_text_ok(s: &Vec<char>, a: usize, b: usize) -> (r: bool)
    requires
        a <= b <= s.len(),
    ensures
        r == is_float_text(s@.subrange(a as int, b as int)),
{
    let ghost t = s@.subrange(a as int, b as int);
    let mut i = a;
    if i < b && (s[i] == '+' || s[i] == '-') {
        i = i + 1;
    }
    let start = i;
    let ghost u = s@.subrange(start as int, b as int);
    assert(unsigned_part(t) == u);
    // find the first dot
    let mut k = start;
    while k < b && s[k] != '.'
        invariant
            start <= k <= b <= s.len(),
            forall|j: int| start <= j < k ==> s@[j] != '.',
        decreases b - k,
    {
        k = k + 1;
    }
    if k == b {
        let r = start < b && all_digits_in(s, start, b);
        proof {
            if !r && start < b {
                assert forall|i: int|
                    0 <= i < u.len() && #[trigger] u[i] == '.' && u.len() > 1 && all_digits(
                        u.subrange(0, i),
                    ) implies !all_digits(u.subrange(i + 1, u.len() as int)) by {
                    assert(u[i] == s@[start + i]);
                }
            }
        }
        return r;
    }
    let before = all_digits_in(s, start, k);
    let after = all_digits_in(s, k + 1, b);
    let r = b - start > 1 && before && after;
    proof {
        let i0 = k - start;
        assert(u[i0] == '.');
        assert(u.subrange(0, i0) == s@.subrange(start as int, k as int));
        assert(u.subrange(i0 + 1, u.len() as int) == s@.subrange(k + 1, b as int));
        assert(!all_digits(u)) by {
            assert(!is_digit(u[i0]));
        }
        if !r {
            assert forall|i: int|
                0 <= i < u.len() && #[trigger] u[i] == '.' && u.len() > 1 && all_digits(
                    u.subrange(0, i),
                ) implies !all_digits(u.subrange(i + 1, u.len() as int)) by {
                assert(u[i] == s@[start + i]);
                if i > i0 {
                    assert(u.subrange(0, i)[i0] == '.');
                } else if i == i0 {
                } else {
                }
            }
        }
    }
    r
}


fn unexpected_symbol(m: &str) -> (e: KvParseError)
    ensures
        e@ == KvParseErrorView::UnexpectedSymbol(m@),
{
    KvParseError::UnexpectedSymbol(String::from_str(m))
}

/// Reads an XML style comment that starts at `p`.
fn get_xml_comment(s: &Vec<char>, p: usize) -> (r: Result<(Token, usize), KvParseError>)
    requires
        p < s.len(),
    ensures
        view_lexed(r) == lex_xml_comment(s@, p as int),
{
    if !(s.len() - p > 3 && s[p] == '<' && s[p + 1] == '!' && s[p + 2] == '-' && s[p + 3] == '-') {
        return Err(unexpected_symbol("XML style comments must start with <!--"));
    }
    let start = p + 4;
    let mut k = start;
    while k < s.len()
        invariant
            start == p + 4,
            p + 3 < s.len(),
            s@[p as int] == '<' && s@[p + 1] == '!' && s@[p + 2] == '-' && s@[p + 3] == '-',
            start <= k <= s.len(),
            xml_comment_end(s@, start as int, k as int) == xml_comment_end(
                s@,
                start as int,
                start as int,
            ),
        decreases s.len() - k,
    {
        if k - start >= 2 && s[k - 2] == '-' && s[k - 1] == '-' && s[k] == '>' {
            assert(xml_comment_end(s@, start as int, k as int) == Some(k as int));
            return Ok((Token::Comment(trimmed_range(s, start, k - 2)), k + 1));
        }
        k = k + 1;
    }
    Err(KvParseError::UnterminatedComment)
}

/// Reads a `//` comment whose text starts at `p`, up to the line break.
fn get_single_line_comment(s: &Vec<char>, p: usize) -> (r: Result<(Token, usize), KvParseError>)
    requires
        p <= s.len(),
    ensures
        view_lexed(r) == lex_line_comment(s@, p as int),
{
    let mut k = p;
    while k < s.len() && s[k] != '\n'
        invariant
            p <= k <= s.len(),
            line_end(s@, p as int) == line_end(s@, k as int),
        decreases s.len() - k,
    {
        k = k + 1;
    }
    Ok((Token::Comment(trimmed_range(s, p, k)), k))
}

/// Reads a `/*` comment whose text starts at `p`.
fn get_multi_line_comment(s: &Vec<char>, p: usize) -> (r: Result<(Token, usize), KvParseError>)
    requires
        p <= s.len(),
    ensures
        view_lexed(r) == lex_block_comment(s@, p as int),
{
    let mut k = p;
    while k < s.len()
        invariant
            p <= k <= s.len(),
            block_comment_end(s@, p as int, k as int) == block_comment_end(s@, p as int, p as int),
        decreases s.len() - k,
    {
        if k > p && s[k - 1] == '*' && s[k] == '/' {
            return Ok((Token::Comment(trimmed_range(s, p, k - 1)), k + 1));
        }
        k = k + 1;
    }
    Err(KvParseError::UnterminatedComment)
}

/// Reads a `"""` string whose first character after the quotes is at `p`.
fn get_multiline_string(s: &Vec<char>, p: usize) -> (r: Result<(Token, usize), KvParseError>)
    requires
        p <= s.len(),
    ensures
        view_lexed(r) == lex_multiline_string(s@, p as int),
{
    if !(p < s.len() && s[p] == '\n') {
        return Err(unexpected_symbol("Multiline string must start with \"\"\"\\n"));
    }
    let start = p + 1;
    let mut k = start;
    while k < s.len()
        invariant
            start == p + 1,
            p < s.len() && s@[p as int] == '\n',
            start <= k <= s.len(),
            multiline_string_end(s@, start as int, k as int) == multiline_string_end(
                s@,
                start as int,
                start as int,
            ),
        decreases s.len() - k,
    {
        if k - start >= 3 && s[k - 3] == '\n' && s[k - 2] == '"' && s[k - 1] == '"' && s[k] == '"' {
            assert(multiline_string_end(s@, start as int, k as int) == Some(k as int));
            return Ok((Token::String(string_of_range(s, start, k - 3)), k + 1));
        }
        k = k + 1;
    }
    Err(KvParseError::UnterminatedString)
}

/// Reads a string whose opening quote stands just before `p`.
fn get_string(s: &Vec<char>, p: usize) -> (r: Result<(Token, usize), KvParseError>)
    requires
        p <= s.len(),
    ensures
        view_lexed(r) == lex_string(s@, p as int),
{
    if p < s.len() && s[p] == '"' {
        if s.len() - p > 1 && s[p + 1] == '"' {
            return get_multiline_string(s, p + 2);
        }
        return Ok((Token::String(String::new()), p + 1));
    }
    let mut result = String::new();
    let mut k = p;
    while k < s.len()
        invariant
            p <= k <= s.len(),
            lex_string_body(s@, k as int, result@) == lex_string_body(s@, p as int, Seq::empty()),
            !(p < s.len() && s@[p as int] == '"'),
        decreases s.len() - k,
    {
        let c = s[k];
        if c == '"' {
            assert(lex_string_body(s@, k as int, result@) == Ok::<(TokenView, int), KvParseErrorView>(
                (TokenView::Str(result@), k + 1),
            ));
            return Ok((Token::String(result), k + 1));
        }
        if c == '\\' {
            if k + 1 >= s.len() {
                return Err(KvParseError::UnterminatedString);
            }
            let e = s[k + 1];
            if e == '"' || e == '\\' {
                push_char(&mut result, e);
            } else if e == 'n' {
                push_char(&mut result, '\n');
            } else if e == 'r' {
                push_char(&mut result, '\r');
            } else if e == 't' {
                push_char(&mut result, '\t');
            } else {
                return Err(KvParseError::InvalidEscape);
            }
            k = k + 2;
        } else {
            push_char(&mut result, c);
            k = k + 1;
        }
    }
    Err(KvParseError::UnterminatedString)
}

fn is_number_char_exec(c: char) -> (b: bool)
    ensures
        b == is_number_char(c),
{
    ('0' <= c && c <= '9') || c == '+' || c == '-' || c == '.'
}

/// Reads a number that starts at `p`.
fn get_number(s: &Vec<char>, p: usize) -> (r: Result<(Token, usize), KvParseError>)
    requires
        p <= s.len(),
    ensures
        view_lexed(r) == lex_number(s@, p as int),
{
    let mut q = p;
    let mut is_int = true;
    while q < s.len() && is_number_char_exec(s[q])
        invariant
            p <= q <= s.len(),
            number_end(s@, p as int) == number_end(s@, q as int),
            is_int == !s@.subrange(p as int, q as int).contains('.'),
        decreases s.len() - q,
    {
        let ghost before = s@.subrange(p as int, q as int);
        let ghost after = s@.subrange(p as int, q + 1);
        assert(after == before.push(s@[q as int]));
        if s[q] == '.' {
            is_int = false;
            assert(after[q - p] == '.');
        } else {
            assert(before.contains('.') ==> after.contains('.')) by {
                if before.contains('.') {
                    let j = choose|j: int| 0 <= j < before.len() && before[j] == '.';
                    assert(after[j] == '.');
                }
            }
            assert(after.contains('.') ==> before.contains('.')) by {
                if after.contains('.') {
                    let j = choose|j: int| 0 <= j < after.len() && after[j] == '.';
                    assert(before[j] == '.');
                }
            }
        }
        q = q + 1;
    }
    if is_int {
        match parse_i64(s, p, q) {
            Some(v) => Ok((Token::Int(v), q)),
            None => Err(unexpected_symbol("Expected integer")),
        }
    } else if float_text_ok(s, p, q) {
        Ok((Token::Float(string_of_range(s, p, q)), q))
    } else {
        Err(unexpected_symbol("Expected float"))
    }
}

fn is_identifier_char_exec(c: char) -> (b: bool)
    ensures
        b == is_identifier_char(c),
{
    ('a' <= c && c <= 'z') || ('A' <= c && c <= 'Z') || ('0' <= c && c <= '9') || c == '_'
}

/// Reads an identifier that starts at `p`.
fn get_identifier(s: &Vec<char>, p: usize) -> (r: Result<(Token, usize), KvParseError>)
    requires
        p <= s.len(),
    ensures
        view_lexed(r) == lex_identifier(s@, p as int),
{
    let mut q = p;
    while q < s.len() && is_identifier_char_exec(s[q])
        invariant
            p <= q <= s.len(),
            identifier_end(s@, p as int) == identifier_end(s@, q as int),
        decreases s.len() - q,
    {
        q = q + 1;
    }
    Ok((Token::Identifier(string_of_range(s, p, q)), q))
}


fn present(r: Result<(Token, usize), KvParseError>) -> (o: Result<(Option<Token>, usize), KvParseError>)
    ensures
        view_stepped(o) == some_token(view_lexed(r)),
{
    match r {
        Ok((t, q)) => Ok((Some(t), q)),
        Err(e) => Err(e),
    }
}

pub open spec fn view_stepped(r: Result<(Option<Token>, usize), KvParseError>) -> Result<
    (Option<TokenView>, int),
    KvParseErrorView,
> {
    match r {
        Ok((Some(t), q)) => Ok((Some(t@), q as int)),
        Ok((None, q)) => Ok((None, q as int)),
        Err(e) => Err(e@),
    }
}

/// Reads what stands at `p`: a token, or a separator.
fn next_token(s: &Vec<char>, p: usize) -> (r: Result<(Option<Token>, usize), KvParseError>)
    requires
        p < s.len(),
    ensures
        view_stepped(r) == lex_step(s@, p as int),
{
    let c = s[p];
    if c == '{' {
        Ok((Some(Token::LeftCurly), p + 1))
    } else if c == '}' {
        Ok((Some(Token::RightCurly), p + 1))
    } else if c == '[' {
        Ok((Some(Token::LeftSquare), p + 1))
    } else if c == ']' {
        Ok((Some(Token::RightSquare), p + 1))
    } else if c == ',' {
        Ok((Some(Token::Comma), p + 1))
    } else if c == '=' {
        Ok((Some(Token::Equal), p + 1))
    } else if c == '<' {
        present(get_xml_comment(s, p))
    } else if c == '/' {
        if p + 1 >= s.len() {
            Err(KvParseError::UnterminatedComment)
        } else if s[p + 1] == '/' {
            present(get_single_line_comment(s, p + 2))
        } else if s[p + 1] == '*' {
            present(get_multi_line_comment(s, p + 2))
        } else {
            let mut m = String::from_str("Expected<'/' | '*'>  Actual<'");
            push_char(&mut m, s[p + 1]);
            m.append("'>");
            Err(KvParseError::UnexpectedSymbol(m))
        }
    } else if c == '"' {
        present(get_string(s, p + 1))
    } else if is_digit_char(c) || c == '+' || c == '-' {
        present(get_number(s, p))
    } else if ('a' <= c && c <= 'z') || ('A' <= c && c <= 'Z') {
        present(get_identifier(s, p))
    } else if c == ' ' || c == '\t' || c == '\r' || c == '\n' {
        Ok((None, p + 1))
    } else {
        let mut m = String::from_str("'");
        push_char(&mut m, c);
        m.append("'");
        Err(KvParseError::UnexpectedSymbol(m))
    }
}

/// Splits `input` into tokens; fails with the first error met.
pub fn tokenize(input: &str) -> (r: Result<Vec<Token>, KvParseError>)
    ensures
        view_tokenized(r) == spec_tokenize(input@),
{
    let s = chars_of(input);
    let mut tokens: Vec<Token> = Vec::new();
    let mut p: usize = 0;
    while p < s.len()
        invariant
            p <= s.len(),
            s@ == input@,
            prepend_tokens(view_tokens(tokens@), tokens_from(s@, p as int)) == tokens_from(
                s@,
                0,
            ),
        decreases s.len() - p,
    {
        proof {
            lemma_lex_step_progress(s@, p as int);
        }
        match next_token(&s, p) {
            Err(e) => {
                return Err(e);
            },
            Ok((t, q)) => {
                let ghost before = view_tokens(tokens@);
                match t {
                    Some(t) => {
                        let ghost tv = t@;
                        tokens.push(t);
                        proof {
                            assert(view_tokens(tokens@) == before.push(tv));
                            match tokens_from(s@, q as int) {
                                Ok(ts) => {
                                    assert(before + (seq![tv] + ts) == before.push(tv) + ts);
                                },
                                Err(_) => {},
                            }
                        }
                    },
                    None => {},
                }
                p = q;
            },
        }
    }
    proof {
        assert(view_tokens(tokens@) + Seq::<TokenView>::empty() == view_tokens(tokens@));
    }
    Ok(tokens)
}


/// How the derived `Debug` writes a token (used in error messages).
pub uninterp spec fn token_debug_text(t: TokenView) -> Seq<char>;

/// `format!("{:?}", t)`: the token as its derived `Debug` writes it; that text
/// depends on the token alone.
#[verifier::external_body]
pub(crate) fn token_debug(t: &Token) -> (s: String)
    ensures
        s@ == token_debug_text(t@),
{
    format!("{:?}", t)
}

}
