//! Reading back what was written: KV3 text written for a value parses to
//! that value again, for the values that the text format can express.
use vstd::prelude::*;

use crate::kv3::kv3_text::serializer::{
    bool_text, entries_text, is_multiline_value, items_text, starts_nested, tabs, value_text,
};
use crate::kv3::kv3_text::NEW_LINE;
use crate::kv_map::{all_keys_distinct, has_key, keys_distinct};
use crate::parser::kv3_text::tokenizer::{
    all_digits, digits_value, i64_of_text, identifier_end, is_alpha, is_digit, is_float_text,
    is_identifier_char, is_number_char, is_separator, lex_step, number_end, prepend_tokens,
    tokens_from, unsigned_part, TokenView, lex_string_body, lex_string, lex_number,
};
use crate::parser::kv3_text::{array_items, parse_value, skip_comments, spec_parse_kv3_text, table_entries};
use crate::parser::KvParseErrorView;
use crate::text::{digit_char, int_text, nat_text};
use crate::kv3::{dashes_before, kv3_id_text, nibble, uuid_text, KvHeader, ENC_EXT, FMT_GENERIC};
use crate::parser::kv3_text::tokenizer::{lex_xml_comment, spec_tokenize, xml_comment_end};
use crate::serializer::{header_texts, kv3_document_text};
use crate::serializer::kv3_text::{
    lemma_spaced_scalar_text, spaced_entries_text, spaced_items_text, spaced_value_text,
    starts_with_table,
};
use crate::{KvEntryValue, KvValue};

verus! {

// ---------------------------------------------------------------------------
// Text standing at a position

/// The characters of `a` stand in `s` from position `p` on.
pub open spec fn occurs_at(s: Seq<char>, p: int, a: Seq<char>) -> bool {
    0 <= p && p + a.len() <= s.len() && forall|i: int| 0 <= i < a.len() ==> s[p + i] == a[i]
}

proof fn lemma_occurs_split(s: Seq<char>, p: int, a: Seq<char>, b: Seq<char>)
    requires
        occurs_at(s, p, a + b),
    ensures
        occurs_at(s, p, a),
        occurs_at(s, p + a.len(), b),
{
    assert forall|i: int| 0 <= i < a.len() implies s[p + i] == a[i] by {
        assert((a + b)[i] == a[i]);
    }
    assert forall|i: int| 0 <= i < b.len() implies s[p + a.len() + i] == b[i] by {
        assert((a + b)[a.len() + i] == b[i]);
    }
}

pub open spec fn all_separators(a: Seq<char>) -> bool {
    forall|i: int| 0 <= i < a.len() ==> is_separator(#[trigger] a[i])
}

proof fn lemma_prepend_assoc(
    a: Seq<TokenView>,
    b: Seq<TokenView>,
    r: Result<Seq<TokenView>, KvParseErrorView>,
)
    ensures
        prepend_tokens(a, prepend_tokens(b, r)) == prepend_tokens(a + b, r),
{
    if let Ok(ts) = r {
        assert(a + (b + ts) == (a + b) + ts);
    }
}

proof fn lemma_prepend_empty(r: Result<Seq<TokenView>, KvParseErrorView>)
    ensures
        prepend_tokens(Seq::empty(), r) == r,
{
    if let Ok(ts) = r {
        assert(Seq::<TokenView>::empty() + ts == ts);
    }
}

/// White space between tokens is skipped.
proof fn lemma_skip_separators(s: Seq<char>, p: int, a: Seq<char>)
    requires
        occurs_at(s, p, a),
        all_separators(a),
    ensures
        tokens_from(s, p) == tokens_from(s, p + a.len()),
    decreases a.len(),
{
    if a.len() > 0 {
        assert(s[p] == a[0]);
        assert(is_separator(a[0]));
        assert(lex_step(s, p) == Ok::<(Option<TokenView>, int), KvParseErrorView>((None, p + 1)));
        let rest = a.subrange(1, a.len() as int);
        assert(occurs_at(s, p + 1, rest)) by {
            assert forall|i: int| 0 <= i < rest.len() implies s[p + 1 + i] == rest[i] by {
                assert(s[p + (i + 1)] == a[i + 1]);
            }
        }
        assert(all_separators(rest)) by {
            assert forall|i: int| 0 <= i < rest.len() implies is_separator(#[trigger] rest[i]) by {
                assert(rest[i] == a[i + 1]);
            }
        }
        lemma_skip_separators(s, p + 1, rest);
    }
}

proof fn lemma_tabs_separators(n: nat)
    ensures
        all_separators(tabs(n)),
{
}

proof fn lemma_new_line_separators()
    ensures
        all_separators(NEW_LINE@),
        NEW_LINE@ == seq!['\r', '\n'],
{
    reveal_strlit("\r\n");
}

/// The token that a punctuation character stands for.
pub open spec fn punctuation_token(c: char) -> TokenView {
    if c == '{' {
        TokenView::LeftCurly
    } else if c == '}' {
        TokenView::RightCurly
    } else if c == '[' {
        TokenView::LeftSquare
    } else if c == ']' {
        TokenView::RightSquare
    } else if c == ',' {
        TokenView::Comma
    } else {
        TokenView::Equal
    }
}

pub open spec fn is_punctuation(c: char) -> bool {
    c == '{' || c == '}' || c == '[' || c == ']' || c == ',' || c == '='
}

proof fn lemma_punctuation(s: Seq<char>, p: int)
    requires
        0 <= p < s.len(),
        is_punctuation(s[p]),
    ensures
        tokens_from(s, p) == prepend_tokens(seq![punctuation_token(s[p])], tokens_from(s, p + 1)),
{
    if let Ok(ts) = tokens_from(s, p + 1) {
        assert(seq![punctuation_token(s[p])] + ts == seq![punctuation_token(s[p])] + ts);
    }
}


/// A token ends at `q`: the text ends there, or what stands there can neither
/// continue a number or an identifier nor close an empty string.
pub open spec fn ends_token_at(s: Seq<char>, q: int) -> bool {
    q == s.len() || (0 <= q < s.len() && !is_number_char(s[q]) && !is_identifier_char(s[q])
        && s[q] != '"')
}

proof fn lemma_step_token(s: Seq<char>, p: int, tok: TokenView, q: int)
    requires
        0 <= p < q <= s.len(),
        lex_step(s, p) == Ok::<(Option<TokenView>, int), KvParseErrorView>((Some(tok), q)),
    ensures
        tokens_from(s, p) == prepend_tokens(seq![tok], tokens_from(s, q)),
{
}

proof fn lemma_number_run(s: Seq<char>, p: int, a: Seq<char>)
    requires
        occurs_at(s, p, a),
        forall|i: int| 0 <= i < a.len() ==> is_number_char(#[trigger] a[i]),
        p + a.len() == s.len() || !is_number_char(s[p + a.len()]),
    ensures
        number_end(s, p) == p + a.len(),
    decreases a.len(),
{
    if a.len() > 0 {
        assert(s[p] == a[0] && is_number_char(a[0]));
        let rest = a.subrange(1, a.len() as int);
        assert forall|i: int| 0 <= i < rest.len() implies s[p + 1 + i] == rest[i] by {
            assert(s[p + (i + 1)] == a[i + 1]);
        }
        assert forall|i: int| 0 <= i < rest.len() implies is_number_char(#[trigger] rest[i]) by {
            assert(rest[i] == a[i + 1]);
        }
        lemma_number_run(s, p + 1, rest);
    }
}

proof fn lemma_identifier_run(s: Seq<char>, p: int, a: Seq<char>)
    requires
        occurs_at(s, p, a),
        forall|i: int| 0 <= i < a.len() ==> is_identifier_char(#[trigger] a[i]),
        p + a.len() == s.len() || !is_identifier_char(s[p + a.len()]),
    ensures
        identifier_end(s, p) == p + a.len(),
    decreases a.len(),
{
    if a.len() > 0 {
        assert(s[p] == a[0] && is_identifier_char(a[0]));
        let rest = a.subrange(1, a.len() as int);
        assert forall|i: int| 0 <= i < rest.len() implies s[p + 1 + i] == rest[i] by {
            assert(s[p + (i + 1)] == a[i + 1]);
        }
        assert forall|i: int| 0 <= i < rest.len() implies is_identifier_char(#[trigger] rest[i]) by {
            assert(rest[i] == a[i + 1]);
        }
        lemma_identifier_run(s, p + 1, rest);
    }
    assert(s.subrange(p, p + a.len()) == a);
}

/// The keys that the text format can hold: identifiers.
pub open spec fn is_identifier_text(k: Seq<char>) -> bool {
    k.len() > 0 && is_alpha(k[0]) && forall|i: int| 0 <= i < k.len() ==> is_identifier_char(#[trigger] k[i])
}

proof fn lemma_identifier_token(s: Seq<char>, p: int, a: Seq<char>)
    requires
        occurs_at(s, p, a),
        is_identifier_text(a),
        ends_token_at(s, p + a.len()),
    ensures
        tokens_from(s, p) == prepend_tokens(seq![TokenView::Identifier(a)], tokens_from(s, p + a.len())),
{
    lemma_identifier_run(s, p, a);
    assert(s[p] == a[0]);
    assert(s.subrange(p, p + a.len()) == a);
    lemma_step_token(s, p, TokenView::Identifier(a), p + a.len());
}

proof fn lemma_bool_text(b: bool)
    ensures
        is_identifier_text(bool_text(b)),
        bool_text(b) == (if b { seq!['t', 'r', 'u', 'e'] } else { seq!['f', 'a', 'l', 's', 'e'] }),
{
    reveal_strlit("true");
    reveal_strlit("false");
}

// ---------------------------------------------------------------------------
// Integers

proof fn lemma_nat_text(n: nat)
    ensures
        nat_text(n).len() > 0,
        all_digits(nat_text(n)),
        digits_value(nat_text(n)) == n,
    decreases n,
{
    if n >= 10 {
        lemma_nat_text(n / 10);
        let d = nat_text(n / 10);
        let t = nat_text(n);
        assert(t == d.push(digit_char(n % 10)));
        assert(t.subrange(0, t.len() - 1) == d);
        assert forall|i: int| 0 <= i < t.len() implies is_digit(#[trigger] t[i]) by {
            if i < d.len() {
                assert(t[i] == d[i]);
            }
        }
        assert(n == (n / 10) * 10 + n % 10) by (nonlinear_arith);
        assert(digit_char(n % 10) as nat == n % 10 + 48);
        assert(t[t.len() - 1] == digit_char(n % 10));
        assert(digits_value(t) == digits_value(d) * 10 + (t[t.len() - 1] as nat - '0' as nat));
        assert(digits_value(t) == (n / 10) * 10 + n % 10);
        assert(digits_value(t) == n);
    } else {
        assert(digit_char(n) as nat == n + 48);
        assert(nat_text(n) == seq![digit_char(n)]);
        assert(nat_text(n).subrange(0, 0) == Seq::<char>::empty());
        assert(digits_value(Seq::<char>::empty()) == 0);
        assert(digits_value(nat_text(n)) == n);
    }
}

proof fn lemma_int_text(v: i64)
    ensures
        int_text(v as int).len() > 0,
        forall|i: int| 0 <= i < int_text(v as int).len() ==> is_number_char(#[trigger] int_text(v as int)[i]),
        !int_text(v as int).contains('.'),
        is_digit(int_text(v as int)[0]) || int_text(v as int)[0] == '-',
        i64_of_text(int_text(v as int)) == Some(v),
{
    let t = int_text(v as int);
    if v < 0 {
        let d = nat_text((-v) as nat);
        lemma_nat_text((-v) as nat);
        assert(t == seq!['-'] + d);
        assert(unsigned_part(t) == d);
        assert forall|i: int| 0 <= i < t.len() implies is_number_char(#[trigger] t[i]) by {
            if i > 0 {
                assert(t[i] == d[i - 1]);
                assert(is_digit(d[i - 1]));
            }
        }
        assert(!t.contains('.')) by {
            if t.contains('.') {
                let j = choose|j: int| 0 <= j < t.len() && t[j] == '.';
                if j > 0 {
                    assert(t[j] == d[j - 1]);
                    assert(is_digit(d[j - 1]));
                }
            }
        }
    } else {
        lemma_nat_text(v as nat);
        assert(is_digit(t[0]));
        assert(unsigned_part(t) == t);
        assert forall|i: int| 0 <= i < t.len() implies is_number_char(#[trigger] t[i]) by {
            assert(is_digit(t[i]));
        }
        assert(!t.contains('.')) by {
            if t.contains('.') {
                let j = choose|j: int| 0 <= j < t.len() && t[j] == '.';
                assert(is_digit(t[j]));
            }
        }
    }
}

proof fn lemma_int_token(s: Seq<char>, p: int, v: i64)
    requires
        occurs_at(s, p, int_text(v as int)),
        ends_token_at(s, p + int_text(v as int).len()),
    ensures
        tokens_from(s, p) == prepend_tokens(
            seq![TokenView::Int(v)],
            tokens_from(s, p + int_text(v as int).len()),
        ),
{
    let t = int_text(v as int);
    lemma_int_text(v);
    lemma_number_run(s, p, t);
    assert(s[p] == t[0]);
    assert(s.subrange(p, p + t.len()) == t);
    assert(lex_number(s, p) == Ok::<(TokenView, int), KvParseErrorView>((TokenView::Int(v), p + t.len())));
    lemma_step_token(s, p, TokenView::Int(v), p + t.len());
}


// ---------------------------------------------------------------------------
// Floats and strings

/// Float text that the tokenizer reads back as a float: it has a dot, the
/// shape of a Rust float literal, and does not start with the dot.
pub open spec fn is_float_literal(t: Seq<char>) -> bool {
    t.contains('.') && is_float_text(t) && t[0] != '.'
}

proof fn lemma_float_literal(t: Seq<char>)
    requires
        is_float_literal(t),
    ensures
        t.len() > 0,
        forall|i: int| 0 <= i < t.len() ==> is_number_char(#[trigger] t[i]),
        is_digit(t[0]) || t[0] == '+' || t[0] == '-',
{
    let b = unsigned_part(t);
    let signed = t.len() > 0 && (t[0] == '+' || t[0] == '-');
    let j = choose|j: int| 0 <= j < t.len() && t[j] == '.';
    if b.len() > 0 && all_digits(b) {
        if signed {
            assert(j > 0);
            assert(b[j - 1] == t[j]);
            assert(is_digit(b[j - 1]));
        } else {
            assert(b == t);
            assert(is_digit(b[j]));
        }
    }
    let i0 = choose|i: int|
        0 <= i < b.len() && #[trigger] b[i] == '.' && b.len() > 1 && all_digits(b.subrange(0, i))
            && all_digits(b.subrange(i + 1, b.len() as int));
    assert forall|i: int| 0 <= i < b.len() implies is_digit(#[trigger] b[i]) || b[i] == '.' by {
        if i < i0 {
            assert(b.subrange(0, i0)[i] == b[i]);
        } else if i > i0 {
            assert(b.subrange(i0 + 1, b.len() as int)[i - i0 - 1] == b[i]);
        }
    }
    assert forall|i: int| 0 <= i < t.len() implies is_number_char(#[trigger] t[i]) by {
        if signed {
            if i > 0 {
                assert(t[i] == b[i - 1]);
            }
        } else {
            assert(t[i] == b[i]);
        }
    }
    if !signed {
        assert(t[0] == b[0]);
    }
}

proof fn lemma_float_token(s: Seq<char>, p: int, t: Seq<char>)
    requires
        occurs_at(s, p, t),
        is_float_literal(t),
        ends_token_at(s, p + t.len()),
    ensures
        tokens_from(s, p) == prepend_tokens(seq![TokenView::Float(t)], tokens_from(s, p + t.len())),
{
    lemma_float_literal(t);
    lemma_number_run(s, p, t);
    assert(s[p] == t[0]);
    assert(s.subrange(p, p + t.len()) == t);
    assert(lex_number(s, p) == Ok::<(TokenView, int), KvParseErrorView>((TokenView::Float(t), p + t.len())));
    lemma_step_token(s, p, TokenView::Float(t), p + t.len());
}

/// Text that a quoted string holds as it is: no quote and no backslash.
pub open spec fn is_plain_string(a: Seq<char>) -> bool {
    forall|i: int| 0 <= i < a.len() ==> #[trigger] a[i] != '"' && a[i] != '\\'
}

proof fn lemma_string_body_run(s: Seq<char>, k: int, acc: Seq<char>, a: Seq<char>)
    requires
        occurs_at(s, k, a + seq!['"']),
        is_plain_string(a),
    ensures
        lex_string_body(s, k, acc) == Ok::<(TokenView, int), KvParseErrorView>(
            (TokenView::Str(acc + a), k + a.len() + 1),
        ),
    decreases a.len(),
{
    lemma_occurs_split(s, k, a, seq!['"']);
    if a.len() == 0 {
        assert(s[k + 0] == (a + seq!['"'])[0]);
        assert(s[k] == '"');
        assert(acc + a == acc);
    } else {
        assert(s[k] == a[0]);
        let rest = a.subrange(1, a.len() as int);
        assert(occurs_at(s, k + 1, rest + seq!['"'])) by {
            assert forall|i: int| 0 <= i < rest.len() + 1 implies s[k + 1 + i] == (rest + seq!['"'])[i] by {
                assert(s[k + (i + 1)] == (a + seq!['"'])[i + 1]);
            }
        }
        assert(is_plain_string(rest)) by {
            assert forall|i: int| 0 <= i < rest.len() implies #[trigger] rest[i] != '"' && rest[i] != '\\' by {
                assert(rest[i] == a[i + 1]);
            }
        }
        lemma_string_body_run(s, k + 1, acc.push(a[0]), rest);
        assert(acc.push(a[0]) + rest == acc + a);
    }
}

proof fn lemma_string_token(s: Seq<char>, p: int, a: Seq<char>)
    requires
        occurs_at(s, p, seq!['"'] + a + seq!['"']),
        is_plain_string(a),
        ends_token_at(s, p + a.len() + 2),
    ensures
        tokens_from(s, p) == prepend_tokens(seq![TokenView::Str(a)], tokens_from(s, p + a.len() + 2)),
{
    lemma_occurs_split(s, p, seq!['"'] + a, seq!['"']);
    lemma_occurs_split(s, p, seq!['"'], a);
    assert(s[p + 0] == (seq!['"'] + a + seq!['"'])[0]);
    assert(s[p] == '"');
    assert(occurs_at(s, p + 1, a + seq!['"'])) by {
        assert forall|i: int| 0 <= i < a.len() + 1 implies s[p + 1 + i] == (a + seq!['"'])[i] by {
            assert(s[p + (i + 1)] == (seq!['"'] + a + seq!['"'])[i + 1]);
        }
    }
    if a.len() == 0 {
        assert(s[p + (0int + 1)] == (seq!['"'] + a + seq!['"'])[0int + 1]);
        assert(s[p + 1] == '"');
        assert(a == Seq::<char>::empty());
        assert(lex_string(s, p + 1) == Ok::<(TokenView, int), KvParseErrorView>(
            (TokenView::Str(a), p + 2),
        ));
    } else {
        assert(s[p + 1] == a[0]);
        lemma_string_body_run(s, p + 1, Seq::empty(), a);
        assert(Seq::<char>::empty() + a == a);
    }
    lemma_step_token(s, p, TokenView::Str(a), p + a.len() + 2);
}


// ---------------------------------------------------------------------------
// The values that text can express, and their tokens

/// The values whose KV3 text reads back as the same value: no null, no binary
/// blob, no flag, strings without quotes or backslashes, floats written with a
/// dot, and tables whose keys are distinct identifiers.
pub open spec fn round_trips(v: KvValue) -> bool
    decreases v,
{
    match v {
        KvValue::Null => false,
        KvValue::Bin(_) => false,
        KvValue::Str(a) => is_plain_string(a),
        KvValue::Int(_) => true,
        KvValue::Bool(_) => true,
        KvValue::Float(t) => is_float_literal(t),
        KvValue::Table(es) => keys_distinct(es) && forall|i: int|
            0 <= i < es.len() ==> is_identifier_text((#[trigger] es[i]).0) && es[i].1.flag is None
                && round_trips(es[i].1.value),
        KvValue::Array(items) => forall|i: int|
            0 <= i < items.len() ==> round_trips(#[trigger] items[i]),
    }
}

/// The values that KV3 text can express, leaving aside whether a table holds
/// a key twice (a `KvMap` never does): no null, no binary blob, no flag,
/// strings without quotes or backslashes, floats written with a dot, and keys
/// that are identifiers.
pub open spec fn expressible(v: KvValue) -> bool
    decreases v,
{
    match v {
        KvValue::Null => false,
        KvValue::Bin(_) => false,
        KvValue::Str(a) => is_plain_string(a),
        KvValue::Int(_) => true,
        KvValue::Bool(_) => true,
        KvValue::Float(t) => is_float_literal(t),
        KvValue::Table(es) => forall|i: int|
            0 <= i < es.len() ==> is_identifier_text((#[trigger] es[i]).0) && es[i].1.flag is None
                && expressible(es[i].1.value),
        KvValue::Array(items) => forall|i: int|
            0 <= i < items.len() ==> expressible(#[trigger] items[i]),
    }
}

/// An expressible value whose tables hold no key twice round-trips.
pub proof fn lemma_expressible_round_trips(v: KvValue)
    requires
        expressible(v),
        all_keys_distinct(v),
    ensures
        round_trips(v),
    decreases v,
{
    match v {
        KvValue::Table(es) => {
            assert forall|i: int| 0 <= i < es.len() implies is_identifier_text(
                (#[trigger] es[i]).0,
            ) && es[i].1.flag is None && round_trips(es[i].1.value) by {
                let w = v;
                assert(w->Table_0[i] == es[i]);
                assert(decreases_to!(w => w->Table_0[i].1.value));
                assert(expressible(w->Table_0[i].1.value));
                assert(all_keys_distinct(w->Table_0[i].1.value));
                lemma_expressible_round_trips(es[i].1.value);
            }
        },
        KvValue::Array(items) => {
            assert forall|i: int| 0 <= i < items.len() implies round_trips(#[trigger] items[i]) by {
                let w = v;
                assert(w->Array_0[i] == items[i]);
                assert(decreases_to!(w => w->Array_0[i]));
                assert(expressible(w->Array_0[i]));
                assert(all_keys_distinct(w->Array_0[i]));
                lemma_expressible_round_trips(items[i]);
            }
        },
        _ => {},
    }
}

/// The tokens of the text of `v`.
pub open spec fn value_tokens(v: KvValue) -> Seq<TokenView>
    decreases v, 1int,
{
    match v {
        KvValue::Str(a) => seq![TokenView::Str(a)],
        KvValue::Int(i) => seq![TokenView::Int(i)],
        KvValue::Float(t) => seq![TokenView::Float(t)],
        KvValue::Bool(b) => seq![TokenView::Identifier(bool_text(b))],
        KvValue::Table(es) => seq![TokenView::LeftCurly] + entries_tokens(es) + seq![TokenView::RightCurly],
        KvValue::Array(items) => seq![TokenView::LeftSquare] + items_tokens(items) + seq![
            TokenView::RightSquare,
        ],
        _ => Seq::empty(),
    }
}

pub open spec fn entries_tokens(es: Seq<(Seq<char>, KvEntryValue)>) -> Seq<TokenView>
    decreases es, 0int,
{
    if es.len() == 0 {
        Seq::empty()
    } else {
        seq![TokenView::Identifier(es[0].0), TokenView::Equal] + value_tokens(es[0].1.value)
            + entries_tokens(es.subrange(1, es.len() as int))
    }
}

pub open spec fn items_tokens(items: Seq<KvValue>) -> Seq<TokenView>
    decreases items, 0int,
{
    if items.len() == 0 {
        Seq::empty()
    } else {
        value_tokens(items[0]) + (if items.len() > 1 {
            seq![TokenView::Comma]
        } else {
            Seq::empty()
        }) + items_tokens(items.subrange(1, items.len() as int))
    }
}

proof fn lemma_table_entry_facts(es: Seq<(Seq<char>, KvEntryValue)>, i: int)
    requires
        round_trips(KvValue::Table(es)),
        0 <= i < es.len(),
    ensures
        is_identifier_text(es[i].0),
        es[i].1.flag is None,
        round_trips(es[i].1.value),
        decreases_to!(KvValue::Table(es) => es[i].1.value),
{
    let w = KvValue::Table(es);
    assert(w->Table_0[i] == es[i]);
    assert(decreases_to!(w => w->Table_0[i].1.value));
}

proof fn lemma_array_item_facts(items: Seq<KvValue>, i: int)
    requires
        round_trips(KvValue::Array(items)),
        0 <= i < items.len(),
    ensures
        round_trips(items[i]),
        decreases_to!(KvValue::Array(items) => items[i]),
{
    let w = KvValue::Array(items);
    assert(w->Array_0[i] == items[i]);
    assert(decreases_to!(w => w->Array_0[i]));
}


// ---------------------------------------------------------------------------
// Reading the text of a value gives its tokens

proof fn lemma_char_at(s: Seq<char>, p: int, a: Seq<char>, i: int)
    requires
        occurs_at(s, p, a),
        0 <= i < a.len(),
    ensures
        s[p + i] == a[i],
{
}

proof fn lemma_separators_concat(a: Seq<char>, b: Seq<char>)
    requires
        all_separators(a),
        all_separators(b),
    ensures
        all_separators(a + b),
{
    assert forall|i: int| 0 <= i < (a + b).len() implies is_separator(#[trigger] (a + b)[i]) by {
        if i < a.len() {
            assert((a + b)[i] == a[i]);
        } else {
            assert((a + b)[i] == b[i - a.len()]);
        }
    }
}

/// The text written for the tokens of one value: a line break and an indent,
/// or a single space.
proof fn lemma_layout_separators(ml: bool, ind: nat)
    ensures
        all_separators(if ml { NEW_LINE@ + tabs(ind) } else { " "@ }),
{
    reveal_strlit(" ");
    lemma_new_line_separators();
    lemma_tabs_separators(ind);
    lemma_separators_concat(NEW_LINE@, tabs(ind));
}

pub open spec fn entries_round_trip(es: Seq<(Seq<char>, KvEntryValue)>) -> bool {
    forall|i: int|
        0 <= i < es.len() ==> is_identifier_text((#[trigger] es[i]).0) && es[i].1.flag is None
            && round_trips(es[i].1.value)
}

pub open spec fn items_round_trip(items: Seq<KvValue>) -> bool {
    forall|i: int| 0 <= i < items.len() ==> round_trips(#[trigger] items[i])
}

proof fn lemma_value_tokens(s: Seq<char>, p: int, v: KvValue, ind: nat)
    requires
        round_trips(v),
        occurs_at(s, p, value_text(v, ind)),
        ends_token_at(s, p + value_text(v, ind).len()),
    ensures
        tokens_from(s, p) == prepend_tokens(value_tokens(v), tokens_from(s, p + value_text(v, ind).len())),
    decreases v, 2int,
{
    match v {
        KvValue::Str(a) => {
            lemma_string_token(s, p, a);
        },
        KvValue::Int(i) => {
            lemma_int_token(s, p, i);
        },
        KvValue::Float(t) => {
            lemma_float_token(s, p, t);
        },
        KvValue::Bool(b) => {
            lemma_bool_text(b);
            lemma_identifier_token(s, p, bool_text(b));
        },
        KvValue::Table(es) => {
            lemma_table_tokens(s, p, v, ind);
        },
        KvValue::Array(items) => {
            lemma_array_tokens(s, p, v, ind);
        },
        _ => {},
    }
}

#[verifier::rlimit(40)]
proof fn lemma_table_tokens(s: Seq<char>, p: int, v: KvValue, ind: nat)
    requires
        v is Table,
        round_trips(v),
        occurs_at(s, p, value_text(v, ind)),
        ends_token_at(s, p + value_text(v, ind).len()),
    ensures
        tokens_from(s, p) == prepend_tokens(value_tokens(v), tokens_from(s, p + value_text(v, ind).len())),
    decreases v, 1int,
{
    reveal_strlit("{");
    reveal_strlit("}");
    lemma_new_line_separators();
    let es = v->Table_0;
        let nl = NEW_LINE@;
        let e = entries_text(es, ind + 1);
        lemma_occurs_split(s, p, "{"@ + nl + e + tabs(ind), "}"@);
        lemma_occurs_split(s, p, "{"@ + nl + e, tabs(ind));
        lemma_occurs_split(s, p, "{"@ + nl, e);
        lemma_occurs_split(s, p, "{"@, nl);
        let p1 = p + 1;
        let p2 = p1 + 2;
        let p3 = p2 + e.len();
        let p4 = p3 + ind;
        lemma_char_at(s, p, "{"@, 0);
        lemma_punctuation(s, p);
        lemma_skip_separators(s, p1, nl);
        assert(entries_round_trip(es)) by {
            assert forall|i: int| 0 <= i < es.len() implies is_identifier_text(
                (#[trigger] es[i]).0,
            ) && es[i].1.flag is None && round_trips(es[i].1.value) by {
                lemma_table_entry_facts(es, i);
            }
        }
        assert(decreases_to!(v => v->Table_0));
        lemma_entries_tokens(s, p2, es, ind + 1);
        lemma_tabs_separators(ind);
        lemma_skip_separators(s, p3, tabs(ind));
        lemma_char_at(s, p4, "}"@, 0);
        lemma_punctuation(s, p4);
        lemma_prepend_assoc(entries_tokens(es), seq![TokenView::RightCurly], tokens_from(s, p4 + 1));
        lemma_prepend_assoc(
            seq![TokenView::LeftCurly],
            entries_tokens(es) + seq![TokenView::RightCurly],
            tokens_from(s, p4 + 1),
        );
        assert(seq![TokenView::LeftCurly] + (entries_tokens(es) + seq![TokenView::RightCurly])
            == value_tokens(v));
}

#[verifier::rlimit(40)]
proof fn lemma_array_tokens(s: Seq<char>, p: int, v: KvValue, ind: nat)
    requires
        v is Array,
        round_trips(v),
        occurs_at(s, p, value_text(v, ind)),
        ends_token_at(s, p + value_text(v, ind).len()),
    ensures
        tokens_from(s, p) == prepend_tokens(value_tokens(v), tokens_from(s, p + value_text(v, ind).len())),
    decreases v, 1int,
{
    reveal_strlit("[");
    reveal_strlit("]");
    lemma_new_line_separators();
    let items = v->Array_0;
        let ml = starts_nested(items);
        let o = if ml {
            NEW_LINE@ + tabs(ind + 1)
        } else {
            " "@
        };
        let it = items_text(items, ind + 1, ml);
        let c = if ml {
            NEW_LINE@ + tabs(ind)
        } else {
            Seq::empty()
        };
        assert(value_text(v, ind) == "["@ + o + it + c + "]"@);
        lemma_occurs_split(s, p, "["@ + o + it + c, "]"@);
        lemma_occurs_split(s, p, "["@ + o + it, c);
        lemma_occurs_split(s, p, "["@ + o, it);
        lemma_occurs_split(s, p, "["@, o);
        let p1 = p + 1;
        let p2 = p1 + o.len();
        let p3 = p2 + it.len();
        let p4 = p3 + c.len();
        lemma_char_at(s, p, "["@, 0);
        lemma_punctuation(s, p);
        lemma_layout_separators(ml, ind + 1);
        lemma_skip_separators(s, p1, o);
        assert(items_round_trip(items)) by {
            assert forall|i: int| 0 <= i < items.len() implies round_trips(#[trigger] items[i]) by {
                lemma_array_item_facts(items, i);
            }
        }
        assert(ends_token_at(s, p3)) by {
            if ml {
                lemma_char_at(s, p3, c, 0);
            } else {
                lemma_char_at(s, p3, "]"@, 0);
            }
        }
        assert(decreases_to!(v => v->Array_0));
        lemma_items_tokens(s, p2, items, ind + 1, ml);
        if ml {
            lemma_layout_separators(true, ind);
        }
        assert(all_separators(c));
        lemma_skip_separators(s, p3, c);
        lemma_char_at(s, p4, "]"@, 0);
        lemma_punctuation(s, p4);
        lemma_prepend_assoc(items_tokens(items), seq![TokenView::RightSquare], tokens_from(s, p4 + 1));
        lemma_prepend_assoc(
            seq![TokenView::LeftSquare],
            items_tokens(items) + seq![TokenView::RightSquare],
            tokens_from(s, p4 + 1),
        );
        assert(seq![TokenView::LeftSquare] + (items_tokens(items) + seq![TokenView::RightSquare])
            == value_tokens(v));
}

#[verifier::rlimit(40)]
proof fn lemma_entries_tokens(
    s: Seq<char>,
    p: int,
    es: Seq<(Seq<char>, KvEntryValue)>,
    ind: nat,
)
    requires
        entries_round_trip(es),
        occurs_at(s, p, entries_text(es, ind)),
    ensures
        tokens_from(s, p) == prepend_tokens(entries_tokens(es), tokens_from(s, p + entries_text(es, ind).len())),
    decreases es, 0int,
{
    if es.len() == 0 {
        lemma_prepend_empty(tokens_from(s, p));
    } else {
        reveal_strlit(" = ");
        lemma_new_line_separators();
        let k = es[0].0;
        let ev = es[0].1;
        assert(is_identifier_text(k) && ev.flag is None && round_trips(ev.value));
        let rest = es.subrange(1, es.len() as int);
        let nl = NEW_LINE@;
        let m = if is_multiline_value(ev.value) {
            nl + tabs(ind)
        } else {
            Seq::empty()
        };
        let vt = value_text(ev.value, ind);
        let r = entries_text(rest, ind);
        let f: Seq<char> = Seq::empty();
        assert(entries_text(es, ind) == tabs(ind) + k + " = "@ + f + m + vt + nl + r);
        lemma_occurs_split(s, p, tabs(ind) + k + " = "@ + f + m + vt + nl, r);
        lemma_occurs_split(s, p, tabs(ind) + k + " = "@ + f + m + vt, nl);
        lemma_occurs_split(s, p, tabs(ind) + k + " = "@ + f + m, vt);
        lemma_occurs_split(s, p, tabs(ind) + k + " = "@ + f, m);
        lemma_occurs_split(s, p, tabs(ind) + k + " = "@, f);
        lemma_occurs_split(s, p, tabs(ind) + k, " = "@);
        lemma_occurs_split(s, p, tabs(ind), k);
        let a1 = p + ind;
        let a2 = a1 + k.len();
        let a3 = a2 + 3;
        let a4 = a3 + m.len();
        let a5 = a4 + vt.len();
        let a6 = a5 + 2;
        lemma_tabs_separators(ind);
        lemma_skip_separators(s, p, tabs(ind));
        lemma_char_at(s, a2, " = "@, 0);
        lemma_char_at(s, a2, " = "@, 1);
        lemma_char_at(s, a2, " = "@, 2);
        lemma_identifier_token(s, a1, k);
        lemma_skip_separators(s, a2, seq![' ']);
        lemma_punctuation(s, a2 + 1);
        lemma_skip_separators(s, a2 + 2, seq![' ']);
        if is_multiline_value(ev.value) {
            lemma_layout_separators(true, ind);
        }
        lemma_skip_separators(s, a3, m);
        lemma_char_at(s, a5, nl, 0);
        assert(decreases_to!(es => es[0].1.value));
        lemma_value_tokens(s, a4, ev.value, ind);
        lemma_skip_separators(s, a5, nl);
        assert(entries_round_trip(rest)) by {
            assert forall|i: int| 0 <= i < rest.len() implies is_identifier_text(
                (#[trigger] rest[i]).0,
            ) && rest[i].1.flag is None && round_trips(rest[i].1.value) by {
                assert(rest[i] == es[i + 1]);
            }
        }
        lemma_entries_tokens(s, a6, rest, ind);
        let vtok = value_tokens(ev.value);
        let rtok = entries_tokens(rest);
        let tail = tokens_from(s, a6 + r.len());
        lemma_prepend_assoc(vtok, rtok, tail);
        lemma_prepend_assoc(seq![TokenView::Equal], vtok + rtok, tail);
        lemma_prepend_assoc(seq![TokenView::Identifier(k)], seq![TokenView::Equal] + (vtok + rtok), tail);
        assert(seq![TokenView::Identifier(k)] + (seq![TokenView::Equal] + (vtok + rtok))
            == entries_tokens(es));
    }
}

proof fn lemma_items_tokens(s: Seq<char>, p: int, items: Seq<KvValue>, ind: nat, ml: bool)
    requires
        items_round_trip(items),
        occurs_at(s, p, items_text(items, ind, ml)),
        ends_token_at(s, p + items_text(items, ind, ml).len()),
    ensures
        tokens_from(s, p) == prepend_tokens(items_tokens(items), tokens_from(s, p + items_text(items, ind, ml).len())),
    decreases items, 0int,
{
    if items.len() == 0 {
        lemma_prepend_empty(tokens_from(s, p));
    } else {
        reveal_strlit(",");
        reveal_strlit(" ");
        let rest = items.subrange(1, items.len() as int);
        let vt = value_text(items[0], ind);
        let sep = if items.len() > 1 {
            ","@ + if ml {
                NEW_LINE@ + tabs(ind)
            } else {
                " "@
            }
        } else if !ml {
            " "@
        } else {
            Seq::empty()
        };
        let r = items_text(rest, ind, ml);
        assert(items_text(items, ind, ml) == vt + sep + r);
        lemma_occurs_split(s, p, vt + sep, r);
        lemma_occurs_split(s, p, vt, sep);
        let a1 = p + vt.len();
        let a2 = a1 + sep.len();
        assert(round_trips(items[0]));
        assert(ends_token_at(s, a1)) by {
            if sep.len() > 0 {
                lemma_char_at(s, a1, sep, 0);
            }
        }
        assert(decreases_to!(items => items[0]));
        lemma_value_tokens(s, p, items[0], ind);
        let comma: Seq<TokenView> = if items.len() > 1 {
            seq![TokenView::Comma]
        } else {
            Seq::empty()
        };
        if items.len() > 1 {
            let lay = if ml {
                NEW_LINE@ + tabs(ind)
            } else {
                " "@
            };
            lemma_occurs_split(s, a1, ","@, lay);
            lemma_char_at(s, a1, ","@, 0);
            lemma_punctuation(s, a1);
            lemma_layout_separators(ml, ind);
            lemma_skip_separators(s, a1 + 1, lay);
        } else {
            assert(all_separators(sep)) by {
                lemma_layout_separators(false, ind);
            }
            lemma_skip_separators(s, a1, sep);
            lemma_prepend_empty(tokens_from(s, a2));
        }
        assert(items_round_trip(rest)) by {
            assert forall|i: int| 0 <= i < rest.len() implies round_trips(#[trigger] rest[i]) by {
                assert(rest[i] == items[i + 1]);
            }
        }
        lemma_items_tokens(s, a2, rest, ind, ml);
        let tail = tokens_from(s, a2 + r.len());
        let vtok = value_tokens(items[0]);
        lemma_prepend_assoc(comma, items_tokens(rest), tail);
        lemma_prepend_assoc(vtok, comma + items_tokens(rest), tail);
        assert(vtok + (comma + items_tokens(rest)) == items_tokens(items));
    }
}


// ---------------------------------------------------------------------------
// Parsing the tokens of a value gives the value

/// The tokens `a` stand in `t` from position `p` on.
pub open spec fn tokens_occur_at(t: Seq<TokenView>, p: int, a: Seq<TokenView>) -> bool {
    0 <= p && p + a.len() <= t.len() && forall|i: int| 0 <= i < a.len() ==> t[p + i] == a[i]
}

proof fn lemma_tokens_split(t: Seq<TokenView>, p: int, a: Seq<TokenView>, b: Seq<TokenView>)
    requires
        tokens_occur_at(t, p, a + b),
    ensures
        tokens_occur_at(t, p, a),
        tokens_occur_at(t, p + a.len(), b),
{
    assert forall|i: int| 0 <= i < a.len() implies t[p + i] == a[i] by {
        assert((a + b)[i] == a[i]);
    }
    assert forall|i: int| 0 <= i < b.len() implies t[p + a.len() + i] == b[i] by {
        assert((a + b)[a.len() + i] == b[i]);
    }
}

proof fn lemma_token_at(t: Seq<TokenView>, p: int, a: Seq<TokenView>, i: int)
    requires
        tokens_occur_at(t, p, a),
        0 <= i < a.len(),
    ensures
        t[p + i] == a[i],
{
}

/// The tokens of a value start with neither a comment nor a closing bracket.
proof fn lemma_value_tokens_first(v: KvValue)
    requires
        round_trips(v),
    ensures
        value_tokens(v).len() > 0,
        !(value_tokens(v)[0] is Comment),
        !(value_tokens(v)[0] is RightSquare),
        !(value_tokens(v)[0] is Comma),
{
}

proof fn lemma_no_comment_skip(t: Seq<TokenView>, p: int)
    requires
        0 <= p < t.len(),
        !(t[p] is Comment),
    ensures
        skip_comments(t, p) == p,
{
}

proof fn lemma_parse_value_of_tokens(t: Seq<TokenView>, p: int, v: KvValue)
    requires
        round_trips(v),
        tokens_occur_at(t, p, value_tokens(v)),
    ensures
        parse_value(t, p) == Ok::<(KvValue, int), KvParseErrorView>((v, p + value_tokens(v).len())),
    decreases v, 2int,
{
    lemma_value_tokens_first(v);
    lemma_token_at(t, p, value_tokens(v), 0);
    lemma_no_comment_skip(t, p);
    match v {
        KvValue::Bool(b) => {
            reveal_strlit("true");
            reveal_strlit("false");
            assert(t[p] == TokenView::Identifier(bool_text(b)));
            if !b {
                assert("false"@.len() != "true"@.len());
            }
        },
        KvValue::Table(es) => {
            lemma_parse_table_of_tokens(t, p, v);
        },
        KvValue::Array(items) => {
            lemma_parse_array_of_tokens(t, p, v);
        },
        _ => {},
    }
}

proof fn lemma_parse_table_of_tokens(t: Seq<TokenView>, p: int, v: KvValue)
    requires
        v is Table,
        round_trips(v),
        tokens_occur_at(t, p, value_tokens(v)),
    ensures
        parse_value(t, p) == Ok::<(KvValue, int), KvParseErrorView>((v, p + value_tokens(v).len())),
    decreases v, 1int,
{
    let es = v->Table_0;
    let et = entries_tokens(es);
    lemma_token_at(t, p, value_tokens(v), 0);
    lemma_no_comment_skip(t, p);
    assert(value_tokens(v) == seq![TokenView::LeftCurly] + (et + seq![TokenView::RightCurly]));
    lemma_tokens_split(t, p, seq![TokenView::LeftCurly], et + seq![TokenView::RightCurly]);
    assert(entries_round_trip(es)) by {
        assert forall|i: int| 0 <= i < es.len() implies is_identifier_text((#[trigger] es[i]).0)
            && es[i].1.flag is None && round_trips(es[i].1.value) by {
            lemma_table_entry_facts(es, i);
        }
    }
    assert(Seq::<(Seq<char>, KvEntryValue)>::empty() + es == es);
    assert(decreases_to!(v => v->Table_0));
    lemma_parse_entries_of_tokens(t, p + 1, Seq::empty(), es);
}

proof fn lemma_parse_array_of_tokens(t: Seq<TokenView>, p: int, v: KvValue)
    requires
        v is Array,
        round_trips(v),
        tokens_occur_at(t, p, value_tokens(v)),
    ensures
        parse_value(t, p) == Ok::<(KvValue, int), KvParseErrorView>((v, p + value_tokens(v).len())),
    decreases v, 1int,
{
    let items = v->Array_0;
    let it = items_tokens(items);
    lemma_token_at(t, p, value_tokens(v), 0);
    lemma_no_comment_skip(t, p);
    assert(value_tokens(v) == seq![TokenView::LeftSquare] + (it + seq![TokenView::RightSquare]));
    lemma_tokens_split(t, p, seq![TokenView::LeftSquare], it + seq![TokenView::RightSquare]);
    assert(items_round_trip(items)) by {
        assert forall|i: int| 0 <= i < items.len() implies round_trips(#[trigger] items[i]) by {
            lemma_array_item_facts(items, i);
        }
    }
    assert(Seq::<KvValue>::empty() + items == items);
    assert(decreases_to!(v => v->Array_0));
    lemma_parse_items_of_tokens(t, p + 1, Seq::empty(), items);
}

#[verifier::rlimit(40)]
proof fn lemma_parse_entries_of_tokens(
    t: Seq<TokenView>,
    p: int,
    acc: Seq<(Seq<char>, KvEntryValue)>,
    es: Seq<(Seq<char>, KvEntryValue)>,
)
    requires
        entries_round_trip(es),
        keys_distinct(acc + es),
        tokens_occur_at(t, p, entries_tokens(es) + seq![TokenView::RightCurly]),
    ensures
        table_entries(t, p, acc) == Ok::<(KvValue, int), KvParseErrorView>(
            (KvValue::Table(acc + es), p + entries_tokens(es).len() + 1),
        ),
    decreases es, 0int,
{
    let all = entries_tokens(es) + seq![TokenView::RightCurly];
    if es.len() == 0 {
        lemma_token_at(t, p, all, 0);
        lemma_no_comment_skip(t, p);
        assert(acc + es == acc);
    } else {
        let k = es[0].0;
        let ev = es[0].1;
        let rest = es.subrange(1, es.len() as int);
        let vt = value_tokens(ev.value);
        let rt = entries_tokens(rest);
        assert(is_identifier_text(k) && ev.flag is None && round_trips(ev.value));
        assert(all == seq![TokenView::Identifier(k), TokenView::Equal] + (vt + (rt + seq![
            TokenView::RightCurly,
        ])));
        lemma_tokens_split(
            t,
            p,
            seq![TokenView::Identifier(k), TokenView::Equal],
            vt + (rt + seq![TokenView::RightCurly]),
        );
        lemma_tokens_split(t, p + 2, vt, rt + seq![TokenView::RightCurly]);
        lemma_token_at(t, p, seq![TokenView::Identifier(k), TokenView::Equal], 0);
        lemma_token_at(t, p, seq![TokenView::Identifier(k), TokenView::Equal], 1);
        lemma_no_comment_skip(t, p);
        lemma_no_comment_skip(t, p + 1);
        assert(!has_key(acc, k)) by {
            if has_key(acc, k) {
                let i = choose|i: int| 0 <= i < acc.len() && #[trigger] acc[i].0 == k;
                assert((acc + es)[i] == acc[i]);
                assert((acc + es)[acc.len() as int] == es[0]);
            }
        }
        assert(decreases_to!(es => es[0].1.value));
        lemma_parse_value_of_tokens(t, p + 2, ev.value);
        let r = p + 2 + vt.len();
        let acc2 = acc.push((k, KvEntryValue { value: ev.value, flag: None }));
        assert(acc2 == acc.push(es[0]));
        assert(acc2 + rest == acc + es);
        assert(entries_round_trip(rest)) by {
            assert forall|i: int| 0 <= i < rest.len() implies is_identifier_text(
                (#[trigger] rest[i]).0,
            ) && rest[i].1.flag is None && round_trips(rest[i].1.value) by {
                assert(rest[i] == es[i + 1]);
            }
        }
        lemma_parse_entries_of_tokens(t, r, acc2, rest);
        assert(entries_tokens(es) == seq![TokenView::Identifier(k), TokenView::Equal] + vt + rt);
    }
}

#[verifier::rlimit(40)]
proof fn lemma_parse_items_of_tokens(
    t: Seq<TokenView>,
    p: int,
    acc: Seq<KvValue>,
    items: Seq<KvValue>,
)
    requires
        items_round_trip(items),
        tokens_occur_at(t, p, items_tokens(items) + seq![TokenView::RightSquare]),
    ensures
        array_items(t, p, acc) == Ok::<(KvValue, int), KvParseErrorView>(
            (KvValue::Array(acc + items), p + items_tokens(items).len() + 1),
        ),
    decreases items, 0int,
{
    let all = items_tokens(items) + seq![TokenView::RightSquare];
    if items.len() == 0 {
        lemma_token_at(t, p, all, 0);
        lemma_no_comment_skip(t, p);
        assert(acc + items == acc);
    } else {
        let rest = items.subrange(1, items.len() as int);
        let vt = value_tokens(items[0]);
        let comma: Seq<TokenView> = if items.len() > 1 {
            seq![TokenView::Comma]
        } else {
            Seq::empty()
        };
        let rt = items_tokens(rest);
        assert(round_trips(items[0]));
        assert(all == vt + (comma + (rt + seq![TokenView::RightSquare])));
        lemma_tokens_split(t, p, vt, comma + (rt + seq![TokenView::RightSquare]));
        lemma_tokens_split(t, p + vt.len(), comma, rt + seq![TokenView::RightSquare]);
        lemma_value_tokens_first(items[0]);
        lemma_token_at(t, p, vt, 0);
        lemma_no_comment_skip(t, p);
        assert(decreases_to!(items => items[0]));
        lemma_parse_value_of_tokens(t, p, items[0]);
        let r = p + vt.len();
        let n = r + comma.len();
        if items.len() > 1 {
            lemma_token_at(t, r, comma, 0);
        } else {
            assert(rest.len() == 0);
            assert(rt == Seq::<TokenView>::empty());
            lemma_token_at(t, r, rt + seq![TokenView::RightSquare], 0);
        }
        lemma_no_comment_skip(t, r);
        let acc2 = acc.push(items[0]);
        assert(acc2 + rest == acc + items);
        assert(items_round_trip(rest)) by {
            assert forall|i: int| 0 <= i < rest.len() implies round_trips(#[trigger] rest[i]) by {
                assert(rest[i] == items[i + 1]);
            }
        }
        lemma_parse_items_of_tokens(t, n, acc2, rest);
        assert(items_tokens(items) == vt + comma + rt);
    }
}


// ---------------------------------------------------------------------------
// Reading the spaced text of a value gives its tokens

proof fn lemma_spaced_value_tokens(s: Seq<char>, p: int, v: KvValue, ind: nat)
    requires
        round_trips(v),
        occurs_at(s, p, spaced_value_text(v, ind)),
        ends_token_at(s, p + spaced_value_text(v, ind).len()),
    ensures
        tokens_from(s, p) == prepend_tokens(
            value_tokens(v),
            tokens_from(s, p + spaced_value_text(v, ind).len()),
        ),
    decreases v, 2int,
{
    match v {
        KvValue::Table(_) => {
            lemma_spaced_table_tokens(s, p, v, ind);
        },
        KvValue::Array(_) => {
            lemma_spaced_array_tokens(s, p, v, ind);
        },
        _ => {
            lemma_spaced_scalar_text(v, ind);
            lemma_occurs_split(s, p, seq![' '], value_text(v, ind));
            lemma_skip_separators(s, p, seq![' ']);
            lemma_value_tokens(s, p + 1, v, ind);
        },
    }
}

#[verifier::rlimit(40)]
proof fn lemma_spaced_table_tokens(s: Seq<char>, p: int, v: KvValue, ind: nat)
    requires
        v is Table,
        round_trips(v),
        occurs_at(s, p, spaced_value_text(v, ind)),
        ends_token_at(s, p + spaced_value_text(v, ind).len()),
    ensures
        tokens_from(s, p) == prepend_tokens(
            value_tokens(v),
            tokens_from(s, p + spaced_value_text(v, ind).len()),
        ),
    decreases v, 1int,
{
    reveal_strlit("{");
    reveal_strlit("}");
    lemma_new_line_separators();
    let es = v->Table_0;
    let nl = NEW_LINE@;
    let o = nl + tabs(ind);
    let e = spaced_entries_text(es, ind + 1);
    assert(spaced_value_text(v, ind) == o + "{"@ + nl + e + tabs(ind) + "}"@);
    lemma_occurs_split(s, p, o + "{"@ + nl + e + tabs(ind), "}"@);
    lemma_occurs_split(s, p, o + "{"@ + nl + e, tabs(ind));
    lemma_occurs_split(s, p, o + "{"@ + nl, e);
    lemma_occurs_split(s, p, o + "{"@, nl);
    lemma_occurs_split(s, p, o, "{"@);
    let p0 = p + o.len();
    let p1 = p0 + 1;
    let p2 = p1 + 2;
    let p3 = p2 + e.len();
    let p4 = p3 + ind;
    lemma_layout_separators(true, ind);
    lemma_skip_separators(s, p, o);
    lemma_char_at(s, p0, "{"@, 0);
    lemma_punctuation(s, p0);
    lemma_skip_separators(s, p1, nl);
    assert(entries_round_trip(es)) by {
        assert forall|i: int| 0 <= i < es.len() implies is_identifier_text(
            (#[trigger] es[i]).0,
        ) && es[i].1.flag is None && round_trips(es[i].1.value) by {
            lemma_table_entry_facts(es, i);
        }
    }
    assert(decreases_to!(v => v->Table_0));
    lemma_spaced_entries_tokens(s, p2, es, ind + 1);
    lemma_tabs_separators(ind);
    lemma_skip_separators(s, p3, tabs(ind));
    lemma_char_at(s, p4, "}"@, 0);
    lemma_punctuation(s, p4);
    lemma_prepend_assoc(entries_tokens(es), seq![TokenView::RightCurly], tokens_from(s, p4 + 1));
    lemma_prepend_assoc(
        seq![TokenView::LeftCurly],
        entries_tokens(es) + seq![TokenView::RightCurly],
        tokens_from(s, p4 + 1),
    );
    assert(seq![TokenView::LeftCurly] + (entries_tokens(es) + seq![TokenView::RightCurly])
        == value_tokens(v));
}

#[verifier::rlimit(40)]
proof fn lemma_spaced_array_tokens(s: Seq<char>, p: int, v: KvValue, ind: nat)
    requires
        v is Array,
        round_trips(v),
        occurs_at(s, p, spaced_value_text(v, ind)),
        ends_token_at(s, p + spaced_value_text(v, ind).len()),
    ensures
        tokens_from(s, p) == prepend_tokens(
            value_tokens(v),
            tokens_from(s, p + spaced_value_text(v, ind).len()),
        ),
    decreases v, 1int,
{
    reveal_strlit("[");
    reveal_strlit("]");
    lemma_new_line_separators();
    let items = v->Array_0;
    let ml = starts_with_table(items);
    let o = if ml {
        NEW_LINE@ + tabs(ind)
    } else {
        " "@
    };
    let it = spaced_items_text(items, ind + 1, ml);
    let c = if ml {
        NEW_LINE@ + tabs(ind)
    } else {
        Seq::empty()
    };
    assert(spaced_value_text(v, ind) == o + "["@ + it + c + "]"@);
    lemma_occurs_split(s, p, o + "["@ + it + c, "]"@);
    lemma_occurs_split(s, p, o + "["@ + it, c);
    lemma_occurs_split(s, p, o + "["@, it);
    lemma_occurs_split(s, p, o, "["@);
    let p0 = p + o.len();
    let p2 = p0 + 1;
    let p3 = p2 + it.len();
    let p4 = p3 + c.len();
    lemma_layout_separators(ml, ind);
    lemma_skip_separators(s, p, o);
    lemma_char_at(s, p0, "["@, 0);
    lemma_punctuation(s, p0);
    assert(items_round_trip(items)) by {
        assert forall|i: int| 0 <= i < items.len() implies round_trips(#[trigger] items[i]) by {
            lemma_array_item_facts(items, i);
        }
    }
    assert(ends_token_at(s, p3)) by {
        if ml {
            lemma_char_at(s, p3, c, 0);
        } else {
            lemma_char_at(s, p3, "]"@, 0);
        }
    }
    assert(decreases_to!(v => v->Array_0));
    lemma_spaced_items_tokens(s, p2, items, ind + 1, ml);
    if ml {
        lemma_layout_separators(true, ind);
    }
    assert(all_separators(c));
    lemma_skip_separators(s, p3, c);
    lemma_char_at(s, p4, "]"@, 0);
    lemma_punctuation(s, p4);
    lemma_prepend_assoc(items_tokens(items), seq![TokenView::RightSquare], tokens_from(s, p4 + 1));
    lemma_prepend_assoc(
        seq![TokenView::LeftSquare],
        items_tokens(items) + seq![TokenView::RightSquare],
        tokens_from(s, p4 + 1),
    );
    assert(seq![TokenView::LeftSquare] + (items_tokens(items) + seq![TokenView::RightSquare])
        == value_tokens(v));
}

#[verifier::rlimit(40)]
proof fn lemma_spaced_entries_tokens(
    s: Seq<char>,
    p: int,
    es: Seq<(Seq<char>, KvEntryValue)>,
    ind: nat,
)
    requires
        entries_round_trip(es),
        occurs_at(s, p, spaced_entries_text(es, ind)),
    ensures
        tokens_from(s, p) == prepend_tokens(
            entries_tokens(es),
            tokens_from(s, p + spaced_entries_text(es, ind).len()),
        ),
    decreases es, 0int,
{
    if es.len() == 0 {
        lemma_prepend_empty(tokens_from(s, p));
    } else {
        reveal_strlit(" =");
        lemma_new_line_separators();
        let k = es[0].0;
        let ev = es[0].1;
        assert(is_identifier_text(k) && ev.flag is None && round_trips(ev.value));
        let rest = es.subrange(1, es.len() as int);
        let nl = NEW_LINE@;
        let vt = spaced_value_text(ev.value, ind);
        let r = spaced_entries_text(rest, ind);
        assert(spaced_entries_text(es, ind) == tabs(ind) + k + " ="@ + vt + nl + r);
        lemma_occurs_split(s, p, tabs(ind) + k + " ="@ + vt + nl, r);
        lemma_occurs_split(s, p, tabs(ind) + k + " ="@ + vt, nl);
        lemma_occurs_split(s, p, tabs(ind) + k + " ="@, vt);
        lemma_occurs_split(s, p, tabs(ind) + k, " ="@);
        lemma_occurs_split(s, p, tabs(ind), k);
        let a1 = p + ind;
        let a2 = a1 + k.len();
        let a3 = a2 + 2;
        let a5 = a3 + vt.len();
        let a6 = a5 + 2;
        lemma_tabs_separators(ind);
        lemma_skip_separators(s, p, tabs(ind));
        lemma_char_at(s, a2, " ="@, 0);
        lemma_char_at(s, a2, " ="@, 1);
        lemma_identifier_token(s, a1, k);
        lemma_skip_separators(s, a2, seq![' ']);
        lemma_punctuation(s, a2 + 1);
        lemma_char_at(s, a5, nl, 0);
        assert(decreases_to!(es => es[0].1.value));
        lemma_spaced_value_tokens(s, a3, ev.value, ind);
        lemma_skip_separators(s, a5, nl);
        assert(entries_round_trip(rest)) by {
            assert forall|i: int| 0 <= i < rest.len() implies is_identifier_text(
                (#[trigger] rest[i]).0,
            ) && rest[i].1.flag is None && round_trips(rest[i].1.value) by {
                assert(rest[i] == es[i + 1]);
            }
        }
        lemma_spaced_entries_tokens(s, a6, rest, ind);
        let vtok = value_tokens(ev.value);
        let rtok = entries_tokens(rest);
        let tail = tokens_from(s, a6 + r.len());
        lemma_prepend_assoc(vtok, rtok, tail);
        lemma_prepend_assoc(seq![TokenView::Equal], vtok + rtok, tail);
        lemma_prepend_assoc(seq![TokenView::Identifier(k)], seq![TokenView::Equal] + (vtok + rtok), tail);
        assert(seq![TokenView::Identifier(k)] + (seq![TokenView::Equal] + (vtok + rtok))
            == entries_tokens(es));
    }
}

proof fn lemma_spaced_items_tokens(s: Seq<char>, p: int, items: Seq<KvValue>, ind: nat, ml: bool)
    requires
        items_round_trip(items),
        occurs_at(s, p, spaced_items_text(items, ind, ml)),
        ends_token_at(s, p + spaced_items_text(items, ind, ml).len()),
    ensures
        tokens_from(s, p) == prepend_tokens(
            items_tokens(items),
            tokens_from(s, p + spaced_items_text(items, ind, ml).len()),
        ),
    decreases items, 0int,
{
    if items.len() == 0 {
        lemma_prepend_empty(tokens_from(s, p));
    } else {
        reveal_strlit(",");
        reveal_strlit(" ");
        let rest = items.subrange(1, items.len() as int);
        let vt = spaced_value_text(items[0], ind);
        let sep = if items.len() > 1 {
            ","@
        } else if !ml {
            " "@
        } else {
            Seq::empty()
        };
        let r = spaced_items_text(rest, ind, ml);
        assert(spaced_items_text(items, ind, ml) == vt + sep + r);
        lemma_occurs_split(s, p, vt + sep, r);
        lemma_occurs_split(s, p, vt, sep);
        let a1 = p + vt.len();
        let a2 = a1 + sep.len();
        assert(round_trips(items[0]));
        assert(ends_token_at(s, a1)) by {
            if sep.len() > 0 {
                lemma_char_at(s, a1, sep, 0);
            }
        }
        assert(decreases_to!(items => items[0]));
        lemma_spaced_value_tokens(s, p, items[0], ind);
        let comma: Seq<TokenView> = if items.len() > 1 {
            seq![TokenView::Comma]
        } else {
            Seq::empty()
        };
        if items.len() > 1 {
            lemma_char_at(s, a1, ","@, 0);
            lemma_punctuation(s, a1);
        } else {
            assert(all_separators(sep));
            lemma_skip_separators(s, a1, sep);
            lemma_prepend_empty(tokens_from(s, a2));
        }
        assert(items_round_trip(rest)) by {
            assert forall|i: int| 0 <= i < rest.len() implies round_trips(#[trigger] rest[i]) by {
                assert(rest[i] == items[i + 1]);
            }
        }
        assert(rest.len() > 0 ==> ends_token_at(s, a2 + r.len()));
        lemma_spaced_items_tokens(s, a2, rest, ind, ml);
        let tail = tokens_from(s, a2 + r.len());
        let vtok = value_tokens(items[0]);
        lemma_prepend_assoc(comma, items_tokens(rest), tail);
        lemma_prepend_assoc(vtok, comma + items_tokens(rest), tail);
        assert(vtok + (comma + items_tokens(rest)) == items_tokens(items));
    }
}

// ---------------------------------------------------------------------------
// The laws

/// The KV3 text of a value that text can express reads back as that value,
/// whatever the indent it was written at.
pub proof fn lemma_value_text_round_trip(v: KvValue, indent: nat)
    requires
        round_trips(v),
    ensures
        spec_parse_kv3_text(value_text(v, indent)) == Ok::<KvValue, KvParseErrorView>(v),
{
    let s = value_text(v, indent);
    assert(occurs_at(s, 0, s));
    lemma_value_tokens(s, 0, v, indent);
    let t = value_tokens(v);
    assert(tokens_from(s, s.len() as int) == Ok::<Seq<TokenView>, KvParseErrorView>(Seq::empty()));
    assert(t + Seq::<TokenView>::empty() == t);
    assert(spec_tokenize(s) == Ok::<Seq<TokenView>, KvParseErrorView>(t));
    assert(tokens_occur_at(t, 0, t));
    lemma_parse_value_of_tokens(t, 0, v);
}

/// The spaced text of a value that text can express reads back as that
/// value, whatever the indent it was written at: the spaced layout differs
/// from the compact one in white space alone.
pub proof fn lemma_spaced_value_text_round_trip(v: KvValue, indent: nat)
    requires
        round_trips(v),
    ensures
        spec_parse_kv3_text(spaced_value_text(v, indent)) == Ok::<KvValue, KvParseErrorView>(v),
{
    let s = spaced_value_text(v, indent);
    assert(occurs_at(s, 0, s));
    lemma_spaced_value_tokens(s, 0, v, indent);
    let t = value_tokens(v);
    assert(tokens_from(s, s.len() as int) == Ok::<Seq<TokenView>, KvParseErrorView>(Seq::empty()));
    assert(t + Seq::<TokenView>::empty() == t);
    assert(spec_tokenize(s) == Ok::<Seq<TokenView>, KvParseErrorView>(t));
    assert(tokens_occur_at(t, 0, t));
    lemma_parse_value_of_tokens(t, 0, v);
}

proof fn lemma_xml_comment_end_at(s: Seq<char>, start: int, from: int, k: int)
    requires
        0 <= from <= k < s.len(),
        k >= start + 2,
        s[k - 2] == '-' && s[k - 1] == '-' && s[k] == '>',
        forall|j: int| from <= j < k ==> s[j] != '>',
    ensures
        xml_comment_end(s, start, from) == Some(k),
    decreases k - from,
{
    if from < k {
        lemma_xml_comment_end_at(s, start, from + 1, k);
    }
}

/// A document written with a header whose texts hold no `>` reads back as
/// the value it holds, for each value that text can express.
#[verifier::rlimit(30)]
pub proof fn lemma_document_round_trip(v: KvValue, encoding: Seq<char>, format: Seq<char>)
    requires
        round_trips(v),
        !encoding.contains('>'),
        !format.contains('>'),
    ensures
        spec_parse_kv3_text(kv3_document_text(v, encoding, format)) == Ok::<KvValue, KvParseErrorView>(v),
{
    reveal_strlit("<!-- kv3 encoding:");
    reveal_strlit(" format:");
    reveal_strlit(" -->");
    lemma_new_line_separators();
    let nl = NEW_LINE@;
    let vt = value_text(v, 0);
    let h0 = "<!-- kv3 encoding:"@ + encoding + " format:"@ + format;
    let h = h0 + " -->"@;
    let s = kv3_document_text(v, encoding, format);
    assert(s == h + nl + vt + nl);
    assert(occurs_at(s, 0, s));
    lemma_occurs_split(s, 0, h + nl + vt, nl);
    lemma_occurs_split(s, 0, h + nl, vt);
    lemma_occurs_split(s, 0, h, nl);
    let k: int = h0.len() as int + 3;
    let a1 = h.len() as int;
    let a2 = a1 + 2;
    let a3 = a2 + vt.len();
    // the header comment
    assert forall|j: int| 4 <= j < k implies s[j] != '>' by {
        assert(s[j] == h[j]);
        if j < 18 {
            assert(h[j] == "<!-- kv3 encoding:"@[j]);
        } else if j < 18 + encoding.len() {
            assert(h[j] == encoding[j - 18]);
        } else if j < 18 + encoding.len() + 8 {
            assert(h[j] == " format:"@[j - 18 - encoding.len()]);
        } else if j < h0.len() {
            assert(h[j] == format[j - 26 - encoding.len()]);
        } else {
            assert(h[j] == " -->"@[j - h0.len()]);
        }
    }
    assert(s[k - 2] == h[k - 2] && h[k - 2] == " -->"@[1]);
    assert(s[k - 1] == h[k - 1] && h[k - 1] == " -->"@[2]);
    assert(s[k] == h[k] && h[k] == " -->"@[3]);
    assert(s[0] == h[0] && s[1] == h[1] && s[2] == h[2] && s[3] == h[3]);
    lemma_xml_comment_end_at(s, 4, 4, k);
    let comment = crate::text::trim(s.subrange(4, k - 2));
    assert(lex_xml_comment(s, 0) == Ok::<(TokenView, int), KvParseErrorView>(
        (TokenView::Comment(comment), k + 1),
    ));
    assert(k + 1 == a1);
    lemma_step_token(s, 0, TokenView::Comment(comment), a1);
    lemma_skip_separators(s, a1, nl);
    lemma_char_at(s, a3, nl, 0);
    lemma_value_tokens(s, a2, v, 0);
    lemma_skip_separators(s, a3, nl);
    assert(tokens_from(s, s.len() as int) == Ok::<Seq<TokenView>, KvParseErrorView>(Seq::empty()));
    let t = seq![TokenView::Comment(comment)] + value_tokens(v);
    lemma_prepend_assoc(seq![TokenView::Comment(comment)], value_tokens(v), tokens_from(s, s.len() as int));
    assert(t + Seq::<TokenView>::empty() == t);
    assert(spec_tokenize(s) == Ok::<Seq<TokenView>, KvParseErrorView>(t));
    // the value after the comment
    assert(tokens_occur_at(t, 1, value_tokens(v))) by {
        assert forall|i: int| 0 <= i < value_tokens(v).len() implies t[1 + i] == value_tokens(v)[i] by {
        }
    }
    lemma_parse_value_of_tokens(t, 1, v);
    lemma_value_tokens_first(v);
    assert(t[1] == value_tokens(v)[0]);
    lemma_no_comment_skip(t, 1);
    assert(skip_comments(t, 0) == 1);
    assert(parse_value(t, 0) == parse_value(t, 1));
}

proof fn lemma_uuid_text_no_gt(id: u128)
    ensures
        !uuid_text(id).contains('>'),
{
    assert forall|j: int| 0 <= j < uuid_text(id).len() implies uuid_text(id)[j] != '>' by {
        if !(j == 8 || j == 13 || j == 18 || j == 23) {
            let d = nibble(id, j - dashes_before(j));
            assert(0 <= d < 16);
        }
    }
}

proof fn lemma_kv3_id_text_no_gt(name: Seq<char>, id: u128)
    requires
        !name.contains('>'),
    ensures
        !kv3_id_text(name, id).contains('>'),
{
    reveal_strlit(":version{");
    reveal_strlit("}");
    lemma_uuid_text_no_gt(id);
    let u = uuid_text(id);
    let t = kv3_id_text(name, id);
    assert forall|j: int| 0 <= j < t.len() implies t[j] != '>' by {
        if j < name.len() {
            assert(t[j] == name[j]);
        } else if j < name.len() + 9 {
            assert(t[j] == ":version{"@[j - name.len()]);
        } else if j < name.len() + 9 + u.len() {
            assert(t[j] == u[j - name.len() - 9]);
        } else {
            assert(t[j] == "}"@[j - name.len() - 9 - u.len()]);
        }
    }
}

/// The names of a header hold no `>`, which would end the header comment early.
pub open spec fn header_names_plain(header: Option<KvHeader>) -> bool {
    header matches Some(h) ==> !h.encoding.name@.contains('>') && !h.format.name@.contains('>')
}

/// What `KvObject::serialize` writes, `parse_kv3_text` reads back: for each
/// value that text can express, with the default header or with a header
/// whose names hold no `>`.
pub proof fn lemma_serialized_document_round_trip(v: KvValue, header: Option<KvHeader>)
    requires
        round_trips(v),
        header_names_plain(header),
    ensures
        spec_parse_kv3_text(
            kv3_document_text(v, header_texts(header).0, header_texts(header).1),
        ) == Ok::<KvValue, KvParseErrorView>(v),
{
    match header {
        Some(h) => {
            lemma_kv3_id_text_no_gt(h.encoding.name@, h.encoding.id);
            lemma_kv3_id_text_no_gt(h.format.name@, h.format.id);
        },
        None => {
            reveal_strlit("text");
            reveal_strlit("generic");
            lemma_kv3_id_text_no_gt("text"@, ENC_EXT);
            lemma_kv3_id_text_no_gt("generic"@, FMT_GENERIC);
        },
    }
    lemma_document_round_trip(v, header_texts(header).0, header_texts(header).1);
}

}
