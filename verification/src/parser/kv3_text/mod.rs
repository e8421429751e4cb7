//! The KV3 text format: tokens, then a tree of values.
use vstd::prelude::*;
use vstd::string::StringExecFns;

pub mod comments;
pub mod tokenizer;

use crate::kv3::kv3_text::serializer::{lemma_writable_more_room, writable};
use crate::kv_map::{has_key, keys_distinct, KvMap};
use crate::parser::{KvParseError, KvParseErrorView};
use crate::{KvEntryValue, KvMapEntry, KvObject, KvValue};
use tokenizer::{
    spec_tokenize, token_debug, token_debug_text, tokenize, view_tokens, Token, TokenView,
};

verus! {

// ---------------------------------------------------------------------------
// What parsing gives, over the tokens' values

/// The first position at or after `p` that does not hold a comment.
pub open spec fn skip_comments(t: Seq<TokenView>, p: int) -> int
    decreases t.len() - p,
{
    if 0 <= p < t.len() && t[p] is Comment {
        skip_comments(t, p + 1)
    } else {
        p
    }
}

pub proof fn lemma_skip_comments(t: Seq<TokenView>, p: int)
    requires
        0 <= p <= t.len(),
    ensures
        p <= skip_comments(t, p) <= t.len(),
        skip_comments(t, skip_comments(t, p)) == skip_comments(t, p),
        skip_comments(t, p) < t.len() ==> !(t[skip_comments(t, p)] is Comment),
    decreases t.len() - p,
{
    if p < t.len() && t[p] is Comment {
        lemma_skip_comments(t, p + 1);
    }
}

/// The value that starts at `p` (after comments) and the position after it.
pub open spec fn parse_value(t: Seq<TokenView>, p: int) -> Result<(KvValue, int), KvParseErrorView>
    decreases t.len() - p, 0int,
{
    if p < 0 || p > t.len() {
        Err(KvParseErrorView::EarlyEnd)
    } else {
        let q = skip_comments(t, p);
        proof {
            lemma_skip_comments(t, p);
        }
        if q >= t.len() {
            Err(KvParseErrorView::EarlyEnd)
        } else {
            match t[q] {
                TokenView::LeftCurly => table_entries(t, q + 1, Seq::empty()),
                TokenView::LeftSquare => array_items(t, q + 1, Seq::empty()),
                TokenView::Str(v) => Ok((KvValue::Str(v), q + 1)),
                TokenView::Int(v) => Ok((KvValue::Int(v), q + 1)),
                TokenView::Float(v) => Ok((KvValue::Float(v), q + 1)),
                TokenView::Identifier(id) => if id == "true"@ {
                    Ok((KvValue::Bool(true), q + 1))
                } else if id == "false"@ {
                    Ok((KvValue::Bool(false), q + 1))
                } else {
                    Err(KvParseErrorView::UnexpectedToken("Expected<true | false>  Actual<"@ + id + ">"@))
                },
                _ => Err(KvParseErrorView::UnexpectedToken(token_debug_text(t[q]))),
            }
        }
    }
}

/// The rest of a table from `p`, `acc` holding the entries read so far.
pub open spec fn table_entries(
    t: Seq<TokenView>,
    p: int,
    acc: Seq<(Seq<char>, KvEntryValue)>,
) -> Result<(KvValue, int), KvParseErrorView>
    decreases t.len() - p, 1int,
{
    if p < 0 || p > t.len() {
        Err(KvParseErrorView::UnterminatedMap)
    } else {
        let q = skip_comments(t, p);
        proof {
            lemma_skip_comments(t, p);
        }
        if q >= t.len() {
            Err(KvParseErrorView::UnterminatedMap)
        } else {
            match t[q] {
                TokenView::RightCurly => Ok((KvValue::Table(acc), q + 1)),
                TokenView::Identifier(id) => {
                    let e = skip_comments(t, q + 1);
                    proof {
                        lemma_skip_comments(t, q + 1);
                    }
                    if e >= t.len() {
                        Err(KvParseErrorView::EarlyEnd)
                    } else if t[e] is Equal {
                        if has_key(acc, id) {
                            Err(KvParseErrorView::DuplicateKey(id))
                        } else {
                            match parse_value(t, e + 1) {
                                Err(err) => Err(err),
                                Ok((v, r)) => if r <= q || r > t.len() {
                                    // never taken: a value read moves forward
                                    Err(KvParseErrorView::EarlyEnd)
                                } else {
                                    table_entries(
                                        t,
                                        r,
                                        acc.push((id, KvEntryValue { value: v, flag: None })),
                                    )
                                },
                            }
                        }
                    } else {
                        Err(
                            KvParseErrorView::UnexpectedToken(
                                "Expected<=>  Actual<"@ + token_debug_text(t[e]) + ">"@,
                            ),
                        )
                    }
                },
                _ => Err(
                    KvParseErrorView::UnexpectedToken(
                        "Expected<'}' | Identifier>  Actual<"@ + token_debug_text(t[q]) + ">"@,
                    ),
                ),
            }
        }
    }
}

/// The rest of an array from `p`, `acc` holding the items read so far.
pub open spec fn array_items(t: Seq<TokenView>, p: int, acc: Seq<KvValue>) -> Result<
    (KvValue, int),
    KvParseErrorView,
>
    decreases t.len() - p, 1int,
{
    if p < 0 || p >= t.len() {
        Err(KvParseErrorView::UnterminatedArray)
    } else {
        let q = skip_comments(t, p);
        if q < t.len() && t[q] is RightSquare {
            Ok((KvValue::Array(acc), q + 1))
        } else {
            match parse_value(t, p) {
                Err(e) => Err(e),
                Ok((v, r)) => {
                    let c = skip_comments(t, r);
                    let n = if 0 <= c < t.len() && t[c] is Comma {
                        c + 1
                    } else {
                        c
                    };
                    if n <= p || n > t.len() {
                        // never taken: a value read moves forward
                        Err(KvParseErrorView::EarlyEnd)
                    } else {
                        array_items(t, n, acc.push(v))
                    }
                },
            }
        }
    }
}

pub open spec fn view_parsed(r: Result<(KvObject, usize), KvParseError>) -> Result<
    (KvValue, int),
    KvParseErrorView,
> {
    match r {
        Ok((o, n)) => Ok((o@, n as int)),
        Err(e) => Err(e@),
    }
}

/// What `parse_kv3_text` gives for the text `s`.
pub open spec fn spec_parse_kv3_text(s: Seq<char>) -> Result<KvValue, KvParseErrorView> {
    match spec_tokenize(s) {
        Err(e) => Err(e),
        Ok(t) => match parse_value(t, 0) {
            Ok((v, _)) => Ok(v),
            Err(e) => Err(e),
        },
    }
}


// ---------------------------------------------------------------------------
// What a parsed value looks like

/// The values that reading text can give: no null, no binary blob, no flag,
/// and no key twice in a table.
pub open spec fn plain_value(v: KvValue) -> bool
    decreases v,
{
    match v {
        KvValue::Null => false,
        KvValue::Bin(_) => false,
        KvValue::Table(es) => keys_distinct(es) && forall|i: int|
            0 <= i < es.len() ==> (#[trigger] es[i]).1.flag is None && plain_value(es[i].1.value),
        KvValue::Array(items) => forall|i: int|
            0 <= i < items.len() ==> plain_value(#[trigger] items[i]),
        _ => true,
    }
}

/// A value read from the tokens `t[p..q]` is plain, and it nests no deeper
/// than the number of tokens it was read from.
pub proof fn lemma_parse_value_shape(t: Seq<TokenView>, p: int)
    ensures
        parse_value(t, p) matches Ok((v, q)) ==> p < q <= t.len() && plain_value(v) && writable(
            v,
            q - p,
        ),
    decreases t.len() - p, 0int,
{
    if 0 <= p <= t.len() {
        lemma_skip_comments(t, p);
        let q = skip_comments(t, p);
        if q < t.len() {
            match t[q] {
                TokenView::LeftCurly => {
                    lemma_table_entries_shape(t, q + 1, Seq::empty(), q);
                    if let Ok((v, r)) = parse_value(t, p) {
                        lemma_writable_more_room(v, r - q, r - p);
                    }
                },
                TokenView::LeftSquare => {
                    lemma_array_items_shape(t, q + 1, Seq::empty(), q);
                    if let Ok((v, r)) = parse_value(t, p) {
                        lemma_writable_more_room(v, r - q, r - p);
                    }
                },
                _ => {},
            }
        }
    }
}

proof fn lemma_table_entries_shape(
    t: Seq<TokenView>,
    p: int,
    acc: Seq<(Seq<char>, KvEntryValue)>,
    lo: int,
)
    requires
        0 <= lo < p,
        keys_distinct(acc),
        forall|i: int|
            0 <= i < acc.len() ==> (#[trigger] acc[i]).1.flag is None && plain_value(acc[i].1.value)
                && writable(acc[i].1.value, p - lo - 1),
    ensures
        table_entries(t, p, acc) matches Ok((v, q)) ==> p < q <= t.len() && plain_value(v)
            && writable(v, q - lo),
    decreases t.len() - p, 1int,
{
    if p <= t.len() {
        lemma_skip_comments(t, p);
        let q = skip_comments(t, p);
        if q < t.len() {
            match t[q] {
                TokenView::RightCurly => {
                    let v = KvValue::Table(acc);
                    assert forall|i: int| 0 <= i < acc.len() implies writable(
                        #[trigger] acc[i].1.value,
                        q + 1 - lo - 1,
                    ) by {
                        lemma_writable_more_room(acc[i].1.value, p - lo - 1, q + 1 - lo - 1);
                    }
                    assert(v->Table_0 == acc);
                },
                TokenView::Identifier(id) => {
                    lemma_skip_comments(t, q + 1);
                    let e = skip_comments(t, q + 1);
                    if e < t.len() && t[e] is Equal && !has_key(acc, id) {
                        lemma_parse_value_shape(t, e + 1);
                        if let Ok((v, r)) = parse_value(t, e + 1) {
                            if q < r <= t.len() {
                                let acc2 = acc.push((id, KvEntryValue { value: v, flag: None }));
                                assert(keys_distinct(acc2)) by {
                                    assert forall|i: int, j: int|
                                        0 <= i < j < acc2.len() implies #[trigger] acc2[i].0
                                        != #[trigger] acc2[j].0 by {
                                        if j == acc.len() {
                                            assert(acc2[i] == acc[i]);
                                        } else {
                                            assert(acc2[i] == acc[i] && acc2[j] == acc[j]);
                                        }
                                    }
                                }
                                assert forall|i: int| 0 <= i < acc2.len() implies (
                                #[trigger] acc2[i]).1.flag is None && plain_value(acc2[i].1.value)
                                    && writable(acc2[i].1.value, r - lo - 1) by {
                                    if i < acc.len() {
                                        assert(acc2[i] == acc[i]);
                                        lemma_writable_more_room(
                                            acc[i].1.value,
                                            p - lo - 1,
                                            r - lo - 1,
                                        );
                                    } else {
                                        lemma_writable_more_room(v, r - (e + 1), r - lo - 1);
                                    }
                                }
                                lemma_table_entries_shape(t, r, acc2, lo);
                            }
                        }
                    }
                },
                _ => {},
            }
        }
    }
}

proof fn lemma_array_items_shape(t: Seq<TokenView>, p: int, acc: Seq<KvValue>, lo: int)
    requires
        0 <= lo < p,
        forall|i: int|
            0 <= i < acc.len() ==> plain_value(#[trigger] acc[i]) && writable(acc[i], p - lo - 1),
    ensures
        array_items(t, p, acc) matches Ok((v, q)) ==> p < q <= t.len() && plain_value(v)
            && writable(v, q - lo),
    decreases t.len() - p, 1int,
{
    if p < t.len() {
        lemma_skip_comments(t, p);
        let q = skip_comments(t, p);
        if q < t.len() && t[q] is RightSquare {
            let v = KvValue::Array(acc);
            assert forall|i: int| 0 <= i < acc.len() implies writable(
                #[trigger] acc[i],
                q + 1 - lo - 1,
            ) by {
                lemma_writable_more_room(acc[i], p - lo - 1, q + 1 - lo - 1);
            }
            assert(v->Array_0 == acc);
        } else {
            lemma_parse_value_shape(t, p);
            if let Ok((v, r)) = parse_value(t, p) {
                lemma_skip_comments(t, r);
                let c = skip_comments(t, r);
                let n = if 0 <= c < t.len() && t[c] is Comma {
                    c + 1
                } else {
                    c
                };
                if p < n <= t.len() {
                    let acc2 = acc.push(v);
                    assert forall|i: int| 0 <= i < acc2.len() implies plain_value(#[trigger] acc2[i])
                        && writable(acc2[i], n - lo - 1) by {
                        if i < acc.len() {
                            assert(acc2[i] == acc[i]);
                            lemma_writable_more_room(acc[i], p - lo - 1, n - lo - 1);
                        } else {
                            lemma_writable_more_room(v, r - p, n - lo - 1);
                        }
                    }
                    lemma_array_items_shape(t, n, acc2, lo);
                }
            }
        }
    }
}

// ---------------------------------------------------------------------------
// Executable parser

/// Moves past the comments that stand at `p`.
fn consume_comments(t: &Vec<Token>, p: usize) -> (q: usize)
    requires
        p <= t.len(),
    ensures
        q == skip_comments(view_tokens(t@), p as int),
        p <= q <= t.len(),
{
    let ghost tv = view_tokens(t@);
    let mut q = p;
    while q < t.len()
        invariant
            p <= q <= t.len(),
            tv == view_tokens(t@),
            skip_comments(tv, p as int) == skip_comments(tv, q as int),
        decreases t.len() - q,
    {
        match &t[q] {
            Token::Comment(_) => {
                assert(tv[q as int] is Comment);
            },
            _ => {
                assert(!(tv[q as int] is Comment));
                return q;
            },
        }
        q = q + 1;
    }
    q
}

/// Reads the value that starts at `p` (after comments).
fn parse_obj(t: &Vec<Token>, p: usize) -> (r: Result<(KvObject, usize), KvParseError>)
    requires
        p <= t.len(),
    ensures
        view_parsed(r) == parse_value(view_tokens(t@), p as int),
        r matches Ok((_, n)) ==> p < n <= t.len(),
    decreases t.len() - p, 0usize,
{
    let ghost tv = view_tokens(t@);
    let q = consume_comments(t, p);
    if q >= t.len() {
        return Err(KvParseError::EarlyEnd);
    }
    assert(tv[q as int] == t@[q as int]@);
    match &t[q] {
        Token::LeftCurly => parse_map(t, q + 1),
        Token::LeftSquare => parse_array(t, q + 1),
        Token::String(v) => Ok((KvObject::String(v.clone()), q + 1)),
        Token::Int(v) => Ok((KvObject::Int(*v), q + 1)),
        Token::Float(v) => Ok((KvObject::Float(v.clone()), q + 1)),
        Token::Identifier(id) => {
            if id.eq(&String::from_str("true")) {
                Ok((KvObject::Bool(true), q + 1))
            } else if id.eq(&String::from_str("false")) {
                Ok((KvObject::Bool(false), q + 1))
            } else {
                let mut m = String::from_str("Expected<true | false>  Actual<");
                m.append(id.as_str());
                m.append(">");
                Err(KvParseError::UnexpectedToken(m))
            }
        },
        _ => Err(KvParseError::UnexpectedToken(token_debug(&t[q]))),
    }
}

/// Reads the rest of a table whose `{` stands just before `p`.
fn parse_map(t: &Vec<Token>, p: usize) -> (r: Result<(KvObject, usize), KvParseError>)
    requires
        p <= t.len(),
    ensures
        view_parsed(r) == table_entries(view_tokens(t@), p as int, Seq::empty()),
        r matches Ok((_, n)) ==> p < n <= t.len(),
    decreases t.len() - p, 1usize,
{
    let ghost tv = view_tokens(t@);
    let mut result = KvMap::new();
    let mut pos = p;
    loop
        invariant
            p <= pos <= t.len(),
            tv == view_tokens(t@),
            table_entries(tv, pos as int, result@) == table_entries(tv, p as int, Seq::empty()),
        decreases t.len() - pos,
    {
        let q = consume_comments(t, pos);
        if q >= t.len() {
            return Err(KvParseError::UnterminatedMap);
        }
        assert(tv[q as int] == t@[q as int]@);
        match &t[q] {
            Token::RightCurly => {
                return Ok((KvObject::Table(result), q + 1));
            },
            Token::Identifier(id) => {
                let e = consume_comments(t, q + 1);
                if e >= t.len() {
                    return Err(KvParseError::EarlyEnd);
                }
                assert(tv[e as int] == t@[e as int]@);
                match &t[e] {
                    Token::Equal => {},
                    _ => {
                        let mut m = String::from_str("Expected<=>  Actual<");
                        let d = token_debug(&t[e]);
                        m.append(d.as_str());
                        m.append(">");
                        return Err(KvParseError::UnexpectedToken(m));
                    },
                }
                if result.contains_key(id.as_str()) {
                    return Err(KvParseError::DuplicateKey(id.clone()));
                }
                let v = match parse_obj(t, e + 1) {
                    Ok(x) => x,
                    Err(err) => {
                        return Err(err);
                    },
                };
                let (obj, r) = v;
                result.insert(id.clone(), KvMapEntry::new(obj));
                pos = r;
            },
            _ => {
                let mut m = String::from_str("Expected<'}' | Identifier>  Actual<");
                let d = token_debug(&t[q]);
                m.append(d.as_str());
                m.append(">");
                return Err(KvParseError::UnexpectedToken(m));
            },
        }
    }
}

/// Reads the rest of an array whose `[` stands just before `p`.
fn parse_array(t: &Vec<Token>, p: usize) -> (r: Result<(KvObject, usize), KvParseError>)
    requires
        p <= t.len(),
    ensures
        view_parsed(r) == array_items(view_tokens(t@), p as int, Seq::empty()),
        r matches Ok((_, n)) ==> p < n <= t.len(),
    decreases t.len() - p, 1usize,
{
    let ghost tv = view_tokens(t@);
    let mut result: Vec<KvObject> = Vec::new();
    let mut pos = p;
    while pos < t.len()
        invariant
            p <= pos <= t.len(),
            tv == view_tokens(t@),
            array_items(tv, pos as int, crate::view_objects(result@)) == array_items(
                tv,
                p as int,
                Seq::empty(),
            ),
        decreases t.len() - pos,
    {
        let q = consume_comments(t, pos);
        if q < t.len() {
            assert(tv[q as int] == t@[q as int]@);
            match &t[q] {
                Token::RightSquare => {
                    return Ok((KvObject::Array(result), q + 1));
                },
                _ => {},
            }
        }
        proof {
            lemma_skip_comments(tv, pos as int);
            assert(parse_value(tv, q as int) == parse_value(tv, pos as int));
        }
        let (obj, r) = match parse_obj(t, q) {
            Ok(x) => x,
            Err(err) => {
                return Err(err);
            },
        };
        proof {
            crate::lemma_view_objects_push(result@, obj);
        }
        result.push(obj);
        let c = consume_comments(t, r);
        let mut n = c;
        if c < t.len() {
            assert(tv[c as int] == t@[c as int]@);
            match &t[c] {
                Token::Comma => {
                    n = c + 1;
                },
                _ => {},
            }
        }
        pos = n;
    }
    Err(KvParseError::UnterminatedArray)
}

/// Parses KV3 text: the first value in it, after its comments. What it gives
/// back is plain, and shallow enough to be written out again.
pub fn parse_kv3_text(input: &str) -> (r: Result<KvObject, KvParseError>)
    ensures
        match r {
            Ok(o) => spec_parse_kv3_text(input@) == Ok::<KvValue, KvParseErrorView>(o@),
            Err(e) => spec_parse_kv3_text(input@) == Err::<KvValue, KvParseErrorView>(e@),
        },
        r matches Ok(o) ==> plain_value(o@) && writable(o@, usize::MAX as int),
{
    let tokens = match tokenize(input) {
        Ok(ts) => ts,
        Err(e) => {
            return Err(e);
        },
    };
    proof {
        lemma_parse_value_shape(view_tokens(tokens@), 0);
    }
    match parse_obj(&tokens, 0) {
        Ok((o, n)) => {
            proof {
                lemma_writable_more_room(o@, n as int, usize::MAX as int);
            }
            Ok(o)
        },
        Err(e) => Err(e),
    }
}

}
