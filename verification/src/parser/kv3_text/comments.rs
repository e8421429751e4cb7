//! Comments do not change what is read: parsing the tokens with their
//! comments left out reads the same values, and succeeds exactly when
//! parsing them with their comments does.
use vstd::prelude::*;

use crate::parser::kv3_text::tokenizer::TokenView;
use crate::parser::kv3_text::{
    array_items, lemma_parse_value_shape, lemma_skip_comments, parse_value, skip_comments,
    table_entries,
};
use crate::parser::KvParseErrorView;
use crate::{KvEntryValue, KvValue};

verus! {

/// The tokens of `t[0..p]` that are not comments, in order.
pub open spec fn kept_prefix(t: Seq<TokenView>, p: int) -> Seq<TokenView>
    decreases p,
{
    if p <= 0 || p > t.len() {
        Seq::empty()
    } else if t[p - 1] is Comment {
        kept_prefix(t, p - 1)
    } else {
        kept_prefix(t, p - 1).push(t[p - 1])
    }
}

/// `t` without its comments.
pub open spec fn strip_comments(t: Seq<TokenView>) -> Seq<TokenView> {
    kept_prefix(t, t.len() as int)
}

/// Where position `p` of `t` falls in `t` without its comments.
pub open spec fn kept_before(t: Seq<TokenView>, p: int) -> int {
    kept_prefix(t, p).len() as int
}

/// A parse result of `t`, its end moved to the matching position of `t`
/// without its comments.
pub open spec fn shifted(t: Seq<TokenView>, r: Result<(KvValue, int), KvParseErrorView>) -> Result<
    (KvValue, int),
    KvParseErrorView,
> {
    match r {
        Ok((v, q)) => Ok((v, kept_before(t, q))),
        Err(e) => Err(e),
    }
}

/// What reading `t` at `p` and reading `t` without comments at the matching
/// position have in common: the same value and end where the first succeeds,
/// and a failure where it fails.
pub open spec fn reads_alike(
    t: Seq<TokenView>,
    r: Result<(KvValue, int), KvParseErrorView>,
    stripped: Result<(KvValue, int), KvParseErrorView>,
) -> bool {
    &&& r is Ok ==> stripped == shifted(t, r)
    &&& r is Err ==> stripped is Err
}

proof fn lemma_kept_prefix_grows(t: Seq<TokenView>, a: int, b: int)
    requires
        0 <= a <= b <= t.len(),
    ensures
        kept_prefix(t, a).len() <= kept_prefix(t, b).len() <= kept_prefix(t, a).len() + (b - a),
        kept_prefix(t, b).subrange(0, kept_prefix(t, a).len() as int) == kept_prefix(t, a),
    decreases b - a,
{
    if a < b {
        lemma_kept_prefix_grows(t, a, b - 1);
        let pa = kept_prefix(t, a);
        let pb1 = kept_prefix(t, b - 1);
        if !(t[b - 1] is Comment) {
            assert(kept_prefix(t, b).subrange(0, pa.len() as int) == pb1.subrange(0, pa.len() as int));
        }
    } else {
        assert(kept_prefix(t, b).subrange(0, kept_prefix(t, a).len() as int) == kept_prefix(t, b));
    }
}

/// The token at a position that holds no comment is found again at the
/// matching position, and the position after it matches the next one.
proof fn lemma_kept_at(t: Seq<TokenView>, q: int)
    requires
        0 <= q < t.len(),
        !(t[q] is Comment),
    ensures
        kept_before(t, q) < strip_comments(t).len(),
        strip_comments(t)[kept_before(t, q)] == t[q],
        kept_before(t, q + 1) == kept_before(t, q) + 1,
{
    lemma_kept_prefix_grows(t, q + 1, t.len() as int);
    let p1 = kept_prefix(t, q + 1);
    assert(p1 == kept_prefix(t, q).push(t[q]));
    assert(strip_comments(t).subrange(0, p1.len() as int)[kept_before(t, q)] == p1[kept_before(t, q)]);
}

proof fn lemma_kept_comment(t: Seq<TokenView>, q: int)
    requires
        0 <= q < t.len(),
        t[q] is Comment,
    ensures
        kept_before(t, q + 1) == kept_before(t, q),
{
}

/// Comments skipped leave the matching position where it was.
proof fn lemma_kept_skip(t: Seq<TokenView>, p: int)
    requires
        0 <= p <= t.len(),
    ensures
        kept_before(t, skip_comments(t, p)) == kept_before(t, p),
    decreases t.len() - p,
{
    if p < t.len() && t[p] is Comment {
        lemma_kept_comment(t, p);
        lemma_kept_skip(t, p + 1);
    }
}

/// Positions at or after the last token match the end of the stripped tokens.
proof fn lemma_kept_end(t: Seq<TokenView>)
    ensures
        kept_before(t, t.len() as int) == strip_comments(t).len(),
{
}

proof fn lemma_kept_bounds(t: Seq<TokenView>, p: int)
    requires
        0 <= p <= t.len(),
    ensures
        0 <= kept_before(t, p) <= strip_comments(t).len(),
{
    lemma_kept_prefix_grows(t, p, t.len() as int);
}

/// The stripped tokens hold no comment.
proof fn lemma_stripped_has_no_comment(t: Seq<TokenView>, i: int)
    requires
        0 <= i < strip_comments(t).len(),
    ensures
        !(strip_comments(t)[i] is Comment),
        skip_comments(strip_comments(t), i) == i,
{
    lemma_kept_no_comment(t, t.len() as int, i);
}

proof fn lemma_kept_no_comment(t: Seq<TokenView>, p: int, i: int)
    requires
        0 <= p <= t.len(),
        0 <= i < kept_prefix(t, p).len(),
    ensures
        !(kept_prefix(t, p)[i] is Comment),
    decreases p,
{
    if p > 0 {
        if i < kept_prefix(t, p - 1).len() {
            lemma_kept_no_comment(t, p - 1, i);
            if !(t[p - 1] is Comment) {
                assert(kept_prefix(t, p)[i] == kept_prefix(t, p - 1)[i]);
            }
        }
    }
}

/// Where the next token that is not a comment stands: in `t`, and in `t`
/// without comments.
proof fn lemma_next_token(t: Seq<TokenView>, p: int)
    requires
        0 <= p <= t.len(),
    ensures
        skip_comments(t, p) < t.len() <==> kept_before(t, p) < strip_comments(t).len(),
        skip_comments(t, p) < t.len() ==> strip_comments(t)[kept_before(t, p)] == t[skip_comments(
            t,
            p,
        )] && kept_before(t, skip_comments(t, p) + 1) == kept_before(t, p) + 1,
        kept_before(t, p) < strip_comments(t).len() ==> skip_comments(
            strip_comments(t),
            kept_before(t, p),
        ) == kept_before(t, p),
{
    lemma_skip_comments(t, p);
    lemma_kept_skip(t, p);
    let q = skip_comments(t, p);
    lemma_kept_bounds(t, p);
    if q < t.len() {
        lemma_kept_at(t, q);
    } else {
        lemma_kept_end(t);
    }
    if kept_before(t, p) < strip_comments(t).len() {
        lemma_stripped_has_no_comment(t, kept_before(t, p));
    }
}

/// Reading a value with or without the comments of `t`.
pub proof fn lemma_parse_value_without_comments(t: Seq<TokenView>, p: int)
    requires
        0 <= p <= t.len(),
    ensures
        reads_alike(t, parse_value(t, p), parse_value(strip_comments(t), kept_before(t, p))),
    decreases t.len() - p, 0int,
{
    let s = strip_comments(t);
    let i = kept_before(t, p);
    lemma_next_token(t, p);
    lemma_skip_comments(t, p);
    let q = skip_comments(t, p);
    if q < t.len() {
        lemma_kept_bounds(t, q + 1);
        match t[q] {
            TokenView::LeftCurly => {
                lemma_table_entries_without_comments(t, q + 1, Seq::empty());
            },
            TokenView::LeftSquare => {
                lemma_array_items_without_comments(t, q + 1, Seq::empty());
            },
            _ => {},
        }
    }
}

proof fn lemma_table_entries_without_comments(
    t: Seq<TokenView>,
    p: int,
    acc: Seq<(Seq<char>, KvEntryValue)>,
)
    requires
        0 < p <= t.len(),
    ensures
        reads_alike(
            t,
            table_entries(t, p, acc),
            table_entries(strip_comments(t), kept_before(t, p), acc),
        ),
    decreases t.len() - p, 1int,
{
    let s = strip_comments(t);
    let i = kept_before(t, p);
    lemma_next_token(t, p);
    lemma_skip_comments(t, p);
    lemma_kept_bounds(t, p);
    let q = skip_comments(t, p);
    if q < t.len() {
        match t[q] {
            TokenView::Identifier(id) => {
                lemma_next_token(t, q + 1);
                lemma_skip_comments(t, q + 1);
                let e = skip_comments(t, q + 1);
                assert(kept_before(t, q + 1) == i + 1);
                if e < t.len() {
                    lemma_kept_bounds(t, e + 1);
                    lemma_parse_value_without_comments(t, e + 1);
                    lemma_parse_value_shape(t, e + 1);
                    if let Ok((v, r)) = parse_value(t, e + 1) {
                        lemma_kept_prefix_grows(t, e + 1, r);
                        lemma_kept_bounds(t, r);
                        lemma_table_entries_without_comments(
                            t,
                            r,
                            acc.push((id, KvEntryValue { value: v, flag: None })),
                        );
                    }
                }
            },
            _ => {
                lemma_kept_bounds(t, q + 1);
            },
        }
    }
}

proof fn lemma_array_items_without_comments(t: Seq<TokenView>, p: int, acc: Seq<KvValue>)
    requires
        0 < p <= t.len(),
    ensures
        reads_alike(
            t,
            array_items(t, p, acc),
            array_items(strip_comments(t), kept_before(t, p), acc),
        ),
    decreases t.len() - p, 1int,
{
    let s = strip_comments(t);
    let i = kept_before(t, p);
    lemma_kept_bounds(t, p);
    lemma_kept_end(t);
    if p < t.len() {
        lemma_next_token(t, p);
        lemma_skip_comments(t, p);
        let q = skip_comments(t, p);
        if q < t.len() {
            lemma_kept_bounds(t, q + 1);
            assert(parse_value(t, q) == parse_value(t, p));
            lemma_parse_value_shape(t, q);
        }
        lemma_parse_value_without_comments(t, p);
        lemma_parse_value_shape(t, p);
        if let Ok((v, r)) = parse_value(t, p) {
            lemma_next_token(t, r);
            lemma_skip_comments(t, r);
            let c = skip_comments(t, r);
            let n = if 0 <= c < t.len() && t[c] is Comma {
                c + 1
            } else {
                c
            };
            lemma_kept_skip(t, r);
            lemma_kept_prefix_grows(t, p, r);
            lemma_kept_bounds(t, n);
            if q < t.len() {
                lemma_kept_prefix_grows(t, q + 1, r);
            }
            if n <= t.len() && p < n {
                lemma_array_items_without_comments(t, n, acc.push(v));
            }
        }
    }
}

/// Comments do not change what is read from tokens: the same value where
/// reading succeeds, and a failure where it fails.
pub proof fn lemma_comments_do_not_change_what_is_read(t: Seq<TokenView>)
    ensures
        parse_value(t, 0) is Ok <==> parse_value(strip_comments(t), 0) is Ok,
        parse_value(t, 0) matches Ok((v, _)) ==> parse_value(strip_comments(t), 0) matches Ok((w, _))
            && w == v,
{
    lemma_parse_value_without_comments(t, 0);
    assert(kept_before(t, 0) == 0);
}

}
