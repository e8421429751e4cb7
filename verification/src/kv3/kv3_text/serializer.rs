//! Writing values as KV3 text.
use vstd::prelude::*;
use vstd::string::StringExecFns;

use crate::kv3::kv3_text::NEW_LINE;
use crate::kv_map::{all_keys_distinct, keys_distinct, KvMap};
use crate::text::{int_text, push_char, push_int};
use crate::{lemma_view_objects_index, view_objects, KvEntryValue, KvObject, KvValue};

verus! {

/// `n` tab characters.
pub open spec fn tabs(n: nat) -> Seq<char> {
    Seq::new(n, |i: int| '\t')
}

pub open spec fn bool_text(b: bool) -> Seq<char> {
    if b {
        "true"@
    } else {
        "false"@
    }
}

/// Whether `v` holds other values.
pub open spec fn is_nested(v: KvValue) -> bool {
    v is Table || v is Array
}

/// An array is written over several lines when its first item is nested.
pub open spec fn starts_nested(items: Seq<KvValue>) -> bool {
    items.len() > 0 && is_nested(items[0])
}

/// Whether the text of `v` spans several lines.
pub open spec fn is_multiline_value(v: KvValue) -> bool {
    match v {
        KvValue::Table(_) => true,
        KvValue::Array(items) => starts_nested(items),
        _ => false,
    }
}

/// Whether `v` can be written from an indent that leaves `room` more levels
/// before `usize::MAX`: it holds no binary blob, and it nests no deeper than that.
pub open spec fn writable(v: KvValue, room: int) -> bool
    decreases v,
{
    match v {
        KvValue::Table(es) => room >= 1 && forall|i: int|
            0 <= i < es.len() ==> writable(#[trigger] es[i].1.value, room - 1),
        KvValue::Array(items) => room >= 1 && forall|i: int|
            0 <= i < items.len() ==> writable(#[trigger] items[i], room - 1),
        KvValue::Bin(_) => false,
        _ => true,
    }
}

/// More room never hurts.
pub proof fn lemma_writable_more_room(v: KvValue, room: int, more: int)
    requires
        writable(v, room),
        room <= more,
    ensures
        writable(v, more),
    decreases v,
{
    match v {
        KvValue::Table(es) => {
            assert forall|i: int| 0 <= i < es.len() implies writable(
                #[trigger] es[i].1.value,
                more - 1,
            ) by {
                let w = KvValue::Table(es);
                assert(w->Table_0[i] == es[i]);
                assert(decreases_to!(w => w->Table_0[i].1.value));
                lemma_writable_more_room(es[i].1.value, room - 1, more - 1);
            }
        },
        KvValue::Array(items) => {
            assert forall|i: int| 0 <= i < items.len() implies writable(
                #[trigger] items[i],
                more - 1,
            ) by {
                lemma_writable_item(items, room, i);
                lemma_writable_more_room(items[i], room - 1, more - 1);
            }
        },
        _ => {},
    }
}

proof fn lemma_writable_item(items: Seq<KvValue>, room: int, i: int)
    requires
        writable(KvValue::Array(items), room),
        0 <= i < items.len(),
    ensures
        writable(items[i], room - 1),
        decreases_to!(KvValue::Array(items) => items[i]),
{
    let v = KvValue::Array(items);
    assert(v->Array_0[i] == items[i]);
    assert(decreases_to!(v => v->Array_0[i]));
}

/// The KV3 text of `v` written at indent `indent`.
pub open spec fn value_text(v: KvValue, indent: nat) -> Seq<char>
    decreases v, 1int,
{
    match v {
        KvValue::Null => "null"@,
        KvValue::Str(s) => seq!['"'] + s + seq!['"'],
        KvValue::Int(i) => int_text(i as int),
        KvValue::Float(t) => t,
        KvValue::Bool(b) => bool_text(b),
        KvValue::Table(es) => "{"@ + NEW_LINE@ + entries_text(es, indent + 1) + tabs(indent) + "}"@,
        KvValue::Array(items) => {
            let ml = starts_nested(items);
            "["@ + (if ml {
                NEW_LINE@ + tabs(indent + 1)
            } else {
                " "@
            }) + items_text(items, indent + 1, ml) + (if ml {
                NEW_LINE@ + tabs(indent)
            } else {
                Seq::empty()
            }) + "]"@
        },
        KvValue::Bin(_) => Seq::empty(),
    }
}

/// The lines of the entries `es` of a table, each at indent `indent`.
pub open spec fn entries_text(es: Seq<(Seq<char>, KvEntryValue)>, indent: nat) -> Seq<char>
    decreases es, 0int,
{
    if es.len() == 0 {
        Seq::empty()
    } else {
        let k = es[0].0;
        let e = es[0].1;
        tabs(indent) + k + " = "@ + (match e.flag {
            Some(f) => f + ":"@,
            None => Seq::empty(),
        }) + (if is_multiline_value(e.value) {
            NEW_LINE@ + tabs(indent)
        } else {
            Seq::empty()
        }) + value_text(e.value, indent) + NEW_LINE@ + entries_text(
            es.subrange(1, es.len() as int),
            indent,
        )
    }
}

/// The text of the entries `a + b` is that of `a` followed by that of `b`.
pub proof fn lemma_entries_text_concat(
    a: Seq<(Seq<char>, KvEntryValue)>,
    b: Seq<(Seq<char>, KvEntryValue)>,
    indent: nat,
)
    ensures
        entries_text(a + b, indent) == entries_text(a, indent) + entries_text(b, indent),
    decreases a.len(),
{
    if a.len() == 0 {
        assert(a + b == b);
    } else {
        let rest = a.subrange(1, a.len() as int);
        assert((a + b).subrange(1, (a + b).len() as int) == rest + b);
        assert((a + b)[0] == a[0]);
        lemma_entries_text_concat(rest, b, indent);
    }
}

/// Each entry of a table is written in place, on its own line: the indent,
/// the key, ` = `, the flag followed by `:` where there is one, a line break
/// and indent before a value that spans several lines, the value's text, and
/// a line break.
pub proof fn lemma_entry_written(es: Seq<(Seq<char>, KvEntryValue)>, i: int, indent: nat)
    requires
        0 <= i < es.len(),
    ensures
        entries_text(es, indent) == entries_text(es.subrange(0, i), indent) + tabs(indent) + es[i].0
            + seq![' ', '=', ' '] + (match es[i].1.flag {
            Some(f) => f + seq![':'],
            None => Seq::empty(),
        }) + (if is_multiline_value(es[i].1.value) {
            seq!['\r', '\n'] + tabs(indent)
        } else {
            Seq::empty()
        }) + value_text(es[i].1.value, indent) + seq!['\r', '\n'] + entries_text(
            es.subrange(i + 1, es.len() as int),
            indent,
        ),
{
    reveal_strlit(" = ");
    reveal_strlit(":");
    reveal_strlit("\r\n");
    let one = es.subrange(i, i + 1);
    let after = es.subrange(i + 1, es.len() as int);
    assert(es == es.subrange(0, i) + (one + after));
    lemma_entries_text_concat(es.subrange(0, i), one + after, indent);
    lemma_entries_text_concat(one, after, indent);
    assert(one[0] == es[i]);
    assert(one.subrange(1, 1) == Seq::<(Seq<char>, KvEntryValue)>::empty());
    assert(NEW_LINE@ == seq!['\r', '\n']);
    let fl: Seq<char> = match es[i].1.flag {
        Some(f) => f + seq![':'],
        None => Seq::empty(),
    };
    let ml: Seq<char> = if is_multiline_value(es[i].1.value) {
        seq!['\r', '\n'] + tabs(indent)
    } else {
        Seq::empty()
    };
    let line = tabs(indent) + es[i].0 + seq![' ', '=', ' '] + fl + ml + value_text(es[i].1.value, indent)
        + seq!['\r', '\n'];
    assert(entries_text(one, indent) == line + entries_text(Seq::empty(), indent));
    assert(entries_text(one, indent) == line);
    let pre = entries_text(es.subrange(0, i), indent);
    let post = entries_text(after, indent);
    assert(pre + (line + post) == pre + tabs(indent) + es[i].0 + seq![' ', '=', ' '] + fl + ml
        + value_text(es[i].1.value, indent) + seq!['\r', '\n'] + post);
}

/// The items of an array, separated by commas; `ml` tells whether the array
/// is written over several lines.
pub open spec fn items_text(items: Seq<KvValue>, indent: nat, ml: bool) -> Seq<char>
    decreases items, 0int,
{
    if items.len() == 0 {
        Seq::empty()
    } else {
        value_text(items[0], indent) + (if items.len() > 1 {
            ","@ + if ml {
                NEW_LINE@ + tabs(indent)
            } else {
                " "@
            }
        } else if !ml {
            " "@
        } else {
            Seq::empty()
        }) + items_text(items.subrange(1, items.len() as int), indent, ml)
    }
}


/// Appends `indent` tab characters.
pub fn write_indent(out: &mut String, indent: usize)
    ensures
        final(out)@ == old(out)@ + tabs(indent as nat),
{
    let mut i: usize = 0;
    while i < indent
        invariant
            i <= indent,
            out@ == old(out)@ + tabs(i as nat),
        decreases indent - i,
    {
        out.append("\t");
        proof {
            reveal_strlit("\t");
            assert(tabs(i as nat) + "\t"@ == tabs((i + 1) as nat));
        }
        i = i + 1;
    }
}

/// Whether the text of `obj` spans several lines.
fn is_multiline(obj: &KvObject) -> (b: bool)
    requires
        !(obj@ is Bin),
    ensures
        b == is_multiline_value(obj@),
{
    match obj {
        KvObject::Table(_) => true,
        KvObject::Array(arr) => {
            proof {
                lemma_view_objects_index(arr@);
            }
            arr.len() > 0 && match &arr[0] {
                KvObject::Array(_) => true,
                KvObject::Table(_) => true,
                _ => false,
            }
        },
        _ => false,
    }
}

/// Appends the text of a table.
pub fn serialize_map(out: &mut String, map: &KvMap, indent: usize)
    requires
        writable(KvValue::Table(map@), usize::MAX - indent),
    ensures
        final(out)@ == old(out)@ + value_text(KvValue::Table(map@), indent as nat),
        all_keys_distinct(KvValue::Table(map@)),
    decreases KvValue::Table(map@), 0int,
{
    out.append("{");
    out.append(NEW_LINE);
    let ghost es = map@;
    let ghost start = out@;
    let inner = indent + 1;
    let n = map.len();
    let mut i: usize = 0;
    assert(es.subrange(0, n as int) == es);
    while i < n
        invariant
            n == es.len(),
            es == map@,
            inner == indent + 1,
            i <= n,
            writable(KvValue::Table(map@), usize::MAX - indent),
            forall|j: int, l: int|
                0 <= j < i && 0 <= l < n && l != j ==> #[trigger] es[l].0 != #[trigger] es[j].0,
            forall|j: int| 0 <= j < i ==> all_keys_distinct(#[trigger] es[j].1.value),
            start + entries_text(es, inner as nat) == out@ + entries_text(
                es.subrange(i as int, n as int),
                inner as nat,
            ),
        decreases n - i,
    {
        let (k, e) = map.get_index(i).unwrap();
        assert(es.subrange(i as int, n as int)[0] == es[i as int]);
        assert(es.subrange(i as int, n as int).subrange(1, n - i) == es.subrange(i + 1, n as int));
        assert(writable(es[i as int].1.value, usize::MAX - inner));
        write_indent(out, inner);
        out.append(k.as_str());
        out.append(" = ");
        match &e.flag {
            Some(flag) => {
                out.append(flag.as_str());
                out.append(":");
            },
            None => {},
        }
        if is_multiline(&e.value) {
            out.append(NEW_LINE);
            write_indent(out, inner);
        }
        serialize_object(out, &e.value, inner);
        out.append(NEW_LINE);
        i = i + 1;
    }
    assert(keys_distinct(es)) by {
        assert forall|a: int, b: int| 0 <= a < b < es.len() implies #[trigger] es[a].0
            != #[trigger] es[b].0 by {
            assert(es[b].0 != es[a].0);
        }
    }
    write_indent(out, indent);
    out.append("}");
}


/// Appends the text of an array.
pub fn serialize_array(out: &mut String, arr: &Vec<KvObject>, indent: usize)
    requires
        writable(KvValue::Array(view_objects(arr@)), usize::MAX - indent),
    ensures
        final(out)@ == old(out)@ + value_text(KvValue::Array(view_objects(arr@)), indent as nat),
        all_keys_distinct(KvValue::Array(view_objects(arr@))),
    decreases KvValue::Array(view_objects(arr@)), 0int,
{
    let ghost items = view_objects(arr@);
    proof {
        lemma_view_objects_index(arr@);
    }
    let multiline = arr.len() > 0 && match &arr[0] {
        KvObject::Array(_) => true,
        KvObject::Table(_) => true,
        _ => false,
    };
    assert(multiline == starts_nested(items));
    out.append("[");
    let inner = indent + 1;
    if multiline {
        out.append(NEW_LINE);
        write_indent(out, inner);
    } else {
        out.append(" ");
    }
    let ghost start = out@;
    let n = arr.len();
    let mut i: usize = 0;
    assert(items.subrange(0, n as int) == items);
    while i < n
        invariant
            n == items.len() == arr.len(),
            items == view_objects(arr@),
            forall|j: int| 0 <= j < arr.len() ==> #[trigger] items[j] == arr@[j]@,
            inner == indent + 1,
            i <= n,
            multiline == starts_nested(items),
            writable(KvValue::Array(items), usize::MAX - indent),
            forall|j: int| 0 <= j < i ==> all_keys_distinct(#[trigger] items[j]),
            start + items_text(items, inner as nat, multiline) == out@ + items_text(
                items.subrange(i as int, n as int),
                inner as nat,
                multiline,
            ),
        decreases n - i,
    {
        assert(items.subrange(i as int, n as int)[0] == items[i as int]);
        assert(items.subrange(i as int, n as int).subrange(1, n - i) == items.subrange(
            i + 1,
            n as int,
        ));
        assert(items[i as int] == arr@[i as int]@);
        proof {
            lemma_writable_item(items, usize::MAX - indent, i as int);
        }
        serialize_object(out, &arr[i], inner);
        if i < n - 1 {
            out.append(",");
            if multiline {
                out.append(NEW_LINE);
                write_indent(out, inner);
            } else {
                out.append(" ");
            }
        } else if !multiline {
            out.append(" ");
        }
        i = i + 1;
    }
    if multiline {
        out.append(NEW_LINE);
        write_indent(out, indent);
    }
    out.append("]");
}

/// Appends the KV3 text of `obj`, written at indent `indent`.
pub fn serialize_object(out: &mut String, obj: &KvObject, indent: usize)
    requires
        writable(obj@, usize::MAX - indent),
    ensures
        final(out)@ == old(out)@ + value_text(obj@, indent as nat),
        all_keys_distinct(obj@),
    decreases obj@, 1int,
{
    match obj {
        KvObject::Null => out.append("null"),
        KvObject::String(v) => {
            push_char(out, '"');
            out.append(v.as_str());
            push_char(out, '"');
        },
        KvObject::Int(v) => push_int(out, *v),
        KvObject::Float(v) => out.append(v.as_str()),
        KvObject::Bool(v) => {
            if *v {
                out.append("true");
            } else {
                out.append("false");
            }
        },
        KvObject::Table(map) => serialize_map(out, map, indent),
        KvObject::Array(arr) => serialize_array(out, arr, indent),
        KvObject::Bin(_) => {},
    }
}

}
