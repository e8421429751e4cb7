//! A spaced layout of KV3 text, in which every scalar is preceded by a
//! space and nested values open on a line of their own.
use vstd::prelude::*;
use vstd::string::StringExecFns;

use crate::kv3::kv3_text::serializer::{bool_text, tabs, value_text, writable};
use crate::kv3::kv3_text::NEW_LINE;
use crate::kv_map::KvMap;
use crate::text::{int_text, push_char, push_int};
use crate::{lemma_view_objects_index, view_objects, KvEntryValue, KvObject, KvValue};

verus! {

/// An array in this layout is written over several lines when its first item is a table.
pub open spec fn starts_with_table(items: Seq<KvValue>) -> bool {
    items.len() > 0 && items[0] is Table
}

/// The text of `v` at indent `indent` in this layout.
pub open spec fn spaced_value_text(v: KvValue, indent: nat) -> Seq<char>
    decreases v, 1int,
{
    match v {
        KvValue::Null => " null"@,
        KvValue::Str(s) => seq![' ', '"'] + s + seq!['"'],
        KvValue::Int(i) => seq![' '] + int_text(i as int),
        KvValue::Float(t) => seq![' '] + t,
        KvValue::Bool(b) => seq![' '] + bool_text(b),
        KvValue::Table(es) => NEW_LINE@ + tabs(indent) + "{"@ + NEW_LINE@ + spaced_entries_text(
            es,
            indent + 1,
        ) + tabs(indent) + "}"@,
        KvValue::Array(items) => {
            let ml = starts_with_table(items);
            (if ml {
                NEW_LINE@ + tabs(indent)
            } else {
                " "@
            }) + "["@ + spaced_items_text(items, indent + 1, ml) + (if ml {
                NEW_LINE@ + tabs(indent)
            } else {
                Seq::empty()
            }) + "]"@
        },
        KvValue::Bin(_) => Seq::empty(),
    }
}

/// The lines of a table's entries in this layout (flags are not written).
pub open spec fn spaced_entries_text(es: Seq<(Seq<char>, KvEntryValue)>, indent: nat) -> Seq<char>
    decreases es, 0int,
{
    if es.len() == 0 {
        Seq::empty()
    } else {
        tabs(indent) + es[0].0 + " ="@ + spaced_value_text(es[0].1.value, indent) + NEW_LINE@
            + spaced_entries_text(es.subrange(1, es.len() as int), indent)
    }
}

/// The items of an array in this layout.
pub open spec fn spaced_items_text(items: Seq<KvValue>, indent: nat, ml: bool) -> Seq<char>
    decreases items, 0int,
{
    if items.len() == 0 {
        Seq::empty()
    } else {
        spaced_value_text(items[0], indent) + (if items.len() > 1 {
            ","@
        } else if !ml {
            " "@
        } else {
            Seq::empty()
        }) + spaced_items_text(items.subrange(1, items.len() as int), indent, ml)
    }
}

/// A scalar in this layout is one space followed by its text in the compact
/// layout: the same quoted string, the same decimal integer with its sign,
/// the same float text, `true`, `false` or `null`.
pub proof fn lemma_spaced_scalar_text(v: KvValue, indent: nat)
    requires
        !(v is Table),
        !(v is Array),
        !(v is Bin),
    ensures
        spaced_value_text(v, indent) == seq![' '] + value_text(v, indent),
{
    match v {
        KvValue::Null => {
            reveal_strlit(" null");
            reveal_strlit("null");
            assert(" null"@ == seq![' '] + "null"@);
        },
        KvValue::Str(a) => {
            assert(seq![' ', '"'] + a + seq!['"'] == seq![' '] + (seq!['"'] + a + seq!['"']));
        },
        _ => {},
    }
}

proof fn lemma_writable_item(items: Seq<KvValue>, room: int, i: int)
    requires
        writable(KvValue::Array(items), room),
        0 <= i < items.len(),
    ensures
        writable(items[i], room - 1),
        decreases_to!(KvValue::Array(items) => items[i]),
{
    let v = KvValue::Array(items);
    assert(v->Array_0[i] == items[i]);
    assert(decreases_to!(v => v->Array_0[i]));
}

/// Appends `indent` tab characters.
pub fn write_indent(indent: usize, out: &mut String)
    ensures
        final(out)@ == old(out)@ + tabs(indent as nat),
{
    let mut i: usize = 0;
    while i < indent
        invariant
            i <= indent,
            out@ == old(out)@ + tabs(i as nat),
        decreases indent - i,
    {
        out.append("\t");
        proof {
            reveal_strlit("\t");
            assert(tabs(i as nat) + "\t"@ == tabs((i + 1) as nat));
        }
        i = i + 1;
    }
}

/// Appends the text of a table.
pub fn serialize_map(map: &KvMap, indent: usize, out: &mut String)
    requires
        writable(KvValue::Table(map@), usize::MAX - indent),
    ensures
        final(out)@ == old(out)@ + spaced_value_text(KvValue::Table(map@), indent as nat),
    decreases KvValue::Table(map@), 0int,
{
    out.append(NEW_LINE);
    write_indent(indent, out);
    out.append("{");
    out.append(NEW_LINE);
    let ghost es = map@;
    let ghost start = out@;
    let inner = indent + 1;
    let n = map.len();
    let mut i: usize = 0;
    assert(es.subrange(0, n as int) == es);
    while i < n
        invariant
            n == es.len(),
            es == map@,
            inner == indent + 1,
            i <= n,
            writable(KvValue::Table(map@), usize::MAX - indent),
            start + spaced_entries_text(es, inner as nat) == out@ + spaced_entries_text(
                es.subrange(i as int, n as int),
                inner as nat,
            ),
        decreases n - i,
    {
        let (k, e) = map.get_index(i).unwrap();
        assert(es.subrange(i as int, n as int)[0] == es[i as int]);
        assert(es.subrange(i as int, n as int).subrange(1, n - i) == es.subrange(i + 1, n as int));
        assert(writable(es[i as int].1.value, usize::MAX - inner));
        write_indent(inner, out);
        out.append(k.as_str());
        out.append(" =");
        serialize_object(&e.value, inner, out);
        out.append(NEW_LINE);
        i = i + 1;
    }
    write_indent(indent, out);
    out.append("}");
}

/// Appends the text of an array.
pub fn serialize_array(arr: &Vec<KvObject>, indent: usize, out: &mut String)
    requires
        writable(KvValue::Array(view_objects(arr@)), usize::MAX - indent),
    ensures
        final(out)@ == old(out)@ + spaced_value_text(
            KvValue::Array(view_objects(arr@)),
            indent as nat,
        ),
    decreases KvValue::Array(view_objects(arr@)), 0int,
{
    let ghost items = view_objects(arr@);
    proof {
        lemma_view_objects_index(arr@);
    }
    let multiline = arr.len() > 0 && match &arr[0] {
        KvObject::Table(_) => true,
        _ => false,
    };
    assert(multiline == starts_with_table(items));
    if multiline {
        out.append(NEW_LINE);
        write_indent(indent, out);
    } else {
        out.append(" ");
    }
    out.append("[");
    let inner = indent + 1;
    let ghost start = out@;
    let n = arr.len();
    let mut i: usize = 0;
    assert(items.subrange(0, n as int) == items);
    while i < n
        invariant
            n == items.len() == arr.len(),
            items == view_objects(arr@),
            forall|j: int| 0 <= j < arr.len() ==> #[trigger] items[j] == arr@[j]@,
            inner == indent + 1,
            i <= n,
            multiline == starts_with_table(items),
            writable(KvValue::Array(items), usize::MAX - indent),
            start + spaced_items_text(items, inner as nat, multiline) == out@ + spaced_items_text(
                items.subrange(i as int, n as int),
                inner as nat,
                multiline,
            ),
        decreases n - i,
    {
        assert(items.subrange(i as int, n as int)[0] == items[i as int]);
        assert(items.subrange(i as int, n as int).subrange(1, n - i) == items.subrange(
            i + 1,
            n as int,
        ));
        assert(items[i as int] == arr@[i as int]@);
        proof {
            lemma_writable_item(items, usize::MAX - indent, i as int);
        }
        serialize_object(&arr[i], inner, out);
        if i < n - 1 {
            out.append(",");
        } else if !multiline {
            out.append(" ");
        }
        i = i + 1;
    }
    if multiline {
        out.append(NEW_LINE);
        write_indent(indent, out);
    }
    out.append("]");
}

/// Appends the text of `obj` at indent `indent` in this layout.
pub fn serialize_object(obj: &KvObject, indent: usize, out: &mut String)
    requires
        writable(obj@, usize::MAX - indent),
    ensures
        final(out)@ == old(out)@ + spaced_value_text(obj@, indent as nat),
    decreases obj@, 1int,
{
    match obj {
        KvObject::Null => out.append(" null"),
        KvObject::String(v) => {
            push_char(out, ' ');
            push_char(out, '"');
            out.append(v.as_str());
            push_char(out, '"');
        },
        KvObject::Int(v) => {
            push_char(out, ' ');
            push_int(out, *v);
        },
        KvObject::Float(v) => {
            push_char(out, ' ');
            out.append(v.as_str());
        },
        KvObject::Bool(v) => {
            push_char(out, ' ');
            if *v {
                out.append("true");
            } else {
                out.append("false");
            }
        },
        KvObject::Table(map) => serialize_map(map, indent, out),
        KvObject::Array(arr) => serialize_array(arr, indent, out),
        KvObject::Bin(_) => {},
    }
}

}
