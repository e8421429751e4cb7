//! Rectangle sets: the KV3 document that lists the rectangles cut out of an
//! image, in the layout the game reads.
use vstd::prelude::*;
use vstd::string::StringExecFns;

use crate::kv3::kv3_text::serializer::{bool_text, writable};
use crate::kv_map::KvMap;
use crate::text::{int_text, push_int};
use crate::{
    lemma_view_objects_index, lemma_view_objects_push, view_objects, KvEntryValue, KvMapEntry,
    KvObject, KvValue,
};

verus! {

/// How a rectangle may be used.
#[derive(Debug, Clone, Copy)]
pub struct RectProperties {
    pub allow_tiling: bool,
    pub allow_rotation: bool,
}

/// A rectangle in units of 1/32768 of the image's width and height.
#[derive(Debug, Clone, Copy)]
pub struct Rect {
    pub x: u16,
    pub y: u16,
    pub width: u16,
    pub height: u16,
    pub properties: Option<RectProperties>,
}

/// The far corner of each rectangle fits in a `u16`.
pub open spec fn corners_fit(rects: Seq<Rect>) -> bool {
    forall|i: int|
        0 <= i < rects.len() ==> #[trigger] rects[i].x + rects[i].width <= u16::MAX && rects[i].y
            + rects[i].height <= u16::MAX
}

pub open spec fn plain_entry(v: KvValue) -> KvEntryValue {
    KvEntryValue { value: v, flag: None }
}

pub open spec fn int_pair(a: int, b: int) -> KvValue {
    KvValue::Array(seq![KvValue::Int(a as i64), KvValue::Int(b as i64)])
}

pub open spec fn properties_value(p: Option<RectProperties>) -> KvValue {
    match p {
        Some(p) => KvValue::Table(
            seq![
                ("allowTiling"@, plain_entry(KvValue::Bool(p.allow_tiling))),
                ("allowRotation"@, plain_entry(KvValue::Bool(p.allow_rotation))),
            ],
        ),
        None => KvValue::Null,
    }
}

/// The table that describes one rectangle.
pub open spec fn rect_value(r: Rect) -> KvValue {
    KvValue::Table(
        seq![
            ("min"@, plain_entry(int_pair(r.x as int, r.y as int))),
            ("max"@, plain_entry(int_pair(r.x + r.width, r.y + r.height))),
            ("inset"@, plain_entry(int_pair(0, 0))),
            ("properties"@, plain_entry(properties_value(r.properties))),
        ],
    )
}

/// The document's value: one unnamed set holding the rectangles in order.
pub open spec fn rectangle_sets_value(rects: Seq<Rect>) -> KvValue {
    KvValue::Table(
        seq![
            (
                "RectangleSets"@,
                plain_entry(
                    KvValue::Array(
                        seq![
                            KvValue::Table(
                                seq![
                                    ("name"@, plain_entry(KvValue::Str(Seq::empty()))),
                                    ("properties"@, plain_entry(KvValue::Null)),
                                    (
                                        "rectangles"@,
                                        plain_entry(
                                            KvValue::Array(rects.map_values(|r: Rect| rect_value(r))),
                                        ),
                                    ),
                                ],
                            ),
                        ],
                    ),
                ),
            ),
        ],
    )
}

proof fn lemma_pair_writable(a: int, b: int, room: int)
    requires
        room >= 1,
    ensures
        writable(int_pair(a, b), room),
{
    let v = int_pair(a, b);
    assert forall|i: int| 0 <= i < v->Array_0.len() implies writable(#[trigger] v->Array_0[i], room - 1) by {
    }
}

proof fn lemma_rect_writable(r: Rect, room: int)
    requires
        room >= 2,
    ensures
        writable(rect_value(r), room),
{
    lemma_pair_writable(r.x as int, r.y as int, room - 1);
    lemma_pair_writable(r.x + r.width, r.y + r.height, room - 1);
    lemma_pair_writable(0, 0, room - 1);
    let p = properties_value(r.properties);
    assert(writable(p, room - 1)) by {
        if p is Table {
            assert forall|i: int| 0 <= i < p->Table_0.len() implies writable(
                #[trigger] p->Table_0[i].1.value,
                room - 2,
            ) by {}
        }
    }
    let v = rect_value(r);
    assert forall|i: int| 0 <= i < v->Table_0.len() implies writable(
        #[trigger] v->Table_0[i].1.value,
        room - 1,
    ) by {}
}

/// The rectangle sets document nests six levels deep and holds no binary blob.
proof fn lemma_rectangle_sets_writable(rects: Seq<Rect>, room: int)
    requires
        room >= 6,
    ensures
        writable(rectangle_sets_value(rects), room),
{
    let list = rects.map_values(|r: Rect| rect_value(r));
    assert forall|i: int| 0 <= i < list.len() implies writable(#[trigger] list[i], room - 4) by {
        lemma_rect_writable(rects[i], room - 4);
    }
    let rv = KvValue::Array(list);
    assert(writable(rv, room - 3)) by {
        assert forall|i: int| 0 <= i < rv->Array_0.len() implies writable(#[trigger] rv->Array_0[i], room - 4) by {}
    }
    let doc = rectangle_sets_value(rects);
    let sets = doc->Table_0[0].1.value;
    let set = sets->Array_0[0];
    assert(writable(set, room - 2)) by {
        assert forall|i: int| 0 <= i < set->Table_0.len() implies writable(
            #[trigger] set->Table_0[i].1.value,
            room - 3,
        ) by {}
    }
    assert(writable(sets, room - 1)) by {
        assert forall|i: int| 0 <= i < sets->Array_0.len() implies writable(#[trigger] sets->Array_0[i], room - 2) by {}
    }
    assert forall|i: int| 0 <= i < doc->Table_0.len() implies writable(
        #[trigger] doc->Table_0[i].1.value,
        room - 1,
    ) by {}
}

/// The rectangles array of a rectangle sets document: the `rectangles`
/// entry (third) of the first set of the `RectangleSets` entry (first).
pub open spec fn rectangles_of(doc: KvValue) -> Seq<KvValue> {
    doc->Table_0[0].1.value->Array_0[0]->Table_0[2].1.value->Array_0
}

/// The two-integer array `[a, b]`.
pub open spec fn pair_array(a: int, b: int) -> KvValue {
    KvValue::Array(seq![KvValue::Int(a as i64), KvValue::Int(b as i64)])
}

/// The `i`-th item of the document's rectangles array describes the `i`-th
/// rectangle: a table whose first entry is `min = [x, y]` and whose second is
/// `max = [x + width, y + height]`, both without a flag; the array has one
/// item per rectangle.
pub proof fn lemma_rectangles_in_order(rects: Seq<Rect>)
    ensures
        rectangle_sets_value(rects)->Table_0[0].0 == "RectangleSets"@,
        rectangle_sets_value(rects)->Table_0[0].1.value->Array_0[0]->Table_0[2].0 == "rectangles"@,
        rectangles_of(rectangle_sets_value(rects)).len() == rects.len(),
        forall|i: int|
            #![trigger rectangles_of(rectangle_sets_value(rects))[i]]
            0 <= i < rects.len() ==> {
                let item = rectangles_of(rectangle_sets_value(rects))[i];
                &&& item is Table
                &&& item->Table_0[0] == ("min"@, KvEntryValue {
                    value: pair_array(rects[i].x as int, rects[i].y as int),
                    flag: None,
                })
                &&& item->Table_0[1] == ("max"@, KvEntryValue {
                    value: pair_array(rects[i].x + rects[i].width, rects[i].y + rects[i].height),
                    flag: None,
                })
            },
{
    let list = rectangles_of(rectangle_sets_value(rects));
    assert(list == rects.map_values(|r: Rect| rect_value(r)));
    assert forall|i: int| 0 <= i < rects.len() implies {
        let item = #[trigger] list[i];
        &&& item is Table
        &&& item->Table_0[0] == ("min"@, KvEntryValue {
            value: pair_array(rects[i].x as int, rects[i].y as int),
            flag: None,
        })
        &&& item->Table_0[1] == ("max"@, KvEntryValue {
            value: pair_array(rects[i].x + rects[i].width, rects[i].y + rects[i].height),
            flag: None,
        })
    } by {
        assert(list[i] == rect_value(rects[i]));
    }
}

fn pair_object(a: i64, b: i64) -> (o: KvObject)
    ensures
        o@ == int_pair(a as int, b as int),
{
    let v = vec![KvObject::Int(a), KvObject::Int(b)];
    proof {
        lemma_view_objects_index(v@);
        assert(view_objects(v@) == seq![KvValue::Int(a), KvValue::Int(b)]);
    }
    KvObject::Array(v)
}

fn properties_object(p: Option<RectProperties>) -> (o: KvObject)
    ensures
        o@ == properties_value(p),
{
    match p {
        Some(p) => {
            let mut m = KvMap::new();
            m.insert(String::from_str("allowTiling"), KvMapEntry::new(KvObject::Bool(p.allow_tiling)));
            proof {
                reveal_strlit("allowTiling");
                reveal_strlit("allowRotation");
                assert(m@.len() == 1);
                assert(m@[0].0 == "allowTiling"@);
                assert("allowTiling"@.len() == 11);
                assert(m@[0].0 != "allowRotation"@);
            }
            m.insert(
                String::from_str("allowRotation"),
                KvMapEntry::new(KvObject::Bool(p.allow_rotation)),
            );
            assert(m@ =~= seq![
                ("allowTiling"@, plain_entry(KvValue::Bool(p.allow_tiling))),
                ("allowRotation"@, plain_entry(KvValue::Bool(p.allow_rotation))),
            ]);
            KvObject::Table(m)
        },
        None => KvObject::Null,
    }
}

fn rect_object(r: &Rect) -> (o: KvObject)
    requires
        r.x + r.width <= u16::MAX,
        r.y + r.height <= u16::MAX,
    ensures
        o@ == rect_value(*r),
{
    proof {
        reveal_strlit("min");
        reveal_strlit("max");
        reveal_strlit("inset");
        reveal_strlit("properties");
    }
    let mut m = KvMap::new();
    m.insert(String::from_str("min"), KvMapEntry::new(pair_object(r.x as i64, r.y as i64)));
    assert(m@.len() == 1 && m@[0].0 == "min"@);
    assert(m@[0].0[1] != "max"@[1]);
    let mx = (r.x + r.width) as i64;
    let my = (r.y + r.height) as i64;
    m.insert(String::from_str("max"), KvMapEntry::new(pair_object(mx, my)));
    assert(m@.len() == 2 && m@[1].0 == "max"@);
    assert(m@[0].0.len() != "inset"@.len() && m@[1].0.len() != "inset"@.len());
    m.insert(String::from_str("inset"), KvMapEntry::new(pair_object(0, 0)));
    assert(m@.len() == 3 && m@[2].0 == "inset"@);
    assert(m@[0].0.len() != "properties"@.len() && m@[1].0.len() != "properties"@.len()
        && m@[2].0.len() != "properties"@.len());
    m.insert(String::from_str("properties"), KvMapEntry::new(properties_object(r.properties)));
    assert(m@ =~= seq![
        ("min"@, plain_entry(int_pair(r.x as int, r.y as int))),
        ("max"@, plain_entry(int_pair(r.x + r.width, r.y + r.height))),
        ("inset"@, plain_entry(int_pair(0, 0))),
        ("properties"@, plain_entry(properties_value(r.properties))),
    ]);
    KvObject::Table(m)
}

/// The rectangle sets document's value for `rects`.
pub fn rectangle_sets(rects: &Vec<Rect>) -> (o: KvObject)
    requires
        corners_fit(rects@),
    ensures
        o@ == rectangle_sets_value(rects@),
        writable(o@, usize::MAX as int),
        rectangles_of(o@).len() == rects.len(),
        forall|i: int|
            #![trigger rectangles_of(o@)[i]]
            0 <= i < rects.len() ==> {
                let item = rectangles_of(o@)[i];
                &&& item->Table_0[0] == ("min"@, KvEntryValue {
                    value: pair_array(rects[i].x as int, rects[i].y as int),
                    flag: None,
                })
                &&& item->Table_0[1] == ("max"@, KvEntryValue {
                    value: pair_array(rects[i].x + rects[i].width, rects[i].y + rects[i].height),
                    flag: None,
                })
            },
{
    proof {
        lemma_rectangle_sets_writable(rects@, usize::MAX as int);
        lemma_rectangles_in_order(rects@);
    }
    let mut items: Vec<KvObject> = Vec::new();
    let mut i: usize = 0;
    while i < rects.len()
        invariant
            i <= rects.len(),
            corners_fit(rects@),
            view_objects(items@) == rects@.subrange(0, i as int).map_values(|r: Rect| rect_value(r)),
        decreases rects.len() - i,
    {
        let o = rect_object(&rects[i]);
        proof {
            lemma_view_objects_push(items@, o);
            assert(rects@.subrange(0, i + 1).map_values(|r: Rect| rect_value(r)) == rects@.subrange(
                0,
                i as int,
            ).map_values(|r: Rect| rect_value(r)).push(rect_value(rects@[i as int])));
        }
        items.push(o);
        i = i + 1;
    }
    assert(rects@.subrange(0, rects.len() as int) == rects@);
    proof {
        reveal_strlit("name");
        reveal_strlit("properties");
        reveal_strlit("rectangles");
        reveal_strlit("RectangleSets");
    }
    let mut set = KvMap::new();
    set.insert(String::from_str("name"), KvMapEntry::new(KvObject::String(String::new())));
    assert(set@.len() == 1 && set@[0].0 == "name"@);
    assert(set@[0].0.len() != "properties"@.len());
    set.insert(String::from_str("properties"), KvMapEntry::new(KvObject::Null));
    assert(set@.len() == 2 && set@[1].0 == "properties"@);
    assert(set@[0].0.len() != "rectangles"@.len() && set@[1].0[0] != "rectangles"@[0]);
    set.insert(String::from_str("rectangles"), KvMapEntry::new(KvObject::Array(items)));
    let ghost rv = KvValue::Array(rects@.map_values(|r: Rect| rect_value(r)));
    let ghost set_value = KvValue::Table(
        seq![
            ("name"@, plain_entry(KvValue::Str(Seq::empty()))),
            ("properties"@, plain_entry(KvValue::Null)),
            ("rectangles"@, plain_entry(rv)),
        ],
    );
    assert(set@ =~= set_value->Table_0);
    let sets = vec![KvObject::Table(set)];
    proof {
        lemma_view_objects_index(sets@);
        assert(view_objects(sets@) =~= seq![set_value]);
    }
    let mut doc = KvMap::new();
    doc.insert(String::from_str("RectangleSets"), KvMapEntry::new(KvObject::Array(sets)));
    assert(doc@ =~= rectangle_sets_value(rects@)->Table_0);
    KvObject::Table(doc)
}


// ---------------------------------------------------------------------------
// The same document, written line by line

/// The header and the lines that open the rectangle list.
pub open spec fn rect_file_head() -> Seq<char> {
    "<!-- kv3 encoding:text:version{e21c7f3c-8a33-41c5-9977-a76d3a32aa0d} format:generic:version{7412167c-06e9-4698-aff2-e63eb59037e7} -->\r\n"@
        + "{\r\n"@ + "\tRectangleSets =\r\n"@ + "\t[\r\n"@ + "\t\t{\r\n"@ + "\t\t\tname = \"\"\r\n"@
        + "\t\t\tproperties = null\r\n"@ + "\t\t\trectangles =\r\n"@ + "\t\t\t[\r\n"@
}

/// The lines that close the rectangle list and the document.
pub open spec fn rect_file_tail() -> Seq<char> {
    "\t\t\t]\r\n"@ + "\t\t}\r\n"@ + "\t]\r\n"@ + "}\r\n"@
}

pub open spec fn properties_lines(p: Option<RectProperties>) -> Seq<char> {
    match p {
        Some(p) => "\t\t\t\t\tproperties =\r\n"@ + "\t\t\t\t\t{\r\n"@ + "\t\t\t\t\t\tallowTiling = "@
            + bool_text(p.allow_tiling) + "\r\n"@ + "\t\t\t\t\t\tallowRotation = "@ + bool_text(
            p.allow_rotation,
        ) + "\r\n"@ + "\t\t\t\t\t}\r\n"@,
        None => "\t\t\t\t\tproperties = null\r\n"@,
    }
}

/// The lines that describe one rectangle.
pub open spec fn rect_lines(r: Rect) -> Seq<char> {
    "\t\t\t\t{\r\n"@ + "\t\t\t\t\tmin = [ "@ + int_text(r.x as int) + ", "@ + int_text(r.y as int)
        + " ]\r\n"@ + "\t\t\t\t\tmax = [ "@ + int_text(r.x + r.width) + ", "@ + int_text(
        r.y + r.height,
    ) + " ]\r\n"@ + "\t\t\t\t\tinset = [ 0, 0 ]\r\n"@ + properties_lines(r.properties)
        + "\t\t\t\t},\r\n"@
}

pub open spec fn rects_lines(rects: Seq<Rect>) -> Seq<char>
    decreases rects.len(),
{
    if rects.len() == 0 {
        Seq::empty()
    } else {
        rects_lines(rects.subrange(0, rects.len() - 1)) + rect_lines(rects[rects.len() - 1])
    }
}

/// The lines of rectangles written one after the other: none for no
/// rectangle, and adding a rectangle at the end adds its lines at the end.
pub proof fn lemma_rects_lines_append(rects: Seq<Rect>, r: Rect)
    ensures
        rects_lines(Seq::<Rect>::empty()) == Seq::<char>::empty(),
        rects_lines(rects.push(r)) == rects_lines(rects) + rect_lines(r),
{
    assert(rects.push(r).subrange(0, rects.len() as int) == rects);
}

/// The lines of the `i`-th rectangle stand right after those of the
/// rectangles before it.
pub proof fn lemma_rects_lines_at(rects: Seq<Rect>, i: int)
    requires
        0 <= i < rects.len(),
    ensures
        rects_lines(rects.subrange(0, i + 1)) == rects_lines(rects.subrange(0, i)) + rect_lines(rects[i]),
{
    lemma_rects_lines_append(rects.subrange(0, i), rects[i]);
    assert(rects.subrange(0, i).push(rects[i]) == rects.subrange(0, i + 1));
}

/// A rectangle's lines open with `{`, then name its corners: `min = [ x, y ]`
/// and `max = [ x + width, y + height ]`, in decimal.
pub proof fn lemma_rect_lines_corners(r: Rect)
    ensures
        rect_lines(r).subrange(
            0,
            ("\t\t\t\t{\r\n"@ + "\t\t\t\t\tmin = [ "@ + int_text(r.x as int) + ", "@ + int_text(
                r.y as int,
            ) + " ]\r\n"@ + "\t\t\t\t\tmax = [ "@ + int_text(r.x + r.width) + ", "@ + int_text(
                r.y + r.height,
            ) + " ]\r\n"@).len() as int,
        ) == "\t\t\t\t{\r\n"@ + "\t\t\t\t\tmin = [ "@ + int_text(r.x as int) + ", "@ + int_text(
            r.y as int,
        ) + " ]\r\n"@ + "\t\t\t\t\tmax = [ "@ + int_text(r.x + r.width) + ", "@ + int_text(
            r.y + r.height,
        ) + " ]\r\n"@,
{
    let head = "\t\t\t\t{\r\n"@ + "\t\t\t\t\tmin = [ "@ + int_text(r.x as int) + ", "@ + int_text(
        r.y as int,
    ) + " ]\r\n"@ + "\t\t\t\t\tmax = [ "@ + int_text(r.x + r.width) + ", "@ + int_text(
        r.y + r.height,
    ) + " ]\r\n"@;
    let rest = "\t\t\t\t\tinset = [ 0, 0 ]\r\n"@ + properties_lines(r.properties) + "\t\t\t\t},\r\n"@;
    assert(rect_lines(r) == head + rest);
    assert((head + rest).subrange(0, head.len() as int) == head);
}

/// The whole file.
pub open spec fn rect_file_text(rects: Seq<Rect>) -> Seq<char> {
    rect_file_head() + rects_lines(rects) + rect_file_tail()
}

fn push_bool(out: &mut String, b: bool)
    ensures
        final(out)@ == old(out)@ + bool_text(b),
{
    if b {
        out.append("true");
    } else {
        out.append("false");
    }
}

fn push_rect_lines(out: &mut String, r: &Rect)
    requires
        r.x + r.width <= u16::MAX,
        r.y + r.height <= u16::MAX,
    ensures
        final(out)@ == old(out)@ + rect_lines(*r),
{
    out.append("\t\t\t\t{\r\n");
    out.append("\t\t\t\t\tmin = [ ");
    push_int(out, r.x as i64);
    out.append(", ");
    push_int(out, r.y as i64);
    out.append(" ]\r\n");
    out.append("\t\t\t\t\tmax = [ ");
    push_int(out, (r.x + r.width) as i64);
    out.append(", ");
    push_int(out, (r.y + r.height) as i64);
    out.append(" ]\r\n");
    out.append("\t\t\t\t\tinset = [ 0, 0 ]\r\n");
    push_properties_lines(out, r.properties);
    out.append("\t\t\t\t},\r\n");
}

fn push_properties_lines(out: &mut String, p: Option<RectProperties>)
    ensures
        final(out)@ == old(out)@ + properties_lines(p),
{
    match p {
        Some(p) => {
            out.append("\t\t\t\t\tproperties =\r\n");
            out.append("\t\t\t\t\t{\r\n");
            out.append("\t\t\t\t\t\tallowTiling = ");
            push_bool(out, p.allow_tiling);
            out.append("\r\n");
            out.append("\t\t\t\t\t\tallowRotation = ");
            push_bool(out, p.allow_rotation);
            out.append("\r\n");
            out.append("\t\t\t\t\t}\r\n");
        },
        None => {
            out.append("\t\t\t\t\tproperties = null\r\n");
        },
    }
}

/// The rectangle sets file for `rects`, written line by line: the rectangles
/// in order, each ending with a comma.
pub fn rectangle_sets_text(rects: &Vec<Rect>) -> (s: String)
    requires
        corners_fit(rects@),
    ensures
        s@ == rect_file_text(rects@),
{
    let mut out = String::new();
    out.append(
        "<!-- kv3 encoding:text:version{e21c7f3c-8a33-41c5-9977-a76d3a32aa0d} format:generic:version{7412167c-06e9-4698-aff2-e63eb59037e7} -->\r\n",
    );
    out.append("{\r\n");
    out.append("\tRectangleSets =\r\n");
    out.append("\t[\r\n");
    out.append("\t\t{\r\n");
    out.append("\t\t\tname = \"\"\r\n");
    out.append("\t\t\tproperties = null\r\n");
    out.append("\t\t\trectangles =\r\n");
    out.append("\t\t\t[\r\n");
    assert(out@ =~= rect_file_head());
    let mut i: usize = 0;
    while i < rects.len()
        invariant
            i <= rects.len(),
            corners_fit(rects@),
            out@ == rect_file_head() + rects_lines(rects@.subrange(0, i as int)),
        decreases rects.len() - i,
    {
        push_rect_lines(&mut out, &rects[i]);
        assert(rects@.subrange(0, i + 1).subrange(0, i as int) == rects@.subrange(0, i as int));
        i = i + 1;
    }
    assert(rects@.subrange(0, rects.len() as int) == rects@);
    out.append("\t\t\t]\r\n");
    out.append("\t\t}\r\n");
    out.append("\t]\r\n");
    out.append("}\r\n");
    out
}

}
