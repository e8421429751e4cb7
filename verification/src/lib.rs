//! Reading and writing Valve's key-value formats (KV3 text).
use vstd::prelude::*;

pub mod kv3;
pub mod kv_map;
pub mod parser;
pub mod rect_sets;
pub mod round_trip;
pub mod serializer;
pub mod text;

pub use kv_map::KvMap;

verus! {

/// A value of a table, with the optional flag written before it (`flag:value`).
#[derive(Debug, PartialEq)]
pub struct KvMapEntry {
    pub value: KvObject,
    pub flag: Option<String>,
}

/// A KV3 value.
#[derive(Debug, PartialEq)]
pub enum KvObject {
    Null,
    String(String),
    Int(i64),
    /// A floating-point number, held as its decimal text (as `f64`'s `Display`
    /// writes it, or as it stood in the parsed text).
    Float(String),
    Bool(bool),
    /// A table: keys in insertion order, each with its entry.
    Table(KvMap),
    Array(Vec<KvObject>),
    Bin(Vec<u8>),
}

/// The serialization formats.
#[derive(Debug, Clone, Copy)]
pub enum KvFormat {
    Kv3Text,
}

/// The mathematical value of a `KvObject`.
pub enum KvValue {
    Null,
    Str(Seq<char>),
    Int(i64),
    Float(Seq<char>),
    Bool(bool),
    Table(Seq<(Seq<char>, KvEntryValue)>),
    Array(Seq<KvValue>),
    Bin(Seq<u8>),
}

/// The mathematical value of a `KvMapEntry`.
pub struct KvEntryValue {
    pub value: KvValue,
    pub flag: Option<Seq<char>>,
}

pub open spec fn view_objects(s: Seq<KvObject>) -> Seq<KvValue>
    decreases s,
{
    if s.len() == 0 {
        Seq::empty()
    } else {
        view_objects(s.subrange(0, s.len() - 1)).push(view_object(s[s.len() - 1]))
    }
}

pub open spec fn view_object(o: KvObject) -> KvValue
    decreases o,
{
    match o {
        KvObject::Null => KvValue::Null,
        KvObject::String(s) => KvValue::Str(s@),
        KvObject::Int(i) => KvValue::Int(i),
        KvObject::Float(t) => KvValue::Float(t@),
        KvObject::Bool(b) => KvValue::Bool(b),
        KvObject::Table(m) => KvValue::Table(m@),
        KvObject::Array(v) => KvValue::Array(view_objects(v@)),
        KvObject::Bin(b) => KvValue::Bin(b@),
    }
}

pub proof fn lemma_view_objects_push(s: Seq<KvObject>, x: KvObject)
    ensures
        view_objects(s.push(x)) == view_objects(s).push(view_object(x)),
{
    assert(s.push(x).subrange(0, s.len() as int) == s);
}

pub proof fn lemma_view_objects_index(s: Seq<KvObject>)
    ensures
        view_objects(s).len() == s.len(),
        forall|i: int| 0 <= i < s.len() ==> #[trigger] view_objects(s)[i] == view_object(s[i]),
    decreases s.len(),
{
    if s.len() > 0 {
        lemma_view_objects_index(s.subrange(0, s.len() - 1));
    }
}

impl View for KvObject {
    type V = KvValue;

    open spec fn view(&self) -> KvValue {
        view_object(*self)
    }
}

pub open spec fn view_flag(f: Option<String>) -> Option<Seq<char>> {
    match f {
        Some(s) => Some(s@),
        None => None,
    }
}

impl View for KvMapEntry {
    type V = KvEntryValue;

    open spec fn view(&self) -> KvEntryValue {
        KvEntryValue { value: self.value@, flag: view_flag(self.flag) }
    }
}

impl KvMapEntry {
    /// An entry without a flag.
    pub fn new(obj: KvObject) -> (e: KvMapEntry)
        ensures
            e@ == (KvEntryValue { value: obj@, flag: None }),
    {
        KvMapEntry { value: obj, flag: None }
    }
}


impl Clone for KvMapEntry {
    fn clone(&self) -> (r: KvMapEntry)
        ensures
            r@ == self@,
    {
        KvMapEntry { value: self.value.clone(), flag: self.flag.clone() }
    }
}

impl Clone for KvObject {
    fn clone(&self) -> (r: KvObject)
        ensures
            r@ == self@,
        decreases self,
    {
        match self {
            KvObject::Null => KvObject::Null,
            KvObject::String(s) => KvObject::String(s.clone()),
            KvObject::Int(v) => KvObject::Int(*v),
            KvObject::Float(t) => KvObject::Float(t.clone()),
            KvObject::Bool(b) => KvObject::Bool(*b),
            KvObject::Table(m) => KvObject::Table(m.clone()),
            KvObject::Array(items) => {
                let mut out: Vec<KvObject> = Vec::new();
                let mut i: usize = 0;
                while i < items.len()
                    invariant
                        i <= items.len(),
                        *self == KvObject::Array(*items),
                        view_objects(out@) == view_objects(items@.subrange(0, i as int)),
                    decreases items.len() - i,
                {
                    proof {
                        broadcast use vstd::std_specs::vec::axiom_vec_index_decreases;

                        assert(decreases_to!(items => items[i as int]));
                        assert(decreases_to!(self => self->Array_0));
                        assert(decreases_to!(self => items[i as int]));
                    }
                    let c = items[i].clone();
                    proof {
                        lemma_view_objects_push(out@, c);
                        lemma_view_objects_push(items@.subrange(0, i as int), items@[i as int]);
                        assert(items@.subrange(0, i as int).push(items@[i as int]) == items@.subrange(
                            0,
                            i + 1,
                        ));
                    }
                    out.push(c);
                    i = i + 1;
                }
                assert(items@.subrange(0, items.len() as int) == items@);
                KvObject::Array(out)
            },
            KvObject::Bin(b) => {
                let c = b.clone();
                assert(c@ =~= b@);
                KvObject::Bin(c)
            },
        }
    }
}

}
