//! The in-memory NBT value tree: a named form and a nameless form, each
//! abstracted by the ghost `ValueModel` of `crate::model`.
//!
//! The IEEE-754 scalars are carried as their big-endian bit patterns
//! (`f32::to_bits` / `f64::to_bits`), which is exactly what the codec
//! reads and writes.

use vstd::prelude::*;
use crate::model::{tag_of, ValueModel};
use crate::tag::Tag;

verus! {

broadcast use vstd::std_specs::vec::group_vec_axioms;

/// A named NBT value: what one compound entry, or a whole document, holds.
#[derive(Debug, PartialEq)]
pub enum Value {
    End,
    Byte { name: String, value: i8 },
    Short { name: String, value: i16 },
    Int { name: String, value: i32 },
    Long { name: String, value: i64 },
    Float { name: String, value: u32 },
    Double { name: String, value: u64 },
    ByteArray { name: String, value: Vec<i8> },
    String { name: String, value: String },
    List { name: String, value: Vec<NameLessValue> },
    Compound { name: String, value: Vec<Value> },
    IntArray { name: String, value: Vec<i32> },
    LongArray { name: String, value: Vec<i64> },
    Boolean { name: String, value: bool },
}

/// A nameless NBT value: a list element, or a named value with its name
/// detached.
#[derive(Debug, PartialEq)]
pub enum NameLessValue {
    End,
    Byte(i8),
    Short(i16),
    Int(i32),
    Long(i64),
    Float(u32),
    Double(u64),
    ByteArray(Vec<i8>),
    String(String),
    List(Vec<NameLessValue>),
    Compound(Vec<Value>),
    IntArray(Vec<i32>),
    LongArray(Vec<i64>),
    Boolean(bool),
}

/// The abstract value of a nameless tree.
pub open spec fn view_nameless(v: NameLessValue) -> ValueModel
    decreases v, 1nat,
{
    match v {
        NameLessValue::End => ValueModel::End,
        NameLessValue::Byte(x) => ValueModel::Byte(x),
        NameLessValue::Short(x) => ValueModel::Short(x),
        NameLessValue::Int(x) => ValueModel::Int(x),
        NameLessValue::Long(x) => ValueModel::Long(x),
        NameLessValue::Float(bits) => ValueModel::Float(bits),
        NameLessValue::Double(bits) => ValueModel::Double(bits),
        NameLessValue::ByteArray(b) => ValueModel::ByteArray(b@),
        NameLessValue::String(s) => ValueModel::Str(s@),
        NameLessValue::List(es) => ValueModel::List(view_nameless_seq(es@)),
        NameLessValue::Compound(vs) => ValueModel::Compound(view_value_seq(vs@)),
        NameLessValue::IntArray(b) => ValueModel::IntArray(b@),
        NameLessValue::LongArray(b) => ValueModel::LongArray(b@),
        NameLessValue::Boolean(b) => ValueModel::Boolean(b),
    }
}

/// The abstract values of a sequence of list elements.
pub open spec fn view_nameless_seq(s: Seq<NameLessValue>) -> Seq<ValueModel>
    decreases s, 0nat,
{
    if s.len() == 0 {
        Seq::empty()
    } else {
        seq![view_nameless(s[0])] + view_nameless_seq(s.drop_first())
    }
}

/// The abstract values of a sequence of compound entries.
pub open spec fn view_value_seq(s: Seq<Value>) -> Seq<(Seq<char>, ValueModel)>
    decreases s, 0nat,
{
    if s.len() == 0 {
        Seq::empty()
    } else {
        seq![view_value(s[0])] + view_value_seq(s.drop_first())
    }
}

/// The abstract value of a named tree: its name and its payload.
/// The End value has the empty name.
pub open spec fn view_value(v: Value) -> (Seq<char>, ValueModel)
    decreases v, 1nat,
{
    match v {
        Value::End => (Seq::empty(), ValueModel::End),
        Value::Byte { name, value } => (name@, ValueModel::Byte(value)),
        Value::Short { name, value } => (name@, ValueModel::Short(value)),
        Value::Int { name, value } => (name@, ValueModel::Int(value)),
        Value::Long { name, value } => (name@, ValueModel::Long(value)),
        Value::Float { name, value } => (name@, ValueModel::Float(value)),
        Value::Double { name, value } => (name@, ValueModel::Double(value)),
        Value::ByteArray { name, value } => (name@, ValueModel::ByteArray(value@)),
        Value::String { name, value } => (name@, ValueModel::Str(value@)),
        Value::List { name, value } => (name@, ValueModel::List(view_nameless_seq(value@))),
        Value::Compound { name, value } => (name@, ValueModel::Compound(view_value_seq(value@))),
        Value::IntArray { name, value } => (name@, ValueModel::IntArray(value@)),
        Value::LongArray { name, value } => (name@, ValueModel::LongArray(value@)),
        Value::Boolean { name, value } => (name@, ValueModel::Boolean(value)),
    }
}

/// `view_nameless_seq` is the element-wise view.
pub proof fn lemma_view_nameless_seq(s: Seq<NameLessValue>)
    ensures
        view_nameless_seq(s).len() == s.len(),
        forall|i: int| 0 <= i < s.len() ==> view_nameless_seq(s)[i] == view_nameless(s[i]),
    decreases s,
{
    if s.len() != 0 {
        lemma_view_nameless_seq(s.drop_first());
    }
}

/// Appending one element appends its view.
pub proof fn lemma_view_nameless_seq_push(s: Seq<NameLessValue>, x: NameLessValue)
    ensures
        view_nameless_seq(s.push(x)) == view_nameless_seq(s).push(view_nameless(x)),
    decreases s.len(),
{
    if s.len() == 0 {
        assert(s.push(x)[0] == x);
        assert(s.push(x).drop_first() =~= Seq::<NameLessValue>::empty());
        assert(view_nameless_seq(s.push(x)) == seq![view_nameless(s.push(x)[0])]
            + view_nameless_seq(s.push(x).drop_first()));
        assert(view_nameless_seq(s.push(x)) =~= view_nameless_seq(s).push(view_nameless(x)));
    } else {
        assert(s.push(x)[0] == s[0]);
        assert(s.push(x).drop_first() =~= s.drop_first().push(x));
        lemma_view_nameless_seq_push(s.drop_first(), x);
        assert(view_nameless_seq(s.push(x)) == seq![view_nameless(s.push(x)[0])]
            + view_nameless_seq(s.push(x).drop_first()));
        assert(view_nameless_seq(s.push(x)) =~= view_nameless_seq(s).push(view_nameless(x)));
    }
}

/// Appending one entry appends its view.
pub proof fn lemma_view_value_seq_push(s: Seq<Value>, x: Value)
    ensures
        view_value_seq(s.push(x)) == view_value_seq(s).push(view_value(x)),
    decreases s.len(),
{
    if s.len() == 0 {
        assert(s.push(x)[0] == x);
        assert(s.push(x).drop_first() =~= Seq::<Value>::empty());
        assert(view_value_seq(s.push(x)) == seq![view_value(s.push(x)[0])] + view_value_seq(
            s.push(x).drop_first(),
        ));
        assert(view_value_seq(s.push(x)) =~= view_value_seq(s).push(view_value(x)));
    } else {
        assert(s.push(x)[0] == s[0]);
        assert(s.push(x).drop_first() =~= s.drop_first().push(x));
        lemma_view_value_seq_push(s.drop_first(), x);
        assert(view_value_seq(s.push(x)) == seq![view_value(s.push(x)[0])] + view_value_seq(
            s.push(x).drop_first(),
        ));
        assert(view_value_seq(s.push(x)) =~= view_value_seq(s).push(view_value(x)));
    }
}

/// `view_value_seq` is the element-wise view.
pub proof fn lemma_view_value_seq(s: Seq<Value>)
    ensures
        view_value_seq(s).len() == s.len(),
        forall|i: int| 0 <= i < s.len() ==> view_value_seq(s)[i] == view_value(s[i]),
    decreases s,
{
    if s.len() != 0 {
        lemma_view_value_seq(s.drop_first());
    }
}

impl View for NameLessValue {
    type V = ValueModel;

    open spec fn view(&self) -> ValueModel {
        view_nameless(*self)
    }
}

impl View for Value {
    type V = (Seq<char>, ValueModel);

    open spec fn view(&self) -> (Seq<char>, ValueModel) {
        view_value(*self)
    }
}

impl Value {
    /// The tag this value is written with.
    pub fn tag(&self) -> (r: Tag)
        ensures
            r == tag_of(self@.1),
    {
        match self {
            Value::End => Tag::End,
            Value::Byte { .. } => Tag::Byte,
            Value::Short { .. } => Tag::Short,
            Value::Int { .. } => Tag::Int,
            Value::Long { .. } => Tag::Long,
            Value::Float { .. } => Tag::Float,
            Value::Double { .. } => Tag::Double,
            Value::ByteArray { .. } => Tag::ByteArray,
            Value::String { .. } => Tag::String,
            Value::List { .. } => Tag::List,
            Value::Compound { .. } => Tag::Compound,
            Value::IntArray { .. } => Tag::IntArray,
            Value::LongArray { .. } => Tag::LongArray,
            Value::Boolean { .. } => Tag::Byte,
        }
    }

    /// The value's name; empty for the End value.
    pub fn get_name(&self) -> (r: &str)
        ensures
            r@ == self@.0,
    {
        match self {
            Value::End => {
                proof {
                    reveal_strlit("");
                    assert(""@ =~= Seq::<char>::empty());
                }
                ""
            },
            Value::Byte { name, .. } => name.as_str(),
            Value::Short { name, .. } => name.as_str(),
            Value::Int { name, .. } => name.as_str(),
            Value::Long { name, .. } => name.as_str(),
            Value::Float { name, .. } => name.as_str(),
            Value::Double { name, .. } => name.as_str(),
            Value::ByteArray { name, .. } => name.as_str(),
            Value::String { name, .. } => name.as_str(),
            Value::List { name, .. } => name.as_str(),
            Value::Compound { name, .. } => name.as_str(),
            Value::IntArray { name, .. } => name.as_str(),
            Value::LongArray { name, .. } => name.as_str(),
            Value::Boolean { name, .. } => name.as_str(),
        }
    }

    /// Detaches the name, leaving the nameless payload.
    pub fn into_parts(self) -> (r: (String, NameLessValue))
        ensures
            self@.0 == r.0@,
            self@.1 == r.1@,
    {
        match self {
            Value::End => (String::new(), NameLessValue::End),
            Value::Byte { name, value } => (name, NameLessValue::Byte(value)),
            Value::Short { name, value } => (name, NameLessValue::Short(value)),
            Value::Int { name, value } => (name, NameLessValue::Int(value)),
            Value::Long { name, value } => (name, NameLessValue::Long(value)),
            Value::Float { name, value } => (name, NameLessValue::Float(value)),
            Value::Double { name, value } => (name, NameLessValue::Double(value)),
            Value::ByteArray { name, value } => (name, NameLessValue::ByteArray(value)),
            Value::String { name, value } => (name, NameLessValue::String(value)),
            Value::List { name, value } => (name, NameLessValue::List(value)),
            Value::Compound { name, value } => (name, NameLessValue::Compound(value)),
            Value::IntArray { name, value } => (name, NameLessValue::IntArray(value)),
            Value::LongArray { name, value } => (name, NameLessValue::LongArray(value)),
            Value::Boolean { name, value } => (name, NameLessValue::Boolean(value)),
        }
    }
}

impl NameLessValue {
    /// The tag this value is written with.
    pub fn tag(&self) -> (r: Tag)
        ensures
            r == tag_of(self@),
    {
        match self {
            NameLessValue::End => Tag::End,
            NameLessValue::Byte(_) => Tag::Byte,
            NameLessValue::Short(_) => Tag::Short,
            NameLessValue::Int(_) => Tag::Int,
            NameLessValue::Long(_) => Tag::Long,
            NameLessValue::Float(_) => Tag::Float,
            NameLessValue::Double(_) => Tag::Double,
            NameLessValue::ByteArray(_) => Tag::ByteArray,
            NameLessValue::String(_) => Tag::String,
            NameLessValue::List(_) => Tag::List,
            NameLessValue::Compound(_) => Tag::Compound,
            NameLessValue::IntArray(_) => Tag::IntArray,
            NameLessValue::LongArray(_) => Tag::LongArray,
            NameLessValue::Boolean(_) => Tag::Byte,
        }
    }

    /// Attaches a name.  The End value takes no name.
    pub fn with_name(self, name: String) -> (r: Value)
        ensures
            self@ is End ==> r@ == (Seq::<char>::empty(), ValueModel::End),
            !(self@ is End) ==> r@ == (name@, self@),
    {
        match self {
            NameLessValue::End => Value::End,
            NameLessValue::Byte(value) => Value::Byte { name, value },
            NameLessValue::Short(value) => Value::Short { name, value },
            NameLessValue::Int(value) => Value::Int { name, value },
            NameLessValue::Long(value) => Value::Long { name, value },
            NameLessValue::Float(value) => Value::Float { name, value },
            NameLessValue::Double(value) => Value::Double { name, value },
            NameLessValue::ByteArray(value) => Value::ByteArray { name, value },
            NameLessValue::String(value) => Value::String { name, value },
            NameLessValue::List(value) => Value::List { name, value },
            NameLessValue::Compound(value) => Value::Compound { name, value },
            NameLessValue::IntArray(value) => Value::IntArray { name, value },
            NameLessValue::LongArray(value) => Value::LongArray { name, value },
            NameLessValue::Boolean(value) => Value::Boolean { name, value },
        }
    }
}

} // verus!
