//! The serialization bridge: a generic in-memory model of user data
//! (records, sequences, maps, options, unit variants) and its mapping
//! onto the NBT value tree, with the format's two peculiarities: the
//! top-level value must be a named compound, and homogeneous sequences
//! of bytes, ints or longs collapse to the specialized array tags.
//!
//! The trait plumbing that feeds user types into this model is ordinary
//! unverified glue outside the library; everything here works on plain
//! values.

use vstd::prelude::*;
use crate::error::NBTError;
use crate::model::ValueModel;
use crate::tag::Tag;
use crate::model::tag_of;
use crate::value::{
    lemma_view_nameless_seq, lemma_view_value_seq, view_nameless_seq, view_value_seq,
    NameLessValue, Value,
};

verus! {

broadcast use vstd::std_specs::vec::group_vec_axioms;

/// The bridge layer's failures, unified across both directions.
#[derive(Debug, PartialEq)]
pub enum Error {
    IncorrectTagError(Tag, Tag),
    Custom(String),
    IO,
    UnrepresentableValueError(&'static str),
    KeyMustBeString,
    NBTErr(NBTError),
}

/// Whether a decoded value tree holds no `End` value anywhere: exactly
/// the trees the decoder accepts.
pub open spec fn end_free(m: ValueModel) -> bool
    decreases m,
{
    match m {
        ValueModel::End => false,
        ValueModel::List(es) => forall|i: int| 0 <= i < es.len() ==> end_free(#[trigger] es[i]),
        ValueModel::Compound(en) => forall|i: int|
            #![trigger en[i]]
            0 <= i < en.len() ==> end_free(en[i].1),
        _ => true,
    }
}

/// Unfolds `end_free` at a compound, for callers that reason about the
/// entries one at a time.
pub proof fn lemma_end_free_compound(en: Seq<(Seq<char>, ValueModel)>)
    ensures
        end_free(ValueModel::Compound(en)) <==> (forall|i: int|
            #![trigger en[i]]
            0 <= i < en.len() ==> end_free(en[i].1)),
{
    let m = ValueModel::Compound(en);
    assert(m->Compound_0 == en);
    if end_free(m) {
        assert forall|i: int| #![trigger en[i]] 0 <= i < en.len() implies end_free(
            en[i].1,
        ) by {
            assert(end_free(m));
            assert(m->Compound_0 == en);
        }
    }
    if forall|i: int| #![trigger en[i]] 0 <= i < en.len() ==> end_free(en[i].1) {
        assert(end_free(ValueModel::Compound(en)));
    }
}

/// Unfolds `end_free` at a list.
pub proof fn lemma_end_free_list(es: Seq<ValueModel>)
    ensures
        end_free(ValueModel::List(es)) <==> (forall|i: int|
            0 <= i < es.len() ==> end_free(#[trigger] es[i])),
{
    let m = ValueModel::List(es);
    assert(m->List_0 == es);
    if end_free(m) {
        assert forall|i: int| 0 <= i < es.len() implies end_free(#[trigger] es[i]) by {
            assert(end_free(m));
            assert(m->List_0 == es);
        }
    }
    if forall|i: int| 0 <= i < es.len() ==> end_free(#[trigger] es[i]) {
        assert(end_free(ValueModel::List(es)));
    }
}

/// The generic in-memory shape of a user value, as a serializer hands
/// it over: scalars, text, sequences, maps with arbitrary keys, named
/// records, options, and the unit shapes.
#[derive(Debug, PartialEq)]
pub enum UserValue {
    Byte(i8),
    Short(i16),
    Int(i32),
    Long(i64),
    Float(u32),
    Double(u64),
    Bool(bool),
    Text(String),
    Sequence(Vec<UserValue>),
    Mapping(Vec<(UserValue, UserValue)>),
    Record(String, Vec<(String, UserValue)>),
    Unit,
    NoneValue,
    SomeValue(Box<UserValue>),
    UnitVariant(String),
}

/// The value tree the encoder produces for an encodable user value: the
/// abstract counterpart of `encode_nameless`.
pub open spec fn spec_bridge(u: UserValue) -> ValueModel
    decreases u, 1nat,
{
    match u {
        UserValue::Byte(x) => ValueModel::Byte(x),
        UserValue::Short(x) => ValueModel::Short(x),
        UserValue::Int(x) => ValueModel::Int(x),
        UserValue::Long(x) => ValueModel::Long(x),
        UserValue::Float(bits) => ValueModel::Float(bits),
        UserValue::Double(bits) => ValueModel::Double(bits),
        UserValue::Bool(b) => ValueModel::Boolean(b),
        UserValue::Text(t) => ValueModel::Str(t@),
        UserValue::Sequence(es) => if es@.len() == 0 {
            ValueModel::List(Seq::empty())
        } else if es@[0] is Byte {
            ValueModel::ByteArray(Seq::new(es@.len(), |i: int| es@[i]->Byte_0))
        } else if es@[0] is Int {
            ValueModel::IntArray(Seq::new(es@.len(), |i: int| es@[i]->Int_0))
        } else if es@[0] is Long {
            ValueModel::LongArray(Seq::new(es@.len(), |i: int| es@[i]->Long_0))
        } else {
            ValueModel::List(spec_bridge_seq(es@))
        },
        UserValue::Mapping(en) => ValueModel::Compound(spec_bridge_map(en@)),
        UserValue::Record(_, fs) => ValueModel::Compound(spec_bridge_fields(fs@)),
        UserValue::Unit => ValueModel::End,
        UserValue::NoneValue => ValueModel::End,
        UserValue::SomeValue(b) => spec_bridge(*b),
        UserValue::UnitVariant(t) => ValueModel::Str(t@),
    }
}

pub open spec fn spec_bridge_seq(s: Seq<UserValue>) -> Seq<ValueModel>
    decreases s, 0nat,
{
    if s.len() == 0 {
        Seq::empty()
    } else {
        seq![spec_bridge(s[0])] + spec_bridge_seq(s.drop_first())
    }
}

/// Record fields as compound entries; an absent optional field is elided.
pub open spec fn spec_bridge_fields(s: Seq<(String, UserValue)>) -> Seq<
    (Seq<char>, ValueModel),
>
    decreases s, 0nat,
{
    if s.len() == 0 {
        Seq::empty()
    } else if s[0].1 is NoneValue {
        spec_bridge_fields(s.drop_first())
    } else {
        seq![(s[0].0@, spec_bridge(s[0].1))] + spec_bridge_fields(s.drop_first())
    }
}

/// Map entries as compound entries, named by their text keys; an absent
/// value is elided.
pub open spec fn spec_bridge_map(s: Seq<(UserValue, UserValue)>) -> Seq<
    (Seq<char>, ValueModel),
>
    decreases s, 0nat,
{
    if s.len() == 0 {
        Seq::empty()
    } else if s[0].1 is NoneValue {
        spec_bridge_map(s.drop_first())
    } else {
        seq![(s[0].0->Text_0@, spec_bridge(s[0].1))] + spec_bridge_map(s.drop_first())
    }
}

pub proof fn lemma_spec_bridge_seq_push(s: Seq<UserValue>, x: UserValue)
    ensures
        spec_bridge_seq(s.push(x)) == spec_bridge_seq(s).push(spec_bridge(x)),
    decreases s.len(),
{
    if s.len() == 0 {
        assert(s.push(x)[0] == x);
        assert(s.push(x).drop_first() =~= Seq::<UserValue>::empty());
        assert(spec_bridge_seq(s.push(x)) == seq![spec_bridge(s.push(x)[0])] + spec_bridge_seq(
            s.push(x).drop_first(),
        ));
        assert(spec_bridge_seq(s.push(x)) =~= spec_bridge_seq(s).push(spec_bridge(x)));
    } else {
        assert(s.push(x)[0] == s[0]);
        assert(s.push(x).drop_first() =~= s.drop_first().push(x));
        lemma_spec_bridge_seq_push(s.drop_first(), x);
        assert(spec_bridge_seq(s.push(x)) == seq![spec_bridge(s.push(x)[0])] + spec_bridge_seq(
            s.push(x).drop_first(),
        ));
        assert(spec_bridge_seq(s.push(x)) =~= spec_bridge_seq(s).push(spec_bridge(x)));
    }
}

pub proof fn lemma_spec_bridge_fields_push(s: Seq<(String, UserValue)>, p: (String, UserValue))
    ensures
        spec_bridge_fields(s.push(p)) == spec_bridge_fields(s) + (if p.1 is NoneValue {
            Seq::<(Seq<char>, ValueModel)>::empty()
        } else {
            seq![(p.0@, spec_bridge(p.1))]
        }),
    decreases s.len(),
{
    let tail = if p.1 is NoneValue {
        Seq::<(Seq<char>, ValueModel)>::empty()
    } else {
        seq![(p.0@, spec_bridge(p.1))]
    };
    if s.len() == 0 {
        assert(s.push(p)[0] == p);
        assert(s.push(p).drop_first() =~= Seq::<(String, UserValue)>::empty());
        assert(spec_bridge_fields(s.push(p)) == (if s.push(p)[0].1 is NoneValue {
            spec_bridge_fields(s.push(p).drop_first())
        } else {
            seq![(s.push(p)[0].0@, spec_bridge(s.push(p)[0].1))] + spec_bridge_fields(
                s.push(p).drop_first(),
            )
        }));
        assert(spec_bridge_fields(s.push(p)) =~= spec_bridge_fields(s) + tail);
    } else {
        assert(s.push(p)[0] == s[0]);
        assert(s.push(p).drop_first() =~= s.drop_first().push(p));
        lemma_spec_bridge_fields_push(s.drop_first(), p);
        assert(spec_bridge_fields(s.push(p)) == (if s.push(p)[0].1 is NoneValue {
            spec_bridge_fields(s.push(p).drop_first())
        } else {
            seq![(s.push(p)[0].0@, spec_bridge(s.push(p)[0].1))] + spec_bridge_fields(
                s.push(p).drop_first(),
            )
        }));
        assert(spec_bridge_fields(s.push(p)) =~= spec_bridge_fields(s) + tail);
    }
}

pub proof fn lemma_spec_bridge_map_push(s: Seq<(UserValue, UserValue)>, p: (
    UserValue,
    UserValue,
))
    ensures
        spec_bridge_map(s.push(p)) == spec_bridge_map(s) + (if p.1 is NoneValue {
            Seq::<(Seq<char>, ValueModel)>::empty()
        } else {
            seq![(p.0->Text_0@, spec_bridge(p.1))]
        }),
    decreases s.len(),
{
    let tail = if p.1 is NoneValue {
        Seq::<(Seq<char>, ValueModel)>::empty()
    } else {
        seq![(p.0->Text_0@, spec_bridge(p.1))]
    };
    if s.len() == 0 {
        assert(s.push(p)[0] == p);
        assert(s.push(p).drop_first() =~= Seq::<(UserValue, UserValue)>::empty());
        assert(spec_bridge_map(s.push(p)) == (if s.push(p)[0].1 is NoneValue {
            spec_bridge_map(s.push(p).drop_first())
        } else {
            seq![(s.push(p)[0].0->Text_0@, spec_bridge(s.push(p)[0].1))] + spec_bridge_map(
                s.push(p).drop_first(),
            )
        }));
        assert(spec_bridge_map(s.push(p)) =~= spec_bridge_map(s) + tail);
    } else {
        assert(s.push(p)[0] == s[0]);
        assert(s.push(p).drop_first() =~= s.drop_first().push(p));
        lemma_spec_bridge_map_push(s.drop_first(), p);
        assert(spec_bridge_map(s.push(p)) == (if s.push(p)[0].1 is NoneValue {
            spec_bridge_map(s.push(p).drop_first())
        } else {
            seq![(s.push(p)[0].0->Text_0@, spec_bridge(s.push(p)[0].1))] + spec_bridge_map(
                s.push(p).drop_first(),
            )
        }));
        assert(spec_bridge_map(s.push(p)) =~= spec_bridge_map(s) + tail);
    }
}

/// An encodable value never maps to the End value.
pub proof fn lemma_bridge_not_end(u: UserValue)
    requires
        encodable(u),
    ensures
        !(spec_bridge(u) is End),
    decreases u,
{
    match u {
        UserValue::SomeValue(b) => {
            lemma_bridge_not_end(*b);
        },
        _ => {},
    }
}

/// Every element is a byte scalar.
pub open spec fn all_byte_elems(s: Seq<UserValue>) -> bool {
    forall|i: int| 0 <= i < s.len() ==> s[i] is Byte
}

/// Every element is a 32-bit scalar.
pub open spec fn all_int_elems(s: Seq<UserValue>) -> bool {
    forall|i: int| 0 <= i < s.len() ==> s[i] is Int
}

/// Every element is a 64-bit scalar.
pub open spec fn all_long_elems(s: Seq<UserValue>) -> bool {
    forall|i: int| 0 <= i < s.len() ==> s[i] is Long
}

/// Whether the encoder accepts a value: `Unit` and a bare absent option
/// have no NBT form; a specialized sequence must be uniform in its first
/// element's scalar type; map keys must be text; an absent optional field
/// is allowed (and elided) inside records and maps.
pub open spec fn encodable(u: UserValue) -> bool
    decreases u, 1nat,
{
    match u {
        UserValue::Byte(_) => true,
        UserValue::Short(_) => true,
        UserValue::Int(_) => true,
        UserValue::Long(_) => true,
        UserValue::Float(_) => true,
        UserValue::Double(_) => true,
        UserValue::Bool(_) => true,
        UserValue::Text(_) => true,
        UserValue::Sequence(es) => if es@.len() == 0 {
            true
        } else if es@[0] is Byte {
            all_byte_elems(es@)
        } else if es@[0] is Int {
            all_int_elems(es@)
        } else if es@[0] is Long {
            all_long_elems(es@)
        } else {
            encodable_seq(es@)
        },
        UserValue::Mapping(en) => encodable_map_entries(en@),
        UserValue::Record(_, fs) => encodable_fields(fs@),
        UserValue::Unit => false,
        UserValue::NoneValue => false,
        UserValue::SomeValue(b) => encodable(*b),
        UserValue::UnitVariant(_) => true,
    }
}

pub open spec fn encodable_seq(s: Seq<UserValue>) -> bool
    decreases s, 0nat,
{
    if s.len() == 0 {
        true
    } else {
        encodable(s[0]) && encodable_seq(s.drop_first())
    }
}

pub open spec fn encodable_fields(s: Seq<(String, UserValue)>) -> bool
    decreases s, 0nat,
{
    if s.len() == 0 {
        true
    } else {
        (s[0].1 is NoneValue || encodable(s[0].1)) && encodable_fields(s.drop_first())
    }
}

pub open spec fn encodable_map_entries(s: Seq<(UserValue, UserValue)>) -> bool
    decreases s, 0nat,
{
    if s.len() == 0 {
        true
    } else {
        s[0].0 is Text && (s[0].1 is NoneValue || encodable(s[0].1)) && encodable_map_entries(
            s.drop_first(),
        )
    }
}

/// `encodable_seq` holds exactly when every element is encodable.
pub proof fn lemma_encodable_seq(s: Seq<UserValue>)
    ensures
        encodable_seq(s) <==> (forall|i: int| 0 <= i < s.len() ==> encodable(#[trigger] s[i])),
    decreases s.len(),
{
    if s.len() != 0 {
        lemma_encodable_seq(s.drop_first());
        let t = s.drop_first();
        assert(forall|i: int| 0 <= i < t.len() ==> #[trigger] t[i] == s[i + 1]);
        if encodable_seq(s) {
            assert forall|i: int| 0 <= i < s.len() implies encodable(#[trigger] s[i]) by {
                if i > 0 {
                    assert(s[i] == t[i - 1]);
                }
            }
        }
        if forall|i: int| 0 <= i < s.len() ==> encodable(#[trigger] s[i]) {
            assert forall|i: int| 0 <= i < t.len() implies encodable(#[trigger] t[i]) by {
                assert(t[i] == s[i + 1]);
            }
        }
    }
}

/// `encodable_fields` holds exactly when every field is absent or
/// encodable.
pub proof fn lemma_encodable_fields(s: Seq<(String, UserValue)>)
    ensures
        encodable_fields(s) <==> (forall|i: int|
            #![trigger s[i]]
            0 <= i < s.len() ==> s[i].1 is NoneValue || encodable(s[i].1)),
    decreases s.len(),
{
    if s.len() != 0 {
        lemma_encodable_fields(s.drop_first());
        let t = s.drop_first();
        assert(forall|i: int| 0 <= i < t.len() ==> #[trigger] t[i] == s[i + 1]);
        if encodable_fields(s) {
            assert forall|i: int| #![trigger s[i]] 0 <= i < s.len() implies s[i].1 is NoneValue
                || encodable(s[i].1) by {
                if i > 0 {
                    assert(s[i] == t[i - 1]);
                }
            }
        }
        if forall|i: int| #![trigger s[i]] 0 <= i < s.len() ==> s[i].1 is NoneValue
            || encodable(s[i].1) {
            assert forall|i: int| #![trigger t[i]] 0 <= i < t.len() implies t[i].1 is NoneValue
                || encodable(t[i].1) by {
                assert(t[i] == s[i + 1]);
            }
        }
    }
}

/// `encodable_map_entries` holds exactly when every key is text and every
/// value is absent or encodable.
pub proof fn lemma_encodable_map_entries(s: Seq<(UserValue, UserValue)>)
    ensures
        encodable_map_entries(s) <==> (forall|i: int|
            #![trigger s[i]]
            0 <= i < s.len() ==> s[i].0 is Text && (s[i].1 is NoneValue || encodable(s[i].1))),
    decreases s.len(),
{
    if s.len() != 0 {
        lemma_encodable_map_entries(s.drop_first());
        let t = s.drop_first();
        assert(forall|i: int| 0 <= i < t.len() ==> #[trigger] t[i] == s[i + 1]);
        if encodable_map_entries(s) {
            assert forall|i: int| #![trigger s[i]] 0 <= i < s.len() implies s[i].0 is Text && (
            s[i].1 is NoneValue || encodable(s[i].1)) by {
                if i > 0 {
                    assert(s[i] == t[i - 1]);
                }
            }
        }
        if forall|i: int| #![trigger s[i]] 0 <= i < s.len() ==> s[i].0 is Text && (s[i].1
            is NoneValue || encodable(s[i].1)) {
            assert forall|i: int| #![trigger t[i]] 0 <= i < t.len() implies t[i].0 is Text && (
            t[i].1 is NoneValue || encodable(t[i].1)) by {
                assert(t[i] == s[i + 1]);
            }
        }
    }
}


/// The wire tag each user shape is written with; the shapes with no NBT
/// form report End.
pub open spec fn spec_user_tag(u: UserValue) -> Tag {
    match u {
        UserValue::Byte(_) => Tag::Byte,
        UserValue::Short(_) => Tag::Short,
        UserValue::Int(_) => Tag::Int,
        UserValue::Long(_) => Tag::Long,
        UserValue::Float(_) => Tag::Float,
        UserValue::Double(_) => Tag::Double,
        UserValue::Bool(_) => Tag::Byte,
        UserValue::Text(_) => Tag::String,
        UserValue::Sequence(_) => Tag::List,
        UserValue::Mapping(_) => Tag::Compound,
        UserValue::Record(_, _) => Tag::Compound,
        UserValue::Unit => Tag::End,
        UserValue::NoneValue => Tag::End,
        UserValue::SomeValue(_) => Tag::End,
        UserValue::UnitVariant(_) => Tag::String,
    }
}

impl UserValue {
    /// A sequence of byte scalars collapses to the `ByteArray` tag.
    fn encode_byte_seq(es: &Vec<UserValue>) -> (r: Result<NameLessValue, Error>)
        ensures
            r is Ok <==> all_byte_elems(es@),
            r matches Ok(nv) ==> nv@ == ValueModel::ByteArray(
                Seq::new(es@.len(), |i: int| es@[i]->Byte_0),
            ),
            (forall|i: int| 0 <= i < es@.len() ==> es@[i] is Byte) ==> (r matches Ok(nv) && nv
                is ByteArray && nv->ByteArray_0@.len() == es@.len() && (forall|i: int|
                0 <= i < es@.len() ==> nv->ByteArray_0@[i] == es@[i]->Byte_0)),
    {
        let mut out: Vec<i8> = Vec::new();
        let mut i: usize = 0;
        while i < es.len()
            invariant
                i <= es.len(),
                forall|j: int| 0 <= j < i ==> es@[j] is Byte,
                out@ == Seq::new(i as nat, |j: int| es@[j]->Byte_0),
            decreases es.len() - i,
        {
            match &es[i] {
                UserValue::Byte(x) => out.push(*x),
                other => {
                    proof {
                        assert(!(es@[i as int] is Byte));
                    }
                    return Err(Error::IncorrectTagError(Tag::Byte, other.tag()));
                },
            }
            proof {
                assert(out@ =~= Seq::new((i + 1) as nat, |j: int| es@[j]->Byte_0));
            }
            i = i + 1;
        }
        proof {
            assert(out@.len() == es@.len());
            assert(forall|j: int| 0 <= j < es@.len() ==> out@[j] == es@[j]->Byte_0);
            assert(out@ =~= Seq::new(es@.len(), |i: int| es@[i]->Byte_0));
        }
        Ok(NameLessValue::ByteArray(out))
    }

    /// A sequence of 32-bit scalars collapses to the `IntArray` tag.
    fn encode_int_seq(es: &Vec<UserValue>) -> (r: Result<NameLessValue, Error>)
        ensures
            r is Ok <==> all_int_elems(es@),
            r matches Ok(nv) ==> nv@ == ValueModel::IntArray(
                Seq::new(es@.len(), |i: int| es@[i]->Int_0),
            ),
            (forall|i: int| 0 <= i < es@.len() ==> es@[i] is Int) ==> (r matches Ok(nv) && nv
                is IntArray && nv->IntArray_0@.len() == es@.len() && (forall|i: int|
                0 <= i < es@.len() ==> nv->IntArray_0@[i] == es@[i]->Int_0)),
    {
        let mut out: Vec<i32> = Vec::new();
        let mut i: usize = 0;
        while i < es.len()
            invariant
                i <= es.len(),
                forall|j: int| 0 <= j < i ==> es@[j] is Int,
                out@ == Seq::new(i as nat, |j: int| es@[j]->Int_0),
            decreases es.len() - i,
        {
            match &es[i] {
                UserValue::Int(x) => out.push(*x),
                other => {
                    proof {
                        assert(!(es@[i as int] is Int));
                    }
                    return Err(Error::IncorrectTagError(Tag::Int, other.tag()));
                },
            }
            proof {
                assert(out@ =~= Seq::new((i + 1) as nat, |j: int| es@[j]->Int_0));
            }
            i = i + 1;
        }
        proof {
            assert(out@.len() == es@.len());
            assert(forall|j: int| 0 <= j < es@.len() ==> out@[j] == es@[j]->Int_0);
            assert(out@ =~= Seq::new(es@.len(), |i: int| es@[i]->Int_0));
        }
        Ok(NameLessValue::IntArray(out))
    }

    /// A sequence of 64-bit scalars collapses to the `LongArray` tag.
    fn encode_long_seq(es: &Vec<UserValue>) -> (r: Result<NameLessValue, Error>)
        ensures
            r is Ok <==> all_long_elems(es@),
            r matches Ok(nv) ==> nv@ == ValueModel::LongArray(
                Seq::new(es@.len(), |i: int| es@[i]->Long_0),
            ),
            (forall|i: int| 0 <= i < es@.len() ==> es@[i] is Long) ==> (r matches Ok(nv) && nv
                is LongArray && nv->LongArray_0@.len() == es@.len() && (forall|i: int|
                0 <= i < es@.len() ==> nv->LongArray_0@[i] == es@[i]->Long_0)),
    {
        let mut out: Vec<i64> = Vec::new();
        let mut i: usize = 0;
        while i < es.len()
            invariant
                i <= es.len(),
                forall|j: int| 0 <= j < i ==> es@[j] is Long,
                out@ == Seq::new(i as nat, |j: int| es@[j]->Long_0),
            decreases es.len() - i,
        {
            match &es[i] {
                UserValue::Long(x) => out.push(*x),
                other => {
                    proof {
                        assert(!(es@[i as int] is Long));
                    }
                    return Err(Error::IncorrectTagError(Tag::Long, other.tag()));
                },
            }
            proof {
                assert(out@ =~= Seq::new((i + 1) as nat, |j: int| es@[j]->Long_0));
            }
            i = i + 1;
        }
        proof {
            assert(out@.len() == es@.len());
            assert(forall|j: int| 0 <= j < es@.len() ==> out@[j] == es@[j]->Long_0);
            assert(out@ =~= Seq::new(es@.len(), |i: int| es@[i]->Long_0));
        }
        Ok(NameLessValue::LongArray(out))
    }

    /// The wire tag this value would be written with.
    pub fn tag(&self) -> (r: Tag)
        ensures
            r == spec_user_tag(*self),
    {
        match self {
            UserValue::Byte(_) => Tag::Byte,
            UserValue::Short(_) => Tag::Short,
            UserValue::Int(_) => Tag::Int,
            UserValue::Long(_) => Tag::Long,
            UserValue::Float(_) => Tag::Float,
            UserValue::Double(_) => Tag::Double,
            UserValue::Bool(_) => Tag::Byte,
            UserValue::Text(_) => Tag::String,
            UserValue::Sequence(_) => Tag::List,
            UserValue::Mapping(_) => Tag::Compound,
            UserValue::Record(_, _) => Tag::Compound,
            UserValue::Unit => Tag::End,
            UserValue::NoneValue => Tag::End,
            UserValue::SomeValue(_) => Tag::End,
            UserValue::UnitVariant(_) => Tag::String,
        }
    }

    /// Maps one value into the nameless NBT tree.  The header of a
    /// sequence is chosen by its first element: bytes, ints and longs
    /// collapse to their array tags, everything else is a generic list.
    /// `Unit` and a bare `None` have no NBT form.
    pub fn encode_nameless(&self) -> (r: Result<NameLessValue, Error>)
        ensures
            r is Ok <==> encodable(*self),
            r matches Ok(nv) ==> nv@ == spec_bridge(*self),
            self is Sequence && all_int_elems(self->Sequence_0@) && self->Sequence_0@.len() > 0
                ==> (r matches Ok(nv) && nv is IntArray && nv->IntArray_0@.len()
                == self->Sequence_0@.len() && (forall|i: int|
                0 <= i < self->Sequence_0@.len() ==> nv->IntArray_0@[i]
                    == self->Sequence_0@[i]->Int_0)),
            self is Sequence && all_byte_elems(self->Sequence_0@) && self->Sequence_0@.len() > 0
                ==> (r matches Ok(nv) && nv is ByteArray && nv->ByteArray_0@.len()
                == self->Sequence_0@.len() && (forall|i: int|
                0 <= i < self->Sequence_0@.len() ==> nv->ByteArray_0@[i]
                    == self->Sequence_0@[i]->Byte_0)),
            self is Sequence && all_long_elems(self->Sequence_0@) && self->Sequence_0@.len() > 0
                ==> (r matches Ok(nv) && nv is LongArray && nv->LongArray_0@.len()
                == self->Sequence_0@.len() && (forall|i: int|
                0 <= i < self->Sequence_0@.len() ==> nv->LongArray_0@[i]
                    == self->Sequence_0@[i]->Long_0)),
        decreases self, 1nat,
    {
        match self {
            UserValue::Byte(x) => Ok(NameLessValue::Byte(*x)),
            UserValue::Short(x) => Ok(NameLessValue::Short(*x)),
            UserValue::Int(x) => Ok(NameLessValue::Int(*x)),
            UserValue::Long(x) => Ok(NameLessValue::Long(*x)),
            UserValue::Float(bits) => Ok(NameLessValue::Float(*bits)),
            UserValue::Double(bits) => Ok(NameLessValue::Double(*bits)),
            UserValue::Bool(b) => Ok(NameLessValue::Boolean(*b)),
            UserValue::Text(s) => Ok(NameLessValue::String(s.clone())),
            UserValue::Sequence(es) => {
                if es.len() == 0 {
                    let empty_list: Vec<NameLessValue> = Vec::new();
                    proof {
                        assert(view_nameless_seq(empty_list@) =~= Seq::<ValueModel>::empty());
                    }
                    return Ok(NameLessValue::List(empty_list));
                }
                match &es[0] {
                    UserValue::Byte(_) => Self::encode_byte_seq(es),
                    UserValue::Int(_) => Self::encode_int_seq(es),
                    UserValue::Long(_) => Self::encode_long_seq(es),
                    _ => {
                        proof {
                            assert(!(es@[0] is Byte) && !(es@[0] is Int) && !(es@[0] is Long));
                        }
                        let out = Self::encode_list_elems(es)?;
                        Ok(NameLessValue::List(out))
                    },
                }
            },
            UserValue::Mapping(entries) => {
                let vs = Self::encode_entries_of_map(entries)?;
                Ok(NameLessValue::Compound(vs))
            },
            UserValue::Record(_, fields) => {
                let vs = Self::encode_fields(fields)?;
                Ok(NameLessValue::Compound(vs))
            },
            UserValue::Unit => Err(Error::UnrepresentableValueError("unit has no NBT form")),
            UserValue::NoneValue => Err(
                Error::UnrepresentableValueError("a bare absent option has no NBT form"),
            ),
            UserValue::SomeValue(inner) => inner.encode_nameless(),
            UserValue::UnitVariant(s) => Ok(NameLessValue::String(s.clone())),
        }
    }

    fn encode_list_elems(es: &Vec<UserValue>) -> (r: Result<Vec<NameLessValue>, Error>)
        ensures
            r is Ok <==> encodable_seq(es@),
            r matches Ok(out) ==> view_nameless_seq(out@) == spec_bridge_seq(es@),
        decreases es, 0nat,
    {
        proof {
            lemma_encodable_seq(es@);
            assert(es@.take(0) =~= Seq::<UserValue>::empty());
        }
        let mut out: Vec<NameLessValue> = Vec::new();
        let mut i: usize = 0;
        while i < es.len()
            invariant
                i <= es.len(),
                forall|j: int| 0 <= j < i ==> encodable(#[trigger] es@[j]),
                view_nameless_seq(out@) == spec_bridge_seq(es@.take(i as int)),
            decreases es.len() - i,
        {
            let nv = match es[i].encode_nameless() {
                Ok(nv) => nv,
                Err(e) => {
                    proof {
                        lemma_encodable_seq(es@);
                        assert(!encodable(es@[i as int]));
                    }
                    return Err(e);
                },
            };
            let ghost prev = out@;
            out.push(nv);
            proof {
                assert(out@ =~= prev.push(out@.last()));
                crate::value::lemma_view_nameless_seq_push(prev, out@.last());
                lemma_spec_bridge_seq_push(es@.take(i as int), es@[i as int]);
                assert(es@.take(i as int).push(es@[i as int]) =~= es@.take(i as int + 1));
            }
            i = i + 1;
        }
        proof {
            lemma_encodable_seq(es@);
            assert(es@.take(es@.len() as int) =~= es@);
        }
        Ok(out)
    }

    /// Record fields become named compound entries; an absent optional
    /// field is elided.
    fn encode_fields(fields: &Vec<(String, UserValue)>) -> (r: Result<Vec<Value>, Error>)
        ensures
            r is Ok <==> encodable_fields(fields@),
            r matches Ok(vs) ==> view_value_seq(vs@) == spec_bridge_fields(fields@),
        decreases fields, 0nat,
    {
        proof {
            lemma_encodable_fields(fields@);
            assert(fields@.take(0) =~= Seq::<(String, UserValue)>::empty());
        }
        let mut out: Vec<Value> = Vec::new();
        let mut i: usize = 0;
        while i < fields.len()
            invariant
                i <= fields.len(),
                forall|j: int|
                    #![trigger fields@[j]]
                    0 <= j < i ==> fields@[j].1 is NoneValue || encodable(fields@[j].1),
                view_value_seq(out@) == spec_bridge_fields(fields@.take(i as int)),
            decreases fields.len() - i,
        {
            let fv = &fields[i].1;
            match fv {
                UserValue::NoneValue => {
                    proof {
                        lemma_spec_bridge_fields_push(
                            fields@.take(i as int),
                            fields@[i as int],
                        );
                        assert(fields@.take(i as int).push(fields@[i as int]) =~= fields@.take(
                            i as int + 1,
                        ));
                        assert(spec_bridge_fields(fields@.take(i as int + 1))
                            =~= spec_bridge_fields(fields@.take(i as int)));
                    }
                },
                _ => {
                    let nv = match fv.encode_nameless() {
                        Ok(nv) => nv,
                        Err(e) => {
                            proof {
                                lemma_encodable_fields(fields@);
                                assert(!encodable(fields@[i as int].1));
                            }
                            return Err(e);
                        },
                    };
                    proof {
                        lemma_bridge_not_end(fields@[i as int].1);
                    }
                    let ghost prev = out@;
                    out.push(nv.with_name(fields[i].0.clone()));
                    proof {
                        assert(out@ =~= prev.push(out@.last()));
                        crate::value::lemma_view_value_seq_push(prev, out@.last());
                        lemma_spec_bridge_fields_push(
                            fields@.take(i as int),
                            fields@[i as int],
                        );
                        assert(fields@.take(i as int).push(fields@[i as int]) =~= fields@.take(
                            i as int + 1,
                        ));
                        assert(view_value_seq(out@) =~= spec_bridge_fields(fields@.take(
                            i as int + 1,
                        )));
                    }
                },
            }
            i = i + 1;
        }
        proof {
            lemma_encodable_fields(fields@);
            assert(fields@.take(fields@.len() as int) =~= fields@);
        }
        Ok(out)
    }

    /// Map entries become named compound entries; a key that is not a
    /// string is `KeyMustBeString`.
    fn encode_entries_of_map(entries: &Vec<(UserValue, UserValue)>) -> (r: Result<
        Vec<Value>,
        Error,
    >)
        ensures
            r is Ok <==> encodable_map_entries(entries@),
            r matches Ok(vs) ==> view_value_seq(vs@) == spec_bridge_map(entries@),
        decreases entries, 0nat,
    {
        proof {
            lemma_encodable_map_entries(entries@);
            assert(entries@.take(0) =~= Seq::<(UserValue, UserValue)>::empty());
        }
        let mut out: Vec<Value> = Vec::new();
        let mut i: usize = 0;
        while i < entries.len()
            invariant
                i <= entries.len(),
                forall|j: int|
                    #![trigger entries@[j]]
                    0 <= j < i ==> entries@[j].0 is Text && (entries@[j].1 is NoneValue
                        || encodable(entries@[j].1)),
                view_value_seq(out@) == spec_bridge_map(entries@.take(i as int)),
            decreases entries.len() - i,
        {
            let name: String = match &entries[i].0 {
                UserValue::Text(s) => s.clone(),
                _ => {
                    proof {
                        lemma_encodable_map_entries(entries@);
                        assert(!(entries@[i as int].0 is Text));
                    }
                    return Err(Error::KeyMustBeString);
                },
            };
            match &entries[i].1 {
                UserValue::NoneValue => {
                    proof {
                        lemma_spec_bridge_map_push(
                            entries@.take(i as int),
                            entries@[i as int],
                        );
                        assert(entries@.take(i as int).push(entries@[i as int])
                            =~= entries@.take(i as int + 1));
                        assert(spec_bridge_map(entries@.take(i as int + 1)) =~= spec_bridge_map(
                            entries@.take(i as int),
                        ));
                    }
                },
                fv => {
                    let nv = match fv.encode_nameless() {
                        Ok(nv) => nv,
                        Err(e) => {
                            proof {
                                lemma_encodable_map_entries(entries@);
                                assert(!encodable(entries@[i as int].1));
                            }
                            return Err(e);
                        },
                    };
                    proof {
                        lemma_bridge_not_end(entries@[i as int].1);
                    }
                    let ghost prev = out@;
                    out.push(nv.with_name(name));
                    proof {
                        assert(out@ =~= prev.push(out@.last()));
                        crate::value::lemma_view_value_seq_push(prev, out@.last());
                        lemma_spec_bridge_map_push(
                            entries@.take(i as int),
                            entries@[i as int],
                        );
                        assert(entries@.take(i as int).push(entries@[i as int])
                            =~= entries@.take(i as int + 1));
                        assert(view_value_seq(out@) =~= spec_bridge_map(entries@.take(
                            i as int + 1,
                        )));
                    }
                },
            }
            i = i + 1;
        }
        proof {
            lemma_encodable_map_entries(entries@);
            assert(entries@.take(entries@.len() as int) =~= entries@);
        }
        Ok(out)
    }

    /// The top of a document must be a record or a map, which becomes the
    /// named (or nameless) top-level compound; everything else is an
    /// unrepresentable root.
    pub fn to_value(&self) -> (r: Result<Value, Error>)
        ensures
            r is Ok <==> (self is Record && encodable_fields(self->Record_1@)) || (self
                is Mapping && encodable_map_entries(self->Mapping_0@)),
            self is Record ==> (r matches Ok(v) ==> v@ == (
                self->Record_0@,
                ValueModel::Compound(spec_bridge_fields(self->Record_1@)),
            )),
            self is Mapping ==> (r matches Ok(v) ==> v@ == (
                Seq::<char>::empty(),
                ValueModel::Compound(spec_bridge_map(self->Mapping_0@)),
            )),
            !(self is Record) && !(self is Mapping) ==> (r matches Err(e)
                && e matches Error::UnrepresentableValueError(m)),
    {
        match self {
            UserValue::Record(name, fields) => {
                let vs = Self::encode_fields(fields)?;
                proof {
                    crate::value::lemma_view_value_seq(vs@);
                }
                Ok(Value::Compound { name: name.clone(), value: vs })
            },
            UserValue::Mapping(entries) => {
                let vs = Self::encode_entries_of_map(entries)?;
                proof {
                    crate::value::lemma_view_value_seq(vs@);
                }
                Ok(Value::Compound { name: String::new(), value: vs })
            },
            _ => Err(
                Error::UnrepresentableValueError("the top-level value must be a record or a map"),
            ),
        }
    }

    /// Reads a user value back from a nameless NBT tree, choosing the
    /// canonical shapes: arrays become sequences of their scalars, and a
    /// compound becomes a record with an empty name.
    pub fn from_nameless(v: &NameLessValue) -> (r: Result<UserValue, Error>)
        ensures
            r is Ok <==> end_free(v@),
            r matches Ok(u) ==> match v@ {
                ValueModel::Byte(x) => u == UserValue::Byte(x),
                ValueModel::Short(x) => u == UserValue::Short(x),
                ValueModel::Int(x) => u == UserValue::Int(x),
                ValueModel::Long(x) => u == UserValue::Long(x),
                ValueModel::Float(bits) => u == UserValue::Float(bits),
                ValueModel::Double(bits) => u == UserValue::Double(bits),
                ValueModel::Boolean(b) => u == UserValue::Bool(b),
                ValueModel::Str(t) => u matches UserValue::Text(s2) && s2@ == t,
                ValueModel::List(_) => u is Sequence,
                ValueModel::ByteArray(_) => u is Sequence,
                ValueModel::IntArray(_) => u is Sequence,
                ValueModel::LongArray(_) => u is Sequence,
                ValueModel::Compound(_) => u matches UserValue::Record(nm, _) && nm@
                    == Seq::<char>::empty(),
                ValueModel::End => false,
            },
        decreases v, 1nat,
    {
        match v {
            NameLessValue::End => Err(Error::NBTErr(NBTError::UnexpectedEnd)),
            NameLessValue::Byte(x) => Ok(UserValue::Byte(*x)),
            NameLessValue::Short(x) => Ok(UserValue::Short(*x)),
            NameLessValue::Int(x) => Ok(UserValue::Int(*x)),
            NameLessValue::Long(x) => Ok(UserValue::Long(*x)),
            NameLessValue::Float(bits) => Ok(UserValue::Float(*bits)),
            NameLessValue::Double(bits) => Ok(UserValue::Double(*bits)),
            NameLessValue::Boolean(b) => Ok(UserValue::Bool(*b)),
            NameLessValue::String(s) => Ok(UserValue::Text(s.clone())),
            NameLessValue::ByteArray(bs) => {
                let mut out: Vec<UserValue> = Vec::new();
                let mut i: usize = 0;
                while i < bs.len()
                    invariant
                        i <= bs.len(),
                    decreases bs.len() - i,
                {
                    out.push(UserValue::Byte(bs[i]));
                    i = i + 1;
                }
                Ok(UserValue::Sequence(out))
            },
            NameLessValue::IntArray(bs) => {
                let mut out: Vec<UserValue> = Vec::new();
                let mut i: usize = 0;
                while i < bs.len()
                    invariant
                        i <= bs.len(),
                    decreases bs.len() - i,
                {
                    out.push(UserValue::Int(bs[i]));
                    i = i + 1;
                }
                Ok(UserValue::Sequence(out))
            },
            NameLessValue::LongArray(bs) => {
                let mut out: Vec<UserValue> = Vec::new();
                let mut i: usize = 0;
                while i < bs.len()
                    invariant
                        i <= bs.len(),
                    decreases bs.len() - i,
                {
                    out.push(UserValue::Long(bs[i]));
                    i = i + 1;
                }
                Ok(UserValue::Sequence(out))
            },
            NameLessValue::List(es) => {
                proof {
                    lemma_end_free_list(view_nameless_seq(es@));
                    lemma_view_nameless_seq(es@);
                }
                let out = Self::from_list_elems(es)?;
                Ok(UserValue::Sequence(out))
            },
            NameLessValue::Compound(vs) => {
                proof {
                    lemma_end_free_compound(view_value_seq(vs@));
                    lemma_view_value_seq(vs@);
                }
                let fields = Self::fields_from_entries(vs)?;
                Ok(UserValue::Record(String::new(), fields))
            },
        }
    }

    fn from_list_elems(es: &Vec<NameLessValue>) -> (r: Result<Vec<UserValue>, Error>)
        ensures
            r is Ok <==> (forall|j: int|
                0 <= j < es@.len() ==> end_free(#[trigger] view_nameless_seq(es@)[j])),
        decreases es, 0nat,
    {
        proof {
            lemma_view_nameless_seq(es@);
        }
        let mut out: Vec<UserValue> = Vec::new();
        let mut i: usize = 0;
        while i < es.len()
            invariant
                i <= es.len(),
                view_nameless_seq(es@).len() == es@.len(),
                forall|k: int|
                    0 <= k < es@.len() ==> #[trigger] view_nameless_seq(es@)[k]
                        == crate::value::view_nameless(es@[k]),
                forall|j: int| 0 <= j < i ==> end_free(#[trigger] view_nameless_seq(es@)[j]),
            decreases es.len() - i,
        {
            let uv = match Self::from_nameless(&es[i]) {
                Ok(uv) => uv,
                Err(e) => {
                    proof {
                        assert(!end_free(view_nameless_seq(es@)[i as int]));
                    }
                    return Err(e);
                },
            };
            out.push(uv);
            i = i + 1;
        }
        Ok(out)
    }

    fn fields_from_entries(vs: &Vec<Value>) -> (r: Result<Vec<(String, UserValue)>, Error>)
        ensures
            r is Ok <==> (forall|j: int|
                0 <= j < vs@.len() ==> end_free(#[trigger] view_value_seq(vs@)[j].1)),
            r matches Ok(fs) ==> fs@.len() == vs@.len() && (forall|j: int|
                0 <= j < vs@.len() ==> (#[trigger] fs@[j]).0@ == view_value_seq(vs@)[j].0),
        decreases vs, 0nat,
    {
        proof {
            lemma_view_value_seq(vs@);
        }
        let mut out: Vec<(String, UserValue)> = Vec::new();
        let mut i: usize = 0;
        while i < vs.len()
            invariant
                i <= vs.len(),
                out@.len() == i,
                view_value_seq(vs@).len() == vs@.len(),
                forall|k: int|
                    0 <= k < vs@.len() ==> #[trigger] view_value_seq(vs@)[k]
                        == crate::value::view_value(vs@[k]),
                forall|j: int| 0 <= j < i ==> end_free(#[trigger] view_value_seq(vs@)[j].1),
                forall|j: int|
                    0 <= j < i ==> (#[trigger] out@[j]).0@ == view_value_seq(vs@)[j].0,
            decreases vs.len() - i,
        {
            let uv = match Self::from_entry(&vs[i]) {
                Ok(uv) => uv,
                Err(e) => {
                    proof {
                        assert(!end_free(view_value_seq(vs@)[i as int].1));
                    }
                    return Err(e);
                },
            };
            out.push(uv);
            i = i + 1;
        }
        Ok(out)
    }

    fn from_entry(v: &Value) -> (r: Result<(String, UserValue), Error>)
        ensures
            r is Ok <==> end_free(v@.1),
            r matches Ok(p) ==> p.0@ == v@.0,
        decreases v, 1nat,
    {
        match v {
            Value::End => Err(Error::NBTErr(NBTError::UnexpectedEnd)),
            Value::Byte { name, value } => Ok((name.clone(), UserValue::Byte(*value))),
            Value::Short { name, value } => Ok((name.clone(), UserValue::Short(*value))),
            Value::Int { name, value } => Ok((name.clone(), UserValue::Int(*value))),
            Value::Long { name, value } => Ok((name.clone(), UserValue::Long(*value))),
            Value::Float { name, value } => Ok((name.clone(), UserValue::Float(*value))),
            Value::Double { name, value } => Ok((name.clone(), UserValue::Double(*value))),
            Value::Boolean { name, value } => Ok((name.clone(), UserValue::Bool(*value))),
            Value::String { name, value } => Ok((name.clone(), UserValue::Text(value.clone()))),
            Value::ByteArray { name, value } => {
                let mut out: Vec<UserValue> = Vec::new();
                let mut i: usize = 0;
                while i < value.len()
                    invariant
                        i <= value.len(),
                    decreases value.len() - i,
                {
                    out.push(UserValue::Byte(value[i]));
                    i = i + 1;
                }
                Ok((name.clone(), UserValue::Sequence(out)))
            },
            Value::IntArray { name, value } => {
                let mut out: Vec<UserValue> = Vec::new();
                let mut i: usize = 0;
                while i < value.len()
                    invariant
                        i <= value.len(),
                    decreases value.len() - i,
                {
                    out.push(UserValue::Int(value[i]));
                    i = i + 1;
                }
                Ok((name.clone(), UserValue::Sequence(out)))
            },
            Value::LongArray { name, value } => {
                let mut out: Vec<UserValue> = Vec::new();
                let mut i: usize = 0;
                while i < value.len()
                    invariant
                        i <= value.len(),
                    decreases value.len() - i,
                {
                    out.push(UserValue::Long(value[i]));
                    i = i + 1;
                }
                Ok((name.clone(), UserValue::Sequence(out)))
            },
            Value::List { name, value } => {
                proof {
                    lemma_end_free_list(view_nameless_seq(value@));
                    lemma_view_nameless_seq(value@);
                }
                let out = Self::from_list_elems(value)?;
                Ok((name.clone(), UserValue::Sequence(out)))
            },
            Value::Compound { name, value } => {
                proof {
                    lemma_end_free_compound(view_value_seq(value@));
                    lemma_view_value_seq(value@);
                }
                let fields = Self::fields_from_entries(value)?;
                Ok((name.clone(), UserValue::Record(String::new(), fields)))
            },
        }
    }

    /// Reads a user record back from a decoded document: the top-level
    /// value must be a compound.
    pub fn from_value(v: &Value) -> (r: Result<UserValue, Error>)
        ensures
            r is Ok <==> v@.1 is Compound && end_free(v@.1),
            r matches Ok(uv) ==> uv is Record && uv->Record_0@ == v@.0,
            !(v@.1 is Compound) ==> r == Err::<UserValue, Error>(
                Error::IncorrectTagError(Tag::Compound, tag_of(v@.1)),
            ),
    {
        match v {
            Value::Compound { name, value } => {
                proof {
                    lemma_end_free_compound(view_value_seq(value@));
                    lemma_view_value_seq(value@);
                }
                let fields = Self::fields_from_entries(value)?;
                Ok(UserValue::Record(name.clone(), fields))
            },
            _ => Err(Error::IncorrectTagError(Tag::Compound, v.tag())),
        }
    }
}

} // verus!
