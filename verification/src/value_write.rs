//! Writing a `Value` tree to the binary wire format.
//!
//! Success is owed exactly on `writable` values: trees with no `End` inside
//! them whose string and sequence lengths fit their wire fields.  On an
//! error the sink may hold a partially written entry, as the bytes are
//! flushed while the tree is walked.

use vstd::prelude::*;
use crate::bytes::{push_u16_be, push_u32_be, push_u64_be, i8_to_wire, i16_to_wire, i32_to_wire,
    i64_to_wire};
use crate::error::NBTError;
use crate::model::{
    lemma_encode_elems_push, lemma_encode_entries_push, lemma_encode_i32s_push,
    lemma_encode_i64s_push, lemma_encode_i8s_push, spec_encode_elems, spec_encode_entries,
    spec_encode_i32s, spec_encode_i64s, spec_encode_i8s, spec_encode_named, spec_encode_payload,
    str_fits, writable, ValueModel,
};
use crate::value::{
    lemma_view_nameless_seq, lemma_view_value_seq, view_nameless_seq, view_value_seq,
    NameLessValue, Value,
};
use crate::writer::NBTWriter;
use crate::tag::Tag;

verus! {

broadcast use vstd::std_specs::vec::group_vec_axioms;

impl NBTWriter {
    fn write_i8s(&mut self, v: &Vec<i8>)
        ensures
            final(self).target@ == old(self).target@ + spec_encode_i8s(v@),
    {
        let mut i: usize = 0;
        proof {
            assert(v@.take(0) =~= Seq::<i8>::empty());
        }
        while i < v.len()
            invariant
                i <= v.len(),
                self.target@ == old(self).target@ + spec_encode_i8s(v@.take(i as int)),
            decreases v.len() - i,
        {
            self.target.push(i8_to_wire(v[i]));
            proof {
                lemma_encode_i8s_push(v@.take(i as int), v@[i as int]);
                assert(v@.take(i as int).push(v@[i as int]) =~= v@.take(i + 1));
                assert(self.target@ =~= old(self).target@ + spec_encode_i8s(v@.take(i + 1)));
            }
            i = i + 1;
        }
        proof {
            assert(v@.take(v@.len() as int) =~= v@);
        }
    }

    fn write_i32s(&mut self, v: &Vec<i32>)
        ensures
            final(self).target@ == old(self).target@ + spec_encode_i32s(v@),
    {
        let mut i: usize = 0;
        proof {
            assert(v@.take(0) =~= Seq::<i32>::empty());
        }
        while i < v.len()
            invariant
                i <= v.len(),
                self.target@ == old(self).target@ + spec_encode_i32s(v@.take(i as int)),
            decreases v.len() - i,
        {
            push_u32_be(&mut self.target, i32_to_wire(v[i]));
            proof {
                lemma_encode_i32s_push(v@.take(i as int), v@[i as int]);
                assert(v@.take(i as int).push(v@[i as int]) =~= v@.take(i + 1));
                assert(self.target@ =~= old(self).target@ + spec_encode_i32s(v@.take(i + 1)));
            }
            i = i + 1;
        }
        proof {
            assert(v@.take(v@.len() as int) =~= v@);
        }
    }

    fn write_i64s(&mut self, v: &Vec<i64>)
        ensures
            final(self).target@ == old(self).target@ + spec_encode_i64s(v@),
    {
        let mut i: usize = 0;
        proof {
            assert(v@.take(0) =~= Seq::<i64>::empty());
        }
        while i < v.len()
            invariant
                i <= v.len(),
                self.target@ == old(self).target@ + spec_encode_i64s(v@.take(i as int)),
            decreases v.len() - i,
        {
            push_u64_be(&mut self.target, i64_to_wire(v[i]));
            proof {
                lemma_encode_i64s_push(v@.take(i as int), v@[i as int]);
                assert(v@.take(i as int).push(v@[i as int]) =~= v@.take(i + 1));
                assert(self.target@ =~= old(self).target@ + spec_encode_i64s(v@.take(i + 1)));
            }
            i = i + 1;
        }
        proof {
            assert(v@.take(v@.len() as int) =~= v@);
        }
    }

    /// Writes the payload of a nameless value: what follows a list header
    /// for each element.  Succeeds exactly on writable values.
    pub fn write_nameless_value(&mut self, value: &NameLessValue) -> (r: Result<(), NBTError>)
        ensures
            r is Ok <==> writable(value@),
            r is Ok ==> final(self).target@ == old(self).target@ + spec_encode_payload(value@),
            value@ is End ==> r == Err::<(), NBTError>(NBTError::UnexpectedEnd)
                && final(self).target == old(self).target,
        decreases value, 1nat,
    {
        match value {
            NameLessValue::End => Err(NBTError::UnexpectedEnd),
            NameLessValue::Byte(x) => {
                self.target.push(i8_to_wire(*x));
                proof {
                    assert(self.target@ =~= old(self).target@ + spec_encode_payload(value@));
                }
                Ok(())
            },
            NameLessValue::Short(x) => {
                push_u16_be(&mut self.target, i16_to_wire(*x));
                Ok(())
            },
            NameLessValue::Int(x) => {
                push_u32_be(&mut self.target, i32_to_wire(*x));
                Ok(())
            },
            NameLessValue::Long(x) => {
                push_u64_be(&mut self.target, i64_to_wire(*x));
                Ok(())
            },
            NameLessValue::Float(bits) => {
                push_u32_be(&mut self.target, *bits);
                Ok(())
            },
            NameLessValue::Double(bits) => {
                push_u64_be(&mut self.target, *bits);
                Ok(())
            },
            NameLessValue::ByteArray(v) => {
                if v.len() > 0x7FFF_FFFF {
                    return Err(NBTError::IO);
                }
                push_u32_be(&mut self.target, v.len() as u32);
                self.write_i8s(v);
                Ok(())
            },
            NameLessValue::String(s) => {
                if s.as_str().as_bytes().len() > 0xFFFF {
                    return Err(NBTError::IO);
                }
                self.write_string(s.as_str());
                Ok(())
            },
            NameLessValue::List(es) => {
                proof {
                    lemma_view_nameless_seq(es@);
                }
                self.write_list_body(es)
            },
            NameLessValue::Compound(vs) => {
                proof {
                    lemma_view_value_seq(vs@);
                }
                let r = self.write_entries(vs);
                if r.is_err() {
                    proof {
                        crate::model::lemma_writable_compound(view_value_seq(vs@));
                    }
                    return r;
                }
                self.target.push(0u8);
                proof {
                    assert(self.target@ =~= old(self).target@ + spec_encode_payload(value@));
                }
                Ok(())
            },
            NameLessValue::IntArray(v) => {
                if v.len() > 0x7FFF_FFFF {
                    return Err(NBTError::IO);
                }
                push_u32_be(&mut self.target, v.len() as u32);
                self.write_i32s(v);
                Ok(())
            },
            NameLessValue::LongArray(v) => {
                if v.len() > 0x7FFF_FFFF {
                    return Err(NBTError::IO);
                }
                push_u32_be(&mut self.target, v.len() as u32);
                self.write_i64s(v);
                Ok(())
            },
            NameLessValue::Boolean(b) => {
                self.target.push(if *b {
                    1u8
                } else {
                    0u8
                });
                proof {
                    assert(self.target@ =~= old(self).target@ + spec_encode_payload(value@));
                }
                Ok(())
            },
        }
    }

    /// The body of a generic list: element-type byte, length, elements.
    fn write_list_body(&mut self, es: &Vec<NameLessValue>) -> (r: Result<(), NBTError>)
        ensures
            r is Ok <==> writable(ValueModel::List(view_nameless_seq(es@))),
            r is Ok ==> final(self).target@ == old(self).target@ + spec_encode_payload(
                ValueModel::List(view_nameless_seq(es@)),
            ),
        decreases es, 0nat,
    {
        proof {
            lemma_view_nameless_seq(es@);
        }
        if es.len() > 0x7FFF_FFFF {
            return Err(NBTError::IO);
        }
        let elem_tag: Tag = if es.len() == 0 {
            Tag::End
        } else {
            es[0].tag()
        };
        self.write_tag_id(elem_tag);
        push_u32_be(&mut self.target, es.len() as u32);
        let ghost entry_state = self.target@;
        let mut i: usize = 0;
        proof {
            assert(view_nameless_seq(es@).take(0) =~= Seq::<ValueModel>::empty());
        }
        while i < es.len()
            invariant
                i <= es.len(),
                self.target@ == entry_state + spec_encode_elems(
                    view_nameless_seq(es@).take(i as int),
                ),
                forall|j: int| 0 <= j < i ==> writable(#[trigger] view_nameless_seq(es@)[j]),
                entry_state == old(self).target@ + seq![
                    crate::bytes::u8_of_i8(
                        crate::tag::spec_tag_id(crate::model::list_elem_tag(view_nameless_seq(es@))),
                    ),
                ] + crate::bytes::spec_u32_to_be_bytes(es@.len() as u32),
                es@.len() <= 0x7FFF_FFFF,
            decreases es.len() - i,
        {
            proof {
                lemma_view_nameless_seq(es@);
            }
            let r = self.write_nameless_value(&es[i]);
            if r.is_err() {
                proof {
                    assert(!writable(view_nameless_seq(es@)[i as int]));
                }
                return Err(NBTError::UnexpectedEnd);
            }
            proof {
                lemma_encode_elems_push(
                    view_nameless_seq(es@).take(i as int),
                    view_nameless_seq(es@)[i as int],
                );
                assert(view_nameless_seq(es@).take(i as int).push(view_nameless_seq(es@)[i as int])
                    =~= view_nameless_seq(es@).take(i + 1));
            }
            i = i + 1;
        }
        proof {
            let vm = view_nameless_seq(es@);
            assert(vm.take(vm.len() as int) =~= vm);
            assert(self.target@ =~= old(self).target@ + spec_encode_payload(
                ValueModel::List(vm),
            ));
        }
        Ok(())
    }

    /// The named entries of a compound, without the closing End byte.
    fn write_entries(&mut self, vs: &Vec<Value>) -> (r: Result<(), NBTError>)
        ensures
            r is Ok <==> forall|j: int|
                #![trigger view_value_seq(vs@)[j]]
                0 <= j < vs@.len() ==> str_fits(view_value_seq(vs@)[j].0) && writable(
                    view_value_seq(vs@)[j].1,
                ),
            r is Ok ==> final(self).target@ == old(self).target@ + spec_encode_entries(
                view_value_seq(vs@),
            ),
        decreases vs, 0nat,
    {
        proof {
            lemma_view_value_seq(vs@);
        }
        let mut i: usize = 0;
        proof {
            assert(view_value_seq(vs@).take(0) =~= Seq::<(Seq<char>, ValueModel)>::empty());
        }
        while i < vs.len()
            invariant
                i <= vs.len(),
                self.target@ == old(self).target@ + spec_encode_entries(
                    view_value_seq(vs@).take(i as int),
                ),
                forall|j: int|
                    #![trigger view_value_seq(vs@)[j]]
                    0 <= j < i ==> str_fits(view_value_seq(vs@)[j].0) && writable(
                        view_value_seq(vs@)[j].1,
                    ),
            decreases vs.len() - i,
        {
            proof {
                lemma_view_value_seq(vs@);
            }
            let r = self.write_value(&vs[i]);
            if r.is_err() {
                return r;
            }
            proof {
                lemma_encode_entries_push(
                    view_value_seq(vs@).take(i as int),
                    view_value_seq(vs@)[i as int].0,
                    view_value_seq(vs@)[i as int].1,
                );
                assert(view_value_seq(vs@).take(i as int).push(view_value_seq(vs@)[i as int]) =~=
                    view_value_seq(vs@).take(i + 1));
            }
            i = i + 1;
        }
        proof {
            let vm = view_value_seq(vs@);
            assert(vm.take(vm.len() as int) =~= vm);
        }
        Ok(())
    }

    /// Writes one named value: tag byte, name, payload.  Succeeds exactly
    /// when the name fits its u16 prefix and the payload is writable.
    #[verifier::rlimit(100)]
    #[verifier::spinoff_prover]
    pub fn write_value(&mut self, value: &Value) -> (r: Result<(), NBTError>)
        ensures
            r is Ok <==> str_fits(value@.0) && writable(value@.1),
            r is Ok ==> final(self).target@ == old(self).target@ + spec_encode_named(
                value@.0,
                value@.1,
            ),
            value@.1 is End ==> r == Err::<(), NBTError>(NBTError::UnexpectedEnd)
                && final(self).target == old(self).target,
            !(value@.1 is End) && !str_fits(value@.0) ==> r == Err::<(), NBTError>(NBTError::IO)
                && final(self).target == old(self).target,
        decreases value, 1nat,
    {
        if let Value::End = value {
            return Err(NBTError::UnexpectedEnd);
        }
        let name = value.get_name();
        if name.as_bytes().len() > 0xFFFF {
            return Err(NBTError::IO);
        }
        let tag = value.tag();
        self.write_tag_id(tag);
        self.write_string(name);
        let ghost before_payload = self.target@;
        let r: Result<(), NBTError> = match value {
            Value::End => Err(NBTError::UnexpectedEnd),
            Value::Byte { value: x, .. } => {
                self.target.push(i8_to_wire(*x));
                Ok(())
            },
            Value::Short { value: x, .. } => {
                push_u16_be(&mut self.target, i16_to_wire(*x));
                Ok(())
            },
            Value::Int { value: x, .. } => {
                push_u32_be(&mut self.target, i32_to_wire(*x));
                Ok(())
            },
            Value::Long { value: x, .. } => {
                push_u64_be(&mut self.target, i64_to_wire(*x));
                Ok(())
            },
            Value::Float { value: bits, .. } => {
                push_u32_be(&mut self.target, *bits);
                Ok(())
            },
            Value::Double { value: bits, .. } => {
                push_u64_be(&mut self.target, *bits);
                Ok(())
            },
            Value::ByteArray { value: v, .. } => {
                if v.len() > 0x7FFF_FFFF {
                    Err(NBTError::IO)
                } else {
                    push_u32_be(&mut self.target, v.len() as u32);
                    self.write_i8s(v);
                    Ok(())
                }
            },
            Value::String { value: s, .. } => {
                if s.as_str().as_bytes().len() > 0xFFFF {
                    Err(NBTError::IO)
                } else {
                    self.write_string(s.as_str());
                    Ok(())
                }
            },
            Value::List { value: es, .. } => self.write_list_body(es),
            Value::Compound { value: vs, .. } => {
                proof {
                    lemma_view_value_seq(vs@);
                    crate::model::lemma_writable_compound(view_value_seq(vs@));
                }
                let r = self.write_entries(vs);
                if r.is_ok() {
                    self.target.push(0u8);
                }
                r
            },
            Value::IntArray { value: v, .. } => {
                if v.len() > 0x7FFF_FFFF {
                    Err(NBTError::IO)
                } else {
                    push_u32_be(&mut self.target, v.len() as u32);
                    self.write_i32s(v);
                    Ok(())
                }
            },
            Value::LongArray { value: v, .. } => {
                if v.len() > 0x7FFF_FFFF {
                    Err(NBTError::IO)
                } else {
                    push_u32_be(&mut self.target, v.len() as u32);
                    self.write_i64s(v);
                    Ok(())
                }
            },
            Value::Boolean { value: b, .. } => {
                self.target.push(if *b {
                    1u8
                } else {
                    0u8
                });
                Ok(())
            },
        };
        if r.is_err() {
            return r;
        }
        proof {
            assert(self.target@ == before_payload + spec_encode_payload(value@.1));
            assert(self.target@ =~= old(self).target@ + spec_encode_named(value@.0, value@.1));
        }
        Ok(())
    }
}

} // verus!
