//! Reading a `Value` tree from the binary wire format.
//!
//! Every reader here is exact against the specification parser of
//! `crate::model`: it returns precisely the value `spec_parse_*` gives on
//! the unread bytes, advances the cursor by exactly the bytes the parser
//! consumes, and fails exactly where the parser does.

use vstd::prelude::*;
use vstd::utf8::{encode_utf8, valid_utf8};
use crate::error::NBTError;
use crate::model::{
    lemma_parse_payload_not_end, parse_entries, parse_named, parse_payload, parse_str,
    ValueModel,
};
use crate::reader::NBTReader;
use crate::tag::Tag;
use crate::value::{
    lemma_view_nameless_seq, lemma_view_value_seq, view_nameless_seq, view_value_seq,
    NameLessValue, Value,
};

verus! {

broadcast use vstd::std_specs::vec::group_vec_axioms;

/// Relies on `String::from_utf8`: on success the returned string's UTF-8
/// encoding is exactly the input, and it fails exactly on bytes that are
/// not valid UTF-8, handing the bytes back.
#[verifier::external_body]
fn string_from_utf8(v: Vec<u8>) -> (r: Result<String, Vec<u8>>)
    ensures
        r matches Ok(s) ==> valid_utf8(v@) && encode_utf8(s@) == v@,
        r matches Err(b) ==> !valid_utf8(v@) && b == v,
{
    match String::from_utf8(v) {
        Ok(s) => Ok(s),
        Err(e) => Err(e.into_bytes()),
    }
}

impl NBTReader {
    /// One length-prefixed string: a name or a string payload.
    pub(crate) fn read_name_string(&mut self) -> (r: Result<String, NBTError>)
        requires
            old(self).wf(),
        ensures
            final(self).wf(),
            final(self).src == old(self).src,
            match parse_str(old(self).remaining()) {
                Some((cs, n)) => r matches Ok(s) && s@ == cs && final(self).pos == old(self).pos
                    + n,
                None => r is Err,
            },
            ({
                let rem = old(self).remaining();
                rem.len() >= 2 && rem.len() >= 2 + crate::bytes::spec_u16_from_be_bytes(
                    rem.subrange(0, 2),
                ) && !valid_utf8(
                    rem.subrange(
                        2,
                        2 + crate::bytes::spec_u16_from_be_bytes(rem.subrange(0, 2)) as int,
                    ),
                )
            }) ==> (r matches Err(e) && e matches NBTError::NotAString(bs) && bs@ == old(
                self,
            ).remaining().subrange(
                2,
                2 + crate::bytes::spec_u16_from_be_bytes(
                    old(self).remaining().subrange(0, 2),
                ) as int,
            )),
    {
        broadcast use vstd::utf8::encode_utf8_decode_utf8;

        let ghost rem = old(self).remaining();
        let len = self.read_string_len()?;
        proof {
            assert(rem.subrange(0, 2) =~= old(self).src@.subrange(
                old(self).pos as int,
                old(self).pos + 2,
            ));
        }
        let bytes = match self.read_str_as_bytes(len) {
            Ok(b) => b,
            Err(e) => {
                return Err(e);
            },
        };
        proof {
            assert(rem.subrange(2, 2 + len as int) =~= old(self).src@.subrange(
                old(self).pos + 2,
                old(self).pos + 2 + len as int,
            ));
        }
        match string_from_utf8(bytes) {
            Ok(s) => Ok(s),
            Err(b) => Err(NBTError::NotAString(b)),
        }
    }

    /// The payload of a nameless value of the given tag.
    pub fn read_nameless(&mut self, tag: Tag) -> (r: Result<NameLessValue, NBTError>)
        requires
            old(self).wf(),
        ensures
            final(self).wf(),
            final(self).src == old(self).src,
            match parse_payload(old(self).remaining(), tag) {
                Some((m, n)) => r matches Ok(v) && v@ == m && final(self).pos == old(self).pos
                    + n,
                None => r is Err,
            },
        decreases old(self).src.len() - old(self).pos, 0nat, 1nat,
    {
        let ghost rem = old(self).remaining();
        match tag {
            Tag::End => Err(NBTError::UnexpectedEnd),
            Tag::Byte => {
                let x = self.read_byte()?;
                Ok(NameLessValue::Byte(x))
            },
            Tag::Short => {
                proof {
                    if old(self).pos + 2 <= old(self).src.len() {
                        assert(rem.subrange(0, 2) =~= old(self).src@.subrange(
                            old(self).pos as int,
                            old(self).pos + 2,
                        ));
                    }
                }
                let x = self.read_short()?;
                Ok(NameLessValue::Short(x))
            },
            Tag::Int => {
                proof {
                    if old(self).pos + 4 <= old(self).src.len() {
                        assert(rem.subrange(0, 4) =~= old(self).src@.subrange(
                            old(self).pos as int,
                            old(self).pos + 4,
                        ));
                    }
                }
                let x = self.read_int()?;
                Ok(NameLessValue::Int(x))
            },
            Tag::Long => {
                proof {
                    if old(self).pos + 8 <= old(self).src.len() {
                        assert(rem.subrange(0, 8) =~= old(self).src@.subrange(
                            old(self).pos as int,
                            old(self).pos + 8,
                        ));
                    }
                }
                let x = self.read_long()?;
                Ok(NameLessValue::Long(x))
            },
            Tag::Float => {
                proof {
                    if old(self).pos + 4 <= old(self).src.len() {
                        assert(rem.subrange(0, 4) =~= old(self).src@.subrange(
                            old(self).pos as int,
                            old(self).pos + 4,
                        ));
                    }
                }
                let bits = self.read_float()?;
                Ok(NameLessValue::Float(bits))
            },
            Tag::Double => {
                proof {
                    if old(self).pos + 8 <= old(self).src.len() {
                        assert(rem.subrange(0, 8) =~= old(self).src@.subrange(
                            old(self).pos as int,
                            old(self).pos + 8,
                        ));
                    }
                }
                let bits = self.read_double()?;
                Ok(NameLessValue::Double(bits))
            },
            Tag::String => {
                let s = self.read_name_string()?;
                Ok(NameLessValue::String(s))
            },
            Tag::ByteArray => {
                proof {
                    if old(self).pos + 4 <= old(self).src.len() {
                        assert(rem.subrange(0, 4) =~= old(self).src@.subrange(
                            old(self).pos as int,
                            old(self).pos + 4,
                        ));
                    }
                }
                let len = self.read_int()?;
                if len < 0 {
                    return Err(NBTError::IO);
                }
                let v = self.read_byte_array(len)?;
                proof {
                    if len > 0 {
                        assert(v@ =~= Seq::new(len as nat, |i: int| crate::bytes::i8_of_u8(rem[4 + i])));
                    } else {
                        assert(v@ =~= Seq::new(len as nat, |i: int| crate::bytes::i8_of_u8(rem[4 + i])));
                    }
                }
                Ok(NameLessValue::ByteArray(v))
            },
            Tag::IntArray => {
                proof {
                    if old(self).pos + 4 <= old(self).src.len() {
                        assert(rem.subrange(0, 4) =~= old(self).src@.subrange(
                            old(self).pos as int,
                            old(self).pos + 4,
                        ));
                    }
                }
                let len = self.read_int()?;
                if len < 0 {
                    return Err(NBTError::IO);
                }
                let n = len as usize;
                if (self.src.len() - self.pos) / 4 < n {
                    return Err(NBTError::IO);
                }
                let ghost pos0 = self.pos as int;
                let mut v: Vec<i32> = Vec::new();
                let mut i: usize = 0;
                while i < n
                    invariant
                        self.wf(),
                        self.src == old(self).src,
                        self.pos == pos0 + 4 * i,
                        i <= n,
                        pos0 + 4 * n <= self.src.len(),
                        v@ == Seq::new(
                            i as nat,
                            |j: int|
                                crate::bytes::i32_of_u32(
                                    crate::bytes::spec_u32_from_be_bytes(
                                        self.src@.subrange(pos0 + 4 * j, pos0 + 4 * j + 4),
                                    ),
                                ),
                        ),
                    decreases n - i,
                {
                    let x = self.read_int()?;
                    v.push(x);
                    i = i + 1;
                    proof {
                        assert(v@ =~= Seq::new(
                            i as nat,
                            |j: int|
                                crate::bytes::i32_of_u32(
                                    crate::bytes::spec_u32_from_be_bytes(
                                        self.src@.subrange(pos0 + 4 * j, pos0 + 4 * j + 4),
                                    ),
                                ),
                        ));
                    }
                }
                proof {
                    assert(v@ =~= Seq::new(
                        len as nat,
                        |j: int|
                            crate::bytes::i32_of_u32(
                                crate::bytes::spec_u32_from_be_bytes(
                                    rem.subrange(4 + 4 * j, 8 + 4 * j),
                                ),
                            ),
                    )) by {
                        assert forall|j: int| 0 <= j < len as int implies #[trigger] rem.subrange(
                            4 + 4 * j,
                            8 + 4 * j,
                        ) =~= old(self).src@.subrange(pos0 + 4 * j, pos0 + 4 * j + 4) by {}
                    }
                }
                Ok(NameLessValue::IntArray(v))
            },
            Tag::LongArray => {
                proof {
                    if old(self).pos + 4 <= old(self).src.len() {
                        assert(rem.subrange(0, 4) =~= old(self).src@.subrange(
                            old(self).pos as int,
                            old(self).pos + 4,
                        ));
                    }
                }
                let len = self.read_int()?;
                if len < 0 {
                    return Err(NBTError::IO);
                }
                let n = len as usize;
                if (self.src.len() - self.pos) / 8 < n {
                    return Err(NBTError::IO);
                }
                let ghost pos0 = self.pos as int;
                let mut v: Vec<i64> = Vec::new();
                let mut i: usize = 0;
                while i < n
                    invariant
                        self.wf(),
                        self.src == old(self).src,
                        self.pos == pos0 + 8 * i,
                        i <= n,
                        pos0 + 8 * n <= self.src.len(),
                        v@ == Seq::new(
                            i as nat,
                            |j: int|
                                crate::bytes::i64_of_u64(
                                    crate::bytes::spec_u64_from_be_bytes(
                                        self.src@.subrange(pos0 + 8 * j, pos0 + 8 * j + 8),
                                    ),
                                ),
                        ),
                    decreases n - i,
                {
                    let x = self.read_long()?;
                    v.push(x);
                    i = i + 1;
                    proof {
                        assert(v@ =~= Seq::new(
                            i as nat,
                            |j: int|
                                crate::bytes::i64_of_u64(
                                    crate::bytes::spec_u64_from_be_bytes(
                                        self.src@.subrange(pos0 + 8 * j, pos0 + 8 * j + 8),
                                    ),
                                ),
                        ));
                    }
                }
                proof {
                    assert(v@ =~= Seq::new(
                        len as nat,
                        |j: int|
                            crate::bytes::i64_of_u64(
                                crate::bytes::spec_u64_from_be_bytes(
                                    rem.subrange(4 + 8 * j, 12 + 8 * j),
                                ),
                            ),
                    )) by {
                        assert forall|j: int| 0 <= j < len as int implies #[trigger] rem.subrange(
                            4 + 8 * j,
                            12 + 8 * j,
                        ) =~= old(self).src@.subrange(pos0 + 8 * j, pos0 + 8 * j + 8) by {}
                    }
                }
                Ok(NameLessValue::LongArray(v))
            },
            Tag::List => {
                proof {
                    if old(self).pos + 5 <= old(self).src.len() {
                        assert(rem.subrange(1, 5) =~= old(self).src@.subrange(
                            old(self).pos + 1,
                            old(self).pos + 5,
                        ));
                    }
                }
                let (elem_tag, size) = self.read_list_type_and_size()?;
                if size >= 0x8000_0000 {
                    return Err(NBTError::IO);
                }
                proof {
                    assert(rem.skip(5) =~= self.src@.skip(self.pos as int));
                }
                let es = self.read_elems(elem_tag, size)?;
                Ok(NameLessValue::List(es))
            },
            Tag::Compound => {
                let vs = self.read_entries()?;
                Ok(NameLessValue::Compound(vs))
            },
        }
    }

    /// Exactly `n` list elements of the given tag.
    fn read_elems(&mut self, tag: Tag, n: u32) -> (r: Result<Vec<NameLessValue>, NBTError>)
        requires
            old(self).wf(),
        ensures
            final(self).wf(),
            final(self).src == old(self).src,
            match crate::model::parse_elems(old(self).remaining(), tag, n as nat) {
                Some((ms, u)) => r matches Ok(v) && view_nameless_seq(v@) == ms && final(self).pos
                    == old(self).pos + u,
                None => r is Err,
            },
        decreases old(self).src.len() - old(self).pos, n, 0nat,
    {
        let ghost rem = old(self).remaining();
        if n == 0 {
            proof {
                assert(view_nameless_seq(Seq::<NameLessValue>::empty())
                    =~= Seq::<ValueModel>::empty());
            }
            return Ok(Vec::new());
        }
        let elem = self.read_nameless(tag)?;
        proof {
            let used = (self.pos - old(self).pos) as nat;
            assert(used <= rem.len());
            assert(rem.skip(used as int) =~= self.src@.skip(self.pos as int));
        }
        let mut rest = self.read_elems(tag, n - 1)?;
        let ghost prev = rest@;
        rest.insert(0, elem);
        proof {
            let (m0, u0) = parse_payload(rem, tag).unwrap();
            let (ms, u1) = crate::model::parse_elems(rem.skip(u0 as int), tag, (n - 1) as nat)
                .unwrap();
            assert(rest@ =~= seq![elem] + prev);
            lemma_view_nameless_seq(rest@);
            lemma_view_nameless_seq(prev);
            assert forall|j: int| 0 <= j < rest@.len() implies view_nameless_seq(rest@)[j] == (
            seq![m0] + ms)[j] by {
                if j == 0 {
                    assert(rest@[0] == elem);
                } else {
                    assert(rest@[j] == prev[j - 1]);
                }
            }
            assert(view_nameless_seq(rest@) =~= seq![m0] + ms);
        }
        Ok(rest)
    }

    /// Named entries up to and including the closing End tag.
    pub(crate) fn read_entries(&mut self) -> (r: Result<Vec<Value>, NBTError>)
        requires
            old(self).wf(),
        ensures
            final(self).wf(),
            final(self).src == old(self).src,
            match parse_entries(old(self).remaining()) {
                Some((en, u)) => r matches Ok(v) && view_value_seq(v@) == en && final(self).pos
                    == old(self).pos + u,
                None => r is Err,
            },
        decreases old(self).src.len() - old(self).pos, 0nat, 0nat,
    {
        let ghost rem = old(self).remaining();
        let tag = self.read_tag_id()?;
        if let Tag::End = tag {
            proof {
                assert(view_value_seq(Seq::<Value>::empty())
                    =~= Seq::<(Seq<char>, ValueModel)>::empty());
            }
            return Ok(Vec::new());
        }
        proof {
            assert(rem.skip(1) =~= self.src@.skip(self.pos as int));
        }
        let name = self.read_name_string()?;
        proof {
            assert(rem.skip((self.pos - old(self).pos) as int) =~= self.src@.skip(
                self.pos as int,
            ));
        }
        let ghost pos_payload = self.pos as int;
        let payload = self.read_nameless(tag)?;
        proof {
            lemma_parse_payload_not_end(old(self).src@.skip(pos_payload), tag);
        }
        let value = payload.with_name(name);
        proof {
            assert(rem.skip((self.pos - old(self).pos) as int) =~= self.src@.skip(
                self.pos as int,
            ));
        }
        let mut rest = self.read_entries()?;
        let ghost prev = rest@;
        rest.insert(0, value);
        proof {
            let (en, u) = parse_entries(rem).unwrap();
            assert(rest@ =~= seq![value] + prev);
            lemma_view_value_seq(rest@);
            lemma_view_value_seq(prev);
            assert forall|j: int| 0 <= j < rest@.len() implies view_value_seq(rest@)[j] == en[j]
                by {
                if j == 0 {
                    assert(rest@[0] == value);
                } else {
                    assert(rest@[j] == prev[j - 1]);
                }
            }
            assert(view_value_seq(rest@) =~= en);
        }
        Ok(rest)
    }

    /// One named value from the stream: the `Value` whose encoding is the
    /// consumed prefix.  An End tag alone reads as `Value::End`.
    pub fn read_value(&mut self) -> (r: Result<Value, NBTError>)
        requires
            old(self).wf(),
        ensures
            final(self).wf(),
            final(self).src == old(self).src,
            match parse_named(old(self).remaining()) {
                Some((nm, u)) => r matches Ok(v) && v@ == nm && final(self).pos == old(self).pos
                    + u,
                None => r is Err,
            },
    {
        let ghost rem = old(self).remaining();
        let tag = self.read_tag_id()?;
        if let Tag::End = tag {
            return Ok(Value::End);
        }
        proof {
            assert(rem.skip(1) =~= self.src@.skip(self.pos as int));
        }
        let name = self.read_name_string()?;
        proof {
            assert(rem.skip((self.pos - old(self).pos) as int) =~= self.src@.skip(
                self.pos as int,
            ));
        }
        let ghost pos_payload = self.pos as int;
        let payload = self.read_nameless(tag)?;
        proof {
            lemma_parse_payload_not_end(old(self).src@.skip(pos_payload), tag);
        }
        Ok(payload.with_name(name))
    }
}

} // verus!
