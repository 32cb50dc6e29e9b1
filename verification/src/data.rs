//! The `NBTData` trait: the scalar wire types and their tags, with the
//! generic entry points that write tagged values, sequences and whole
//! compounds through one interface.

use vstd::prelude::*;
use crate::bytes::{
    i8_of_u8, push_u16_be, push_u32_be, push_u64_be, i8_to_wire, i16_to_wire, i32_to_wire,
    i64_to_wire,
};
use crate::error::NBTError;
use crate::model::{
    parse_payload, spec_encode_named, spec_encode_payload, spec_encode_str, str_fits, tag_of,
    writable, ValueModel,
};
use crate::reader::NBTReader;
use crate::tag::{spec_tag_id, Tag};
use crate::writer::NBTWriter;

verus! {

broadcast use vstd::std_specs::vec::group_vec_axioms;

/// A Rust type with a fixed NBT tag and payload encoding.
pub trait NBTData: Sized {
    /// The tag every value of this type is written with.
    spec fn spec_tag() -> Tag;

    /// The abstract NBT payload a value stands for.
    spec fn spec_model(self) -> ValueModel;

    /// What reading a payload of this type from the front of a byte
    /// stream gives, and how many bytes it consumes.
    spec fn spec_read_model(bytes: Seq<u8>) -> Option<(ValueModel, nat)>;

    /// The static tag and the per-value model agree.
    proof fn lemma_tag_consistent(self)
        ensures
            Self::spec_tag() == tag_of(self.spec_model()),
    ;

    fn tag() -> (t: Tag)
        ensures
            t == Self::spec_tag(),
    ;

    /// Appends the value's payload bytes; succeeds exactly on writable
    /// payloads, and writes nothing otherwise.
    fn write_to(self, writer: &mut NBTWriter) -> (r: Result<(), NBTError>)
        ensures
            r is Ok <==> writable(self.spec_model()),
            r is Ok ==> final(writer).target@ == old(writer).target@ + spec_encode_payload(
                self.spec_model(),
            ),
            r is Err ==> final(writer).target@ == old(writer).target@,
    ;

    /// Reads one payload of this type, exactly as `spec_read_model` says.
    fn read_from(reader: &mut NBTReader) -> (r: Result<Self, NBTError>)
        requires
            old(reader).wf(),
        ensures
            final(reader).wf(),
            final(reader).src == old(reader).src,
            match Self::spec_read_model(old(reader).remaining()) {
                Some((m, n)) => r matches Ok(v) && v.spec_model() == m && final(reader).pos
                    == old(reader).pos + n,
                None => r is Err,
            },
    ;
}

impl NBTData for i8 {
    open spec fn spec_tag() -> Tag {
        Tag::Byte
    }

    open spec fn spec_model(self) -> ValueModel {
        ValueModel::Byte(self)
    }

    open spec fn spec_read_model(bytes: Seq<u8>) -> Option<(ValueModel, nat)> {
        parse_payload(bytes, Tag::Byte)
    }

    proof fn lemma_tag_consistent(self) {
    }

    fn tag() -> Tag {
        Tag::Byte
    }

    fn write_to(self, writer: &mut NBTWriter) -> (r: Result<(), NBTError>) {
        writer.target.push(i8_to_wire(self));
        proof {
            assert(writer.target@ =~= old(writer).target@ + spec_encode_payload(
                ValueModel::Byte(self),
            ));
        }
        Ok(())
    }

    fn read_from(reader: &mut NBTReader) -> (r: Result<Self, NBTError>) {
        reader.read_byte()
    }
}

impl NBTData for i16 {
    open spec fn spec_tag() -> Tag {
        Tag::Short
    }

    open spec fn spec_model(self) -> ValueModel {
        ValueModel::Short(self)
    }

    open spec fn spec_read_model(bytes: Seq<u8>) -> Option<(ValueModel, nat)> {
        parse_payload(bytes, Tag::Short)
    }

    proof fn lemma_tag_consistent(self) {
    }

    fn tag() -> Tag {
        Tag::Short
    }

    fn write_to(self, writer: &mut NBTWriter) -> (r: Result<(), NBTError>) {
        push_u16_be(&mut writer.target, i16_to_wire(self));
        Ok(())
    }

    fn read_from(reader: &mut NBTReader) -> (r: Result<Self, NBTError>) {
        let ghost rem = old(reader).remaining();
        proof {
            if old(reader).pos + 2 <= old(reader).src.len() {
                assert(rem.subrange(0, 2) =~= old(reader).src@.subrange(
                    old(reader).pos as int,
                    old(reader).pos + 2,
                ));
            }
        }
        reader.read_short()
    }
}

impl NBTData for i32 {
    open spec fn spec_tag() -> Tag {
        Tag::Int
    }

    open spec fn spec_model(self) -> ValueModel {
        ValueModel::Int(self)
    }

    open spec fn spec_read_model(bytes: Seq<u8>) -> Option<(ValueModel, nat)> {
        parse_payload(bytes, Tag::Int)
    }

    proof fn lemma_tag_consistent(self) {
    }

    fn tag() -> Tag {
        Tag::Int
    }

    fn write_to(self, writer: &mut NBTWriter) -> (r: Result<(), NBTError>) {
        push_u32_be(&mut writer.target, i32_to_wire(self));
        Ok(())
    }

    fn read_from(reader: &mut NBTReader) -> (r: Result<Self, NBTError>) {
        let ghost rem = old(reader).remaining();
        proof {
            if old(reader).pos + 4 <= old(reader).src.len() {
                assert(rem.subrange(0, 4) =~= old(reader).src@.subrange(
                    old(reader).pos as int,
                    old(reader).pos + 4,
                ));
            }
        }
        reader.read_int()
    }
}

impl NBTData for i64 {
    open spec fn spec_tag() -> Tag {
        Tag::Long
    }

    open spec fn spec_model(self) -> ValueModel {
        ValueModel::Long(self)
    }

    open spec fn spec_read_model(bytes: Seq<u8>) -> Option<(ValueModel, nat)> {
        parse_payload(bytes, Tag::Long)
    }

    proof fn lemma_tag_consistent(self) {
    }

    fn tag() -> Tag {
        Tag::Long
    }

    fn write_to(self, writer: &mut NBTWriter) -> (r: Result<(), NBTError>) {
        push_u64_be(&mut writer.target, i64_to_wire(self));
        Ok(())
    }

    fn read_from(reader: &mut NBTReader) -> (r: Result<Self, NBTError>) {
        let ghost rem = old(reader).remaining();
        proof {
            if old(reader).pos + 8 <= old(reader).src.len() {
                assert(rem.subrange(0, 8) =~= old(reader).src@.subrange(
                    old(reader).pos as int,
                    old(reader).pos + 8,
                ));
            }
        }
        reader.read_long()
    }
}

impl NBTData for bool {
    open spec fn spec_tag() -> Tag {
        Tag::Byte
    }

    open spec fn spec_model(self) -> ValueModel {
        ValueModel::Boolean(self)
    }

    /// Booleans read liberally: any nonzero byte is true.
    open spec fn spec_read_model(bytes: Seq<u8>) -> Option<(ValueModel, nat)> {
        if bytes.len() >= 1 {
            Some((ValueModel::Boolean(bytes[0] != 0), 1nat))
        } else {
            None
        }
    }

    proof fn lemma_tag_consistent(self) {
    }

    fn tag() -> Tag {
        Tag::Byte
    }

    fn write_to(self, writer: &mut NBTWriter) -> (r: Result<(), NBTError>) {
        writer.target.push(if self {
            1u8
        } else {
            0u8
        });
        proof {
            assert(writer.target@ =~= old(writer).target@ + spec_encode_payload(
                ValueModel::Boolean(self),
            ));
        }
        Ok(())
    }

    fn read_from(reader: &mut NBTReader) -> (r: Result<Self, NBTError>) {
        let ghost rem = old(reader).remaining();
        let b = reader.read_byte()?;
        proof {
            if rem.len() >= 1 {
                assert(rem[0] == old(reader).src@[old(reader).pos as int]);
                assert(i8_of_u8(rem[0]) != 0 <==> rem[0] != 0);
            }
        }
        Ok(b != 0)
    }
}

impl NBTData for String {
    open spec fn spec_tag() -> Tag {
        Tag::String
    }

    open spec fn spec_model(self) -> ValueModel {
        ValueModel::Str(self@)
    }

    open spec fn spec_read_model(bytes: Seq<u8>) -> Option<(ValueModel, nat)> {
        parse_payload(bytes, Tag::String)
    }

    proof fn lemma_tag_consistent(self) {
    }

    fn tag() -> Tag {
        Tag::String
    }

    fn write_to(self, writer: &mut NBTWriter) -> (r: Result<(), NBTError>) {
        if self.as_str().as_bytes().len() > 0xFFFF {
            return Err(NBTError::IO);
        }
        writer.write_string(self.as_str());
        Ok(())
    }

    fn read_from(reader: &mut NBTReader) -> (r: Result<Self, NBTError>) {
        reader.read_name_string()
    }
}

impl NBTData for Tag {
    open spec fn spec_tag() -> Tag {
        Tag::Byte
    }

    open spec fn spec_model(self) -> ValueModel {
        ValueModel::Byte(spec_tag_id(self))
    }

    /// A tag byte outside 0..=12 is rejected with `InvalidTag`.
    open spec fn spec_read_model(bytes: Seq<u8>) -> Option<(ValueModel, nat)> {
        if bytes.len() >= 1 {
            match crate::tag::spec_tag_from_i8(i8_of_u8(bytes[0])) {
                Some(_) => Some((ValueModel::Byte(i8_of_u8(bytes[0])), 1nat)),
                None => None,
            }
        } else {
            None
        }
    }

    proof fn lemma_tag_consistent(self) {
    }

    fn tag() -> Tag {
        Tag::Byte
    }

    fn write_to(self, writer: &mut NBTWriter) -> (r: Result<(), NBTError>) {
        writer.write_tag_id(self);
        Ok(())
    }

    fn read_from(reader: &mut NBTReader) -> (r: Result<Self, NBTError>) {
        let ghost rem = old(reader).remaining();
        let t = reader.read_tag_id()?;
        proof {
            if rem.len() >= 1 {
                assert(rem[0] == old(reader).src@[old(reader).pos as int]);
                crate::tag::lemma_tag_from_i8_inverse(i8_of_u8(rem[0]));
            }
        }
        Ok(t)
    }
}

/// The concatenated payloads of a sequence of data values.
pub open spec fn spec_encode_data_seq<Data: NBTData>(s: Seq<Data>) -> Seq<u8>
    decreases s.len(),
{
    if s.len() == 0 {
        Seq::empty()
    } else {
        spec_encode_payload(s[0].spec_model()) + spec_encode_data_seq(s.drop_first())
    }
}

pub proof fn lemma_encode_data_seq_push<Data: NBTData>(s: Seq<Data>, x: Data)
    ensures
        spec_encode_data_seq(s.push(x)) == spec_encode_data_seq(s) + spec_encode_payload(
            x.spec_model(),
        ),
    decreases s.len(),
{
    if s.len() == 0 {
        assert(s.push(x)[0] == x);
        assert(s.push(x).drop_first() =~= Seq::<Data>::empty());
        assert(spec_encode_data_seq(s.push(x)) == spec_encode_payload(s.push(x)[0].spec_model())
            + spec_encode_data_seq(s.push(x).drop_first()));
        assert(spec_encode_data_seq(s.push(x)) =~= spec_encode_data_seq(s) + spec_encode_payload(
            x.spec_model(),
        ));
    } else {
        assert(s.push(x)[0] == s[0]);
        assert(s.push(x).drop_first() =~= s.drop_first().push(x));
        lemma_encode_data_seq_push(s.drop_first(), x);
        assert(spec_encode_data_seq(s.push(x)) == spec_encode_payload(s.push(x)[0].spec_model())
            + spec_encode_data_seq(s.push(x).drop_first()));
        assert(spec_encode_data_seq(s.push(x)) =~= spec_encode_data_seq(s) + spec_encode_payload(
            x.spec_model(),
        ));
    }
}

/// The bytes of a sequence header: the specialized array tag for byte,
/// int and long elements, else the generic list tag with its element
/// byte; the name only where one is given; then the length.
pub open spec fn spec_seq_header(t: Tag, name: Option<Seq<char>>, len: i32) -> Seq<u8> {
    let header_tag = if t == Tag::Byte {
        Tag::ByteArray
    } else if t == Tag::Int {
        Tag::IntArray
    } else if t == Tag::Long {
        Tag::LongArray
    } else {
        Tag::List
    };
    let name_bytes = match name {
        Some(n) => spec_encode_str(n),
        None => Seq::empty(),
    };
    let elem_byte: Seq<u8> = if t == Tag::Byte || t == Tag::Int || t == Tag::Long {
        Seq::empty()
    } else {
        seq![crate::bytes::u8_of_i8(spec_tag_id(t))]
    };
    seq![crate::bytes::u8_of_i8(spec_tag_id(header_tag))] + name_bytes + elem_byte
        + crate::bytes::spec_u32_to_be_bytes(crate::bytes::u32_of_i32(len))
}

impl NBTWriter {
    /// Writes one named scalar entry: tag byte, name, payload.  Succeeds
    /// exactly when the name fits its u16 prefix and the payload is
    /// writable; bytes are flushed as they are produced, so a failing
    /// payload leaves the already-written tag byte and name behind.
    pub fn write_tag<Data: NBTData>(&mut self, name: &str, tag: Data) -> (r: Result<
        (),
        NBTError,
    >)
        ensures
            r is Ok <==> str_fits(name@) && writable(tag.spec_model()),
            r is Ok ==> final(self).target@ == old(self).target@ + spec_encode_named(
                name@,
                tag.spec_model(),
            ),
            !str_fits(name@) ==> r == Err::<(), NBTError>(NBTError::IO) && final(self).target@
                == old(self).target@,
            str_fits(name@) && !writable(tag.spec_model()) ==> r is Err && final(self).target@
                == old(self).target@ + seq![
                crate::bytes::u8_of_i8(spec_tag_id(Data::spec_tag())),
            ] + spec_encode_str(name@),
    {
        if name.as_bytes().len() > 0xFFFF {
            return Err(NBTError::IO);
        }
        proof {
            tag.lemma_tag_consistent();
        }
        self.write_tag_id(Data::tag());
        self.write_string(name);
        let rr = tag.write_to(self);
        if rr.is_err() {
            return rr;
        }
        proof {
            assert(self.target@ =~= old(self).target@ + spec_encode_named(
                name@,
                tag.spec_model(),
            ));
        }
        Ok(())
    }

    /// Writes a sequence header, specializing byte, int and long element
    /// tags to their array forms.  Succeeds exactly when the name, if one
    /// is given, fits its u16 prefix; nothing is written on failure.
    pub fn write_seq_header(&mut self, tag: Tag, name: Option<&str>, len: i32) -> (r: Result<
        (),
        NBTError,
    >)
        ensures
            r is Ok <==> (name matches Some(n) ==> str_fits(n@)),
            r is Ok ==> final(self).target@ == old(self).target@ + spec_seq_header(
                tag,
                match name {
                    Some(n) => Some(n@),
                    None => None,
                },
                len,
            ),
            r is Err ==> r == Err::<(), NBTError>(NBTError::IO) && final(self).target@ == old(
                self,
            ).target@,
    {
        if let Some(n) = name {
            if n.as_bytes().len() > 0xFFFF {
                return Err(NBTError::IO);
            }
        }
        let header_tag = match tag {
            Tag::Byte => Tag::ByteArray,
            Tag::Int => Tag::IntArray,
            Tag::Long => Tag::LongArray,
            _ => Tag::List,
        };
        self.write_tag_id(header_tag);
        if let Some(n) = name {
            self.write_string(n);
        }
        match tag {
            Tag::Byte | Tag::Int | Tag::Long => {},
            other => {
                self.write_tag_id(other);
            },
        }
        push_u32_be(&mut self.target, i32_to_wire(len));
        proof {
            assert(self.target@ =~= old(self).target@ + spec_seq_header(
                tag,
                match name {
                    Some(n) => Some(n@),
                    None => None,
                },
                len,
            ));
        }
        Ok(())
    }

    /// Writes a named sequence: its header, then each element's payload.
    /// Succeeds exactly when the name fits and every element is writable;
    /// as bytes are flushed unbuffered, a failing element leaves the
    /// header and the elements before it in the sink.
    pub fn write_seq<Data: NBTData>(&mut self, name: &str, tags: Vec<Data>) -> (r: Result<
        (),
        NBTError,
    >)
        requires
            tags@.len() <= 0x7FFF_FFFF,
        ensures
            r is Ok <==> str_fits(name@) && (forall|k: int|
                0 <= k < tags@.len() ==> writable(#[trigger] tags@[k].spec_model())),
            r is Ok ==> final(self).target@ == old(self).target@ + spec_seq_header(
                Data::spec_tag(),
                Some(name@),
                tags@.len() as i32,
            ) + spec_encode_data_seq(tags@),
            !str_fits(name@) ==> r == Err::<(), NBTError>(NBTError::IO) && final(self).target@
                == old(self).target@,
            str_fits(name@) && r is Err ==> exists|k: int|
                0 <= k < tags@.len() && !writable(#[trigger] tags@[k].spec_model()) && (
                forall|j: int| 0 <= j < k ==> writable(#[trigger] tags@[j].spec_model()))
                    && final(self).target@ == old(self).target@ + spec_seq_header(
                    Data::spec_tag(),
                    Some(name@),
                    tags@.len() as i32,
                ) + spec_encode_data_seq(tags@.take(k)),
    {
        let len = tags.len() as i32;
        let rr = self.write_seq_header(Data::tag(), Some(name), len);
        if rr.is_err() {
            return rr;
        }
        let ghost all = tags@;
        let ghost mid = self.target@;
        let mut rest = tags;
        let ghost mut i: int = 0;
        proof {
            assert(all.take(0) =~= Seq::<Data>::empty());
        }
        while rest.len() > 0
            invariant
                0 <= i <= all.len(),
                all == tags@,
                str_fits(name@),
                mid == old(self).target@ + spec_seq_header(
                    Data::spec_tag(),
                    Some(name@),
                    all.len() as i32,
                ),
                i + rest@.len() == all.len(),
                rest@ =~= all.skip(i),
                self.target@ == mid + spec_encode_data_seq(all.take(i)),
                forall|j: int| 0 <= j < i ==> writable(#[trigger] all[j].spec_model()),
            decreases rest@.len(),
        {
            let x = rest.remove(0);
            proof {
                assert(x == all[i]);
                assert(rest@ =~= all.skip(i + 1));
            }
            let rr2 = x.write_to(self);
            if rr2.is_err() {
                proof {
                    assert(!writable(all[i].spec_model()));
                }
                return rr2;
            }
            proof {
                lemma_encode_data_seq_push(all.take(i), all[i]);
                assert(all.take(i).push(all[i]) =~= all.take(i + 1));
                i = i + 1;
            }
        }
        proof {
            assert(all.take(all.len() as int) =~= all);
        }
        Ok(())
    }

    /// Writes a whole compound: its tag and name, each entry's payload,
    /// and exactly one closing End tag.  Succeeds exactly when the name
    /// fits and every entry is writable; nothing is written when the name
    /// does not fit.
    pub fn write_compound<Data: NBTData>(&mut self, name: &str, tags: Vec<Data>) -> (r: Result<
        (),
        NBTError,
    >)
        ensures
            r is Ok <==> str_fits(name@) && (forall|k: int|
                0 <= k < tags@.len() ==> writable(#[trigger] tags@[k].spec_model())),
            r is Ok ==> final(self).target@ == old(self).target@ + seq![
                crate::bytes::u8_of_i8(spec_tag_id(Tag::Compound)),
            ] + spec_encode_str(name@) + spec_encode_data_seq(tags@) + seq![0u8],
            !str_fits(name@) ==> r == Err::<(), NBTError>(NBTError::IO) && final(self).target@
                == old(self).target@,
    {
        if name.as_bytes().len() > 0xFFFF {
            return Err(NBTError::IO);
        }
        self.write_tag_id(Tag::Compound);
        self.write_string(name);
        let ghost all = tags@;
        let ghost mid = self.target@;
        let mut rest = tags;
        let ghost mut i: int = 0;
        proof {
            assert(all.take(0) =~= Seq::<Data>::empty());
        }
        while rest.len() > 0
            invariant
                0 <= i <= all.len(),
                all == tags@,
                str_fits(name@),
                mid == old(self).target@ + seq![
                    crate::bytes::u8_of_i8(spec_tag_id(Tag::Compound)),
                ] + spec_encode_str(name@),
                i + rest@.len() == all.len(),
                rest@ =~= all.skip(i),
                self.target@ == mid + spec_encode_data_seq(all.take(i)),
                forall|j: int| 0 <= j < i ==> writable(#[trigger] all[j].spec_model()),
            decreases rest@.len(),
        {
            let x = rest.remove(0);
            proof {
                assert(x == all[i]);
                assert(rest@ =~= all.skip(i + 1));
            }
            let rr2 = x.write_to(self);
            if rr2.is_err() {
                proof {
                    assert(!writable(all[i].spec_model()));
                }
                return rr2;
            }
            proof {
                lemma_encode_data_seq_push(all.take(i), all[i]);
                assert(all.take(i).push(all[i]) =~= all.take(i + 1));
                i = i + 1;
            }
        }
        self.target.push(0u8);
        proof {
            assert(all.take(all.len() as int) =~= all);
            assert(self.target@ =~= old(self).target@ + seq![
                crate::bytes::u8_of_i8(spec_tag_id(Tag::Compound)),
            ] + spec_encode_str(name@) + spec_encode_data_seq(all) + seq![0u8]);
        }
        Ok(())
    }
}

} // verus!
