//! The binary wire format: tag-id conversions and the compound and list
//! cursors that walk a document without materializing it.

use vstd::prelude::*;
use crate::bytes::{i8_of_u8, push_u32_be, i32_to_wire, spec_u32_from_be_bytes, u8_of_i8, u32_of_i32};
use crate::data::NBTData;
use crate::error::NBTError;
use crate::model::{parse_entries, parse_str, spec_encode_payload, spec_encode_str, str_fits};
use crate::reader::NBTReader;
use crate::tag::{spec_list_type_id, spec_tag_from_i8, spec_tag_id, ListType, Tag};
use crate::value::{view_value_seq, Value};
use crate::writer::NBTWriter;

verus! {

broadcast use vstd::std_specs::vec::group_vec_axioms;

/// The binary NBT format.
#[derive(Debug)]
pub struct Binary;

impl Binary {
    /// The tag for a wire id, or `None` for an id outside 0..=12.
    pub fn tag_from_i8(value: i8) -> (r: Option<Tag>)
        ensures
            r == spec_tag_from_i8(value),
    {
        match value {
            0 => Some(Tag::End),
            1 => Some(Tag::Byte),
            2 => Some(Tag::Short),
            3 => Some(Tag::Int),
            4 => Some(Tag::Long),
            5 => Some(Tag::Float),
            6 => Some(Tag::Double),
            7 => Some(Tag::ByteArray),
            8 => Some(Tag::String),
            9 => Some(Tag::List),
            10 => Some(Tag::Compound),
            11 => Some(Tag::IntArray),
            12 => Some(Tag::LongArray),
            _ => None,
        }
    }

    /// The wire id a sequence header is written with.
    pub fn get_list_type_id(typ: ListType) -> (r: i8)
        ensures
            r == spec_list_type_id(typ),
            r == spec_tag_id(
                match typ {
                    ListType::ByteArray => Tag::ByteArray,
                    ListType::IntArray => Tag::IntArray,
                    ListType::LongArray => Tag::LongArray,
                    ListType::List(_) => Tag::List,
                },
            ),
    {
        match typ {
            ListType::ByteArray => 7,
            ListType::IntArray => 11,
            ListType::LongArray => 12,
            ListType::List(_) => 9,
        }
    }
}


/// A compound cursor with a one-slot tag lookahead: `next_tag` holds the
/// most recently peeked tag so that a mismatch can be reported without
/// data loss.
#[derive(Debug)]
pub struct BinaryCompoundReader {
    pub reader: NBTReader,
    pub next_tag: Option<Tag>,
}

impl BinaryCompoundReader {
    pub open spec fn wf(&self) -> bool {
        self.reader.wf()
    }

    pub fn new(reader: NBTReader) -> (r: Self)
        requires
            reader.wf(),
        ensures
            r.reader == reader,
            r.next_tag is None,
            r.wf(),
    {
        BinaryCompoundReader { reader, next_tag: None }
    }

    pub fn into_inner(self) -> (r: NBTReader)
        ensures
            r == self.reader,
    {
        self.reader
    }

    /// Peeks the next entry's tag.  A cached tag is handed back without
    /// touching the stream; otherwise one tag byte is consumed and cached.
    pub fn next_tag(&mut self) -> (r: Result<Tag, NBTError>)
        requires
            old(self).wf(),
        ensures
            final(self).wf(),
            final(self).reader.src == old(self).reader.src,
            old(self).next_tag matches Some(t) ==> r == Ok::<Tag, NBTError>(t) && *final(self)
                == *old(self),
            old(self).next_tag is None ==> {
                let rem = old(self).reader.remaining();
                if rem.len() == 0 {
                    r == Err::<Tag, NBTError>(NBTError::IO) && final(self).reader.pos == old(
                        self,
                    ).reader.pos && final(self).next_tag is None
                } else {
                    match spec_tag_from_i8(i8_of_u8(rem[0])) {
                        Some(t) => r == Ok::<Tag, NBTError>(t) && final(self).reader.pos == old(
                            self,
                        ).reader.pos + 1 && final(self).next_tag == Some(t),
                        None => r == Err::<Tag, NBTError>(
                            NBTError::InvalidTag(i8_of_u8(rem[0])),
                        ) && final(self).next_tag is None,
                    }
                }
            },
    {
        if let Some(tag) = self.next_tag {
            return Ok(tag);
        }
        let ghost rem = self.reader.remaining();
        proof {
            if rem.len() > 0 {
                assert(rem[0] == self.reader.src@[self.reader.pos as int]);
            }
        }
        let tag = self.reader.read_tag_id()?;
        self.next_tag = Some(tag);
        Ok(tag)
    }

    /// Reads the next entry's name, leaving its tag cached for the value
    /// read that follows.  An End tag where an entry was expected is
    /// `UnexpectedEnd`.
    pub fn read_next_tag_name(&mut self) -> (r: Result<String, NBTError>)
        requires
            old(self).wf(),
        ensures
            final(self).wf(),
            final(self).reader.src == old(self).reader.src,
            r matches Ok(s) ==> final(self).next_tag matches Some(t) && t != Tag::End,
            old(self).next_tag matches Some(t) ==> (t != Tag::End ==> match parse_str(
                old(self).reader.remaining(),
            ) {
                Some((cs, n)) => r matches Ok(s) && s@ == cs && final(self).reader.pos == old(
                    self,
                ).reader.pos + n && final(self).next_tag == Some(t),
                None => r is Err,
            }),
            old(self).next_tag == Some(Tag::End) ==> r == Err::<String, NBTError>(
                NBTError::UnexpectedEnd,
            ) && *final(self) == *old(self),
            old(self).next_tag is None ==> {
                let rem = old(self).reader.remaining();
                if rem.len() == 0 {
                    r is Err
                } else {
                    match spec_tag_from_i8(i8_of_u8(rem[0])) {
                        None => r is Err,
                        Some(t) => if t == Tag::End {
                            r == Err::<String, NBTError>(NBTError::UnexpectedEnd)
                        } else {
                            match parse_str(rem.skip(1)) {
                                Some((cs, n)) => r matches Ok(s) && s@ == cs
                                    && final(self).reader.pos == old(self).reader.pos + 1 + n
                                    && final(self).next_tag == Some(t),
                                None => r is Err,
                            }
                        },
                    }
                }
            },
    {
        match self.next_tag {
            Some(Tag::End) => Err(NBTError::UnexpectedEnd),
            Some(_) => self.reader.read_name_string(),
            None => {
                let ghost rem = self.reader.remaining();
                proof {
                    if rem.len() > 0 {
                        assert(rem[0] == self.reader.src@[self.reader.pos as int]);
                    }
                }
                let tag = self.reader.read_tag_id()?;
                if let Tag::End = tag {
                    return Err(NBTError::UnexpectedEnd);
                }
                self.next_tag = Some(tag);
                proof {
                    assert(rem.skip(1) =~= self.reader.src@.skip(self.reader.pos as int));
                }
                self.reader.read_name_string()
            },
        }
    }

    /// Reads the next entry's payload as the given type.  A mismatch
    /// between the peeked tag and the type's tag restores the lookahead
    /// and reports `ExpectedTag(wanted, got)`; a consumer that succeeds
    /// clears it.
    pub fn read_next_tag_value<D: NBTData>(&mut self) -> (r: Result<D, NBTError>)
        requires
            old(self).wf(),
        ensures
            final(self).wf(),
            final(self).reader.src == old(self).reader.src,
            old(self).next_tag matches Some(t) ==> (t == D::spec_tag() && t != Tag::End
                ==> match D::spec_read_model(old(self).reader.remaining()) {
                Some((m, n)) => r matches Ok(v) && v.spec_model() == m && final(self).reader.pos
                    == old(self).reader.pos + n && final(self).next_tag is None,
                None => r is Err,
            }),
            old(self).next_tag matches Some(t) ==> (t != D::spec_tag() && t != Tag::End ==> r
                == Err::<D, NBTError>(NBTError::ExpectedTag(D::spec_tag(), t))
                && final(self).next_tag == Some(t)),
            old(self).next_tag == Some(Tag::End) ==> r == Err::<D, NBTError>(
                NBTError::UnexpectedEnd,
            ),
            old(self).next_tag is None ==> {
                let rem = old(self).reader.remaining();
                if rem.len() == 0 {
                    r is Err
                } else {
                    match spec_tag_from_i8(i8_of_u8(rem[0])) {
                        None => r is Err,
                        Some(t) => if t == Tag::End {
                            r == Err::<D, NBTError>(NBTError::UnexpectedEnd)
                        } else if t != D::spec_tag() {
                            r == Err::<D, NBTError>(NBTError::ExpectedTag(D::spec_tag(), t))
                                && final(self).next_tag == Some(t)
                        } else {
                            match D::spec_read_model(rem.skip(1)) {
                                Some((m, n)) => r matches Ok(v) && v.spec_model() == m
                                    && final(self).reader.pos == old(self).reader.pos + 1 + n
                                    && final(self).next_tag is None,
                                None => r is Err,
                            }
                        },
                    }
                }
            },
    {
        let ghost rem = self.reader.remaining();
        proof {
            if self.next_tag is None && rem.len() > 0 {
                assert(rem[0] == self.reader.src@[self.reader.pos as int]);
            }
        }
        let tag = match self.next_tag.take() {
            Some(t) => t,
            None => self.reader.read_tag_id()?,
        };
        if let Tag::End = tag {
            return Err(NBTError::UnexpectedEnd);
        }
        let wanted = D::tag();
        if !tags_equal(tag, wanted) {
            self.next_tag = Some(tag);
            return Err(NBTError::ExpectedTag(wanted, tag));
        }
        proof {
            if old(self).next_tag is None {
                assert(rem.skip(1) =~= self.reader.src@.skip(self.reader.pos as int));
            }
        }
        D::read_from(&mut self.reader)
    }

    /// Reads a whole entry: tag (cached or fresh), name, payload.  A tag
    /// mismatch restores the lookahead before the name is touched; on
    /// success the entry is fully consumed and the lookahead is empty.
    pub fn read_next_tag<D: NBTData>(&mut self) -> (r: Result<(String, D), NBTError>)
        requires
            old(self).wf(),
        ensures
            final(self).wf(),
            final(self).reader.src == old(self).reader.src,
            old(self).next_tag matches Some(t) ==> (t != D::spec_tag() && t != Tag::End ==> r
                == Err::<(String, D), NBTError>(NBTError::ExpectedTag(D::spec_tag(), t))
                && final(self).next_tag == Some(t)),
            old(self).next_tag == Some(Tag::End) ==> r == Err::<(String, D), NBTError>(
                NBTError::UnexpectedEnd,
            ),
            old(self).next_tag matches Some(t) ==> (t == D::spec_tag() && t != Tag::End
                ==> match parse_str(old(self).reader.remaining()) {
                Some((cs, n)) => match D::spec_read_model(old(self).reader.remaining().skip(
                    n as int,
                )) {
                    Some((m, k)) => r matches Ok(p) && p.0@ == cs && p.1.spec_model() == m
                        && final(self).reader.pos == old(self).reader.pos + n + k
                        && final(self).next_tag is None,
                    None => r is Err,
                },
                None => r is Err,
            }),
            old(self).next_tag is None ==> {
                let rem = old(self).reader.remaining();
                if rem.len() == 0 {
                    r is Err
                } else {
                    match spec_tag_from_i8(i8_of_u8(rem[0])) {
                        None => r is Err,
                        Some(t) => if t == Tag::End {
                            r == Err::<(String, D), NBTError>(NBTError::UnexpectedEnd)
                        } else if t != D::spec_tag() {
                            r == Err::<(String, D), NBTError>(
                                NBTError::ExpectedTag(D::spec_tag(), t),
                            ) && final(self).next_tag == Some(t)
                        } else {
                            match parse_str(rem.skip(1)) {
                                Some((cs, n)) => match D::spec_read_model(
                                    rem.skip(1 + n as int),
                                ) {
                                    Some((m, k)) => r matches Ok(p) && p.0@ == cs
                                        && p.1.spec_model() == m && final(self).reader.pos
                                        == old(self).reader.pos + 1 + n + k
                                        && final(self).next_tag is None,
                                    None => r is Err,
                                },
                                None => r is Err,
                            }
                        },
                    }
                }
            },
    {
        let ghost rem = self.reader.remaining();
        proof {
            if self.next_tag is None && rem.len() > 0 {
                assert(rem[0] == self.reader.src@[self.reader.pos as int]);
            }
        }
        let ghost cached = self.next_tag;
        let tag = match self.next_tag.take() {
            Some(t) => t,
            None => self.reader.read_tag_id()?,
        };
        if let Tag::End = tag {
            return Err(NBTError::UnexpectedEnd);
        }
        let wanted = D::tag();
        if !tags_equal(tag, wanted) {
            self.next_tag = Some(tag);
            return Err(NBTError::ExpectedTag(wanted, tag));
        }
        let ghost name_start = self.reader.pos as int;
        proof {
            if cached is None {
                assert(rem.skip(1) =~= self.reader.src@.skip(self.reader.pos as int));
            } else {
                assert(rem =~= self.reader.src@.skip(self.reader.pos as int));
            }
        }
        let name = self.reader.read_name_string()?;
        proof {
            if cached is None {
                assert(rem.skip(1 + (self.reader.pos - name_start)) =~= self.reader.src@.skip(
                    self.reader.pos as int,
                ));
            } else {
                assert(rem.skip(self.reader.pos - name_start) =~= self.reader.src@.skip(
                    self.reader.pos as int,
                ));
            }
        }
        let value = D::read_from(&mut self.reader)?;
        Ok((name, value))
    }

    /// Drains the compound: every remaining entry up to and including the
    /// closing End tag.
    pub fn read_to_end(self) -> (r: Result<Vec<Value>, NBTError>)
        requires
            self.wf(),
            self.next_tag is None,
        ensures
            match parse_entries(self.reader.remaining()) {
                Some((en, u)) => r matches Ok(vs) && view_value_seq(vs@) == en,
                None => r is Err,
            },
    {
        let mut reader = self.reader;
        reader.read_entries()
    }
}

fn tags_equal(a: Tag, b: Tag) -> (r: bool)
    ensures
        r == (a == b),
{
    a.id() == b.id()
}

/// A list cursor over a known element shape and length.
#[derive(Debug)]
pub struct BinaryListReader {
    pub reader: NBTReader,
    pub tag: ListType,
    pub length: i32,
}

impl BinaryListReader {
    pub open spec fn wf(&self) -> bool {
        self.reader.wf()
    }

    /// Opens a list whose shape is already known; reads the length.
    pub fn new(reader: NBTReader, list_type: ListType) -> (r: Result<Self, NBTError>)
        requires
            reader.wf(),
        ensures
            r matches Ok(lr) ==> lr.wf() && lr.reader.src == reader.src && lr.tag == list_type
                && reader.pos + 4 <= reader.src.len() && lr.length == crate::bytes::i32_of_u32(
                spec_u32_from_be_bytes(reader.src@.subrange(reader.pos as int, reader.pos + 4)),
            ) && lr.reader.pos == reader.pos + 4,
            r is Ok <==> reader.pos + 4 <= reader.src.len(),
            r is Err ==> r == Err::<Self, NBTError>(NBTError::IO),
    {
        let mut reader = reader;
        let length = reader.read_int()?;
        Ok(BinaryListReader { reader, tag: list_type, length })
    }

    /// Opens a generic list: reads the element tag byte, then the length.
    pub fn new_generic_list(reader: NBTReader) -> (r: Result<Self, NBTError>)
        requires
            reader.wf(),
        ensures
            r matches Ok(lr) ==> lr.wf() && lr.reader.src == reader.src && reader.pos + 5
                <= reader.src.len() && (lr.tag matches ListType::List(et) && spec_tag_from_i8(
                i8_of_u8(reader.src@[reader.pos as int]),
            ) == Some(et)) && lr.length == crate::bytes::i32_of_u32(
                spec_u32_from_be_bytes(reader.src@.subrange(reader.pos + 1, reader.pos + 5)),
            ) && lr.reader.pos == reader.pos + 5,
            r is Ok <==> reader.pos + 1 <= reader.src.len() && spec_tag_from_i8(
                i8_of_u8(reader.src@[reader.pos as int]),
            ) is Some && reader.pos + 5 <= reader.src.len(),
    {
        let mut reader = reader;
        let ghost rem = reader.remaining();
        proof {
            if rem.len() > 0 {
                assert(rem[0] == reader.src@[reader.pos as int]);
            }
        }
        let tag = reader.read_tag_id()?;
        let length = reader.read_int()?;
        Ok(BinaryListReader { reader, tag: ListType::List(tag), length })
    }

    pub fn into_inner(self) -> (r: NBTReader)
        ensures
            r == self.reader,
    {
        self.reader
    }

    /// The declared element count, reinterpreted unsigned.
    pub fn size(&self) -> (r: usize)
        ensures
            r == u32_of_i32(self.length) as usize,
    {
        crate::bytes::i32_to_wire(self.length) as usize
    }

    pub fn list_type(&self) -> (r: ListType)
        ensures
            r == self.tag,
    {
        self.tag
    }

    /// The tag each element is read with.
    pub fn get_tag(&self) -> (r: Tag)
        ensures
            r == (match self.tag {
                ListType::ByteArray => Tag::Byte,
                ListType::IntArray => Tag::Int,
                ListType::LongArray => Tag::Long,
                ListType::List(v) => v,
            }),
    {
        match self.tag {
            ListType::ByteArray => Tag::Byte,
            ListType::IntArray => Tag::Int,
            ListType::LongArray => Tag::Long,
            ListType::List(v) => v,
        }
    }

    /// Reads the next element's payload as the given type.
    pub fn read_next_tag<D: NBTData>(&mut self) -> (r: Result<D, NBTError>)
        requires
            old(self).wf(),
        ensures
            final(self).wf(),
            final(self).reader.src == old(self).reader.src,
            final(self).tag == old(self).tag,
            final(self).length == old(self).length,
            match D::spec_read_model(old(self).reader.remaining()) {
                Some((m, n)) => r matches Ok(v) && v.spec_model() == m && final(self).reader.pos
                    == old(self).reader.pos + n,
                None => r is Err,
            },
    {
        D::read_from(&mut self.reader)
    }

    /// For the specialized primitive-array shapes: the remaining elements
    /// as one raw block of bytes.
    pub fn read_all_bytes(&mut self) -> (r: Result<Vec<u8>, NBTError>)
        requires
            old(self).wf(),
            !(old(self).tag is List),
            0 <= old(self).length,
            old(self).length * 8 <= usize::MAX,
        ensures
            final(self).wf(),
            final(self).reader.src == old(self).reader.src,
            r matches Ok(v) ==> v@ == old(self).reader.src@.subrange(
                old(self).reader.pos as int,
                old(self).reader.pos + v@.len(),
            ) && final(self).reader.pos == old(self).reader.pos + v@.len(),
            r is Ok <==> old(self).reader.pos + old(self).length * (match old(self).tag {
                ListType::ByteArray => 1int,
                ListType::IntArray => 4int,
                ListType::LongArray => 8int,
                ListType::List(_) => 1int,
            }) <= old(self).reader.src.len(),
            r matches Ok(v) ==> v@.len() == old(self).length * (match old(self).tag {
                ListType::ByteArray => 1int,
                ListType::IntArray => 4int,
                ListType::LongArray => 8int,
                ListType::List(_) => 1int,
            }),
    {
        let elem_size: usize = match self.tag {
            ListType::ByteArray => 1,
            ListType::IntArray => 4,
            ListType::LongArray => 8,
            ListType::List(_) => 1,
        };
        let total = (self.length as usize) * elem_size;
        if total > u16::MAX as usize {
            // read in one pass through the byte reader
            let mut out: Vec<u8> = Vec::new();
            let mut i: usize = 0;
            if self.reader.src.len() - self.reader.pos < total {
                return Err(NBTError::IO);
            }
            let ghost pos0 = self.reader.pos as int;
            while i < total
                invariant
                    i <= total,
                    self.reader.wf(),
                    self.reader.src == old(self).reader.src,
                    self.reader.pos == pos0,
                    pos0 + total <= self.reader.src.len(),
                    self.tag == old(self).tag,
                    self.length == old(self).length,
                    out@ == self.reader.src@.subrange(pos0, pos0 + i),
                decreases total - i,
            {
                out.push(self.reader.src[self.reader.pos + i]);
                i = i + 1;
                proof {
                    assert(out@ =~= self.reader.src@.subrange(pos0, pos0 + i));
                }
            }
            self.reader.pos = self.reader.pos + total;
            Ok(out)
        } else {
            self.reader.read_str_as_bytes(total as u16)
        }
    }
}

/// A compound writer: start, entries, End.
#[derive(Debug)]
pub struct BinaryCompoundWriter {
    pub writer: NBTWriter,
}

impl BinaryCompoundWriter {
    pub fn new(writer: NBTWriter) -> (r: Self)
        ensures
            r.writer == writer,
    {
        BinaryCompoundWriter { writer }
    }

    /// Emits a compound's opening: its tag byte and name.
    pub fn write_start(writer: &mut NBTWriter, name: &str) -> (r: Result<(), NBTError>)
        ensures
            r is Ok <==> str_fits(name@),
            r is Ok ==> final(writer).target@ == old(writer).target@ + seq![
                u8_of_i8(spec_tag_id(Tag::Compound)),
            ] + spec_encode_str(name@),
            r is Err ==> final(writer).target@ == old(writer).target@,
    {
        if name.as_bytes().len() > 0xFFFF {
            return Err(NBTError::IO);
        }
        writer.write_tag_id(Tag::Compound);
        writer.write_string(name);
        Ok(())
    }

    /// Writes one named entry: tag byte, name, payload.  Succeeds exactly
    /// when the name fits and the payload is writable.
    pub fn write_next_tag<D: NBTData>(&mut self, name: &str, value: D) -> (r: Result<
        (),
        NBTError,
    >)
        ensures
            r is Ok <==> str_fits(name@) && crate::model::writable(value.spec_model()),
            r is Ok ==> final(self).writer.target@ == old(self).writer.target@
                + crate::model::spec_encode_named(name@, value.spec_model()),
            !str_fits(name@) ==> final(self).writer.target@ == old(self).writer.target@,
    {
        self.writer.write_tag(name, value)
    }

    /// Emits the closing End tag and hands the sink back.
    pub fn end(self) -> (r: NBTWriter)
        ensures
            r.target@ == self.writer.target@ + seq![0u8],
    {
        let mut w = self.writer;
        w.write_tag_id(Tag::End);
        proof {
            assert(w.target@ =~= self.writer.target@ + seq![0u8]);
        }
        w
    }
}

/// A list writer: emits the header on construction, then takes exactly
/// the promised number of element writes; counting them is the caller's
/// contract.
#[derive(Debug)]
pub struct BinaryListWriter {
    pub writer: NBTWriter,
}

impl BinaryListWriter {
    /// Opens a named sequence: writes its full header.  Succeeds exactly
    /// when the name fits its u16 prefix.
    pub fn new(writer: NBTWriter, size: i32, list_type: ListType, name: &str) -> (r: Result<
        Self,
        NBTError,
    >)
        ensures
            r is Ok <==> str_fits(name@),
            r matches Ok(lw) ==> str_fits(name@) && lw.writer.target@ == writer.target@ + seq![
                u8_of_i8(spec_list_type_id(list_type)),
            ] + spec_encode_str(name@) + (match list_type {
                ListType::List(et) => seq![u8_of_i8(spec_tag_id(et))],
                _ => Seq::<u8>::empty(),
            }) + crate::bytes::spec_u32_to_be_bytes(u32_of_i32(size)),
    {
        if name.as_bytes().len() > 0xFFFF {
            return Err(NBTError::IO);
        }
        let mut w = writer;
        let ghost base = w.target@;
        w.target.push(crate::bytes::i8_to_wire(Binary::get_list_type_id(list_type)));
        w.write_string(name);
        if let ListType::List(et) = list_type {
            w.write_tag_id(et);
        }
        push_u32_be(&mut w.target, i32_to_wire(size));
        proof {
            assert(w.target@ =~= base + seq![u8_of_i8(spec_list_type_id(list_type))]
                + spec_encode_str(name@) + (match list_type {
                ListType::List(et) => seq![u8_of_i8(spec_tag_id(et))],
                _ => Seq::<u8>::empty(),
            }) + crate::bytes::spec_u32_to_be_bytes(u32_of_i32(size)));
        }
        Ok(BinaryListWriter { writer: w })
    }

    /// Opens a nested sequence: only the element-type byte (for generic
    /// lists) and the length, with no tag and no name.  It cannot fail.
    pub fn new_sub_sequence(writer: NBTWriter, size: i32, list_type: ListType) -> (r: Result<
        Self,
        NBTError,
    >)
        ensures
            r is Ok,
            r matches Ok(lw) ==> lw.writer.target@ == writer.target@ + (match list_type {
                ListType::List(et) => seq![u8_of_i8(spec_tag_id(et))],
                _ => Seq::<u8>::empty(),
            }) + crate::bytes::spec_u32_to_be_bytes(u32_of_i32(size)),
    {
        let mut w = writer;
        let ghost base = w.target@;
        if let ListType::List(et) = list_type {
            w.write_tag_id(et);
        }
        push_u32_be(&mut w.target, i32_to_wire(size));
        proof {
            assert(w.target@ =~= base + (match list_type {
                ListType::List(et) => seq![u8_of_i8(spec_tag_id(et))],
                _ => Seq::<u8>::empty(),
            }) + crate::bytes::spec_u32_to_be_bytes(u32_of_i32(size)));
        }
        Ok(BinaryListWriter { writer: w })
    }

    pub fn into_inner(self) -> (r: NBTWriter)
        ensures
            r == self.writer,
    {
        self.writer
    }

    /// Writes one element's payload, with no tag and no name.
    pub fn write_next_tag<D: NBTData>(&mut self, value: D) -> (r: Result<(), NBTError>)
        ensures
            r is Ok <==> crate::model::writable(value.spec_model()),
            r is Ok ==> final(self).writer.target@ == old(self).writer.target@
                + spec_encode_payload(value.spec_model()),
    {
        value.write_to(&mut self.writer)
    }
}

} // verus!
