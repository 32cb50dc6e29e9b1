//! The primitive NBT reader: big-endian scalars, length-prefixed strings
//! and tag ids, read from an in-memory byte buffer through a cursor.

use vstd::prelude::*;
use crate::bytes::{
    i8_of_u8, i16_of_u16, i32_of_u32, i64_of_u64, spec_u16_from_be_bytes, spec_u32_from_be_bytes,
    spec_u64_from_be_bytes, take_u16_be, take_u32_be, take_u64_be, wire_to_i8, wire_to_i16,
    wire_to_i32, wire_to_i64,
};
use crate::error::NBTError;
use crate::tag::{spec_tag_from_i8, Tag};

verus! {

/// A cursor over a byte buffer holding a binary NBT document.
#[derive(Debug)]
pub struct NBTReader {
    pub src: Vec<u8>,
    pub pos: usize,
}

impl NBTReader {
    /// The cursor never points past the end of the buffer.
    pub open spec fn wf(&self) -> bool {
        self.pos <= self.src.len()
    }

    /// The bytes not yet consumed.
    pub open spec fn remaining(&self) -> Seq<u8> {
        self.src@.skip(self.pos as int)
    }

    pub fn new(src: Vec<u8>) -> (r: Self)
        ensures
            r.src == src,
            r.pos == 0,
            r.wf(),
    {
        NBTReader { src, pos: 0 }
    }

    pub fn into_inner(self) -> (r: Vec<u8>)
        ensures
            r == self.src,
    {
        self.src
    }

    pub fn read_byte(&mut self) -> (r: Result<i8, NBTError>)
        requires
            old(self).wf(),
        ensures
            final(self).wf(),
            final(self).src == old(self).src,
            old(self).pos + 1 <= old(self).src.len() ==> r == Ok::<i8, NBTError>(
                i8_of_u8(old(self).src@[old(self).pos as int]),
            ) && final(self).pos == old(self).pos + 1,
            old(self).pos + 1 > old(self).src.len() ==> r == Err::<i8, NBTError>(NBTError::IO)
                && final(self).pos == old(self).pos,
    {
        if self.pos < self.src.len() {
            let b = self.src[self.pos];
            self.pos = self.pos + 1;
            Ok(wire_to_i8(b))
        } else {
            Err(NBTError::IO)
        }
    }

    pub fn read_short(&mut self) -> (r: Result<i16, NBTError>)
        requires
            old(self).wf(),
        ensures
            final(self).wf(),
            final(self).src == old(self).src,
            old(self).pos + 2 <= old(self).src.len() ==> r == Ok::<i16, NBTError>(
                i16_of_u16(
                    spec_u16_from_be_bytes(
                        old(self).src@.subrange(old(self).pos as int, old(self).pos + 2),
                    ),
                ),
            ) && final(self).pos == old(self).pos + 2,
            old(self).pos + 2 > old(self).src.len() ==> r == Err::<i16, NBTError>(NBTError::IO)
                && final(self).pos == old(self).pos,
    {
        if self.src.len() - self.pos >= 2 {
            let x = take_u16_be(&self.src, self.pos);
            self.pos = self.pos + 2;
            Ok(wire_to_i16(x))
        } else {
            Err(NBTError::IO)
        }
    }

    pub fn read_int(&mut self) -> (r: Result<i32, NBTError>)
        requires
            old(self).wf(),
        ensures
            final(self).wf(),
            final(self).src == old(self).src,
            old(self).pos + 4 <= old(self).src.len() ==> r == Ok::<i32, NBTError>(
                i32_of_u32(
                    spec_u32_from_be_bytes(
                        old(self).src@.subrange(old(self).pos as int, old(self).pos + 4),
                    ),
                ),
            ) && final(self).pos == old(self).pos + 4,
            old(self).pos + 4 > old(self).src.len() ==> r == Err::<i32, NBTError>(NBTError::IO)
                && final(self).pos == old(self).pos,
    {
        if self.src.len() - self.pos >= 4 {
            let x = take_u32_be(&self.src, self.pos);
            self.pos = self.pos + 4;
            Ok(wire_to_i32(x))
        } else {
            Err(NBTError::IO)
        }
    }

    pub fn read_long(&mut self) -> (r: Result<i64, NBTError>)
        requires
            old(self).wf(),
        ensures
            final(self).wf(),
            final(self).src == old(self).src,
            old(self).pos + 8 <= old(self).src.len() ==> r == Ok::<i64, NBTError>(
                i64_of_u64(
                    spec_u64_from_be_bytes(
                        old(self).src@.subrange(old(self).pos as int, old(self).pos + 8),
                    ),
                ),
            ) && final(self).pos == old(self).pos + 8,
            old(self).pos + 8 > old(self).src.len() ==> r == Err::<i64, NBTError>(NBTError::IO)
                && final(self).pos == old(self).pos,
    {
        if self.src.len() - self.pos >= 8 {
            let x = take_u64_be(&self.src, self.pos);
            self.pos = self.pos + 8;
            Ok(wire_to_i64(x))
        } else {
            Err(NBTError::IO)
        }
    }

    /// Reads a 32-bit IEEE-754 value as its big-endian bit pattern.
    pub fn read_float(&mut self) -> (r: Result<u32, NBTError>)
        requires
            old(self).wf(),
        ensures
            final(self).wf(),
            final(self).src == old(self).src,
            old(self).pos + 4 <= old(self).src.len() ==> r == Ok::<u32, NBTError>(
                spec_u32_from_be_bytes(
                    old(self).src@.subrange(old(self).pos as int, old(self).pos + 4),
                ),
            ) && final(self).pos == old(self).pos + 4,
            old(self).pos + 4 > old(self).src.len() ==> r == Err::<u32, NBTError>(NBTError::IO)
                && final(self).pos == old(self).pos,
    {
        if self.src.len() - self.pos >= 4 {
            let x = take_u32_be(&self.src, self.pos);
            self.pos = self.pos + 4;
            Ok(x)
        } else {
            Err(NBTError::IO)
        }
    }

    /// Reads a 64-bit IEEE-754 value as its big-endian bit pattern.
    pub fn read_double(&mut self) -> (r: Result<u64, NBTError>)
        requires
            old(self).wf(),
        ensures
            final(self).wf(),
            final(self).src == old(self).src,
            old(self).pos + 8 <= old(self).src.len() ==> r == Ok::<u64, NBTError>(
                spec_u64_from_be_bytes(
                    old(self).src@.subrange(old(self).pos as int, old(self).pos + 8),
                ),
            ) && final(self).pos == old(self).pos + 8,
            old(self).pos + 8 > old(self).src.len() ==> r == Err::<u64, NBTError>(NBTError::IO)
                && final(self).pos == old(self).pos,
    {
        if self.src.len() - self.pos >= 8 {
            let x = take_u64_be(&self.src, self.pos);
            self.pos = self.pos + 8;
            Ok(x)
        } else {
            Err(NBTError::IO)
        }
    }

    /// The unsigned 16-bit byte-count prefix of a string or name.
    pub fn read_string_len(&mut self) -> (r: Result<u16, NBTError>)
        requires
            old(self).wf(),
        ensures
            final(self).wf(),
            final(self).src == old(self).src,
            old(self).pos + 2 <= old(self).src.len() ==> r == Ok::<u16, NBTError>(
                spec_u16_from_be_bytes(
                    old(self).src@.subrange(old(self).pos as int, old(self).pos + 2),
                ),
            ) && final(self).pos == old(self).pos + 2,
            old(self).pos + 2 > old(self).src.len() ==> r == Err::<u16, NBTError>(NBTError::IO)
                && final(self).pos == old(self).pos,
    {
        if self.src.len() - self.pos >= 2 {
            let x = take_u16_be(&self.src, self.pos);
            self.pos = self.pos + 2;
            Ok(x)
        } else {
            Err(NBTError::IO)
        }
    }

    /// The raw bytes of a string payload; the caller converts them to a
    /// `String`.
    pub fn read_str_as_bytes(&mut self, size: u16) -> (r: Result<Vec<u8>, NBTError>)
        requires
            old(self).wf(),
        ensures
            final(self).wf(),
            final(self).src == old(self).src,
            old(self).pos + size <= old(self).src.len() ==> (r matches Ok(v) && v@ == old(
                self,
            ).src@.subrange(old(self).pos as int, old(self).pos + size)) && final(self).pos == old(
                self,
            ).pos + size,
            old(self).pos + size > old(self).src.len() ==> r == Err::<Vec<u8>, NBTError>(
                NBTError::IO,
            ) && final(self).pos == old(self).pos,
    {
        if self.src.len() - self.pos >= size as usize {
            let mut v: Vec<u8> = Vec::new();
            let mut i: usize = 0;
            while i < size as usize
                invariant
                    self.wf(),
                    self.src == old(self).src,
                    self.pos == old(self).pos,
                    i <= size as usize,
                    self.pos + size <= self.src.len(),
                    v@ == self.src@.subrange(self.pos as int, self.pos + i),
                decreases size as usize - i,
            {
                v.push(self.src[self.pos + i]);
                i = i + 1;
                proof {
                    assert(v@ =~= self.src@.subrange(self.pos as int, self.pos + i));
                }
            }
            self.pos = self.pos + size as usize;
            Ok(v)
        } else {
            Err(NBTError::IO)
        }
    }

    /// One tag byte, rejected with `InvalidTag` when its id is out of range.
    pub fn read_tag_id(&mut self) -> (r: Result<Tag, NBTError>)
        requires
            old(self).wf(),
        ensures
            final(self).wf(),
            final(self).src == old(self).src,
            old(self).pos + 1 <= old(self).src.len() ==> {
                let id = i8_of_u8(old(self).src@[old(self).pos as int]);
                match spec_tag_from_i8(id) {
                    Some(t) => r == Ok::<Tag, NBTError>(t) && final(self).pos == old(self).pos + 1,
                    None => r == Err::<Tag, NBTError>(NBTError::InvalidTag(id)) && final(self).pos
                        == old(self).pos + 1,
                }
            },
            old(self).pos + 1 > old(self).src.len() ==> r == Err::<Tag, NBTError>(NBTError::IO)
                && final(self).pos == old(self).pos,
    {
        if self.pos < self.src.len() {
            let id = wire_to_i8(self.src[self.pos]);
            self.pos = self.pos + 1;
            match crate::binary::Binary::tag_from_i8(id) {
                Some(t) => Ok(t),
                None => Err(NBTError::InvalidTag(id)),
            }
        } else {
            Err(NBTError::IO)
        }
    }

    /// The next tag byte without moving the cursor.
    pub fn peak_tag_id(&mut self) -> (r: Result<Tag, NBTError>)
        requires
            old(self).wf(),
        ensures
            *final(self) == *old(self),
            old(self).pos + 1 <= old(self).src.len() ==> {
                let id = i8_of_u8(old(self).src@[old(self).pos as int]);
                match spec_tag_from_i8(id) {
                    Some(t) => r == Ok::<Tag, NBTError>(t),
                    None => r == Err::<Tag, NBTError>(NBTError::InvalidTag(id)),
                }
            },
            old(self).pos + 1 > old(self).src.len() ==> r == Err::<Tag, NBTError>(NBTError::IO),
    {
        if self.pos < self.src.len() {
            let id = wire_to_i8(self.src[self.pos]);
            match crate::binary::Binary::tag_from_i8(id) {
                Some(t) => Ok(t),
                None => Err(NBTError::InvalidTag(id)),
            }
        } else {
            Err(NBTError::IO)
        }
    }

    /// The tag byte and, unless the tag is End, the name's byte count.
    /// The count is zero for an End tag.
    pub fn read_tag_id_with_id_len(&mut self) -> (r: Result<(Tag, u16), NBTError>)
        requires
            old(self).wf(),
        ensures
            final(self).wf(),
            final(self).src == old(self).src,
            r matches Ok(p) ==> old(self).pos + 1 <= old(self).src.len() && spec_tag_from_i8(
                i8_of_u8(old(self).src@[old(self).pos as int]),
            ) == Some(p.0) && (p.0 == Tag::End ==> p.1 == 0 && final(self).pos == old(self).pos
                + 1) && (p.0 != Tag::End ==> old(self).pos + 3 <= old(self).src.len() && p.1
                == spec_u16_from_be_bytes(
                old(self).src@.subrange(old(self).pos + 1, old(self).pos + 3),
            ) && final(self).pos == old(self).pos + 3),
            old(self).pos + 1 > old(self).src.len() ==> r == Err::<(Tag, u16), NBTError>(
                NBTError::IO,
            ),
            old(self).pos + 1 <= old(self).src.len() ==> match spec_tag_from_i8(
                i8_of_u8(old(self).src@[old(self).pos as int]),
            ) {
                None => r == Err::<(Tag, u16), NBTError>(
                    NBTError::InvalidTag(i8_of_u8(old(self).src@[old(self).pos as int])),
                ),
                Some(t) => if t == Tag::End || old(self).pos + 3 <= old(self).src.len() {
                    r is Ok
                } else {
                    r == Err::<(Tag, u16), NBTError>(NBTError::IO)
                },
            },
    {
        let tag = self.read_tag_id()?;
        if let Tag::End = tag {
            return Ok((tag, 0));
        }
        let id_len = self.read_string_len()?;
        Ok((tag, id_len))
    }

    /// A signed element count followed by that many bytes.  As in the
    /// original scheme, a non-positive count reads no bytes and gives an
    /// empty array.
    pub fn read_byte_array(&mut self, size: i32) -> (r: Result<Vec<i8>, NBTError>)
        requires
            old(self).wf(),
        ensures
            final(self).wf(),
            final(self).src == old(self).src,
            size <= 0 ==> (r matches Ok(v) && v@ == Seq::<i8>::empty()) && final(self).pos == old(
                self,
            ).pos,
            size > 0 && old(self).pos + size <= old(self).src.len() ==> (r matches Ok(v) && v@
                == Seq::new(
                size as nat,
                |i: int| i8_of_u8(old(self).src@[old(self).pos + i]),
            )) && final(self).pos == old(self).pos + size,
            size > 0 && old(self).pos + size > old(self).src.len() ==> r == Err::<
                Vec<i8>,
                NBTError,
            >(NBTError::IO) && final(self).pos == old(self).pos,
    {
        if size <= 0 {
            return Ok(Vec::new());
        }
        let n = size as usize;
        if self.src.len() - self.pos >= n {
            let mut v: Vec<i8> = Vec::new();
            let mut i: usize = 0;
            while i < n
                invariant
                    self.wf(),
                    self.src == old(self).src,
                    self.pos == old(self).pos,
                    i <= n,
                    self.pos + n <= self.src.len(),
                    v@ == Seq::new(i as nat, |j: int| i8_of_u8(self.src@[self.pos + j])),
                decreases n - i,
            {
                v.push(wire_to_i8(self.src[self.pos + i]));
                i = i + 1;
                proof {
                    assert(v@ =~= Seq::new(i as nat, |j: int| i8_of_u8(self.src@[self.pos + j])));
                }
            }
            self.pos = self.pos + n;
            Ok(v)
        } else {
            Err(NBTError::IO)
        }
    }

    /// A generic list header after the name: the element tag byte and the
    /// element count, reinterpreted unsigned.
    pub fn read_list_type_and_size(&mut self) -> (r: Result<(Tag, u32), NBTError>)
        requires
            old(self).wf(),
        ensures
            final(self).wf(),
            final(self).src == old(self).src,
            r matches Ok(p) ==> old(self).pos + 5 <= old(self).src.len() && spec_tag_from_i8(
                i8_of_u8(old(self).src@[old(self).pos as int]),
            ) == Some(p.0) && p.1 == spec_u32_from_be_bytes(
                old(self).src@.subrange(old(self).pos + 1, old(self).pos + 5),
            ) && final(self).pos == old(self).pos + 5,
            r is Err ==> old(self).pos + 5 > old(self).src.len() || (old(self).pos + 1 <= old(
                self,
            ).src.len() && spec_tag_from_i8(i8_of_u8(old(self).src@[old(self).pos as int]))
                is None),
    {
        let tag = self.read_tag_id()?;
        let size = self.read_int()?;
        proof {
            crate::bytes::lemma_u32_be_round_trip();
        }
        Ok((tag, crate::bytes::i32_to_wire(size)))
    }
}

} // verus!
