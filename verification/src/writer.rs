//! The primitive NBT writer: big-endian scalars, length-prefixed strings
//! and tag ids, appended to an in-memory byte buffer.

use vstd::prelude::*;
use vstd::string::StrSliceExecFns;
use crate::bytes::{push_u16_be, u8_of_i8};
use crate::model::{spec_encode_str, str_fits};
use crate::tag::{spec_tag_id, Tag};

verus! {

/// A sink that accumulates the bytes of a binary NBT document.
#[derive(Debug)]
pub struct NBTWriter {
    pub target: Vec<u8>,
}

impl NBTWriter {
    pub fn new(target: Vec<u8>) -> (r: Self)
        ensures
            r.target == target,
    {
        NBTWriter { target }
    }

    pub fn into_inner(self) -> (r: Vec<u8>)
        ensures
            r == self.target,
    {
        self.target
    }

    /// Emits one tag byte.
    pub fn write_tag_id(&mut self, tag: Tag)
        ensures
            final(self).target@ == old(self).target@ + seq![u8_of_i8(spec_tag_id(tag))],
    {
        let id = tag.id();
        self.target.push(crate::bytes::i8_to_wire(id));
        assert(self.target@ =~= old(self).target@ + seq![u8_of_i8(spec_tag_id(tag))]);
    }

    /// Emits a length-prefixed string: its UTF-8 byte count as an unsigned
    /// 16-bit integer, then the bytes themselves.  Tag names and string
    /// payloads share this shape.
    pub fn write_string(&mut self, string: &str)
        requires
            str_fits(string@),
        ensures
            final(self).target@ == old(self).target@ + spec_encode_str(string@),
    {
        let mut b = string.as_bytes_vec();
        push_u16_be(&mut self.target, b.len() as u16);
        self.target.append(&mut b);
        assert(self.target@ =~= old(self).target@ + spec_encode_str(string@));
    }
}

} // verus!
