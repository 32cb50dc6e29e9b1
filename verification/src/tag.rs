//! The 13 NBT tag kinds, their wire ids (0..=12) and fixed payload sizes.

use vstd::prelude::*;

verus! {

/// The closed set of NBT tag kinds, one per wire id 0..=12.
#[derive(PartialEq, Eq, Structural, Debug, Clone, Copy)]
pub enum Tag {
    End,
    Byte,
    Short,
    Int,
    Long,
    Float,
    Double,
    ByteArray,
    String,
    List,
    Compound,
    IntArray,
    LongArray,
}

/// The wire id of a tag, fixed by the format.
pub open spec fn spec_tag_id(t: Tag) -> i8 {
    match t {
        Tag::End => 0,
        Tag::Byte => 1,
        Tag::Short => 2,
        Tag::Int => 3,
        Tag::Long => 4,
        Tag::Float => 5,
        Tag::Double => 6,
        Tag::ByteArray => 7,
        Tag::String => 8,
        Tag::List => 9,
        Tag::Compound => 10,
        Tag::IntArray => 11,
        Tag::LongArray => 12,
    }
}

/// The tag a wire id stands for, if the id is one of 0..=12.
pub open spec fn spec_tag_from_i8(id: i8) -> Option<Tag> {
    if id == 0 {
        Some(Tag::End)
    } else if id == 1 {
        Some(Tag::Byte)
    } else if id == 2 {
        Some(Tag::Short)
    } else if id == 3 {
        Some(Tag::Int)
    } else if id == 4 {
        Some(Tag::Long)
    } else if id == 5 {
        Some(Tag::Float)
    } else if id == 6 {
        Some(Tag::Double)
    } else if id == 7 {
        Some(Tag::ByteArray)
    } else if id == 8 {
        Some(Tag::String)
    } else if id == 9 {
        Some(Tag::List)
    } else if id == 10 {
        Some(Tag::Compound)
    } else if id == 11 {
        Some(Tag::IntArray)
    } else if id == 12 {
        Some(Tag::LongArray)
    } else {
        None
    }
}

/// Decoding a tag's own id gives the tag back.
pub proof fn lemma_tag_id_round_trip(t: Tag)
    ensures
        spec_tag_from_i8(spec_tag_id(t)) == Some(t),
{
}

/// A decoded tag's id is the byte it was decoded from.
pub proof fn lemma_tag_from_i8_inverse(id: i8)
    ensures
        spec_tag_from_i8(id) matches Some(t) ==> spec_tag_id(t) == id,
{
}

impl Tag {
    /// The wire id of this tag.
    pub fn id(&self) -> (r: i8)
        ensures
            r == spec_tag_id(*self),
            0 <= r <= 12,
    {
        match self {
            Tag::End => 0,
            Tag::Byte => 1,
            Tag::Short => 2,
            Tag::Int => 3,
            Tag::Long => 4,
            Tag::Float => 5,
            Tag::Double => 6,
            Tag::ByteArray => 7,
            Tag::String => 8,
            Tag::List => 9,
            Tag::Compound => 10,
            Tag::IntArray => 11,
            Tag::LongArray => 12,
        }
    }

    /// The payload size in bytes of the fixed-width scalar tags;
    /// zero for the variable-width tags, whose size depends on the data.
    pub fn get_size(&self) -> (r: usize)
        ensures
            r == spec_tag_size(*self),
    {
        match self {
            Tag::End | Tag::Byte => 1,
            Tag::Short => 2,
            Tag::Int | Tag::Float => 4,
            Tag::Long | Tag::Double => 8,
            _ => 0,
        }
    }
}

/// Fixed payload width per tag; zero where the width depends on the data.
pub open spec fn spec_tag_size(t: Tag) -> usize {
    match t {
        Tag::End | Tag::Byte => 1usize,
        Tag::Short => 2usize,
        Tag::Int | Tag::Float => 4usize,
        Tag::Long | Tag::Double => 8usize,
        _ => 0usize,
    }
}

/// The on-wire shapes a logical sequence can take: the three specialized
/// primitive arrays, or a generic list of a given element tag.
#[derive(PartialEq, Eq, Structural, Debug, Clone, Copy)]
pub enum ListType {
    ByteArray,
    IntArray,
    LongArray,
    List(Tag),
}

/// The wire id emitted for a list header of the given shape.
pub open spec fn spec_list_type_id(t: ListType) -> i8 {
    match t {
        ListType::ByteArray => 7,
        ListType::IntArray => 11,
        ListType::LongArray => 12,
        ListType::List(_) => 9,
    }
}

} // verus!
