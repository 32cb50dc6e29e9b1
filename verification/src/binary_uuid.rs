//! UUID packing: a UUID's 16 big-endian bytes read as four sequential
//! big-endian 32-bit integers, the shape NBT stores UUIDs in.

use vstd::prelude::*;
use crate::bytes::{
    i32_of_u32, i32_to_wire, lemma_u32_be_round_trip, push_u32_be, spec_u32_from_be_bytes,
    spec_u32_to_be_bytes, take_u32_be, u32_of_i32, wire_to_i32,
};

verus! {

broadcast use vstd::std_specs::vec::group_vec_axioms;

/// A UUID as NBT stores it: four big-endian 32-bit words.
#[derive(Debug, Clone, Copy, PartialEq, Eq, Hash)]
pub struct BinaryUUID(pub [i32; 4]);

impl BinaryUUID {
    /// Packs the 16 big-endian bytes of a UUID into four words.
    pub fn from_bytes(bytes: &Vec<u8>) -> (r: Self)
        requires
            bytes.len() == 16,
        ensures
            forall|k: int|
                0 <= k < 4 ==> r.0@[k] == i32_of_u32(
                    spec_u32_from_be_bytes(bytes@.subrange(4 * k, 4 * k + 4)),
                ),
    {
        let a = wire_to_i32(take_u32_be(bytes, 0));
        let b = wire_to_i32(take_u32_be(bytes, 4));
        let c = wire_to_i32(take_u32_be(bytes, 8));
        let d = wire_to_i32(take_u32_be(bytes, 12));
        BinaryUUID([a, b, c, d])
    }

    /// Unpacks the four words back into the UUID's 16 big-endian bytes.
    pub fn to_bytes(&self) -> (r: Vec<u8>)
        ensures
            r@.len() == 16,
            forall|k: int|
                0 <= k < 4 ==> r@.subrange(4 * k, 4 * k + 4) == spec_u32_to_be_bytes(
                    u32_of_i32(self.0@[k]),
                ),
    {
        let mut out: Vec<u8> = Vec::new();
        push_u32_be(&mut out, i32_to_wire(self.0[0]));
        push_u32_be(&mut out, i32_to_wire(self.0[1]));
        push_u32_be(&mut out, i32_to_wire(self.0[2]));
        push_u32_be(&mut out, i32_to_wire(self.0[3]));
        proof {
            assert forall|k: int| 0 <= k < 4 implies out@.subrange(4 * k, 4 * k + 4)
                == spec_u32_to_be_bytes(u32_of_i32(self.0@[k])) by {
                if k == 0 {
                    assert(out@.subrange(0, 4) =~= spec_u32_to_be_bytes(u32_of_i32(self.0@[0])));
                } else if k == 1 {
                    assert(out@.subrange(4, 8) =~= spec_u32_to_be_bytes(u32_of_i32(self.0@[1])));
                } else if k == 2 {
                    assert(out@.subrange(8, 12) =~= spec_u32_to_be_bytes(u32_of_i32(self.0@[2])));
                } else {
                    assert(out@.subrange(12, 16) =~= spec_u32_to_be_bytes(u32_of_i32(self.0@[3])));
                }
            }
        }
        out
    }
}

/// Packing and unpacking invert each other: bytes packed into four words
/// and written back give the original bytes, and words written as bytes
/// and packed again give the original words.
pub proof fn lemma_uuid_pack_round_trip(ints: Seq<i32>, bytes: Seq<u8>)
    requires
        ints.len() == 4,
        bytes.len() == 16,
        forall|k: int|
            0 <= k < 4 ==> bytes.subrange(4 * k, 4 * k + 4) == spec_u32_to_be_bytes(
                u32_of_i32(ints[k]),
            ),
    ensures
        forall|k: int|
            0 <= k < 4 ==> i32_of_u32(spec_u32_from_be_bytes(bytes.subrange(4 * k, 4 * k + 4)))
                == ints[k],
{
    lemma_u32_be_round_trip();
}

} // verus!
