//! Big-endian byte-level conversions for the scalar wire types, together
//! with the two's-complement correspondence between the signed NBT scalars
//! and their unsigned bit patterns.

use vstd::prelude::*;

verus! {

// ---------------------------------------------------------------------------
// Signed scalars <-> unsigned bit patterns
// ---------------------------------------------------------------------------

pub open spec fn u8_of_i8(x: i8) -> u8 {
    ((x as int) % 0x100) as u8
}

pub open spec fn i8_of_u8(b: u8) -> i8 {
    if b < 0x80 {
        b as i8
    } else {
        ((b as int) - 0x100) as i8
    }
}

pub open spec fn u16_of_i16(x: i16) -> u16 {
    ((x as int) % 0x1_0000) as u16
}

pub open spec fn i16_of_u16(b: u16) -> i16 {
    if b < 0x8000 {
        b as i16
    } else {
        ((b as int) - 0x1_0000) as i16
    }
}

pub open spec fn u32_of_i32(x: i32) -> u32 {
    ((x as int) % 0x1_0000_0000) as u32
}

pub open spec fn i32_of_u32(b: u32) -> i32 {
    if b < 0x8000_0000 {
        b as i32
    } else {
        ((b as int) - 0x1_0000_0000) as i32
    }
}

pub open spec fn u64_of_i64(x: i64) -> u64 {
    ((x as int) % 0x1_0000_0000_0000_0000) as u64
}

pub open spec fn i64_of_u64(b: u64) -> i64 {
    if b < 0x8000_0000_0000_0000 {
        b as i64
    } else {
        ((b as int) - 0x1_0000_0000_0000_0000) as i64
    }
}

pub fn i8_to_wire(x: i8) -> (r: u8)
    ensures
        r == u8_of_i8(x),
{
    if x >= 0 {
        x as u8
    } else {
        ((x as i16) + 0x100) as u8
    }
}

pub fn wire_to_i8(b: u8) -> (r: i8)
    ensures
        r == i8_of_u8(b),
{
    if b < 0x80 {
        b as i8
    } else {
        ((b as i16) - 0x100) as i8
    }
}

pub fn i16_to_wire(x: i16) -> (r: u16)
    ensures
        r == u16_of_i16(x),
{
    if x >= 0 {
        x as u16
    } else {
        ((x as i32) + 0x1_0000) as u16
    }
}

pub fn wire_to_i16(b: u16) -> (r: i16)
    ensures
        r == i16_of_u16(b),
{
    if b < 0x8000 {
        b as i16
    } else {
        ((b as i32) - 0x1_0000) as i16
    }
}

pub fn i32_to_wire(x: i32) -> (r: u32)
    ensures
        r == u32_of_i32(x),
{
    if x >= 0 {
        x as u32
    } else {
        ((x as i64) + 0x1_0000_0000) as u32
    }
}

pub fn wire_to_i32(b: u32) -> (r: i32)
    ensures
        r == i32_of_u32(b),
{
    if b < 0x8000_0000 {
        b as i32
    } else {
        ((b as i64) - 0x1_0000_0000) as i32
    }
}

pub fn i64_to_wire(x: i64) -> (r: u64)
    ensures
        r == u64_of_i64(x),
{
    if x >= 0 {
        x as u64
    } else {
        (((x as i128) + 0x1_0000_0000_0000_0000) as u64)
    }
}

pub fn wire_to_i64(b: u64) -> (r: i64)
    ensures
        r == i64_of_u64(b),
{
    if b < 0x8000_0000_0000_0000 {
        b as i64
    } else {
        (((b as i128) - 0x1_0000_0000_0000_0000) as i64)
    }
}

// ---------------------------------------------------------------------------
// Big-endian byte sequences
// ---------------------------------------------------------------------------

pub open spec fn spec_u16_to_be_bytes(x: u16) -> Seq<u8> {
    seq![(x >> 8) as u8, (x & 0xff) as u8]
}

pub open spec fn spec_u16_from_be_bytes(s: Seq<u8>) -> u16
    recommends
        s.len() == 2,
{
    (s[0] as u16) << 8 | (s[1] as u16)
}

pub open spec fn spec_u24_to_be_bytes(x: u32) -> Seq<u8>
    recommends
        x < 0x100_0000,
{
    seq![((x >> 16) & 0xff) as u8, ((x >> 8) & 0xff) as u8, (x & 0xff) as u8]
}

pub open spec fn spec_u24_from_be_bytes(s: Seq<u8>) -> u32
    recommends
        s.len() == 3,
{
    (s[0] as u32) << 16 | (s[1] as u32) << 8 | (s[2] as u32)
}

pub open spec fn spec_u32_to_be_bytes(x: u32) -> Seq<u8> {
    seq![
        ((x >> 24) & 0xff) as u8,
        ((x >> 16) & 0xff) as u8,
        ((x >> 8) & 0xff) as u8,
        (x & 0xff) as u8,
    ]
}

pub open spec fn spec_u32_from_be_bytes(s: Seq<u8>) -> u32
    recommends
        s.len() == 4,
{
    (s[0] as u32) << 24 | (s[1] as u32) << 16 | (s[2] as u32) << 8 | (s[3] as u32)
}

pub open spec fn spec_u64_to_be_bytes(x: u64) -> Seq<u8> {
    seq![
        ((x >> 56) & 0xff) as u8,
        ((x >> 48) & 0xff) as u8,
        ((x >> 40) & 0xff) as u8,
        ((x >> 32) & 0xff) as u8,
        ((x >> 24) & 0xff) as u8,
        ((x >> 16) & 0xff) as u8,
        ((x >> 8) & 0xff) as u8,
        (x & 0xff) as u8,
    ]
}

pub open spec fn spec_u64_from_be_bytes(s: Seq<u8>) -> u64
    recommends
        s.len() == 8,
{
    (s[0] as u64) << 56 | (s[1] as u64) << 48 | (s[2] as u64) << 40 | (s[3] as u64) << 32 | (
    s[4] as u64) << 24 | (s[5] as u64) << 16 | (s[6] as u64) << 8 | (s[7] as u64)
}

pub proof fn lemma_u16_be_round_trip()
    ensures
        forall|x: u16| #[trigger] spec_u16_from_be_bytes(spec_u16_to_be_bytes(x)) == x,
{
    assert forall|x: u16| #[trigger] spec_u16_from_be_bytes(spec_u16_to_be_bytes(x)) == x by {
        assert((((x >> 8) as u8) as u16) << 8 | (((x & 0xff) as u8) as u16) == x)
            by (bit_vector);
    }
}

pub proof fn lemma_u24_be_round_trip()
    ensures
        forall|x: u32|
            x < 0x100_0000 ==> #[trigger] spec_u24_from_be_bytes(spec_u24_to_be_bytes(x)) == x,
{
    assert forall|x: u32|
        x < 0x100_0000 implies #[trigger] spec_u24_from_be_bytes(spec_u24_to_be_bytes(x))
        == x by {
        assert(x < 0x100_0000 ==> (((((x >> 16) & 0xff) as u8) as u32) << 16 | ((((x >> 8)
            & 0xff) as u8) as u32) << 8 | (((x & 0xff) as u8) as u32) == x)) by (bit_vector);
    }
}

pub proof fn lemma_u32_be_round_trip()
    ensures
        forall|x: u32| #[trigger] spec_u32_from_be_bytes(spec_u32_to_be_bytes(x)) == x,
{
    assert forall|x: u32| #[trigger] spec_u32_from_be_bytes(spec_u32_to_be_bytes(x)) == x by {
        assert(((((x >> 24) & 0xff) as u8) as u32) << 24 | ((((x >> 16) & 0xff) as u8)
            as u32) << 16 | ((((x >> 8) & 0xff) as u8) as u32) << 8 | (((x & 0xff) as u8)
            as u32) == x) by (bit_vector);
    }
}

pub proof fn lemma_u64_be_round_trip()
    ensures
        forall|x: u64| #[trigger] spec_u64_from_be_bytes(spec_u64_to_be_bytes(x)) == x,
{
    assert forall|x: u64| #[trigger] spec_u64_from_be_bytes(spec_u64_to_be_bytes(x)) == x by {
        assert(((((x >> 56) & 0xff) as u8) as u64) << 56 | ((((x >> 48) & 0xff) as u8)
            as u64) << 48 | ((((x >> 40) & 0xff) as u8) as u64) << 40 | ((((x >> 32) & 0xff)
            as u8) as u64) << 32 | ((((x >> 24) & 0xff) as u8) as u64) << 24 | ((((x >> 16)
            & 0xff) as u8) as u64) << 16 | ((((x >> 8) & 0xff) as u8) as u64) << 8 | (((x
            & 0xff) as u8) as u64) == x) by (bit_vector);
    }
}

// ---------------------------------------------------------------------------
// Executable helpers over byte buffers
// ---------------------------------------------------------------------------

pub fn push_u16_be(out: &mut Vec<u8>, x: u16)
    ensures
        final(out)@ == old(out)@ + spec_u16_to_be_bytes(x),
{
    proof {
        assert(x >> 8 < 0x100 && (x & 0xff) < 0x100) by (bit_vector);
    }
    out.push((x >> 8) as u8);
    out.push((x & 0xff) as u8);
    assert(out@ =~= old(out)@ + spec_u16_to_be_bytes(x));
}

pub fn push_u24_be(out: &mut Vec<u8>, x: u32)
    requires
        x < 0x100_0000,
    ensures
        final(out)@ == old(out)@ + spec_u24_to_be_bytes(x),
{
    proof {
        assert(((x >> 16) & 0xff) < 0x100 && ((x >> 8) & 0xff) < 0x100 && (x & 0xff)
            < 0x100) by (bit_vector);
    }
    out.push(((x >> 16) & 0xff) as u8);
    out.push(((x >> 8) & 0xff) as u8);
    out.push((x & 0xff) as u8);
    assert(out@ =~= old(out)@ + spec_u24_to_be_bytes(x));
}

pub fn push_u32_be(out: &mut Vec<u8>, x: u32)
    ensures
        final(out)@ == old(out)@ + spec_u32_to_be_bytes(x),
{
    proof {
        assert(((x >> 24) & 0xff) < 0x100 && ((x >> 16) & 0xff) < 0x100 && ((x >> 8) & 0xff)
            < 0x100 && (x & 0xff) < 0x100) by (bit_vector);
    }
    out.push(((x >> 24) & 0xff) as u8);
    out.push(((x >> 16) & 0xff) as u8);
    out.push(((x >> 8) & 0xff) as u8);
    out.push((x & 0xff) as u8);
    assert(out@ =~= old(out)@ + spec_u32_to_be_bytes(x));
}

pub fn push_u64_be(out: &mut Vec<u8>, x: u64)
    ensures
        final(out)@ == old(out)@ + spec_u64_to_be_bytes(x),
{
    proof {
        assert(((x >> 56) & 0xff) < 0x100 && ((x >> 48) & 0xff) < 0x100 && ((x >> 40) & 0xff)
            < 0x100 && ((x >> 32) & 0xff) < 0x100 && ((x >> 24) & 0xff) < 0x100 && ((x >> 16)
            & 0xff) < 0x100 && ((x >> 8) & 0xff) < 0x100 && (x & 0xff) < 0x100) by (bit_vector);
    }
    out.push(((x >> 56) & 0xff) as u8);
    out.push(((x >> 48) & 0xff) as u8);
    out.push(((x >> 40) & 0xff) as u8);
    out.push(((x >> 32) & 0xff) as u8);
    out.push(((x >> 24) & 0xff) as u8);
    out.push(((x >> 16) & 0xff) as u8);
    out.push(((x >> 8) & 0xff) as u8);
    out.push((x & 0xff) as u8);
    assert(out@ =~= old(out)@ + spec_u64_to_be_bytes(x));
}

pub fn take_u16_be(data: &Vec<u8>, pos: usize) -> (r: u16)
    requires
        pos + 2 <= data.len(),
    ensures
        r == spec_u16_from_be_bytes(data@.subrange(pos as int, pos as int + 2)),
{
    let b0 = data[pos];
    let b1 = data[pos + 1];
    (b0 as u16) << 8 | (b1 as u16)
}

pub fn take_u24_be(data: &Vec<u8>, pos: usize) -> (r: u32)
    requires
        pos + 3 <= data.len(),
    ensures
        r == spec_u24_from_be_bytes(data@.subrange(pos as int, pos as int + 3)),
{
    let b0 = data[pos];
    let b1 = data[pos + 1];
    let b2 = data[pos + 2];
    (b0 as u32) << 16 | (b1 as u32) << 8 | (b2 as u32)
}

pub fn take_u32_be(data: &Vec<u8>, pos: usize) -> (r: u32)
    requires
        pos + 4 <= data.len(),
    ensures
        r == spec_u32_from_be_bytes(data@.subrange(pos as int, pos as int + 4)),
{
    let b0 = data[pos];
    let b1 = data[pos + 1];
    let b2 = data[pos + 2];
    let b3 = data[pos + 3];
    (b0 as u32) << 24 | (b1 as u32) << 16 | (b2 as u32) << 8 | (b3 as u32)
}

pub fn take_u64_be(data: &Vec<u8>, pos: usize) -> (r: u64)
    requires
        pos + 8 <= data.len(),
    ensures
        r == spec_u64_from_be_bytes(data@.subrange(pos as int, pos as int + 8)),
{
    let b0 = data[pos];
    let b1 = data[pos + 1];
    let b2 = data[pos + 2];
    let b3 = data[pos + 3];
    let b4 = data[pos + 4];
    let b5 = data[pos + 5];
    let b6 = data[pos + 6];
    let b7 = data[pos + 7];
    (b0 as u64) << 56 | (b1 as u64) << 48 | (b2 as u64) << 40 | (b3 as u64) << 32 | (b4
        as u64) << 24 | (b5 as u64) << 16 | (b6 as u64) << 8 | (b7 as u64)
}

} // verus!
