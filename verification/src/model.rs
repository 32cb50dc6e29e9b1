//! The mathematical model of NBT documents: a ghost value tree, the
//! big-endian encoding of a tree as a byte sequence, a parser over byte
//! sequences, and the round-trip theorem connecting the two.
//!
//! The executable reader and writer are specified against `spec_encode_*`
//! and `spec_parse_*`; `lemma_binary_round_trip` then states the format's
//! central property purely at the specification level.

use vstd::prelude::*;
use vstd::utf8::{decode_utf8, encode_utf8, valid_utf8};
use crate::bytes::{
    i8_of_u8, i16_of_u16, i32_of_u32, i64_of_u64, lemma_u16_be_round_trip,
    lemma_u32_be_round_trip, lemma_u64_be_round_trip, spec_u16_from_be_bytes,
    spec_u16_to_be_bytes, spec_u32_from_be_bytes, spec_u32_to_be_bytes, spec_u64_from_be_bytes,
    spec_u64_to_be_bytes, u8_of_i8, u16_of_i16, u32_of_i32, u64_of_i64,
};
use crate::tag::{spec_tag_from_i8, spec_tag_id, Tag};

verus! {

broadcast use vstd::seq::group_seq_axioms;

/// A ghost NBT payload: the abstract value of a `NameLessValue`.
/// Strings are char sequences; the IEEE-754 scalars are carried as their
/// big-endian bit patterns, which is all the codec ever looks at.
#[verifier::ext_equal]
pub enum ValueModel {
    End,
    Byte(i8),
    Short(i16),
    Int(i32),
    Long(i64),
    Float(u32),
    Double(u64),
    ByteArray(Seq<i8>),
    Str(Seq<char>),
    List(Seq<ValueModel>),
    Compound(Seq<(Seq<char>, ValueModel)>),
    IntArray(Seq<i32>),
    LongArray(Seq<i64>),
    Boolean(bool),
}

/// The tag a payload is written with.  The derived Boolean encodes as Byte.
pub open spec fn tag_of(m: ValueModel) -> Tag {
    match m {
        ValueModel::End => Tag::End,
        ValueModel::Byte(_) => Tag::Byte,
        ValueModel::Short(_) => Tag::Short,
        ValueModel::Int(_) => Tag::Int,
        ValueModel::Long(_) => Tag::Long,
        ValueModel::Float(_) => Tag::Float,
        ValueModel::Double(_) => Tag::Double,
        ValueModel::ByteArray(_) => Tag::ByteArray,
        ValueModel::Str(_) => Tag::String,
        ValueModel::List(_) => Tag::List,
        ValueModel::Compound(_) => Tag::Compound,
        ValueModel::IntArray(_) => Tag::IntArray,
        ValueModel::LongArray(_) => Tag::LongArray,
        ValueModel::Boolean(_) => Tag::Byte,
    }
}

/// The element tag a list header declares: the first element's tag,
/// or End for the conventional empty-list shape.
pub open spec fn list_elem_tag(es: Seq<ValueModel>) -> Tag {
    if es.len() == 0 {
        Tag::End
    } else {
        tag_of(es[0])
    }
}

// ---------------------------------------------------------------------------
// Encoding
// ---------------------------------------------------------------------------

/// A length-prefixed string: u16 byte count, then the UTF-8 bytes.
pub open spec fn spec_encode_str(s: Seq<char>) -> Seq<u8> {
    spec_u16_to_be_bytes(encode_utf8(s).len() as u16) + encode_utf8(s)
}

pub open spec fn spec_encode_i8s(v: Seq<i8>) -> Seq<u8>
    decreases v.len(),
{
    if v.len() == 0 {
        Seq::empty()
    } else {
        seq![u8_of_i8(v[0])] + spec_encode_i8s(v.drop_first())
    }
}

pub open spec fn spec_encode_i32s(v: Seq<i32>) -> Seq<u8>
    decreases v.len(),
{
    if v.len() == 0 {
        Seq::empty()
    } else {
        spec_u32_to_be_bytes(u32_of_i32(v[0])) + spec_encode_i32s(v.drop_first())
    }
}

pub open spec fn spec_encode_i64s(v: Seq<i64>) -> Seq<u8>
    decreases v.len(),
{
    if v.len() == 0 {
        Seq::empty()
    } else {
        spec_u64_to_be_bytes(u64_of_i64(v[0])) + spec_encode_i64s(v.drop_first())
    }
}

/// The payload bytes of a value: everything after its tag byte and name.
pub open spec fn spec_encode_payload(m: ValueModel) -> Seq<u8>
    decreases m, 0nat,
{
    match m {
        ValueModel::End => Seq::empty(),
        ValueModel::Byte(x) => seq![u8_of_i8(x)],
        ValueModel::Short(x) => spec_u16_to_be_bytes(u16_of_i16(x)),
        ValueModel::Int(x) => spec_u32_to_be_bytes(u32_of_i32(x)),
        ValueModel::Long(x) => spec_u64_to_be_bytes(u64_of_i64(x)),
        ValueModel::Float(bits) => spec_u32_to_be_bytes(bits),
        ValueModel::Double(bits) => spec_u64_to_be_bytes(bits),
        ValueModel::ByteArray(v) => spec_u32_to_be_bytes(v.len() as u32) + spec_encode_i8s(v),
        ValueModel::Str(s) => spec_encode_str(s),
        ValueModel::List(es) => seq![u8_of_i8(spec_tag_id(list_elem_tag(es)))]
            + spec_u32_to_be_bytes(es.len() as u32) + spec_encode_elems(es),
        ValueModel::Compound(en) => spec_encode_entries(en) + seq![0u8],
        ValueModel::IntArray(v) => spec_u32_to_be_bytes(v.len() as u32) + spec_encode_i32s(v),
        ValueModel::LongArray(v) => spec_u32_to_be_bytes(v.len() as u32) + spec_encode_i64s(v),
        ValueModel::Boolean(b) => seq![if b { 1u8 } else { 0u8 }],
    }
}

/// The concatenated payloads of a list's elements (elements carry no tags
/// and no names of their own).
pub open spec fn spec_encode_elems(es: Seq<ValueModel>) -> Seq<u8>
    decreases es, 0nat,
{
    if es.len() == 0 {
        Seq::empty()
    } else {
        spec_encode_payload(es[0]) + spec_encode_elems(es.drop_first())
    }
}

/// One named entry: tag byte, name, payload.
pub open spec fn spec_encode_named(name: Seq<char>, m: ValueModel) -> Seq<u8>
    decreases m, 1nat,
{
    seq![u8_of_i8(spec_tag_id(tag_of(m)))] + spec_encode_str(name) + spec_encode_payload(m)
}

/// A compound body: each entry in order.  The closing End byte is part of
/// the compound payload, not of the entry sequence.
pub open spec fn spec_encode_entries(en: Seq<(Seq<char>, ValueModel)>) -> Seq<u8>
    decreases en, 2nat,
{
    if en.len() == 0 {
        Seq::empty()
    } else {
        spec_encode_named(en[0].0, en[0].1) + spec_encode_entries(en.drop_first())
    }
}

// ---------------------------------------------------------------------------
// Well-formedness
// ---------------------------------------------------------------------------

/// A name or string payload must fit its u16 byte-count prefix.
pub open spec fn str_fits(s: Seq<char>) -> bool {
    encode_utf8(s).len() <= 0xFFFF
}

/// Sequence lengths are signed 32-bit on the wire.
pub open spec fn len_fits(n: nat) -> bool {
    n <= 0x7FFF_FFFF
}

/// A value the writer accepts: End appears nowhere inside it, and every
/// length fits its wire field.
pub open spec fn writable(m: ValueModel) -> bool
    decreases m,
{
    match m {
        ValueModel::End => false,
        ValueModel::Byte(_) => true,
        ValueModel::Short(_) => true,
        ValueModel::Int(_) => true,
        ValueModel::Long(_) => true,
        ValueModel::Float(_) => true,
        ValueModel::Double(_) => true,
        ValueModel::ByteArray(v) => len_fits(v.len()),
        ValueModel::Str(s) => str_fits(s),
        ValueModel::List(es) => len_fits(es.len()) && forall|i: int|
            0 <= i < es.len() ==> writable(#[trigger] es[i]),
        ValueModel::Compound(en) => forall|i: int|
            #![trigger en[i]]
            0 <= i < en.len() ==> str_fits(en[i].0) && writable(en[i].1),
        ValueModel::IntArray(v) => len_fits(v.len()),
        ValueModel::LongArray(v) => len_fits(v.len()),
        ValueModel::Boolean(_) => true,
    }
}

/// A value whose written form reads back as the same value: writable, every
/// list homogeneous in its elements' tags, and no Boolean (a Boolean is
/// written as a Byte, so it reads back as one).
pub open spec fn round_trips(m: ValueModel) -> bool
    decreases m,
{
    match m {
        ValueModel::End => false,
        ValueModel::Byte(_) => true,
        ValueModel::Short(_) => true,
        ValueModel::Int(_) => true,
        ValueModel::Long(_) => true,
        ValueModel::Float(_) => true,
        ValueModel::Double(_) => true,
        ValueModel::ByteArray(v) => len_fits(v.len()),
        ValueModel::Str(s) => str_fits(s),
        ValueModel::List(es) => len_fits(es.len()) && forall|i: int|
            0 <= i < es.len() ==> round_trips(#[trigger] es[i]) && tag_of(es[i]) == tag_of(
                es[0],
            ),
        ValueModel::Compound(en) => forall|i: int|
            #![trigger en[i]]
            0 <= i < en.len() ==> str_fits(en[i].0) && round_trips(en[i].1),
        ValueModel::IntArray(v) => len_fits(v.len()),
        ValueModel::LongArray(v) => len_fits(v.len()),
        ValueModel::Boolean(_) => false,
    }
}

// ---------------------------------------------------------------------------
// Parsing
// ---------------------------------------------------------------------------

pub open spec fn parse_u16(s: Seq<u8>) -> Option<(u16, nat)> {
    if s.len() >= 2 {
        Some((spec_u16_from_be_bytes(s.subrange(0, 2)), 2nat))
    } else {
        None
    }
}

pub open spec fn parse_u32(s: Seq<u8>) -> Option<(u32, nat)> {
    if s.len() >= 4 {
        Some((spec_u32_from_be_bytes(s.subrange(0, 4)), 4nat))
    } else {
        None
    }
}

pub open spec fn parse_u64(s: Seq<u8>) -> Option<(u64, nat)> {
    if s.len() >= 8 {
        Some((spec_u64_from_be_bytes(s.subrange(0, 8)), 8nat))
    } else {
        None
    }
}

/// A length-prefixed string: fails on a short read or on bytes that are
/// not valid UTF-8.
pub open spec fn parse_str(s: Seq<u8>) -> Option<(Seq<char>, nat)> {
    if s.len() < 2 {
        None
    } else {
        let len = spec_u16_from_be_bytes(s.subrange(0, 2)) as int;
        if s.len() < 2 + len {
            None
        } else {
            let b = s.subrange(2, 2 + len);
            if valid_utf8(b) {
                Some((decode_utf8(b), (2 + len) as nat))
            } else {
                None
            }
        }
    }
}

/// The payload of a value of tag `t`, read from the front of `s`.
/// Returns the value and the number of bytes consumed; `None` where the
/// input is truncated, a length is negative, a tag id is out of range,
/// or string bytes are not UTF-8.
pub open spec fn parse_payload(s: Seq<u8>, t: Tag) -> Option<(ValueModel, nat)>
    decreases s.len(), 0nat, 1nat,
{
    match t {
        Tag::End => None,
        Tag::Byte => if s.len() >= 1 {
            Some((ValueModel::Byte(i8_of_u8(s[0])), 1nat))
        } else {
            None
        },
        Tag::Short => match parse_u16(s) {
            Some((x, n)) => Some((ValueModel::Short(i16_of_u16(x)), n)),
            None => None,
        },
        Tag::Int => match parse_u32(s) {
            Some((x, n)) => Some((ValueModel::Int(i32_of_u32(x)), n)),
            None => None,
        },
        Tag::Long => match parse_u64(s) {
            Some((x, n)) => Some((ValueModel::Long(i64_of_u64(x)), n)),
            None => None,
        },
        Tag::Float => match parse_u32(s) {
            Some((x, n)) => Some((ValueModel::Float(x), n)),
            None => None,
        },
        Tag::Double => match parse_u64(s) {
            Some((x, n)) => Some((ValueModel::Double(x), n)),
            None => None,
        },
        Tag::String => match parse_str(s) {
            Some((cs, n)) => Some((ValueModel::Str(cs), n)),
            None => None,
        },
        Tag::ByteArray => match parse_u32(s) {
            None => None,
            Some((len, _)) => if len >= 0x8000_0000 {
                None
            } else if s.len() >= 4 + len {
                Some(
                    (
                        ValueModel::ByteArray(Seq::new(len as nat, |i: int| i8_of_u8(s[4 + i]))),
                        (4 + len) as nat,
                    ),
                )
            } else {
                None
            },
        },
        Tag::IntArray => match parse_u32(s) {
            None => None,
            Some((len, _)) => if len >= 0x8000_0000 {
                None
            } else if s.len() >= 4 + 4 * len {
                Some(
                    (
                        ValueModel::IntArray(
                            Seq::new(
                                len as nat,
                                |i: int|
                                    i32_of_u32(
                                        spec_u32_from_be_bytes(s.subrange(4 + 4 * i, 8 + 4 * i)),
                                    ),
                            ),
                        ),
                        (4 + 4 * len) as nat,
                    ),
                )
            } else {
                None
            },
        },
        Tag::LongArray => match parse_u32(s) {
            None => None,
            Some((len, _)) => if len >= 0x8000_0000 {
                None
            } else if s.len() >= 4 + 8 * len {
                Some(
                    (
                        ValueModel::LongArray(
                            Seq::new(
                                len as nat,
                                |i: int|
                                    i64_of_u64(
                                        spec_u64_from_be_bytes(s.subrange(4 + 8 * i, 12 + 8 * i)),
                                    ),
                            ),
                        ),
                        (4 + 8 * len) as nat,
                    ),
                )
            } else {
                None
            },
        },
        Tag::List => if s.len() < 5 {
            None
        } else {
            match spec_tag_from_i8(i8_of_u8(s[0])) {
                None => None,
                Some(et) => {
                    let len = spec_u32_from_be_bytes(s.subrange(1, 5));
                    if len >= 0x8000_0000 {
                        None
                    } else {
                        match parse_elems(s.skip(5), et, len as nat) {
                            None => None,
                            Some((es, used)) => Some((ValueModel::List(es), (5 + used) as nat)),
                        }
                    }
                },
            }
        },
        Tag::Compound => match parse_entries(s) {
            None => None,
            Some((en, used)) => Some((ValueModel::Compound(en), used)),
        },
    }
}

/// Exactly `n` list elements of tag `t`, read back to back.
pub open spec fn parse_elems(s: Seq<u8>, t: Tag, n: nat) -> Option<(Seq<ValueModel>, nat)>
    decreases s.len(), n, 0nat,
{
    if n == 0 {
        Some((Seq::empty(), 0nat))
    } else {
        match parse_payload(s, t) {
            None => None,
            Some((m, used)) => if used > s.len() {
                None
            } else {
                match parse_elems(s.skip(used as int), t, (n - 1) as nat) {
                    None => None,
                    Some((es, used2)) => Some((seq![m] + es, used + used2)),
                }
            },
        }
    }
}

/// Named compound entries up to and including the terminating End byte.
pub open spec fn parse_entries(s: Seq<u8>) -> Option<(Seq<(Seq<char>, ValueModel)>, nat)>
    decreases s.len(), 0nat, 0nat,
{
    if s.len() < 1 {
        None
    } else {
        match spec_tag_from_i8(i8_of_u8(s[0])) {
            None => None,
            Some(t) => if t == Tag::End {
                Some((Seq::empty(), 1nat))
            } else {
                match parse_str(s.skip(1)) {
                    None => None,
                    Some((name, nused)) => if 1 + nused > s.len() {
                        None
                    } else {
                        match parse_payload(s.skip(1 + nused as int), t) {
                            None => None,
                            Some((m, pused)) => if 1 + nused + pused > s.len() {
                                None
                            } else {
                                match parse_entries(s.skip(1 + nused as int + pused as int)) {
                                    None => None,
                                    Some((en, eused)) => Some(
                                        (seq![(name, m)] + en, 1 + nused + pused + eused),
                                    ),
                                }
                            },
                        }
                    },
                }
            },
        }
    }
}

/// One named value from the front of `s`: a tag byte, then (except for End)
/// a name and the payload of that tag.  An End tag alone is the End value.
pub open spec fn parse_named(s: Seq<u8>) -> Option<((Seq<char>, ValueModel), nat)> {
    if s.len() < 1 {
        None
    } else {
        match spec_tag_from_i8(i8_of_u8(s[0])) {
            None => None,
            Some(t) => if t == Tag::End {
                Some(((Seq::empty(), ValueModel::End), 1nat))
            } else {
                match parse_str(s.skip(1)) {
                    None => None,
                    Some((name, nused)) => match parse_payload(s.skip(1 + nused as int), t) {
                        None => None,
                        Some((m, pused)) => Some(((name, m), 1 + nused + pused)),
                    },
                }
            },
        }
    }
}

pub proof fn lemma_round_trips_writable(m: ValueModel)
    requires
        round_trips(m),
    ensures
        writable(m),
    decreases m,
{
    match m {
        ValueModel::List(es) => {
            assert forall|i: int| 0 <= i < es.len() implies writable(#[trigger] es[i]) by {
                lemma_round_trips_writable(es[i]);
            }
        },
        ValueModel::Compound(en) => {
            assert forall|i: int| #![trigger en[i]] 0 <= i < en.len() implies str_fits(en[i].0)
                && writable(en[i].1) by {
                lemma_round_trips_writable(en[i].1);
            }
        },
        _ => {},
    }
}


// ---------------------------------------------------------------------------
// Round trip
// ---------------------------------------------------------------------------

pub proof fn lemma_encode_i8s_len(v: Seq<i8>)
    ensures
        spec_encode_i8s(v).len() == v.len(),
    decreases v.len(),
{
    if v.len() != 0 {
        lemma_encode_i8s_len(v.drop_first());
    }
}

pub proof fn lemma_encode_i8s_index(v: Seq<i8>, i: int)
    requires
        0 <= i < v.len(),
    ensures
        spec_encode_i8s(v)[i] == u8_of_i8(v[i]),
    decreases v.len(),
{
    lemma_encode_i8s_len(v.drop_first());
    if i > 0 {
        lemma_encode_i8s_index(v.drop_first(), i - 1);
    }
}

pub proof fn lemma_encode_i32s_len(v: Seq<i32>)
    ensures
        spec_encode_i32s(v).len() == 4 * v.len(),
    decreases v.len(),
{
    if v.len() != 0 {
        lemma_encode_i32s_len(v.drop_first());
    }
}

pub proof fn lemma_encode_i32s_index(v: Seq<i32>, i: int)
    requires
        0 <= i < v.len(),
    ensures
        spec_encode_i32s(v).subrange(4 * i, 4 * i + 4) == spec_u32_to_be_bytes(u32_of_i32(v[i])),
    decreases v.len(),
{
    lemma_encode_i32s_len(v);
    lemma_encode_i32s_len(v.drop_first());
    let enc = spec_encode_i32s(v);
    let tail = spec_encode_i32s(v.drop_first());
    if i == 0 {
        assert(enc.subrange(0, 4) =~= spec_u32_to_be_bytes(u32_of_i32(v[0])));
    } else {
        lemma_encode_i32s_index(v.drop_first(), i - 1);
        assert(enc.subrange(4 * i, 4 * i + 4) =~= tail.subrange(4 * (i - 1), 4 * (i - 1) + 4));
    }
}

pub proof fn lemma_encode_i64s_len(v: Seq<i64>)
    ensures
        spec_encode_i64s(v).len() == 8 * v.len(),
    decreases v.len(),
{
    if v.len() != 0 {
        lemma_encode_i64s_len(v.drop_first());
    }
}

pub proof fn lemma_encode_i64s_index(v: Seq<i64>, i: int)
    requires
        0 <= i < v.len(),
    ensures
        spec_encode_i64s(v).subrange(8 * i, 8 * i + 8) == spec_u64_to_be_bytes(u64_of_i64(v[i])),
    decreases v.len(),
{
    lemma_encode_i64s_len(v);
    lemma_encode_i64s_len(v.drop_first());
    let enc = spec_encode_i64s(v);
    let tail = spec_encode_i64s(v.drop_first());
    if i == 0 {
        assert(enc.subrange(0, 8) =~= spec_u64_to_be_bytes(u64_of_i64(v[0])));
    } else {
        lemma_encode_i64s_index(v.drop_first(), i - 1);
        assert(enc.subrange(8 * i, 8 * i + 8) =~= tail.subrange(8 * (i - 1), 8 * (i - 1) + 8));
    }
}

/// Parsing an encoded string from the front of a stream gives the string
/// back and consumes exactly its encoding.
pub proof fn lemma_parse_encode_str(cs: Seq<char>, rest: Seq<u8>)
    requires
        str_fits(cs),
    ensures
        parse_str(spec_encode_str(cs) + rest) == Some((cs, spec_encode_str(cs).len() as nat)),
{
    broadcast use vstd::utf8::encode_utf8_valid_utf8, vstd::utf8::encode_utf8_decode_utf8;

    let b = encode_utf8(cs);
    let full = spec_encode_str(cs) + rest;
    assert(full.subrange(0, 2) =~= spec_u16_to_be_bytes(b.len() as u16));
    lemma_u16_be_round_trip();
    assert(full.subrange(2, 2 + b.len() as int) =~= b);
}

/// Parsing an encoded payload of tag `tag_of(m)` gives `m` back and
/// consumes exactly its encoding.
#[verifier::rlimit(100)]
#[verifier::spinoff_prover]
pub proof fn lemma_parse_encode_payload(m: ValueModel, rest: Seq<u8>)
    requires
        round_trips(m),
    ensures
        parse_payload(spec_encode_payload(m) + rest, tag_of(m)) == Some(
            (m, spec_encode_payload(m).len() as nat),
        ),
    decreases m, 0nat,
{
    let enc = spec_encode_payload(m);
    let full = enc + rest;
    match m {
        ValueModel::Short(x) => {
            assert(full.subrange(0, 2) =~= spec_u16_to_be_bytes(u16_of_i16(x)));
            lemma_u16_be_round_trip();
        },
        ValueModel::Int(x) => {
            assert(full.subrange(0, 4) =~= spec_u32_to_be_bytes(u32_of_i32(x)));
            lemma_u32_be_round_trip();
        },
        ValueModel::Long(x) => {
            assert(full.subrange(0, 8) =~= spec_u64_to_be_bytes(u64_of_i64(x)));
            lemma_u64_be_round_trip();
        },
        ValueModel::Float(bits) => {
            assert(full.subrange(0, 4) =~= spec_u32_to_be_bytes(bits));
            lemma_u32_be_round_trip();
        },
        ValueModel::Double(bits) => {
            assert(full.subrange(0, 8) =~= spec_u64_to_be_bytes(bits));
            lemma_u64_be_round_trip();
        },
        ValueModel::Str(cs) => {
            lemma_parse_encode_str(cs, rest);
        },
        ValueModel::ByteArray(v) => {
            lemma_encode_i8s_len(v);
            assert(full.subrange(0, 4) =~= spec_u32_to_be_bytes(v.len() as u32));
            lemma_u32_be_round_trip();
            let got = Seq::new(v.len(), |i: int| i8_of_u8(full[4 + i]));
            assert forall|i: int| 0 <= i < v.len() implies got[i] == v[i] by {
                lemma_encode_i8s_index(v, i);
                assert(full[4 + i] == spec_encode_i8s(v)[i]);
            }
            assert(got =~= v);
        },
        ValueModel::IntArray(v) => {
            lemma_encode_i32s_len(v);
            assert(full.subrange(0, 4) =~= spec_u32_to_be_bytes(v.len() as u32));
            lemma_u32_be_round_trip();
            let got = Seq::new(
                v.len(),
                |i: int| i32_of_u32(spec_u32_from_be_bytes(full.subrange(4 + 4 * i, 8 + 4 * i))),
            );
            assert forall|i: int| 0 <= i < v.len() implies got[i] == v[i] by {
                lemma_encode_i32s_index(v, i);
                assert(full.subrange(4 + 4 * i, 8 + 4 * i) =~= spec_encode_i32s(v).subrange(
                    4 * i,
                    4 * i + 4,
                ));
                lemma_u32_be_round_trip();
            }
            assert(got =~= v);
        },
        ValueModel::LongArray(v) => {
            lemma_encode_i64s_len(v);
            assert(full.subrange(0, 4) =~= spec_u32_to_be_bytes(v.len() as u32));
            lemma_u32_be_round_trip();
            let got = Seq::new(
                v.len(),
                |i: int| i64_of_u64(spec_u64_from_be_bytes(full.subrange(4 + 8 * i, 12 + 8 * i))),
            );
            assert forall|i: int| 0 <= i < v.len() implies got[i] == v[i] by {
                lemma_encode_i64s_index(v, i);
                assert(full.subrange(4 + 8 * i, 12 + 8 * i) =~= spec_encode_i64s(v).subrange(
                    8 * i,
                    8 * i + 8,
                ));
                lemma_u64_be_round_trip();
            }
            assert(got =~= v);
        },
        ValueModel::List(es) => {
            let et = list_elem_tag(es);
            crate::tag::lemma_tag_id_round_trip(et);
            assert(full[0] == u8_of_i8(spec_tag_id(et)));
            assert(full.subrange(1, 5) =~= spec_u32_to_be_bytes(es.len() as u32));
            lemma_u32_be_round_trip();
            assert(full.skip(5) =~= spec_encode_elems(es) + rest);
            lemma_parse_encode_elems(es, et, rest);
        },
        ValueModel::Compound(en) => {
            assert(full =~= spec_encode_entries(en) + seq![0u8] + rest);
            lemma_parse_encode_entries(en, rest);
        },
        _ => {},
    }
}

/// Parsing the encoded elements of a homogeneous list gives them back.
pub proof fn lemma_parse_encode_elems(es: Seq<ValueModel>, t: Tag, rest: Seq<u8>)
    requires
        forall|i: int|
            0 <= i < es.len() ==> round_trips(#[trigger] es[i]) && tag_of(es[i]) == t,
    ensures
        parse_elems(spec_encode_elems(es) + rest, t, es.len()) == Some(
            (es, spec_encode_elems(es).len() as nat),
        ),
    decreases es, 0nat,
{
    if es.len() == 0 {
        assert(es =~= Seq::<ValueModel>::empty());
    } else {
        let e0 = es[0];
        let tail = es.drop_first();
        let enc0 = spec_encode_payload(e0);
        let encr = spec_encode_elems(tail);
        let full = spec_encode_elems(es) + rest;
        assert(full =~= enc0 + (encr + rest));
        lemma_parse_encode_payload(e0, encr + rest);
        assert(full.skip(enc0.len() as int) =~= encr + rest);
        assert forall|i: int|
            0 <= i < tail.len() implies round_trips(#[trigger] tail[i]) && tag_of(tail[i])
            == t by {
            assert(tail[i] == es[i + 1]);
        }
        lemma_parse_encode_elems(tail, t, rest);
        assert(seq![e0] + tail =~= es);
    }
}

/// Parsing encoded compound entries, up to the closing End byte, gives
/// them back.
#[verifier::rlimit(100)]
#[verifier::spinoff_prover]
pub proof fn lemma_parse_encode_entries(en: Seq<(Seq<char>, ValueModel)>, rest: Seq<u8>)
    requires
        forall|i: int|
            #![trigger en[i]]
            0 <= i < en.len() ==> str_fits(en[i].0) && round_trips(en[i].1),
    ensures
        parse_entries(spec_encode_entries(en) + seq![0u8] + rest) == Some(
            (en, (spec_encode_entries(en).len() + 1) as nat),
        ),
    decreases en, 0nat,
{
    let full = spec_encode_entries(en) + seq![0u8] + rest;
    if en.len() == 0 {
        assert(full[0] == 0);
        assert(en =~= Seq::<(Seq<char>, ValueModel)>::empty());
    } else {
        let n0 = en[0].0;
        let m0 = en[0].1;
        let tailen = en.drop_first();
        let tail2 = spec_encode_entries(tailen) + seq![0u8] + rest;
        assert(full =~= spec_encode_named(n0, m0) + tail2);
        crate::tag::lemma_tag_id_round_trip(tag_of(m0));
        assert(full[0] == u8_of_i8(spec_tag_id(tag_of(m0))));
        let nused = spec_encode_str(n0).len() as int;
        let pused = spec_encode_payload(m0).len() as int;
        assert(full.skip(1) =~= spec_encode_str(n0) + (spec_encode_payload(m0) + tail2));
        lemma_parse_encode_str(n0, spec_encode_payload(m0) + tail2);
        assert(full.skip(1 + nused) =~= spec_encode_payload(m0) + tail2);
        lemma_parse_encode_payload(m0, tail2);
        assert(full.skip(1 + nused + pused) =~= tail2);
        assert forall|i: int|
            #![trigger tailen[i]]
            0 <= i < tailen.len() implies str_fits(tailen[i].0) && round_trips(
            tailen[i].1,
        ) by {
            assert(tailen[i] == en[i + 1]);
        }
        lemma_parse_encode_entries(tailen, rest);
        assert(seq![(n0, m0)] + tailen =~= en);
    }
}

/// The round-trip theorem for the binary format: a well-formed named value,
/// encoded and then parsed, is recovered exactly and consumes exactly its
/// own encoding, whatever bytes follow it in the stream.
pub proof fn lemma_binary_round_trip(name: Seq<char>, m: ValueModel, rest: Seq<u8>)
    requires
        round_trips(m),
        str_fits(name),
    ensures
        parse_named(spec_encode_named(name, m) + rest) == Some(
            ((name, m), spec_encode_named(name, m).len() as nat),
        ),
{
    let full = spec_encode_named(name, m) + rest;
    crate::tag::lemma_tag_id_round_trip(tag_of(m));
    assert(full[0] == u8_of_i8(spec_tag_id(tag_of(m))));
    let nused = spec_encode_str(name).len() as int;
    assert(full.skip(1) =~= spec_encode_str(name) + (spec_encode_payload(m) + rest));
    lemma_parse_encode_str(name, spec_encode_payload(m) + rest);
    assert(full.skip(1 + nused) =~= spec_encode_payload(m) + rest);
    lemma_parse_encode_payload(m, rest);
}

/// Tag determinism: the writer's first byte for a named value is the wire
/// id of the value's own tag, and the reader maps that byte back to the
/// same tag.
pub proof fn lemma_tag_determinism(name: Seq<char>, m: ValueModel)
    ensures
        spec_encode_named(name, m)[0] == u8_of_i8(spec_tag_id(tag_of(m))),
        spec_tag_from_i8(i8_of_u8(spec_encode_named(name, m)[0])) == Some(tag_of(m)),
{
    crate::tag::lemma_tag_id_round_trip(tag_of(m));
}

/// Length honesty: each sequence header declares exactly the number of
/// elements that follow it, and the element region has exactly the length
/// the header implies.
pub proof fn lemma_length_honesty(m: ValueModel)
    requires
        round_trips(m),
    ensures
        m matches ValueModel::ByteArray(v) ==> spec_encode_payload(m).subrange(0, 4)
            == spec_u32_to_be_bytes(v.len() as u32) && spec_encode_payload(m).skip(4).len()
            == v.len(),
        m matches ValueModel::IntArray(v) ==> spec_encode_payload(m).subrange(0, 4)
            == spec_u32_to_be_bytes(v.len() as u32) && spec_encode_payload(m).skip(4).len() == 4
            * v.len(),
        m matches ValueModel::LongArray(v) ==> spec_encode_payload(m).subrange(0, 4)
            == spec_u32_to_be_bytes(v.len() as u32) && spec_encode_payload(m).skip(4).len() == 8
            * v.len(),
        m matches ValueModel::List(es) ==> spec_encode_payload(m).subrange(1, 5)
            == spec_u32_to_be_bytes(es.len() as u32) && parse_elems(
            spec_encode_payload(m).skip(5),
            list_elem_tag(es),
            es.len(),
        ) == Some((es, spec_encode_elems(es).len() as nat)),
{
    match m {
        ValueModel::ByteArray(v) => {
            lemma_encode_i8s_len(v);
            assert(spec_encode_payload(m).subrange(0, 4) =~= spec_u32_to_be_bytes(
                v.len() as u32,
            ));
        },
        ValueModel::IntArray(v) => {
            lemma_encode_i32s_len(v);
            assert(spec_encode_payload(m).subrange(0, 4) =~= spec_u32_to_be_bytes(
                v.len() as u32,
            ));
        },
        ValueModel::LongArray(v) => {
            lemma_encode_i64s_len(v);
            assert(spec_encode_payload(m).subrange(0, 4) =~= spec_u32_to_be_bytes(
                v.len() as u32,
            ));
        },
        ValueModel::List(es) => {
            assert(spec_encode_payload(m).subrange(1, 5) =~= spec_u32_to_be_bytes(
                es.len() as u32,
            ));
            assert(spec_encode_payload(m).skip(5) =~= spec_encode_elems(es) + Seq::<u8>::empty());
            lemma_parse_encode_elems(es, list_elem_tag(es), Seq::empty());
        },
        _ => {},
    }
}


// ---------------------------------------------------------------------------
// Append lemmas, used by the writer's loops
// ---------------------------------------------------------------------------

pub proof fn lemma_encode_i8s_push(s: Seq<i8>, x: i8)
    ensures
        spec_encode_i8s(s.push(x)) == spec_encode_i8s(s) + seq![u8_of_i8(x)],
    decreases s.len(),
{
    if s.len() == 0 {
        assert(s.push(x).len() == 1);
        assert(s.push(x)[0] == x);
        assert(s.push(x).drop_first() =~= Seq::<i8>::empty());
        assert(spec_encode_i8s(s.push(x)) == seq![u8_of_i8(s.push(x)[0])] + spec_encode_i8s(
            s.push(x).drop_first(),
        ));
        assert(spec_encode_i8s(s.push(x)) =~= spec_encode_i8s(s) + seq![u8_of_i8(x)]);
    } else {
        assert(s.push(x)[0] == s[0]);
        assert(s.push(x).drop_first() =~= s.drop_first().push(x));
        lemma_encode_i8s_push(s.drop_first(), x);
        assert(spec_encode_i8s(s.push(x)) == seq![u8_of_i8(s.push(x)[0])] + spec_encode_i8s(
            s.push(x).drop_first(),
        ));
        assert(spec_encode_i8s(s.push(x)) =~= spec_encode_i8s(s) + seq![u8_of_i8(x)]);
    }
}

pub proof fn lemma_encode_i32s_push(s: Seq<i32>, x: i32)
    ensures
        spec_encode_i32s(s.push(x)) == spec_encode_i32s(s) + spec_u32_to_be_bytes(u32_of_i32(x)),
    decreases s.len(),
{
    if s.len() == 0 {
        assert(s.push(x)[0] == x);
        assert(s.push(x).drop_first() =~= Seq::<i32>::empty());
        assert(spec_encode_i32s(s.push(x)) == spec_u32_to_be_bytes(u32_of_i32(s.push(x)[0]))
            + spec_encode_i32s(s.push(x).drop_first()));
        assert(spec_encode_i32s(s.push(x)) =~= spec_encode_i32s(s) + spec_u32_to_be_bytes(
            u32_of_i32(x),
        ));
    } else {
        assert(s.push(x)[0] == s[0]);
        assert(s.push(x).drop_first() =~= s.drop_first().push(x));
        lemma_encode_i32s_push(s.drop_first(), x);
        assert(spec_encode_i32s(s.push(x)) == spec_u32_to_be_bytes(u32_of_i32(s.push(x)[0]))
            + spec_encode_i32s(s.push(x).drop_first()));
        assert(spec_encode_i32s(s.push(x)) =~= spec_encode_i32s(s) + spec_u32_to_be_bytes(
            u32_of_i32(x),
        ));
    }
}

pub proof fn lemma_encode_i64s_push(s: Seq<i64>, x: i64)
    ensures
        spec_encode_i64s(s.push(x)) == spec_encode_i64s(s) + spec_u64_to_be_bytes(u64_of_i64(x)),
    decreases s.len(),
{
    if s.len() == 0 {
        assert(s.push(x)[0] == x);
        assert(s.push(x).drop_first() =~= Seq::<i64>::empty());
        assert(spec_encode_i64s(s.push(x)) == spec_u64_to_be_bytes(u64_of_i64(s.push(x)[0]))
            + spec_encode_i64s(s.push(x).drop_first()));
        assert(spec_encode_i64s(s.push(x)) =~= spec_encode_i64s(s) + spec_u64_to_be_bytes(
            u64_of_i64(x),
        ));
    } else {
        assert(s.push(x)[0] == s[0]);
        assert(s.push(x).drop_first() =~= s.drop_first().push(x));
        lemma_encode_i64s_push(s.drop_first(), x);
        assert(spec_encode_i64s(s.push(x)) == spec_u64_to_be_bytes(u64_of_i64(s.push(x)[0]))
            + spec_encode_i64s(s.push(x).drop_first()));
        assert(spec_encode_i64s(s.push(x)) =~= spec_encode_i64s(s) + spec_u64_to_be_bytes(
            u64_of_i64(x),
        ));
    }
}

pub proof fn lemma_encode_elems_push(s: Seq<ValueModel>, m: ValueModel)
    ensures
        spec_encode_elems(s.push(m)) == spec_encode_elems(s) + spec_encode_payload(m),
    decreases s.len(),
{
    if s.len() == 0 {
        assert(s.push(m)[0] == m);
        assert(s.push(m).drop_first() =~= Seq::<ValueModel>::empty());
        assert(spec_encode_elems(s.push(m)) == spec_encode_payload(s.push(m)[0])
            + spec_encode_elems(s.push(m).drop_first()));
        assert(spec_encode_elems(s.push(m)) =~= spec_encode_elems(s) + spec_encode_payload(m));
    } else {
        assert(s.push(m)[0] == s[0]);
        assert(s.push(m).drop_first() =~= s.drop_first().push(m));
        lemma_encode_elems_push(s.drop_first(), m);
        assert(spec_encode_elems(s.push(m)) == spec_encode_payload(s.push(m)[0])
            + spec_encode_elems(s.push(m).drop_first()));
        assert(spec_encode_elems(s.push(m)) =~= spec_encode_elems(s) + spec_encode_payload(m));
    }
}

pub proof fn lemma_encode_entries_push(s: Seq<(Seq<char>, ValueModel)>, name: Seq<char>, m: ValueModel)
    ensures
        spec_encode_entries(s.push((name, m))) == spec_encode_entries(s) + spec_encode_named(
            name,
            m,
        ),
    decreases s.len(),
{
    if s.len() == 0 {
        assert(s.push((name, m))[0] == (name, m));
        assert(s.push((name, m)).drop_first() =~= Seq::<(Seq<char>, ValueModel)>::empty());
        assert(spec_encode_entries(s.push((name, m))) == spec_encode_named(
            s.push((name, m))[0].0,
            s.push((name, m))[0].1,
        ) + spec_encode_entries(s.push((name, m)).drop_first()));
        assert(spec_encode_entries(s.push((name, m))) =~= spec_encode_entries(s)
            + spec_encode_named(name, m));
    } else {
        assert(s.push((name, m))[0] == s[0]);
        assert(s.push((name, m)).drop_first() =~= s.drop_first().push((name, m)));
        lemma_encode_entries_push(s.drop_first(), name, m);
        assert(spec_encode_entries(s.push((name, m))) == spec_encode_named(
            s.push((name, m))[0].0,
            s.push((name, m))[0].1,
        ) + spec_encode_entries(s.push((name, m)).drop_first()));
        assert(spec_encode_entries(s.push((name, m))) =~= spec_encode_entries(s)
            + spec_encode_named(name, m));
    }
}


/// Unfolds `writable` at a compound, for callers that reason about the
/// entries one at a time.
pub proof fn lemma_writable_compound(en: Seq<(Seq<char>, ValueModel)>)
    ensures
        writable(ValueModel::Compound(en)) <==> (forall|i: int|
            #![trigger en[i]]
            0 <= i < en.len() ==> str_fits(en[i].0) && writable(en[i].1)),
{
    let m = ValueModel::Compound(en);
    assert(m->Compound_0 == en);
    if writable(m) {
        assert forall|i: int|
            #![trigger en[i]]
            0 <= i < en.len() implies str_fits(en[i].0) && writable(en[i].1) by {
            assert(writable(m));
            assert(m->Compound_0 == en);
        }
    }
    if forall|i: int|
        #![trigger en[i]]
        0 <= i < en.len() ==> str_fits(en[i].0) && writable(en[i].1) {
        assert(writable(ValueModel::Compound(en)));
    }
}


/// A successfully parsed payload is never the End value, and carries the
/// tag it was parsed at.
pub proof fn lemma_parse_payload_not_end(s: Seq<u8>, t: Tag)
    ensures
        parse_payload(s, t) matches Some(p) ==> !(p.0 is End) && tag_of(p.0) == t,
{
    match t {
        Tag::End => {},
        Tag::Byte => {},
        Tag::Short => {},
        Tag::Int => {},
        Tag::Long => {},
        Tag::Float => {},
        Tag::Double => {},
        Tag::String => {},
        Tag::ByteArray => {},
        Tag::IntArray => {},
        Tag::LongArray => {},
        Tag::List => {},
        Tag::Compound => {},
    }
}

} // verus!
