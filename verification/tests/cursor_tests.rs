use axolotl_nbt::binary::{
    BinaryCompoundReader, BinaryCompoundWriter, BinaryListReader, BinaryListWriter,
};
use axolotl_nbt::error::NBTError;
use axolotl_nbt::reader::NBTReader;
use axolotl_nbt::tag::{ListType, Tag};
use axolotl_nbt::value::Value;
use axolotl_nbt::writer::NBTWriter;

#[test]
fn compound_cursor_state_machine() {
    // One entry, Byte "A" = 42, then the closing End.
    let bytes = vec![0x01, 0x00, 0x01, b'A', 0x2A, 0x00];
    let mut c = BinaryCompoundReader::new(NBTReader::new(bytes));
    // Repeated peeks stay in the peeked state without consuming data.
    assert_eq!(c.next_tag(), Ok(Tag::Byte));
    assert_eq!(c.next_tag(), Ok(Tag::Byte));
    // A mismatched value read restores the lookahead.
    let r: Result<i32, NBTError> = c.read_next_tag_value();
    assert_eq!(r, Err(NBTError::ExpectedTag(Tag::Int, Tag::Byte)));
    // The same entry can still be read with the right type.
    let (name, v): (String, i8) = c.read_next_tag().unwrap();
    assert_eq!(name, "A");
    assert_eq!(v, 42);
    assert_eq!(c.next_tag(), Ok(Tag::End));
}

#[test]
fn compound_cursor_name_then_value() {
    let bytes = vec![0x03, 0x00, 0x01, b'x', 0x00, 0x00, 0x00, 0x07, 0x00];
    let mut c = BinaryCompoundReader::new(NBTReader::new(bytes));
    let name = c.read_next_tag_name().unwrap();
    assert_eq!(name, "x");
    let v: i32 = c.read_next_tag_value().unwrap();
    assert_eq!(v, 7);
}

#[test]
fn compound_cursor_end_is_unexpected() {
    let bytes = vec![0x00];
    let mut c = BinaryCompoundReader::new(NBTReader::new(bytes));
    assert_eq!(c.read_next_tag_name(), Err(NBTError::UnexpectedEnd));
}

#[test]
fn compound_read_to_end() {
    let bytes = vec![
        0x01, 0x00, 0x01, b'a', 0x05, 0x02, 0x00, 0x01, b'b', 0x00, 0x09, 0x00,
    ];
    let c = BinaryCompoundReader::new(NBTReader::new(bytes));
    let vs = c.read_to_end().unwrap();
    assert_eq!(
        vs,
        vec![
            Value::Byte {
                name: "a".to_string(),
                value: 5,
            },
            Value::Short {
                name: "b".to_string(),
                value: 9,
            },
        ]
    );
}

#[test]
fn list_cursor_generic() {
    // element tag Short, length 2, then the two payloads
    let bytes = vec![0x02, 0x00, 0x00, 0x00, 0x02, 0x00, 0x05, 0xFF, 0xFF];
    let mut lr = BinaryListReader::new_generic_list(NBTReader::new(bytes)).unwrap();
    assert_eq!(lr.size(), 2);
    assert_eq!(lr.get_tag(), Tag::Short);
    assert_eq!(lr.list_type(), ListType::List(Tag::Short));
    let a: i16 = lr.read_next_tag().unwrap();
    let b: i16 = lr.read_next_tag().unwrap();
    assert_eq!((a, b), (5, -1));
}

#[test]
fn list_cursor_known_shape_raw_bytes() {
    // an IntArray body: length 2, then the two ints
    let bytes = vec![0x00, 0x00, 0x00, 0x02, 0, 0, 0, 1, 0, 0, 0, 2];
    let mut lr = BinaryListReader::new(NBTReader::new(bytes), ListType::IntArray).unwrap();
    assert_eq!(lr.size(), 2);
    assert_eq!(lr.get_tag(), Tag::Int);
    let raw = lr.read_all_bytes().unwrap();
    assert_eq!(raw, vec![0, 0, 0, 1, 0, 0, 0, 2]);
}

#[test]
fn compound_writer_emits_entries() {
    let mut w = BinaryCompoundWriter::new(NBTWriter::new(Vec::new()));
    BinaryCompoundWriter::write_start(&mut w.writer, "").unwrap();
    w.write_next_tag("A", 42i8).unwrap();
    let done = w.end();
    assert_eq!(
        done.into_inner(),
        vec![0x0A, 0x00, 0x00, 0x01, 0x00, 0x01, b'A', 0x2A, 0x00]
    );
}

#[test]
fn list_writer_emits_header_and_elements() {
    let mut lw = BinaryListWriter::new(NBTWriter::new(Vec::new()), 3, ListType::IntArray, "xs")
        .unwrap();
    lw.write_next_tag(1i32).unwrap();
    lw.write_next_tag(2i32).unwrap();
    lw.write_next_tag(3i32).unwrap();
    assert_eq!(
        lw.into_inner().into_inner(),
        vec![
            0x0B, 0x00, 0x02, b'x', b's', 0x00, 0x00, 0x00, 0x03, 0x00, 0x00, 0x00, 0x01, 0x00,
            0x00, 0x00, 0x02, 0x00, 0x00, 0x00, 0x03,
        ]
    );
}

#[test]
fn writer_rejects_oversized_names() {
    let long_name = "x".repeat(70000);
    let mut w = NBTWriter::new(Vec::new());
    assert_eq!(w.write_tag(&long_name, 1i8), Err(NBTError::IO));
    assert!(w.into_inner().is_empty());
    let mut w2 = NBTWriter::new(Vec::new());
    assert_eq!(w2.write_seq(&long_name, vec![1i32]), Err(NBTError::IO));
    assert!(w2.into_inner().is_empty());
    let mut w3 = NBTWriter::new(Vec::new());
    assert_eq!(w3.write_compound(&long_name, vec![1i8]), Err(NBTError::IO));
    assert!(w3.into_inner().is_empty());
}

#[test]
fn generic_writer_functions() {
    let mut w = NBTWriter::new(Vec::new());
    w.write_seq("xs", vec![1i32, 2i32]).unwrap();
    assert_eq!(
        w.into_inner(),
        vec![
            0x0B, 0x00, 0x02, b'x', b's', 0x00, 0x00, 0x00, 0x02, 0x00, 0x00, 0x00, 0x01, 0x00,
            0x00, 0x00, 0x02,
        ]
    );
    let mut w2 = NBTWriter::new(Vec::new());
    w2.write_seq("ss", vec![5i16]).unwrap();
    // shorts make a generic list with an element-type byte
    assert_eq!(
        w2.into_inner(),
        vec![0x09, 0x00, 0x02, b's', b's', 0x02, 0x00, 0x00, 0x00, 0x01, 0x00, 0x05]
    );
    let mut w3 = NBTWriter::new(Vec::new());
    w3.write_compound("", vec![true]).unwrap();
    assert_eq!(w3.into_inner(), vec![0x0A, 0x00, 0x00, 0x01, 0x00]);
    let mut w4 = NBTWriter::new(Vec::new());
    w4.write_tag("n", 300i16).unwrap();
    assert_eq!(w4.into_inner(), vec![0x02, 0x00, 0x01, b'n', 0x01, 0x2C]);
}
