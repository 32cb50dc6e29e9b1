use axolotl_nbt::binary::Binary;
use axolotl_nbt::error::NBTError;
use axolotl_nbt::tag::ListType;
use axolotl_nbt::reader::NBTReader;
use axolotl_nbt::tag::Tag;
use axolotl_nbt::value::{NameLessValue, Value};
use axolotl_nbt::writer::NBTWriter;

fn write_to_bytes(v: &Value) -> Vec<u8> {
    let mut w = NBTWriter::new(Vec::new());
    w.write_value(v).expect("a writable value");
    w.into_inner()
}

fn read_from_bytes(bytes: Vec<u8>) -> Value {
    let mut r = NBTReader::new(bytes);
    r.read_value().expect("a well-formed document")
}

#[test]
fn empty_compound() {
    let bytes = vec![0x0A, 0x00, 0x00, 0x00];
    let v = read_from_bytes(bytes.clone());
    assert_eq!(
        v,
        Value::Compound {
            name: String::new(),
            value: vec![],
        }
    );
    assert_eq!(write_to_bytes(&v), bytes);
}

#[test]
fn single_scalar() {
    let bytes = vec![0x0A, 0x00, 0x00, 0x01, 0x00, 0x01, b'A', 0x2A, 0x00];
    let v = read_from_bytes(bytes.clone());
    assert_eq!(
        v,
        Value::Compound {
            name: String::new(),
            value: vec![Value::Byte {
                name: "A".to_string(),
                value: 42,
            }],
        }
    );
    assert_eq!(write_to_bytes(&v), bytes);
}

#[test]
fn value_round_trip() {
    let v = Value::Compound {
        name: "root".to_string(),
        value: vec![
            Value::Byte {
                name: "b".to_string(),
                value: -7,
            },
            Value::Short {
                name: "s".to_string(),
                value: -12345,
            },
            Value::Int {
                name: "i".to_string(),
                value: 123456789,
            },
            Value::Long {
                name: "l".to_string(),
                value: -987654321012345,
            },
            Value::Float {
                name: "f".to_string(),
                value: 4.5f32.to_bits(),
            },
            Value::Double {
                name: "d".to_string(),
                value: 2.25f64.to_bits(),
            },
            Value::String {
                name: "text".to_string(),
                value: "hello nbt".to_string(),
            },
            Value::ByteArray {
                name: "ba".to_string(),
                value: vec![1, -2, 3],
            },
            Value::IntArray {
                name: "ia".to_string(),
                value: vec![-1, 0, 1],
            },
            Value::LongArray {
                name: "la".to_string(),
                value: vec![i64::MIN, i64::MAX],
            },
            Value::List {
                name: "list".to_string(),
                value: vec![
                    NameLessValue::String("one".to_string()),
                    NameLessValue::String("two".to_string()),
                ],
            },
            Value::List {
                name: "empty".to_string(),
                value: vec![],
            },
            Value::Compound {
                name: "nested".to_string(),
                value: vec![Value::Int {
                    name: "x".to_string(),
                    value: 5,
                }],
            },
        ],
    };
    let bytes = write_to_bytes(&v);
    let back = read_from_bytes(bytes.clone());
    assert_eq!(back, v);
    // bytewise as well
    assert_eq!(write_to_bytes(&back), bytes);
}

#[test]
fn boolean_writes_as_byte() {
    let v = Value::Compound {
        name: String::new(),
        value: vec![Value::Boolean {
            name: "flag".to_string(),
            value: true,
        }],
    };
    let bytes = write_to_bytes(&v);
    let back = read_from_bytes(bytes);
    assert_eq!(
        back,
        Value::Compound {
            name: String::new(),
            value: vec![Value::Byte {
                name: "flag".to_string(),
                value: 1,
            }],
        }
    );
}

#[test]
fn invalid_tag_is_rejected() {
    let mut r = NBTReader::new(vec![0x0D, 0x00, 0x00]);
    assert_eq!(r.read_value(), Err(NBTError::InvalidTag(13)));
}

#[test]
fn truncated_input_is_io() {
    let mut r = NBTReader::new(vec![0x01]);
    assert_eq!(r.read_value(), Err(NBTError::IO));
}

#[test]
fn bad_utf8_name_is_not_a_string() {
    let mut r = NBTReader::new(vec![0x01, 0x00, 0x01, 0xFF, 0x2A]);
    assert_eq!(r.read_value(), Err(NBTError::NotAString(vec![0xFF])));
}

#[test]
fn end_element_tag_in_list_is_unexpected_end() {
    // List named "" with element tag End and a declared length of one.
    let mut r = NBTReader::new(vec![0x09, 0x00, 0x00, 0x00, 0x00, 0x00, 0x00, 0x01]);
    assert_eq!(r.read_value(), Err(NBTError::UnexpectedEnd));
}

#[test]
fn writer_rejects_end() {
    let mut w = NBTWriter::new(Vec::new());
    assert_eq!(w.write_value(&Value::End), Err(NBTError::UnexpectedEnd));
}

#[test]
fn reader_primitives() {
    let mut r = NBTReader::new(vec![0x12, 0x34, 0xFF, 0xFE, 0x00, 0x00, 0x00, 0x2A]);
    assert_eq!(r.peak_tag_id(), Err(NBTError::InvalidTag(0x12)));
    assert_eq!(r.read_byte(), Ok(0x12));
    assert_eq!(r.read_byte(), Ok(0x34));
    assert_eq!(r.read_short(), Ok(-2));
    assert_eq!(r.read_int(), Ok(42));
    assert_eq!(r.read_int(), Err(NBTError::IO));
}

#[test]
fn reader_tag_with_name_length() {
    let mut r = NBTReader::new(vec![0x0A, 0x00, 0x03]);
    assert_eq!(r.read_tag_id_with_id_len(), Ok((Tag::Compound, 3)));
    let mut r2 = NBTReader::new(vec![0x00]);
    assert_eq!(r2.read_tag_id_with_id_len(), Ok((Tag::End, 0)));
}

#[test]
fn writer_primitives() {
    let mut w = NBTWriter::new(Vec::new());
    w.write_tag_id(Tag::String);
    w.write_string("hi");
    let bytes = w.into_inner();
    assert_eq!(bytes, vec![0x08, 0x00, 0x02, b'h', b'i']);
}

#[test]
fn tag_ids_and_sizes() {
    assert_eq!(Binary::tag_from_i8(0), Some(Tag::End));
    assert_eq!(Binary::tag_from_i8(12), Some(Tag::LongArray));
    assert_eq!(Binary::tag_from_i8(13), None);
    assert_eq!(Binary::tag_from_i8(-1), None);
    assert_eq!(Tag::Double.get_size(), 8);
    assert_eq!(Tag::Byte.get_size(), 1);
    assert_eq!(Tag::List.get_size(), 0);
    assert_eq!(Binary::get_list_type_id(ListType::IntArray), 11);
    assert_eq!(Binary::get_list_type_id(ListType::List(Tag::Byte)), 9);
}
