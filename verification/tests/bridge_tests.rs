use axolotl_nbt::serde_impl::{Error, UserValue};
use axolotl_nbt::value::{NameLessValue, Value};
use axolotl_nbt::writer::NBTWriter;

#[test]
fn int_seq_specializes_to_int_array() {
    // A record holding xs: Vec<i32> must emit IntArray (11), not List<Int>.
    let record = UserValue::Record(
        String::new(),
        vec![(
            "xs".to_string(),
            UserValue::Sequence(vec![
                UserValue::Int(1),
                UserValue::Int(2),
                UserValue::Int(3),
            ]),
        )],
    );
    let v = record.to_value().expect("an encodable record");
    assert_eq!(
        v,
        Value::Compound {
            name: String::new(),
            value: vec![Value::IntArray {
                name: "xs".to_string(),
                value: vec![1, 2, 3],
            }],
        }
    );
    // The field's wire bytes, exactly.
    let mut w = NBTWriter::new(Vec::new());
    match &v {
        Value::Compound { value, .. } => w.write_value(&value[0]).expect("a writable field"),
        _ => unreachable!(),
    }
    assert_eq!(
        w.into_inner(),
        vec![
            0x0B, 0x00, 0x02, b'x', b's', 0x00, 0x00, 0x00, 0x03, 0x00, 0x00, 0x00, 0x01, 0x00,
            0x00, 0x00, 0x02, 0x00, 0x00, 0x00, 0x03,
        ]
    );
}

#[test]
fn byte_and_long_seqs_specialize() {
    let record = UserValue::Record(
        String::new(),
        vec![
            (
                "bs".to_string(),
                UserValue::Sequence(vec![UserValue::Byte(1), UserValue::Byte(2)]),
            ),
            (
                "ls".to_string(),
                UserValue::Sequence(vec![UserValue::Long(9)]),
            ),
            (
                "strs".to_string(),
                UserValue::Sequence(vec![UserValue::Text("a".to_string())]),
            ),
        ],
    );
    let v = record.to_value().expect("an encodable record");
    assert_eq!(
        v,
        Value::Compound {
            name: String::new(),
            value: vec![
                Value::ByteArray {
                    name: "bs".to_string(),
                    value: vec![1, 2],
                },
                Value::LongArray {
                    name: "ls".to_string(),
                    value: vec![9],
                },
                Value::List {
                    name: "strs".to_string(),
                    value: vec![NameLessValue::String("a".to_string())],
                },
            ],
        }
    );
}

#[test]
fn record_encode_decode_round_trip() {
    let record = UserValue::Record(
        "Player".to_string(),
        vec![
            ("level".to_string(), UserValue::Int(5)),
            ("name".to_string(), UserValue::Text("KingTux".to_string())),
            ("alive".to_string(), UserValue::Bool(true)),
            (
                "scores".to_string(),
                UserValue::Sequence(vec![UserValue::Int(1), UserValue::Int(2)]),
            ),
            (
                "inner".to_string(),
                UserValue::Record(
                    String::new(),
                    vec![("xp".to_string(), UserValue::Double(0.5f64.to_bits()))],
                ),
            ),
        ],
    );
    let v = record.to_value().expect("an encodable record");
    let back = UserValue::from_value(&v).expect("a decodable compound");
    assert_eq!(back, record);
}

#[test]
fn optional_fields_are_elided() {
    let record = UserValue::Record(
        String::new(),
        vec![
            ("gone".to_string(), UserValue::NoneValue),
            (
                "there".to_string(),
                UserValue::SomeValue(Box::new(UserValue::Int(1))),
            ),
        ],
    );
    let v = record.to_value().expect("an encodable record");
    assert_eq!(
        v,
        Value::Compound {
            name: String::new(),
            value: vec![Value::Int {
                name: "there".to_string(),
                value: 1,
            }],
        }
    );
}

#[test]
fn map_keys_must_be_strings() {
    let map = UserValue::Mapping(vec![(UserValue::Int(1), UserValue::Int(2))]);
    assert_eq!(map.to_value(), Err(Error::KeyMustBeString));
}

#[test]
fn naked_scalar_root_is_unrepresentable() {
    assert!(matches!(
        UserValue::Int(1).to_value(),
        Err(Error::UnrepresentableValueError(_))
    ));
}

#[test]
fn unit_variant_encodes_as_its_name() {
    let record = UserValue::Record(
        String::new(),
        vec![(
            "kind".to_string(),
            UserValue::UnitVariant("Warrior".to_string()),
        )],
    );
    let v = record.to_value().expect("an encodable record");
    assert_eq!(
        v,
        Value::Compound {
            name: String::new(),
            value: vec![Value::String {
                name: "kind".to_string(),
                value: "Warrior".to_string(),
            }],
        }
    );
}

#[test]
fn decoder_top_level_must_be_compound() {
    let v = Value::Int {
        name: "x".to_string(),
        value: 1,
    };
    assert_eq!(
        UserValue::from_value(&v),
        Err(Error::IncorrectTagError(
            axolotl_nbt::tag::Tag::Compound,
            axolotl_nbt::tag::Tag::Int
        ))
    );
}

#[test]
fn decoder_rejects_end_inside_tree() {
    let v = Value::Compound {
        name: String::new(),
        value: vec![Value::End],
    };
    assert!(UserValue::from_value(&v).is_err());
}

#[test]
fn unit_root_is_unrepresentable() {
    assert!(matches!(
        UserValue::Unit.to_value(),
        Err(Error::UnrepresentableValueError(_))
    ));
}

#[test]
fn map_encodes_as_nameless_compound() {
    let map = UserValue::Mapping(vec![(
        UserValue::Text("k".to_string()),
        UserValue::Int(3),
    )]);
    let v = map.to_value().expect("an encodable map");
    assert_eq!(
        v,
        Value::Compound {
            name: String::new(),
            value: vec![Value::Int {
                name: "k".to_string(),
                value: 3,
            }],
        }
    );
}
