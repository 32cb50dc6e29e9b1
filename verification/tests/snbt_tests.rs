use axolotl_nbt::snbt::{snbt_format, to_value, Error};
use axolotl_nbt::value::{NameLessValue, Value};

#[test]
fn mod_it_works() {
    let value =
        to_value(r#"{name1:123,name2:"sometext1",name3:{subname1:456,subname2:"sometext2"}}"#)
            .unwrap();
    println!("{:?}", value);
}

#[test]
fn lib_it_works() {
    let value =
        to_value(r#"{name1:123,name2:"sometext1",name3:{subname1:456,subname2:"sometext2"}}"#)
            .unwrap();
    assert_eq!(
        value,
        Value::Compound {
            name: String::new(),
            value: vec![
                Value::Int {
                    name: "name1".to_string(),
                    value: 123,
                },
                Value::String {
                    name: "name2".to_string(),
                    value: "sometext1".to_string(),
                },
                Value::Compound {
                    name: "name3".to_string(),
                    value: vec![
                        Value::Int {
                            name: "subname1".to_string(),
                            value: 456,
                        },
                        Value::String {
                            name: "subname2".to_string(),
                            value: "sometext2".to_string(),
                        },
                    ],
                },
            ],
        }
    );
}

#[test]
fn snbt_parse_scalars() {
    let value = to_value(r#"{a:123,b:"hi",c:{d:4.5f}}"#).unwrap();
    assert_eq!(
        value,
        Value::Compound {
            name: String::new(),
            value: vec![
                Value::Int {
                    name: "a".to_string(),
                    value: 123,
                },
                Value::String {
                    name: "b".to_string(),
                    value: "hi".to_string(),
                },
                Value::Compound {
                    name: "c".to_string(),
                    value: vec![Value::Float {
                        name: "d".to_string(),
                        value: 4.5f32.to_bits(),
                    }],
                },
            ],
        }
    );
}

#[test]
fn snbt_typed_literals() {
    let value = to_value("{a:12b,b:34s,c:56L,d:true,e:false,f:-9}").unwrap();
    assert_eq!(
        value,
        Value::Compound {
            name: String::new(),
            value: vec![
                Value::Byte {
                    name: "a".to_string(),
                    value: 12,
                },
                Value::Short {
                    name: "b".to_string(),
                    value: 34,
                },
                Value::Long {
                    name: "c".to_string(),
                    value: 56,
                },
                Value::Boolean {
                    name: "d".to_string(),
                    value: true,
                },
                Value::Boolean {
                    name: "e".to_string(),
                    value: false,
                },
                Value::Int {
                    name: "f".to_string(),
                    value: -9,
                },
            ],
        }
    );
}

#[test]
fn snbt_arrays_and_lists() {
    let value = to_value("{ba:[B;1b,2b],ia:[I;7,-8],la:[L;9L],ls:[1,2,3]}").unwrap();
    assert_eq!(
        value,
        Value::Compound {
            name: String::new(),
            value: vec![
                Value::ByteArray {
                    name: "ba".to_string(),
                    value: vec![1, 2],
                },
                Value::IntArray {
                    name: "ia".to_string(),
                    value: vec![7, -8],
                },
                Value::LongArray {
                    name: "la".to_string(),
                    value: vec![9],
                },
                Value::List {
                    name: "ls".to_string(),
                    value: vec![
                        NameLessValue::Int(1),
                        NameLessValue::Int(2),
                        NameLessValue::Int(3),
                    ],
                },
            ],
        }
    );
}

#[test]
fn snbt_missing_name() {
    assert_eq!(to_value("{123}"), Err(Error::MissingName));
}

#[test]
fn snbt_unexpected_token() {
    assert!(matches!(
        to_value("{a:%}"),
        Err(Error::UnexpectedToken(_))
    ));
}

fn sample_value() -> Value {
    Value::Compound {
        name: String::new(),
        value: vec![
            Value::Int {
                name: "a".to_string(),
                value: -123,
            },
            Value::Byte {
                name: "b".to_string(),
                value: 7,
            },
            Value::String {
                name: "c".to_string(),
                value: "hi there".to_string(),
            },
            Value::Float {
                name: "f".to_string(),
                value: 4.5f32.to_bits(),
            },
            Value::Double {
                name: "g".to_string(),
                value: 0.25f64.to_bits(),
            },
            Value::ByteArray {
                name: "ba".to_string(),
                value: vec![1, -2],
            },
            Value::IntArray {
                name: "ia".to_string(),
                value: vec![3, -4],
            },
            Value::LongArray {
                name: "la".to_string(),
                value: vec![5, -6],
            },
            Value::List {
                name: "ls".to_string(),
                value: vec![NameLessValue::Int(1), NameLessValue::Int(2)],
            },
            Value::Boolean {
                name: "flag".to_string(),
                value: true,
            },
            Value::Compound {
                name: "nested".to_string(),
                value: vec![Value::Short {
                    name: "s".to_string(),
                    value: -2,
                }],
            },
        ],
    }
}

#[test]
fn snbt_format_parse_round_trip() {
    let v = sample_value();
    let text = snbt_format(&v).expect("formattable");
    let back = to_value(&text).expect("parsable");
    assert_eq!(back, v);
}

#[test]
fn snbt_format_end_is_empty() {
    assert_eq!(snbt_format(&Value::End).unwrap(), "");
    assert_eq!(to_value("").unwrap(), Value::End);
}
