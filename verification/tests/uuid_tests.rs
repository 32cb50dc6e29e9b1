use axolotl_nbt::binary_uuid::BinaryUUID;
use std::str::FromStr;
use uuid::Uuid;

pub const MY_UUID_AS_I32: [i32; 4] = [-796458901, -684962593, -1840418928, 923062364];
pub const MY_UUID: &str = "d087006b-d72c-4cdf-924d-6f903704d05c";

#[test]
pub fn test_from_uuid() {
    let uuid = Uuid::from_str(MY_UUID).unwrap();
    let bytes = uuid.into_bytes().to_vec();
    let binary_uuid = BinaryUUID::from_bytes(&bytes);
    assert_eq!(binary_uuid.0, MY_UUID_AS_I32);
}

#[test]
pub fn test_to_uuid() {
    let binary_uuid = BinaryUUID(MY_UUID_AS_I32);
    let bytes = binary_uuid.to_bytes();
    let uuid = Uuid::from_slice(&bytes).unwrap();
    assert_eq!(uuid.to_string(), MY_UUID);
}

#[test]
fn uuid_bytes_round_trip() {
    let bytes: Vec<u8> = (0u8..16u8).collect();
    let packed = BinaryUUID::from_bytes(&bytes);
    assert_eq!(packed.to_bytes(), bytes);
}
