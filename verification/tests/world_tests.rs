use axolotl_nbt::chunk::{bits_for_palette, CompactArray, CompactArrayIndex};
use axolotl_nbt::region::{
    CompressionType, RegionHeader, RegionLocation, RegionReader, RegionWriter,
};
use axolotl_nbt::value::Value;
use axolotl_nbt::writer::NBTWriter;
use std::mem::size_of;

#[test]
pub fn number_tests() {
    println!("{:#066b}", (0u32, 1u32, 2u32).get())
}

#[test]
pub fn size() {
    println!("{}", size_of::<RegionLocation>());
}

#[test]
fn packed_bits_scenario() {
    // bits = 5, length = 20: 64 / 5 = 12 entries per word, two words.
    let mut a = CompactArray::new(5, 20);
    assert_eq!(a.data.len(), 2);
    a.set(0usize, 17);
    a.set(1usize, 3);
    a.set(19usize, 31);
    assert_eq!(a.get(0usize), Some(17));
    assert_eq!(a.get(1usize), Some(3));
    assert_eq!(a.get(2usize), Some(0));
    assert_eq!(a.get(19usize), Some(31));
    assert_eq!(a.get(20usize), None);
}

#[test]
fn packed_bits_masking_and_neighbors() {
    let mut a = CompactArray::new(4, 10);
    a.set(3usize, 0xFFFF);
    assert_eq!(a.get(3usize), Some(0xF));
    assert_eq!(a.get(2usize), Some(0));
    assert_eq!(a.get(4usize), Some(0));
    a.set(4usize, 7);
    assert_eq!(a.get(3usize), Some(0xF));
    assert_eq!(a.get(4usize), Some(7));
}

#[test]
fn packed_bits_resize_widens() {
    let mut a = CompactArray::new(4, 6);
    a.set(0usize, 15);
    a.set(5usize, 9);
    let b = a.resized(6);
    assert_eq!(b.bits_per_block, 6);
    assert_eq!(b.get(0usize), Some(15));
    assert_eq!(b.get(5usize), Some(9));
    assert_eq!(b.get(1usize), Some(0));
}

#[test]
fn palette_bit_width() {
    assert_eq!(bits_for_palette(1), 4);
    assert_eq!(bits_for_palette(16), 4);
    assert_eq!(bits_for_palette(17), 5);
    assert_eq!(bits_for_palette(33), 6);
}

#[test]
fn region_header_round_trip() {
    let mut locations = Vec::new();
    let mut timestamps = Vec::new();
    for i in 0..1024u32 {
        locations.push(RegionLocation(i % 7, (i % 3) as u8));
        timestamps.push(i * 11);
    }
    let header = RegionHeader {
        locations: locations.clone(),
        timestamps: timestamps.clone(),
    };
    let mut w = RegionWriter::new(Vec::new());
    w.write_region(&header).expect("a header");
    let image = w.into_inner();
    assert_eq!(image.len(), 8192);
    let r = RegionReader::new(image);
    let back = r.read_region_header().expect("a header");
    assert_eq!(back.locations, locations);
    assert_eq!(back.timestamps, timestamps);
}

#[test]
fn region_header_wrong_length() {
    let header = RegionHeader {
        locations: vec![RegionLocation(0, 0)],
        timestamps: vec![],
    };
    let mut w = RegionWriter::new(Vec::new());
    assert!(w.write_region(&header).is_err());
}

fn sample_nbt() -> Vec<u8> {
    let v = Value::Compound {
        name: "chunk".to_string(),
        value: vec![
            Value::Int {
                name: "xPos".to_string(),
                value: 3,
            },
            Value::Long {
                name: "LastUpdate".to_string(),
                value: 123456,
            },
        ],
    };
    let mut w = NBTWriter::new(Vec::new());
    w.write_value(&v).expect("a writable value");
    w.into_inner()
}

#[test]
fn region_chunk_round_trip_zlib() {
    let nbt = sample_nbt();
    let mut w = RegionWriter::new(vec![0u8; 8192]);
    let loc = w.write_chunk(&nbt, 2).expect("a written chunk");
    let image = w.into_inner();
    let r = RegionReader::new(image);
    let (header, bytes) = r.read_chunk_to_bytes(loc).expect("a chunk");
    assert!(matches!(header.compression_type, CompressionType::Zlib));
    let (_, v) = r.read_chunk_to_value(loc).expect("a chunk value");
    let mut w2 = NBTWriter::new(Vec::new());
    w2.write_value(&v).expect("a writable value");
    assert_eq!(w2.into_inner(), nbt);
    assert!(!bytes.is_empty());
}

#[test]
fn region_chunk_round_trip_gzip_and_raw() {
    let nbt = sample_nbt();
    for tag in [1u8, 3u8] {
        let mut w = RegionWriter::new(vec![0u8; 8192]);
        let loc = w.write_chunk(&nbt, tag).expect("a written chunk");
        let image = w.into_inner();
        let r = RegionReader::new(image);
        let (_, v) = r.read_chunk_to_value(loc).expect("a chunk value");
        let mut w2 = NBTWriter::new(Vec::new());
        w2.write_value(&v).expect("a writable value");
        assert_eq!(w2.into_inner(), nbt);
    }
}

#[test]
fn absent_chunk_is_sentinel() {
    let r = RegionReader::new(vec![0u8; 8192]);
    let (header, v) = r
        .read_chunk_to_value(RegionLocation(0, 0))
        .expect("the sentinel");
    assert_eq!(header.length, 0);
    assert_eq!(v, Value::End);
    let (h2, bytes) = r
        .read_chunk_to_bytes(RegionLocation(0, 0))
        .expect("the sentinel");
    assert_eq!(h2.length, 0);
    assert!(bytes.is_empty());
}

#[test]
fn chunk_header_fields() {
    let mut w = RegionWriter::new(Vec::new());
    w.write_chunk_header(77, 2).expect("a header");
    let image = w.into_inner();
    assert_eq!(image, vec![0, 0, 0, 77, 2]);
    assert_eq!(CompressionType::from_u8(1), CompressionType::Gzip);
    assert_eq!(CompressionType::from_u8(2), CompressionType::Zlib);
    assert_eq!(CompressionType::from_u8(3), CompressionType::Uncompressed);
    assert_eq!(CompressionType::from_u8(9), CompressionType::Custom(9));
    assert_eq!(RegionLocation(3, 1).calc_offset(), 12288);
}

#[test]
fn custom_compression_is_rejected() {
    let mut w = RegionWriter::new(vec![0u8; 8192]);
    assert!(w.write_chunk(&sample_nbt(), 9).is_err());
}
