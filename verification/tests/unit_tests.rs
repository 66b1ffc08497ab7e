//! Tests of the leaf components: endian readers, resource identifiers,
//! the chunk-type vocabulary, and the walker's behavior on hostile input.

use arsc::chunks::{Chunk, ChunkIterator, ChunkType, ValueType};
use arsc::endianness::{LittleEndianU16, LittleEndianU32, LittleEndianU8};
use arsc::table::LoadedTable;
use arsc::ResourceId;

#[test]
fn chunk_type_from_primitive() {
    assert_eq!(ChunkType::from_code(0x0200), Some(ChunkType::Package));
}

#[test]
fn chunk_type_unknown_code() {
    assert_eq!(ChunkType::from_code(0x0204), None);
    assert_eq!(ChunkType::from_code(0xffff), None);
}

#[test]
fn value_type_from_primitive() {
    assert_eq!(ValueType::from_code(0x12), Some(ValueType::IntBoolean));
    assert_eq!(ValueType::from_code(0x03), Some(ValueType::String));
    assert_eq!(ValueType::from_code(0x0b), None);
}

#[test]
fn little_endian_to_native_endian() {
    let int = LittleEndianU8::new(32u8);
    assert_eq!(int.value(), 32u8);
}

#[test]
fn little_endian_reads_least_significant_byte_first() {
    let bytes = [0x34u8, 0x12, 0x78, 0x56];
    assert_eq!(LittleEndianU16::read(&bytes, 0).value(), 0x1234);
    assert_eq!(LittleEndianU16::read(&bytes, 2).value(), 0x5678);
    assert_eq!(LittleEndianU32::read(&bytes, 0).value(), 0x56781234);
}

#[test]
fn from_parts() {
    let resid = ResourceId::from_parts(0x7f, 0x02, 0x0001);
    assert_eq!(u32::from(resid), 0x7f020001);
    assert_eq!(u32::from(resid), u32::from(ResourceId::from_u32(0x7f020001)));
}

#[test]
fn parts() {
    let resid = ResourceId::from_u32(0x7f020001);
    assert_eq!(resid.package_id(), 0x7f);
    assert_eq!(resid.type_id(), 0x02);
    assert_eq!(resid.entry_id(), 0x0001);
}

#[test]
fn parse_empty_input() {
    match LoadedTable::parse(&[]) {
        Err(arsc::Error::CorruptData(m)) => assert_eq!(m, "no data to traverse"),
        _ => panic!("empty input must be corrupt"),
    }
}

#[test]
fn parse_not_a_table() {
    // A lone StringPool chunk at the top level is not a resource table.
    let mut data = Vec::new();
    data.extend_from_slice(&0x0001u16.to_le_bytes());
    data.extend_from_slice(&28u16.to_le_bytes());
    data.extend_from_slice(&28u32.to_le_bytes());
    data.extend_from_slice(&[0u8; 20]);
    match LoadedTable::parse(&data) {
        Err(arsc::Error::CorruptData(m)) => assert_eq!(m, "not a table chunk"),
        _ => panic!("a string pool is not a table"),
    }
}

#[test]
fn walker_stops_on_truncated_header() {
    let data = [0x02u8, 0x00, 0x0c];
    let mut it = ChunkIterator::new(&data);
    match it.next() {
        Some(Chunk::Error(_)) => {}
        _ => panic!("a 3-byte input cannot contain a header"),
    }
    assert!(it.next().is_none());
}

#[test]
fn walker_stops_on_size_beyond_input() {
    // Declared total size is far larger than the bytes present.
    let mut data = Vec::new();
    data.extend_from_slice(&0x0002u16.to_le_bytes());
    data.extend_from_slice(&12u16.to_le_bytes());
    data.extend_from_slice(&0x1000u32.to_le_bytes());
    data.extend_from_slice(&[0u8; 8]);
    let mut it = ChunkIterator::new(&data);
    match it.next() {
        Some(Chunk::Error(_)) => {}
        _ => panic!("the walker must not read past the input"),
    }
    assert!(it.next().is_none());
}

#[test]
fn walker_stops_on_unknown_type() {
    let mut data = Vec::new();
    data.extend_from_slice(&0x0777u16.to_le_bytes());
    data.extend_from_slice(&8u16.to_le_bytes());
    data.extend_from_slice(&8u32.to_le_bytes());
    let mut it = ChunkIterator::new(&data);
    match it.next() {
        Some(Chunk::Error(_)) => {}
        _ => panic!("an unknown type code terminates the walk"),
    }
    assert!(it.next().is_none());
}

#[test]
fn walker_terminates_on_zero_sizes() {
    // header-size 0 and total-size 0 must not loop forever.
    let mut data = Vec::new();
    data.extend_from_slice(&0x0002u16.to_le_bytes());
    data.extend_from_slice(&0u16.to_le_bytes());
    data.extend_from_slice(&0u32.to_le_bytes());
    let mut it = ChunkIterator::new(&data);
    match it.next() {
        Some(Chunk::Error(_)) => {}
        _ => panic!("zero-size chunks terminate the walk"),
    }
    assert!(it.next().is_none());
}

#[test]
fn as_table_on_wrong_chunk() {
    let mut data = Vec::new();
    data.extend_from_slice(&0x0001u16.to_le_bytes());
    data.extend_from_slice(&28u16.to_le_bytes());
    data.extend_from_slice(&28u32.to_le_bytes());
    data.extend_from_slice(&[0u8; 20]);
    let mut it = ChunkIterator::new(&data);
    let chunk = it.next().unwrap();
    assert!(matches!(
        chunk.as_table(),
        Err(arsc::Error::UnexpectedChunk)
    ));
    assert!(matches!(chunk.as_stringpool(), Ok(_)));
}

#[test]
fn hostile_inputs_never_panic() {
    // The parse is total: arbitrary byte soup returns an error, never
    // panics and never reads out of bounds.
    let samples: Vec<Vec<u8>> = vec![
        vec![0xff; 7],
        vec![0x02, 0x00, 0x08, 0x00, 0x08, 0x00, 0x00, 0x00],
        vec![0x02, 0x00, 0x0c, 0x00, 0x0c, 0x00, 0x00, 0x00, 0xff, 0xff, 0xff, 0x7f],
        (0u8..=255).collect(),
        vec![0x02, 0x00, 0x0c, 0x00, 0xff, 0xff, 0xff, 0xff, 0x01, 0x00, 0x00, 0x00],
    ];
    for s in samples {
        assert!(LoadedTable::parse(&s).is_err());
    }
}
