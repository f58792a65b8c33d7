use resource_packer::lz77::buffer_compress;
use resource_packer::pack::{assemble_pack, build_id_section, build_records, PackEntry, ResourceRecord};
use resource_packer::resource::{generate_artifact, CompressionType, PackError, Resource};

fn entry(id: &str, compression: CompressionType, source: &[u8]) -> PackEntry {
    PackEntry {
        resource: Resource {
            id: id.to_string(),
            compression,
            filepath: format!("{}.dat", id),
        },
        uncompressed_length: source.len() as u64,
        artifact: generate_artifact(source, compression),
    }
}

fn be32(b: &[u8]) -> u32 {
    u32::from_be_bytes([b[0], b[1], b[2], b[3]])
}

#[test]
fn two_resource_pack() {
    let entries = vec![
        entry("a", CompressionType::NONE, b"hello"),
        entry("bb", CompressionType::LZ77, b"aaaaaaaaaa"),
    ];
    assert_eq!(build_id_section(&entries), b"abb\0".to_vec());
    let records = build_records(&entries).unwrap();
    assert_eq!(
        records[0],
        ResourceRecord {
            id_offset: 0,
            id_length: 1,
            flags: 0,
            data_offset: 56,
            data_length: 5,
            uncompressed_length: 5,
        }
    );
    assert_eq!(records[1].flags, 0b1);
    assert!(records[1].data_length < 10);
    assert_eq!(
        records[1],
        ResourceRecord {
            id_offset: 1,
            id_length: 2,
            flags: 1,
            data_offset: 61,
            data_length: 8,
            uncompressed_length: 10,
        }
    );
    let pack = assemble_pack(&entries).unwrap();
    assert_eq!(pack.len(), 69);
    assert_eq!(&pack[0..12], &[b's', b'm', b'p', b'r', 0, 1, 0, 2, 0, 0, 0, 4]);
    assert_eq!(&pack[12..16], b"abb\0");
    assert_eq!(
        &pack[16..36],
        &[0, 0, 0, 0, 0, 1, 0, 0, 0, 0, 0, 56, 0, 0, 0, 5, 0, 0, 0, 5]
    );
    assert_eq!(
        &pack[36..56],
        &[0, 0, 0, 1, 0, 2, 0, 1, 0, 0, 0, 61, 0, 0, 0, 8, 0, 0, 0, 10]
    );
    assert_eq!(&pack[56..61], b"hello");
    assert_eq!(&pack[61..69], &buffer_compress(b"aaaaaaaaaa")[..]);
}

#[test]
fn descriptors_locate_ids_and_data() {
    let entries = vec![
        entry("first", CompressionType::LZ77, b"abababababababab-xyz"),
        entry("second-id", CompressionType::NONE, b""),
        entry("z", CompressionType::NONE, b"0123456789"),
    ];
    let pack = assemble_pack(&entries).unwrap();
    let count = u16::from_be_bytes([pack[6], pack[7]]) as usize;
    let id_section_length = be32(&pack[8..12]) as usize;
    assert_eq!(count, 3);
    assert_eq!(id_section_length % 4, 0);
    let ids = &pack[12..12 + id_section_length];
    let data_start = 12 + id_section_length + 20 * count;
    let mut total = 0usize;
    let mut expected_id_offset = 0usize;
    for (i, e) in entries.iter().enumerate() {
        let r = &pack[12 + id_section_length + 20 * i..12 + id_section_length + 20 * (i + 1)];
        let id_offset = be32(&r[0..4]) as usize;
        let id_length = u16::from_be_bytes([r[4], r[5]]) as usize;
        let data_offset = be32(&r[8..12]) as usize;
        let data_length = be32(&r[12..16]) as usize;
        assert_eq!(id_offset, expected_id_offset);
        assert_eq!(&ids[id_offset..id_offset + id_length], e.resource.id.as_bytes());
        assert_eq!(&pack[data_offset..data_offset + data_length], &e.artifact[..]);
        assert_eq!(data_offset, data_start + total);
        expected_id_offset += id_length;
        total += data_length;
    }
    assert_eq!(total, pack.len() - data_start);
}

#[test]
fn id_section_already_aligned_gets_no_padding() {
    let entries = vec![entry("abcd", CompressionType::NONE, b"x")];
    assert_eq!(build_id_section(&entries), b"abcd".to_vec());
    let entries = vec![entry("abcde", CompressionType::NONE, b"x")];
    assert_eq!(build_id_section(&entries), b"abcde\0\0\0".to_vec());
}

#[test]
fn empty_pack_is_a_header() {
    let pack = assemble_pack(&Vec::new()).unwrap();
    assert_eq!(pack, vec![b's', b'm', b'p', b'r', 0, 1, 0, 0, 0, 0, 0, 0]);
}

#[test]
fn too_long_id_overflows() {
    let long_id = "i".repeat(65536);
    let entries = vec![entry(&long_id, CompressionType::NONE, b"x")];
    assert_eq!(build_records(&entries), Err(PackError::LayoutOverflow));
    assert_eq!(assemble_pack(&entries), Err(PackError::LayoutOverflow));
    let fits = "i".repeat(65535);
    assert!(build_records(&vec![entry(&fits, CompressionType::NONE, b"x")]).is_ok());
}

#[test]
fn too_large_source_overflows() {
    let mut e = entry("a", CompressionType::NONE, b"x");
    e.uncompressed_length = 1 << 32;
    assert_eq!(build_records(&vec![e]), Err(PackError::LayoutOverflow));
}

#[test]
fn too_many_resources_overflow() {
    let entries: Vec<PackEntry> = (0..65536).map(|_| entry("", CompressionType::NONE, b"")).collect();
    assert_eq!(build_records(&entries), Err(PackError::LayoutOverflow));
}
