use kernel::device_tree::{
    align_within, be_u32, be_u64, copy_range, find_nul, parse, FdtError, FdtToken, Header,
    ReserveEntry, StructureBlockIterator, FDT_MAGIC, FDT_VERSION,
};

fn put(blob: &mut Vec<u8>, value: u32) {
    blob.extend_from_slice(&value.to_be_bytes());
}

fn header(off_struct: u32, size_struct: u32, off_strings: u32, size_strings: u32, off_rsv: u32) -> Vec<u8> {
    let mut blob = Vec::new();
    put(&mut blob, FDT_MAGIC);
    put(&mut blob, 0x200);
    put(&mut blob, off_struct);
    put(&mut blob, off_strings);
    put(&mut blob, off_rsv);
    put(&mut blob, FDT_VERSION);
    put(&mut blob, 16);
    put(&mut blob, 0);
    put(&mut blob, size_strings);
    put(&mut blob, size_struct);
    blob
}

fn structure() -> Vec<u8> {
    let mut block = Vec::new();
    put(&mut block, 1);
    block.extend_from_slice(b"cpus\0");
    block.extend_from_slice(&[0, 0, 0]);
    put(&mut block, 4);
    put(&mut block, 3);
    put(&mut block, 5);
    put(&mut block, 6);
    block.extend_from_slice(&[1, 2, 3, 4, 5]);
    block.extend_from_slice(&[0, 0, 0]);
    put(&mut block, 2);
    put(&mut block, 9);
    block
}

const STRINGS: &[u8] = b"model\0reg\0";

#[test]
fn big_endian_numbers() {
    let bytes = vec![0xd0, 0x0d, 0xfe, 0xed, 0x01, 0x02, 0x03, 0x04, 0xff];
    assert_eq!(be_u32(&bytes, 0), 0xd00dfeed);
    assert_eq!(be_u32(&bytes, 4), 0x01020304);
    assert_eq!(be_u32(&bytes, 5), 0x020304ff);
    assert_eq!(be_u64(&bytes, 0), 0xd00dfeed_01020304);
}

#[test]
fn helpers() {
    let bytes = b"ab\0cd".to_vec();
    assert_eq!(find_nul(&bytes, 0), 2);
    assert_eq!(find_nul(&bytes, 2), 2);
    assert_eq!(find_nul(&bytes, 3), 5);
    assert_eq!(find_nul(&bytes, 9), 5);
    assert_eq!(copy_range(&bytes, 1, 4), b"b\0c");
    assert_eq!(align_within(0, 100), 0);
    assert_eq!(align_within(5, 100), 8);
    assert_eq!(align_within(8, 100), 8);
    assert_eq!(align_within(9, 10), 10);
}

#[test]
fn header_is_read_and_checked() {
    let blob = header(0x38, 0x100, 0x138, 0x20, 0x28);
    let parsed = parse(&blob).unwrap();
    assert_eq!(
        parsed,
        Header {
            magic: 0xd00dfeed,
            totalsize: 0x200,
            off_dt_struct: 0x38,
            off_dt_strings: 0x138,
            off_mem_rsvmap: 0x28,
            version: 17,
            last_comp_version: 16,
            boot_cpuid_phys: 0,
            size_dt_strings: 0x20,
            size_dt_struct: 0x100,
        }
    );
    assert_eq!(parse(&blob[..39].to_vec()), Err(FdtError::Truncated));
    let mut bad = blob.clone();
    bad[3] = 0;
    assert_eq!(parse(&bad), Err(FdtError::BadMagic));
    let mut old = blob.clone();
    old[23] = 16;
    assert_eq!(parse(&old), Err(FdtError::BadVersion));
    assert_eq!(parse(&Vec::new()), Err(FdtError::Truncated));
}

#[test]
fn reserved_areas_end_with_the_zero_entry() {
    let mut blob = header(0, 0, 0, 0, 40);
    for value in [0x8000_0000u64, 0x1000, 0x9000_0000, 0x2000, 0, 0] {
        blob.extend_from_slice(&value.to_be_bytes());
    }
    let parsed = parse(&blob).unwrap();
    let areas = parsed.get_reserved_areas(&blob).unwrap();
    assert_eq!(
        areas,
        vec![
            ReserveEntry { address: 0x8000_0000, size: 0x1000 },
            ReserveEntry { address: 0x9000_0000, size: 0x2000 },
        ]
    );
    assert_eq!(areas[0].last_address(), 0x8000_0fff);
    // without the zero entry there is no map
    let cut = blob[..blob.len() - 16].to_vec();
    assert_eq!(parsed.get_reserved_areas(&cut), None);
    let cut = blob[..blob.len() - 1].to_vec();
    assert_eq!(parsed.get_reserved_areas(&cut), None);
    // an empty map
    let mut empty = header(0, 0, 0, 0, 40);
    empty.extend_from_slice(&[0; 16]);
    assert_eq!(parse(&empty).unwrap().get_reserved_areas(&empty), Some(Vec::new()));
}

#[test]
fn structure_block_is_read_token_by_token() {
    let mut reader = StructureBlockIterator::new(structure(), STRINGS.to_vec());
    assert_eq!(reader.malformed(), None);
    assert!(matches!(reader.next(), Some(FdtToken::BeginNode(name)) if name == b"cpus"));
    assert!(matches!(reader.try_next(), Ok(Some(FdtToken::Nop))));
    assert!(matches!(
        reader.try_next(),
        Ok(Some(FdtToken::Prop(name, data))) if name == b"reg" && data == vec![1, 2, 3, 4, 5]
    ));
    assert!(matches!(reader.try_next(), Ok(Some(FdtToken::EndNode))));
    assert!(matches!(reader.try_next(), Ok(Some(FdtToken::End))));
    assert!(matches!(reader.try_next(), Ok(None)));
    assert!(matches!(reader.try_next(), Ok(None)));
    assert_eq!(reader.malformed(), None);
    assert!(reader.next().is_none());
}

#[test]
fn structure_block_from_the_blob() {
    let block = structure();
    let mut blob = header(40, block.len() as u32, 40 + block.len() as u32, STRINGS.len() as u32, 0);
    blob.extend_from_slice(&block);
    blob.extend_from_slice(STRINGS);
    let parsed = parse(&blob).unwrap();
    let mut reader = parsed.get_structure_block(&blob).unwrap();
    let mut count = 0;
    while let Ok(Some(_)) = reader.try_next() {
        count += 1;
    }
    assert_eq!(count, 5);
    let cut = blob[..blob.len() - 1].to_vec();
    assert!(parsed.get_structure_block(&cut).is_none());
}

#[test]
fn cut_off_structure_block_ends_the_reading() {
    let read = |block: Vec<u8>| StructureBlockIterator::new(block, STRINGS.to_vec()).try_next();
    // fewer than four bytes
    assert!(matches!(read(vec![0, 0, 0]), Ok(None)));
    assert!(matches!(read(vec![0]), Ok(None)));
    // a name without its zero byte
    assert!(matches!(read(vec![0, 0, 0, 1, b'a', b'b']), Ok(None)));
    assert!(matches!(read(vec![0, 0, 0, 1]), Ok(None)));
    // a property whose header is cut off
    assert!(matches!(read(vec![0, 0, 0, 3, 0, 0, 0, 4]), Ok(None)));
    // a property whose value is cut off
    assert!(matches!(read(vec![0, 0, 0, 3, 0, 0, 0, 4, 0, 0, 0, 0, 1, 2]), Ok(None)));
    // a property name outside the strings block
    assert!(matches!(read(vec![0, 0, 0, 3, 0, 0, 0, 0, 0, 0, 0, 10]), Ok(None)));
    // an empty name and an empty value are fine
    assert!(matches!(
        read(vec![0, 0, 0, 3, 0, 0, 0, 0, 0, 0, 0, 5]),
        Ok(Some(FdtToken::Prop(name, data))) if name.is_empty() && data.is_empty()
    ));
    // the reader stays where it was: the tokens in front are read, then none
    let mut reader =
        StructureBlockIterator::new(vec![0, 0, 0, 4, 0, 0, 0, 1, b'a', b'b'], Vec::new());
    assert!(matches!(reader.try_next(), Ok(Some(FdtToken::Nop))));
    assert!(matches!(reader.try_next(), Ok(None)));
    assert!(matches!(reader.try_next(), Ok(None)));
    assert_eq!(reader.malformed(), None);
    assert!(reader.next().is_none());
}

#[test]
fn unknown_tokens_and_bytes_behind_the_end_are_told_before_reading() {
    let reader = |block: Vec<u8>| StructureBlockIterator::new(block, STRINGS.to_vec());
    assert_eq!(reader(vec![0, 0, 0, 7]).malformed(), Some(FdtError::UnknownToken));
    assert_eq!(reader(vec![0, 0, 0, 0]).malformed(), Some(FdtError::UnknownToken));
    assert_eq!(reader(vec![0xd0, 0x0d, 0xfe, 0xed]).malformed(), Some(FdtError::UnknownToken));
    assert_eq!(reader(vec![0, 0, 0, 9, 0, 0, 0, 4]).malformed(), Some(FdtError::TrailingData));
    assert_eq!(reader(vec![0, 0, 0, 9, 0]).malformed(), Some(FdtError::TrailingData));
    assert_eq!(reader(vec![0, 0, 0, 9]).malformed(), None);
    assert_eq!(reader(vec![0, 0, 0, 2, 7, 7, 7, 7]).malformed(), None);
    assert_eq!(reader(Vec::new()).malformed(), None);
    assert!(matches!(reader(vec![0, 0, 0, 7]).try_next(), Err(FdtError::UnknownToken)));
    assert!(matches!(
        reader(vec![0, 0, 0, 9, 0, 0, 0, 4]).try_next(),
        Err(FdtError::TrailingData)
    ));
    // the error leaves the reader where it was
    let mut reader = StructureBlockIterator::new(vec![0, 0, 0, 4, 0, 0, 0, 7], Vec::new());
    assert!(matches!(reader.try_next(), Ok(Some(FdtToken::Nop))));
    assert!(matches!(reader.try_next(), Err(FdtError::UnknownToken)));
    assert!(matches!(reader.try_next(), Err(FdtError::UnknownToken)));
}

#[test]
fn property_names_come_from_the_strings_block() {
    let reader = StructureBlockIterator::new(Vec::new(), STRINGS.to_vec());
    assert_eq!(reader.get_string(0), Some(b"model".to_vec()));
    assert_eq!(reader.get_string(6), Some(b"reg".to_vec()));
    assert_eq!(reader.get_string(8), Some(b"g".to_vec()));
    assert_eq!(reader.get_string(9), Some(Vec::new()));
    assert_eq!(reader.get_string(10), None);
    let open_ended = StructureBlockIterator::new(Vec::new(), b"abc".to_vec());
    assert_eq!(open_ended.get_string(0), None);
}
