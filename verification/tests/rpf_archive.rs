use rpf2fivem::rpf::{
    find_nested_rpfs, name_lower_is_ysc, read_u32, resource_bytes, resource_header, to_lowercase, RpfArchive,
    RpfEncryption, RpfEntryKind, RpfError, RpfPayload,
};

fn le(v: u32) -> [u8; 4] {
    v.to_le_bytes()
}

/// An archive with a directory, a binary file `Car.YFT` (5 bytes at block 1)
/// and a resource `x.ytd` (32 stored bytes at block 2).
fn sample_archive() -> Vec<u8> {
    let mut d: Vec<u8> = Vec::new();
    d.extend_from_slice(&le(0x52504637));
    d.extend_from_slice(&le(3));
    d.extend_from_slice(&le(16));
    d.extend_from_slice(&le(0));
    // directory: name offset 0, marker 0x7FFFFF00, index 1, count 2
    d.extend_from_slice(&le(0));
    d.extend_from_slice(&le(0x7FFFFF00));
    d.extend_from_slice(&le(1));
    d.extend_from_slice(&le(2));
    // binary file: name offset 1, stored size 0, block 1, uncompressed size 5
    d.extend_from_slice(&[1, 0, 0, 0, 0, 1, 0, 0]);
    d.extend_from_slice(&le(5));
    d.extend_from_slice(&le(0));
    // resource: name offset 9, size 32, block 2 (top bit set), flags
    d.extend_from_slice(&[9, 0, 32, 0, 0, 2, 0, 0x80]);
    d.extend_from_slice(&le(0x20000001));
    d.extend_from_slice(&le(7));
    // names
    let mut names = b"\0Car.YFT\0x.ytd\0".to_vec();
    names.resize(16, 0);
    d.extend_from_slice(&names);
    d.resize(512, 0);
    d.extend_from_slice(b"hello");
    d.resize(1024, 0);
    for i in 0..32u8 {
        d.push(i);
    }
    d
}

#[test]
fn refuses_short_data() {
    assert_eq!(RpfArchive::parse_from_bytes(&[0u8; 10], "a.rpf", 0).err(), Some(RpfError::TooShort));
    let d = sample_archive();
    assert_eq!(RpfArchive::parse_from_bytes(&d, "a.rpf", d.len() - 15).err(), Some(RpfError::TooShort));
}

#[test]
fn refuses_other_magic() {
    let mut d = vec![0u8; 16];
    d[0] = 0x41;
    assert_eq!(RpfArchive::parse_from_bytes(&d, "a.rpf", 0).err(), Some(RpfError::BadMagic(0x41)));
}

#[test]
fn refuses_truncated_tables() {
    let mut d: Vec<u8> = Vec::new();
    d.extend_from_slice(&le(0x52504637));
    d.extend_from_slice(&le(1));
    d.extend_from_slice(&le(0));
    d.extend_from_slice(&le(0));
    d.extend_from_slice(&[0u8; 15]);
    assert_eq!(RpfArchive::parse_from_bytes(&d, "a.rpf", 0).err(), Some(RpfError::Truncated));
}

#[test]
fn parses_entries() {
    let d = sample_archive();
    let a = RpfArchive::parse_from_bytes(&d, "dir/a.rpf", 0).ok().unwrap();
    assert_eq!(a.path, "dir/a.rpf");
    assert_eq!(a.start_pos, 0);
    assert_eq!(a.encryption, RpfEncryption::Unencrypted);
    assert_eq!(a.entries.len(), 3);
    assert_eq!(a.entries[0].name, "");
    assert_eq!(a.entries[0].kind, RpfEntryKind::Directory { entries_index: 1, entries_count: 2 });
    assert_eq!(a.entries[1].name, "Car.YFT");
    assert_eq!(a.entries[1].name_lower, "car.yft");
    assert_eq!(
        a.entries[1].kind,
        RpfEntryKind::BinaryFile { file_offset: 1, file_size: 0, uncompressed_size: 5, is_encrypted: false }
    );
    assert_eq!(a.entries[2].name, "x.ytd");
    assert_eq!(
        a.entries[2].kind,
        RpfEntryKind::ResourceFile {
            file_offset: 2,
            file_size: 32,
            system_flags: 0x20000001,
            graphics_flags: 7,
            is_encrypted: false
        }
    );
    assert!(a.spans_in_range());
}

#[test]
fn extracts_stored_files() {
    let d = sample_archive();
    let a = RpfArchive::parse_from_bytes(&d, "a.rpf", 0).ok().unwrap();
    let out = a.extract_all(&d);
    assert_eq!(out.len(), 2);
    match &out[0] {
        RpfPayload::File { name, bytes, compressed } => {
            assert_eq!(name, "car.yft");
            assert_eq!(bytes, &b"hello".to_vec());
            assert!(!compressed);
        }
        _ => panic!("expected a binary file"),
    }
    match &out[1] {
        RpfPayload::Resource { name, header, body } => {
            assert_eq!(name, "x.ytd");
            assert_eq!(header, &vec![0x52u8, 0x53, 0x43, 0x37, 2, 0, 0, 0, 1, 0, 0, 0x20, 7, 0, 0, 0]);
            assert_eq!(body, &(16..32u8).collect::<Vec<u8>>());
        }
        _ => panic!("expected a resource"),
    }
}

#[test]
fn archive_found_inside_other_data() {
    let mut d = vec![0xEEu8; 7];
    d.extend_from_slice(&sample_archive());
    let a = RpfArchive::parse_from_bytes(&d, "inner.rpf", 7).ok().unwrap();
    assert_eq!(a.start_pos, 7);
    assert_eq!(a.entries.len(), 3);
    let out = a.extract_all(&d);
    assert_eq!(out.len(), 2);
    match &out[0] {
        RpfPayload::File { bytes, .. } => assert_eq!(bytes, &b"hello".to_vec()),
        _ => panic!("expected a binary file"),
    }
}

#[test]
fn entries_past_the_end_are_skipped() {
    let d = sample_archive();
    let a = RpfArchive::parse_from_bytes(&d, "a.rpf", 0).ok().unwrap();
    let cut = &d[..600];
    let out = a.extract_all(cut);
    assert_eq!(out.len(), 1);
    let cut = &d[..516];
    assert_eq!(a.extract_all(cut).len(), 0);
}

#[test]
fn nested_archive_entries() {
    let mut d: Vec<u8> = Vec::new();
    d.extend_from_slice(&le(0x52504637));
    d.extend_from_slice(&le(1));
    d.extend_from_slice(&le(16));
    d.extend_from_slice(&le(0x0FFFFFF9));
    d.extend_from_slice(&[1, 0, 4, 0, 0, 1, 0, 0]);
    d.extend_from_slice(&le(9));
    d.extend_from_slice(&le(0));
    let mut names = b"\0In.RPF\0".to_vec();
    names.resize(16, 0);
    d.extend_from_slice(&names);
    d.resize(512, 0);
    d.extend_from_slice(&[9, 8, 7, 6]);
    let a = RpfArchive::parse_from_bytes(&d, "a.rpf", 0).ok().unwrap();
    assert_eq!(a.encryption, RpfEncryption::Aes);
    // Four bytes hold no archive: opening it gives nothing.
    assert_eq!(a.extract_all(&d).len(), 0);
    let out = a.stored_payloads(&d);
    assert_eq!(out.len(), 1);
    match &out[0] {
        RpfPayload::Nested { name, bytes, compressed } => {
            assert_eq!(name, "in.rpf");
            assert_eq!(bytes, &vec![9u8, 8, 7, 6]);
            assert!(*compressed);
        }
        _ => panic!("expected a nested archive"),
    }
}

#[test]
fn nested_archives_are_opened() {
    let inner = sample_archive();
    let mut d: Vec<u8> = Vec::new();
    d.extend_from_slice(&le(0x52504637));
    d.extend_from_slice(&le(1));
    d.extend_from_slice(&le(16));
    d.extend_from_slice(&le(0));
    d.extend_from_slice(&[1, 0, 0x20, 0x04, 0, 1, 0, 0]);
    d.extend_from_slice(&le(1056));
    d.extend_from_slice(&le(0));
    let mut names = b"\0inner.rpf\0".to_vec();
    names.resize(16, 0);
    d.extend_from_slice(&names);
    d.resize(512, 0);
    d.extend_from_slice(&inner);
    let a = RpfArchive::parse_from_bytes(&d, "outer.rpf", 0).ok().unwrap();
    let stored = a.stored_payloads(&d);
    assert_eq!(stored.len(), 1);
    assert!(matches!(&stored[0], RpfPayload::Nested { name, .. } if name == "inner.rpf"));
    assert!(a.nested_archives_end(&d));
    let out = a.extract_all(&d);
    assert_eq!(out.len(), 2);
    match &out[0] {
        RpfPayload::File { name, bytes, .. } => {
            assert_eq!(name, "car.yft");
            assert_eq!(bytes, &b"hello".to_vec());
        }
        _ => panic!("expected the inner binary file"),
    }
    assert!(matches!(&out[1], RpfPayload::Resource { name, .. } if name == "x.ytd"));
}

#[test]
fn archive_holding_itself_never_ends() {
    let mut d: Vec<u8> = Vec::new();
    d.extend_from_slice(&le(0x52504637));
    d.extend_from_slice(&le(1));
    d.extend_from_slice(&le(16));
    d.extend_from_slice(&le(0));
    d.extend_from_slice(&[1, 0, 48, 0, 0, 0, 0, 0]);
    d.extend_from_slice(&le(48));
    d.extend_from_slice(&le(0));
    let mut names = b"\0self.rpf\0".to_vec();
    names.resize(16, 0);
    d.extend_from_slice(&names);
    assert_eq!(d.len(), 48);
    let a = RpfArchive::parse_from_bytes(&d, "self.rpf", 0).ok().unwrap();
    assert!(a.spans_in_range());
    assert!(!a.nested_archives_end(&d));
    assert!(a.extract_checked(&d).is_none());
    assert_eq!(a.stored_payloads(&d).len(), 1);
}

#[test]
fn checked_extraction_matches_extract_all() {
    let d = sample_archive();
    let a = RpfArchive::parse_from_bytes(&d, "a.rpf", 0).ok().unwrap();
    let out = a.extract_checked(&d).unwrap();
    assert_eq!(out.len(), 2);
    match &out[0] {
        RpfPayload::File { name, bytes, .. } => {
            assert_eq!(name, "car.yft");
            assert_eq!(bytes, &b"hello".to_vec());
        }
        _ => panic!("expected a binary file"),
    }
    let mut far = RpfArchive::parse_from_bytes(&d, "a.rpf", 0).ok().unwrap();
    far.start_pos = u64::MAX - 100;
    assert!(!far.spans_in_range());
    assert!(far.extract_checked(&d).is_none());
}

#[test]
fn resource_files_are_header_then_body() {
    assert_eq!(resource_bytes(&[1, 2], &[3, 4, 5]), vec![1u8, 2, 3, 4, 5]);
    assert_eq!(resource_bytes(&[], &[]), Vec::<u8>::new());
}

#[test]
fn encryption_words() {
    assert_eq!(RpfEncryption::from_u32(0), RpfEncryption::Unencrypted);
    assert_eq!(RpfEncryption::from_u32(0x4E45504F), RpfEncryption::Open);
    assert_eq!(RpfEncryption::from_u32(0x0FFFFFF9), RpfEncryption::Aes);
    assert_eq!(RpfEncryption::from_u32(0x0FEFFFFF), RpfEncryption::Ng);
    assert_eq!(RpfEncryption::from_u32(123), RpfEncryption::Ng);
}

#[test]
fn nested_magic_scan() {
    let mut d = vec![0u8; 1200];
    d[0..4].copy_from_slice(&le(0x52504637));
    d[100..104].copy_from_slice(&le(0x52504637));
    d[600..604].copy_from_slice(&le(0x52504637));
    assert_eq!(find_nested_rpfs(&d, 0), vec![0, 600]);
    assert_eq!(find_nested_rpfs(&d, 4), vec![100]);
    assert_eq!(find_nested_rpfs(&d, 1200), Vec::<usize>::new());
    assert_eq!(find_nested_rpfs(&[], 0), Vec::<usize>::new());
}

#[test]
fn small_readers() {
    assert_eq!(read_u32(&[1, 2, 3, 4, 5], 1), 0x05040302);
    assert!(name_lower_is_ysc("Script.YSC"));
    assert!(!name_lower_is_ysc("script.ysc.bak"));
    assert_eq!(to_lowercase("ÄB.YFT"), "äb.yft");
    assert_eq!(
        resource_header(0x90000000, 0x12345678),
        vec![0x52u8, 0x53, 0x43, 0x37, 9, 0, 0, 0, 0, 0, 0, 0x90, 0x78, 0x56, 0x34, 0x12]
    );
}

#[test]
fn undecodable_names_are_replaced() {
    let mut d: Vec<u8> = Vec::new();
    d.extend_from_slice(&le(0x52504637));
    d.extend_from_slice(&le(1));
    d.extend_from_slice(&le(8));
    d.extend_from_slice(&le(0));
    d.extend_from_slice(&[0, 0, 0, 0, 0, 0, 0, 0]);
    d.extend_from_slice(&le(0));
    d.extend_from_slice(&le(0));
    d.extend_from_slice(&[0xFF, b'A', b'.', b'Y', b'F', b'T', 0, 0]);
    let a = RpfArchive::parse_from_bytes(&d, "a.rpf", 0).ok().unwrap();
    assert_eq!(a.entries[0].name, "\u{FFFD}A.YFT");
    assert_eq!(a.entries[0].name_lower, "\u{FFFD}a.yft");
}

#[test]
fn name_offset_past_the_table_gives_an_empty_name() {
    let mut d: Vec<u8> = Vec::new();
    d.extend_from_slice(&le(0x52504637));
    d.extend_from_slice(&le(1));
    d.extend_from_slice(&le(0));
    d.extend_from_slice(&le(0x0FEFFFFF));
    d.extend_from_slice(&[50, 0, 0, 0, 0, 0, 0, 0]);
    d.extend_from_slice(&le(0));
    d.extend_from_slice(&le(1));
    let a = RpfArchive::parse_from_bytes(&d, "a.rpf", 0).ok().unwrap();
    assert_eq!(a.encryption, RpfEncryption::Ng);
    assert_eq!(a.entries[0].name, "");
    assert_eq!(
        a.entries[0].kind,
        RpfEntryKind::BinaryFile { file_offset: 0, file_size: 0, uncompressed_size: 0, is_encrypted: true }
    );
}
