use oifs::directory::{DirectoryEntry, DirectoryError, DirectoryIterator, IoFault};

fn entry(inode: u64, hash: u64, name: &str) -> DirectoryEntry {
    DirectoryEntry { inode, hash, name: name.to_string() }
}

#[test]
fn entry_round_trip() {
    let e = entry(7, 99, "hello.txt");
    let mut buf = Vec::new();
    e.serialize_into(&mut buf).unwrap();
    assert_eq!(buf.len(), 18 + 9);
    assert_eq!(&buf[0..8], &7u64.to_le_bytes());
    assert_eq!(&buf[16..18], &9u16.to_le_bytes());
    let mut pos = 0usize;
    let back = DirectoryEntry::deserialize_from(&buf, &mut pos).unwrap().unwrap();
    assert_eq!(back, e);
    assert_eq!(pos, buf.len());
}

#[test]
fn entry_with_slash_is_refused() {
    let mut buf = Vec::new();
    assert_eq!(
        entry(1, 0, "a/b").serialize_into(&mut buf),
        Err(DirectoryError::Io(IoFault::InvalidInput))
    );
    assert!(buf.is_empty());
}

#[test]
fn entry_too_long_is_refused() {
    let mut buf = Vec::new();
    let long = "a".repeat(256);
    assert_eq!(entry(1, 0, &long).serialize_into(&mut buf), Err(DirectoryError::EntryTooLarge));
    let ok = "a".repeat(255);
    assert!(entry(1, 0, &ok).serialize_into(&mut buf).is_ok());
}

#[test]
fn short_header_ends_the_list() {
    let data = [0u8; 10];
    let mut pos = 0usize;
    assert_eq!(DirectoryEntry::deserialize_from(&data, &mut pos), Ok(None));
    assert_eq!(pos, 10);
}

#[test]
fn zero_length_name_ends_the_list() {
    let data = [0u8; 40];
    let mut pos = 0usize;
    assert_eq!(DirectoryEntry::deserialize_from(&data, &mut pos), Ok(None));
    assert_eq!(pos, 18);
}

#[test]
fn truncated_name_is_an_error() {
    let mut buf = Vec::new();
    entry(3, 0, "abcdef").serialize_into(&mut buf).unwrap();
    buf.truncate(20);
    let mut pos = 0usize;
    assert_eq!(
        DirectoryEntry::deserialize_from(&buf, &mut pos),
        Err(DirectoryError::Io(IoFault::UnexpectedEof))
    );
    assert_eq!(pos, 20);
}

#[test]
fn invalid_utf8_name_is_an_error() {
    let mut buf = Vec::new();
    buf.extend_from_slice(&1u64.to_le_bytes());
    buf.extend_from_slice(&0u64.to_le_bytes());
    buf.extend_from_slice(&2u16.to_le_bytes());
    buf.extend_from_slice(&[0xFF, 0xFE]);
    let mut pos = 0usize;
    assert_eq!(DirectoryEntry::deserialize_from(&buf, &mut pos), Err(DirectoryError::Utf8Error));
    assert_eq!(pos, 20);
}

#[test]
fn iterator_walks_records_in_order() {
    let mut buf = Vec::new();
    entry(1, 0, "one").serialize_into(&mut buf).unwrap();
    entry(2, 5, "two").serialize_into(&mut buf).unwrap();
    buf.resize(4096, 0);
    let mut it = DirectoryIterator::new(&buf);
    assert_eq!(it.next(), Some(Ok(entry(1, 0, "one"))));
    assert_eq!(it.next(), Some(Ok(entry(2, 5, "two"))));
    assert_eq!(it.next(), None);
}

#[test]
fn unicode_names_round_trip() {
    let e = entry(5, 1, "檔案.txt");
    let mut buf = Vec::new();
    e.serialize_into(&mut buf).unwrap();
    let mut pos = 0usize;
    assert_eq!(DirectoryEntry::deserialize_from(&buf, &mut pos), Ok(Some(e)));
}

#[test]
fn serialized_records_then_zeros_read_back_exactly() {
    let entries = vec![entry(3, 0, "a"), entry(9, 1, "é.txt"), entry(12, 7, "dir")];
    let mut buf = Vec::new();
    for e in &entries {
        e.serialize_into(&mut buf).unwrap();
    }
    let records = buf.len();
    buf.extend_from_slice(&[0u8; 37]);
    let mut it = DirectoryIterator::new(&buf);
    for e in &entries {
        assert_eq!(it.next(), Some(Ok(e.clone())));
    }
    assert_eq!(it.next(), None);
    assert_eq!(records, 3 * 18 + 1 + 6 + 3);
    assert_eq!(oifs::directory::block_entries(&buf), entries);
}
