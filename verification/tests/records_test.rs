use oifs::inode::{FileType, Inode};
use oifs::superblock::{SuperBlock, OIFS_MAGIC};

#[test]
fn new_inode_is_empty() {
    let i = Inode::new(FileType::File);
    assert_eq!(i.mode, FileType::File);
    assert_eq!(i.size, 0);
    assert_eq!(i.compressed_size, 0);
    assert_eq!(i.blocks, [0u64; 12]);
    assert!(!i.encrypted);
}

#[test]
fn inode_record_round_trip() {
    let mut i = Inode::new(FileType::Directory);
    i.size = 123;
    i.modified_at = 1672531200;
    i.blocks[3] = 1030;
    i.encrypted = true;
    i.encryption_nonce[5] = 9;
    let bytes = i.to_bytes();
    assert_eq!(bytes.len(), 157);
    assert_eq!(&bytes[0..4], &1u32.to_le_bytes());
    let back = Inode::from_bytes(&bytes).unwrap();
    assert_eq!(back.mode, FileType::Directory);
    assert_eq!(back.size, 123);
    assert_eq!(back.modified_at, 1672531200);
    assert_eq!(back.blocks[3], 1030);
    assert!(back.encrypted);
    assert_eq!(back.encryption_nonce[5], 9);
}

#[test]
fn inode_record_with_bad_type_is_refused() {
    let mut bytes = Inode::new(FileType::File).to_bytes();
    bytes[0] = 2;
    assert!(Inode::from_bytes(&bytes).is_none());
    let mut bytes = Inode::new(FileType::File).to_bytes();
    bytes[132] = 2;
    assert!(Inode::from_bytes(&bytes).is_none());
    assert!(Inode::from_bytes(&[0u8; 100]).is_none());
}

#[test]
fn superblock_layout() {
    let sb = SuperBlock::new(2560);
    assert_eq!(sb.magic, OIFS_MAGIC);
    assert_eq!(sb.magic, 0x4F494653);
    assert_eq!(sb.block_size, 4096);
    assert_eq!(sb.block_count, 2560);
    assert_eq!(sb.inode_bitmap_block, 1);
    assert_eq!(sb.data_bitmap_block, 2);
    assert_eq!(sb.inode_table_block, 3);
    assert_eq!(sb.inode_count, 32768);
    assert_eq!(sb.data_block_start, 1027);
    assert_eq!(sb.root_inode, 0);
}

#[test]
fn superblock_record_round_trip() {
    let mut sb = SuperBlock::new(77);
    sb.encrypted = true;
    sb.encryption_salt = [3u8; 16];
    sb.encryption_version = 1;
    let bytes = sb.to_bytes();
    assert_eq!(bytes.len(), 85);
    let back = SuperBlock::from_bytes(&bytes).unwrap();
    assert_eq!(back.block_count, 77);
    assert!(back.encrypted);
    assert_eq!(back.encryption_salt, [3u8; 16]);
    assert_eq!(back.encryption_version, 1);
    assert_eq!(back.data_block_start, 1027);
}
