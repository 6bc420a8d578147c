use oifs::directory::DirectoryIterator;
use oifs::disk::{CompressionMode, DiskManager, DiskManagerError, FsFault};
use oifs::inode::FileType;
use oifs::superblock::SuperBlock;

const TEN_MB: u64 = 10 * 1024 * 1024;

fn fresh() -> DiskManager {
    DiskManager::format(TEN_MB).expect("format")
}

fn reopen(dm: &DiskManager) -> DiskManager {
    DiskManager::from_image(dm.image().clone(), None).expect("reopen")
}

#[test]
fn test_disk_initialization_and_persistence() {
    let dm = fresh();
    assert_eq!(dm.superblock().magic, SuperBlock::new(0).magic);
    assert_eq!(dm.image().len() as u64, TEN_MB);
    let again = reopen(&dm);
    assert_eq!(again.superblock().magic, 0x4F494653);
    assert_eq!(again.superblock().block_count, 2560);
}

#[test]
fn root_is_an_empty_directory() {
    let dm = fresh();
    let root = dm.resolve_path(".").unwrap();
    assert_eq!(root, 0);
    let inode = dm.read_inode(root).unwrap();
    assert_eq!(inode.mode, FileType::Directory);
    assert_eq!(inode.blocks[0], 1027);
    assert_eq!(
        dm.lookup(root, "missing"),
        Err(DiskManagerError::Io(FsFault::NotFound))
    );
}

#[test]
fn test_flush_persistence() {
    let mut dm = fresh();
    let root = dm.resolve_path(".").unwrap();
    let file_id = dm.create_file(root, "important.txt").expect("Create failed");
    dm.write_data(file_id, 0, b"Critical Data", CompressionMode::Auto).expect("Write failed");

    let dm = reopen(&dm);
    let root = dm.resolve_path(".").unwrap();
    let file_id = dm.lookup(root, "important.txt").expect("File lost");
    let data = dm.read_data(file_id).expect("Read failed");
    assert_eq!(data, b"Critical Data", "Data mismatch after flush/reopen");
}

#[test]
fn create_then_lookup_finds_the_file() {
    let mut dm = fresh();
    let a = dm.create_file(0, "a.txt").unwrap();
    let b = dm.create_file(0, "b.txt").unwrap();
    assert_eq!((a, b), (1, 2));
    assert_eq!(dm.lookup(0, "a.txt"), Ok(1));
    assert_eq!(dm.lookup(0, "b.txt"), Ok(2));
    let inode = dm.read_inode(a).unwrap();
    assert_eq!(inode.mode, FileType::File);
    assert_eq!(inode.size, 0);
    assert!(inode.modified_at > 0);
}

#[test]
fn nested_directories_resolve() {
    let mut dm = fresh();
    let a = dm.create_directory(0, "a").unwrap();
    let b = dm.create_directory(a, "b").unwrap();
    let (parent, name) = dm.resolve_parent("a/b/file.txt").unwrap();
    assert_eq!(parent, b);
    assert_eq!(name, "file.txt");
    let f = dm.create_file(parent, &name).unwrap();
    dm.write_data(f, 0, b"Hello Nested World!", CompressionMode::Auto).unwrap();
    assert_eq!(dm.resolve_path("a/b/file.txt"), Ok(f));
    assert_eq!(dm.resolve_path("./a//b/./file.txt"), Ok(f));
    assert_eq!(dm.read_data(dm.resolve_path("a/b/file.txt").unwrap()).unwrap(), b"Hello Nested World!");
    assert_eq!(dm.resolve_path("a/missing"), Err(DiskManagerError::Io(FsFault::NotFound)));
    assert_eq!(dm.resolve_path("a/b/file.txt/x"), Err(DiskManagerError::Io(FsFault::NotDirectory)));
}

#[test]
fn resolve_parent_of_empty_path_is_refused() {
    let dm = fresh();
    assert_eq!(dm.resolve_parent(""), Err(DiskManagerError::Io(FsFault::EmptyPath)));
    assert_eq!(dm.resolve_parent("./"), Err(DiskManagerError::Io(FsFault::EmptyPath)));
    assert_eq!(dm.resolve_parent("top.txt"), Ok((0, "top.txt".to_string())));
}

#[test]
fn listing_the_root_directory() {
    let mut dm = fresh();
    dm.create_file(0, "test_ffi.txt").unwrap();
    dm.create_directory(0, "my_dir").unwrap();
    let root = dm.read_inode(0).unwrap();
    let block = dm.get_block_copy(root.blocks[0]).unwrap();
    let mut it = DirectoryIterator::new(&block);
    let mut names = Vec::new();
    while let Some(entry) = it.next() {
        names.push(entry.unwrap().name);
    }
    assert_eq!(names, vec!["test_ffi.txt".to_string(), "my_dir".to_string()]);
}

#[test]
fn delete_then_lookup_fails() {
    let mut dm = fresh();
    let f = dm.create_file(0, "todelete.txt").unwrap();
    dm.create_file(0, "keep.txt").unwrap();
    dm.write_data(f, 0, &vec![7u8; 5000], CompressionMode::Never).unwrap();
    let used_before = dm.analyze_fragmentation().unwrap().used_blocks;
    dm.delete_file(0, "todelete.txt").unwrap();
    assert_eq!(dm.lookup(0, "todelete.txt"), Err(DiskManagerError::Io(FsFault::NotFound)));
    assert_eq!(dm.lookup(0, "keep.txt"), Ok(2));
    assert_eq!(dm.analyze_fragmentation().unwrap().used_blocks, used_before - 2);
    // Double delete fails
    assert_eq!(dm.delete_file(0, "todelete.txt"), Err(DiskManagerError::Io(FsFault::NotFound)));
    // The freed inode is handed out again
    assert_eq!(dm.create_file(0, "again.txt"), Ok(f));
}

#[test]
fn write_read_round_trip_raw() {
    let mut dm = fresh();
    let f = dm.create_file(0, "raw.bin").unwrap();
    let data: Vec<u8> = (0..10000u32).map(|x| (x % 251) as u8).collect();
    dm.write_data(f, 0, &data, CompressionMode::Never).unwrap();
    assert_eq!(dm.read_data(f).unwrap(), data);
    let inode = dm.read_inode(f).unwrap();
    assert_eq!(inode.size, 10000);
    assert_eq!(inode.compressed_size, 0);
    assert_eq!(inode.blocks[2], 1030);
}

#[test]
fn writes_at_offsets_extend_the_file() {
    let mut dm = fresh();
    let f = dm.create_file(0, "thread_file_0.txt").unwrap();
    let mut expected = Vec::new();
    let mut offset = 0u64;
    for iter in 0..10u8 {
        let chunk = vec![iter; 4096];
        dm.write_data(f, offset, &chunk, CompressionMode::Never).unwrap();
        offset += 4096;
        expected.extend_from_slice(&chunk);
    }
    assert_eq!(dm.read_data(f).unwrap(), expected);
}

#[test]
fn shorter_rewrite_keeps_the_old_tail() {
    let mut dm = fresh();
    let f = dm.create_file(0, "t").unwrap();
    dm.write_data(f, 0, b"Longer", CompressionMode::Never).unwrap();
    dm.write_data(f, 0, b"Short", CompressionMode::Never).unwrap();
    assert_eq!(dm.read_data(f).unwrap(), b"Shortr");
}

#[test]
fn files_are_limited_to_twelve_blocks() {
    let mut dm = fresh();
    let f = dm.create_file(0, "big").unwrap();
    let data = vec![1u8; 12 * 4096];
    dm.write_data(f, 0, &data, CompressionMode::Never).unwrap();
    assert_eq!(
        dm.write_data(f, 12 * 4096, b"x", CompressionMode::Never),
        Err(DiskManagerError::Io(FsFault::FileTooLarge))
    );
}

#[test]
fn compressed_write_round_trips() {
    let mut dm = fresh();
    let f = dm.create_file(0, "compressible.txt").unwrap();
    let data = vec![b'A'; 10 * 1024];
    dm.write_data(f, 0, &data, CompressionMode::Auto).unwrap();
    let inode = dm.read_inode(f).unwrap();
    assert!(inode.compressed_size > 0);
    assert!(inode.compressed_size < data.len() as u64);
    assert_eq!(inode.size, data.len() as u64);
    assert_eq!(dm.read_data(f).unwrap(), data);
    // Writing into a compressed file in part is refused
    assert_eq!(
        dm.write_data(f, 10, b"x", CompressionMode::Auto),
        Err(DiskManagerError::Io(FsFault::CompressedAppend))
    );
}

#[test]
fn small_auto_write_is_not_compressed() {
    let mut dm = fresh();
    let f = dm.create_file(0, "small").unwrap();
    dm.write_data(f, 0, b"hello", CompressionMode::Auto).unwrap();
    assert_eq!(dm.read_inode(f).unwrap().compressed_size, 0);
    let g = dm.create_file(0, "always").unwrap();
    dm.write_data(g, 0, b"hello", CompressionMode::Always).unwrap();
    assert!(dm.read_inode(g).unwrap().compressed_size > 0);
    assert_eq!(dm.read_data(g).unwrap(), b"hello");
}

#[test]
fn long_and_bad_names_are_refused() {
    let mut dm = fresh();
    let long = "a".repeat(256);
    assert!(matches!(
        dm.create_file(0, &long),
        Err(DiskManagerError::Io(FsFault::BadName(_)))
    ));
    assert!(matches!(
        dm.create_file(0, "x/y"),
        Err(DiskManagerError::Io(FsFault::BadName(_)))
    ));
    assert!(dm.lookup(0, &long).is_err());
}

#[test]
fn creating_in_a_file_is_refused() {
    let mut dm = fresh();
    let f = dm.create_file(0, "plain").unwrap();
    assert_eq!(dm.create_file(f, "x"), Err(DiskManagerError::Io(FsFault::NotDirectory)));
    assert_eq!(dm.lookup(f, "x"), Err(DiskManagerError::Io(FsFault::NotDirectory)));
}

#[test]
fn fragmentation_of_a_fresh_image() {
    let mut dm = fresh();
    let stats = dm.analyze_fragmentation().unwrap();
    assert_eq!(stats.total_blocks, 2560 - 1027);
    assert_eq!(stats.used_blocks, 1);
    assert_eq!(stats.free_blocks, 1532);
    assert_eq!(stats.free_runs, 1);
    assert_eq!(stats.largest_free_run, 1532);
    // Two files, the first deleted: a gap of one block before the second
    let a = dm.create_file(0, "a").unwrap();
    dm.write_data(a, 0, b"1", CompressionMode::Never).unwrap();
    let b = dm.create_file(0, "b").unwrap();
    dm.write_data(b, 0, b"2", CompressionMode::Never).unwrap();
    dm.delete_file(0, "a").unwrap();
    let stats = dm.analyze_fragmentation().unwrap();
    assert_eq!(stats.used_blocks, 2);
    assert_eq!(stats.free_runs, 2);
    assert_eq!(stats.largest_free_run, 1530);
    assert_eq!(stats.total_gap_size, 1531);
}

#[test]
fn opening_bad_images_is_refused() {
    assert!(matches!(DiskManager::from_image(vec![0u8; 100], None), Err(DiskManagerError::FileTooSmall)));
    assert!(matches!(DiskManager::from_image(vec![0u8; 8192], None), Err(DiskManagerError::InvalidMagic)));
    let mut img = vec![0u8; 8192];
    img[64] = 7;
    assert!(matches!(DiskManager::from_image(img, None), Err(DiskManagerError::Serialization)));
    assert!(matches!(DiskManager::format(10), Err(DiskManagerError::FileTooSmall)));
    assert!(matches!(DiskManager::format(4096), Err(DiskManagerError::Io(FsFault::Layout))));
}

#[test]
fn reading_past_the_inode_table_is_out_of_bounds() {
    let mut dm = fresh();
    assert!(matches!(dm.read_inode(u64::MAX), Err(DiskManagerError::Io(FsFault::OutOfBounds))));
    let i = dm.read_inode(0).unwrap();
    assert!(matches!(dm.write_inode(1 << 40, &i), Err(DiskManagerError::Io(FsFault::OutOfBounds))));
    assert!(dm.get_block_copy(2560).is_none());
    assert!(dm.get_block_copy(2559).is_some());
}

#[test]
fn full_inode_bitmap_reports_no_space() {
    let mut dm = fresh();
    let mut img = dm.image().clone();
    for b in &mut img[4096..8192] {
        *b = 0xFF;
    }
    dm = DiskManager::from_image(img, None).unwrap();
    assert_eq!(
        dm.create_file(0, "x"),
        Err(DiskManagerError::Allocator(oifs::allocator::AllocatorError::NoSpace))
    );
}

#[test]
fn corrupt_directory_is_reported() {
    let dm = fresh();
    let mut img = dm.image().clone();
    let dir = 1027 * 4096;
    img[dir + 16] = 200; // a name running past the block's end is fine, 200 bytes fit
    img[dir + 17] = 0xFF; // but 0xFFC8 bytes do not
    let dm = DiskManager::from_image(img, None).unwrap();
    assert_eq!(dm.lookup(0, "x"), Err(DiskManagerError::Io(FsFault::Corrupt)));
    assert_eq!(dm.resolve_path("x"), Err(DiskManagerError::Io(FsFault::NotFound)));
}

#[test]
fn relayout_packs_directories_and_files_together() {
    let mut dm = fresh();
    let gap = dm.create_file(0, "gap.bin").unwrap();
    dm.write_data(gap, 0, &vec![9u8; 3 * 4096], CompressionMode::Never).unwrap();
    let a = dm.create_file(0, "a.txt").unwrap();
    let b = dm.create_file(0, "b.bin").unwrap();
    let d = dm.create_directory(0, "sub").unwrap();
    let inner = dm.create_file(d, "inner").unwrap();
    let text = b"hello relayout".to_vec();
    let bulk: Vec<u8> = (0..9000u32).map(|x| (x % 7) as u8).collect();
    let plain: Vec<u8> = (0..6000u32).map(|x| (x % 251) as u8).collect();
    dm.write_data(a, 0, &text, CompressionMode::Never).unwrap();
    dm.write_data(b, 0, &bulk, CompressionMode::Always).unwrap();
    dm.write_data(inner, 0, &plain, CompressionMode::Never).unwrap();
    dm.delete_file(0, "gap.bin").unwrap();
    // Deleting left a gap of three blocks after the root directory's block
    assert!(dm.analyze_fragmentation().unwrap().free_runs > 1);

    let counts = dm.relayout().unwrap();
    assert_eq!(counts.files_processed, 3);
    assert_eq!(counts.bytes_moved, (text.len() + bulk.len() + plain.len()) as u64);

    // Everything reads as before
    assert_eq!(dm.read_data(a).unwrap(), text);
    assert_eq!(dm.read_data(b).unwrap(), bulk);
    assert_eq!(dm.read_data(inner).unwrap(), plain);
    assert_eq!(dm.lookup(0, "sub"), Ok(d));
    assert_eq!(dm.resolve_path("sub/inner"), Ok(inner));
    assert_eq!(dm.lookup(0, "gap.bin"), Err(DiskManagerError::Io(FsFault::NotFound)));

    // Blocks are handed out again from the start, in inode order, each file's
    // blocks one after the other
    assert_eq!(dm.read_inode(0).unwrap().blocks[0], 1027);
    assert_eq!(dm.read_inode(a).unwrap().blocks[0], 1028);
    let bb = dm.read_inode(b).unwrap().blocks;
    assert_eq!(bb[0], 1029);
    assert_eq!(dm.read_inode(d).unwrap().blocks[0], 1030);
    let ib = dm.read_inode(inner).unwrap().blocks;
    assert_eq!((ib[0], ib[1], ib[2]), (1031, 1032, 0));
    // The bitmap marks exactly the blocks in use: one run of used blocks
    let stats = dm.analyze_fragmentation().unwrap();
    assert_eq!(stats.used_blocks, 6);
    assert_eq!(stats.free_runs, 1);
}

#[test]
fn relayout_of_a_fresh_image_moves_nothing() {
    let mut dm = fresh();
    let counts = dm.relayout().unwrap();
    assert_eq!(counts.files_processed, 0);
    assert_eq!(counts.bytes_moved, 0);
    assert_eq!(dm.lookup(0, "anything"), Err(DiskManagerError::Io(FsFault::NotFound)));
}

#[test]
fn creating_a_taken_name_is_refused() {
    let mut dm = fresh();
    let a = dm.create_file(0, "same").unwrap();
    assert_eq!(dm.create_file(0, "same"), Err(DiskManagerError::Io(FsFault::AlreadyExists)));
    assert_eq!(dm.create_directory(0, "same"), Err(DiskManagerError::Io(FsFault::AlreadyExists)));
    assert_eq!(dm.lookup(0, "same"), Ok(a));
    // Nothing was allocated by the refused calls
    assert_eq!(dm.create_file(0, "other"), Ok(a + 1));
}

#[test]
fn raw_rewrite_of_a_compressed_file_stores_it_raw() {
    let mut dm = fresh();
    let f = dm.create_file(0, "c.txt").unwrap();
    let packed = vec![b'B'; 9000];
    dm.write_data(f, 0, &packed, CompressionMode::Always).unwrap();
    assert!(dm.read_inode(f).unwrap().compressed_size > 0);
    let plain: Vec<u8> = (0..9500u32).map(|x| (x % 13) as u8).collect();
    dm.write_data(f, 0, &plain, CompressionMode::Never).unwrap();
    let inode = dm.read_inode(f).unwrap();
    assert_eq!(inode.compressed_size, 0);
    assert_eq!(inode.size, 9500);
    assert_eq!(dm.read_data(f).unwrap(), plain);
}

#[test]
fn auto_write_that_zstd_does_not_shrink_clears_the_compressed_size() {
    let mut dm = fresh();
    let f = dm.create_file(0, "c.bin").unwrap();
    dm.write_data(f, 0, &vec![0u8; 9000], CompressionMode::Always).unwrap();
    // Bytes that zstd cannot shrink
    let mut x: u32 = 12345;
    let noisy: Vec<u8> = (0..9000)
        .map(|_| {
            x = x.wrapping_mul(1103515245).wrapping_add(12345);
            (x >> 16) as u8
        })
        .collect();
    dm.write_data(f, 0, &noisy, CompressionMode::Auto).unwrap();
    assert_eq!(dm.read_inode(f).unwrap().compressed_size, 0);
    assert_eq!(dm.read_data(f).unwrap(), noisy);
}

#[test]
fn a_hole_reads_as_zeros() {
    let mut dm = fresh();
    let f = dm.create_file(0, "sparse").unwrap();
    dm.write_data(f, 8192, b"tail", CompressionMode::Never).unwrap();
    let data = dm.read_data(f).unwrap();
    assert_eq!(data.len(), 8196);
    assert!(data[..8192].iter().all(|b| *b == 0));
    assert_eq!(&data[8192..], b"tail");
}

#[test]
fn a_new_directory_is_empty_even_on_a_reused_block() {
    let mut dm = fresh();
    let d1 = dm.create_directory(0, "d1").unwrap();
    dm.create_file(d1, "old_entry").unwrap();
    let blk = dm.read_inode(d1).unwrap().blocks[0];
    dm.delete_file(0, "d1").unwrap();
    let d2 = dm.create_directory(0, "d2").unwrap();
    assert_eq!(dm.read_inode(d2).unwrap().blocks[0], blk);
    assert_eq!(dm.lookup(d2, "old_entry"), Err(DiskManagerError::Io(FsFault::NotFound)));
    let block = dm.get_block_copy(blk).unwrap();
    let mut it = DirectoryIterator::new(&block);
    assert!(it.next().is_none());
}

#[test]
fn a_created_inode_has_its_slot_in_the_inode_table() {
    let mut dm = fresh();
    let sb = dm.superblock();
    for k in 0..5 {
        let id = dm.create_file(0, &format!("f{}", k)).unwrap();
        assert_eq!(id, k + 1);
        assert!(sb.inode_table_block * 4096 + (id + 1) * 256 <= sb.data_block_start * 4096);
    }
    let d = dm.create_directory(0, "d").unwrap();
    assert!(sb.inode_table_block * 4096 + (d + 1) * 256 <= sb.data_block_start * 4096);
}

#[test]
fn relayout_keeps_each_inodes_mode_and_size() {
    let mut dm = fresh();
    let gap = dm.create_file(0, "gap").unwrap();
    dm.write_data(gap, 0, &vec![1u8; 2 * 4096], CompressionMode::Never).unwrap();
    let f = dm.create_file(0, "f").unwrap();
    let c = dm.create_file(0, "c").unwrap();
    let d = dm.create_directory(0, "d").unwrap();
    let data: Vec<u8> = (0..5000u32).map(|x| (x % 13) as u8).collect();
    dm.write_data(f, 0, &data, CompressionMode::Never).unwrap();
    dm.write_data(c, 0, &data, CompressionMode::Always).unwrap();
    dm.delete_file(0, "gap").unwrap();
    let before: Vec<_> = [0, f, c, d].iter().map(|&i| dm.read_inode(i).unwrap()).collect();
    dm.relayout().unwrap();
    for (k, &i) in [0, f, c, d].iter().enumerate() {
        let now = dm.read_inode(i).unwrap();
        assert_eq!(now.mode, before[k].mode);
        assert_eq!(now.size, before[k].size);
    }
    assert_eq!(dm.read_data(f).unwrap(), data);
    assert_eq!(dm.read_data(c).unwrap(), data);
    assert_eq!(dm.lookup(0, "d"), Ok(d));
    assert_eq!(dm.lookup(d, "x"), Err(DiskManagerError::Io(FsFault::NotFound)));
}

#[test]
fn paths_split_on_slashes_with_unicode_names() {
    let mut dm = fresh();
    let d = dm.create_directory(0, "über").unwrap();
    let f = dm.create_file(d, "naïve.txt").unwrap();
    assert_eq!(dm.resolve_path("/über//./naïve.txt"), Ok(f));
    assert_eq!(dm.resolve_path("über/"), Ok(d));
    assert_eq!(dm.resolve_path("über/naïve"), Err(DiskManagerError::Io(FsFault::NotFound)));
}
