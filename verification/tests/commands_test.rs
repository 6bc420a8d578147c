use oifs::commands::{
    append_to_file, appended, compression_for_flags, make_directory, parse_defrag_mode, put_file,
    write_file, CommandError,
};
use oifs::disk::{CompressionMode, DefragMode, DiskManager, DiskManagerError, FsFault};
use oifs::inode::FileType;
use oifs::listing::{child_path, list_directory, list_directory_strict, list_tree, ListError};

fn fresh() -> DiskManager {
    DiskManager::format(10 * 1024 * 1024).expect("format")
}

#[test]
fn flags_pick_the_compression() {
    assert_eq!(compression_for_flags(true, true), CompressionMode::Always);
    assert_eq!(compression_for_flags(true, false), CompressionMode::Always);
    assert_eq!(compression_for_flags(false, true), CompressionMode::Never);
    assert_eq!(compression_for_flags(false, false), CompressionMode::Auto);
}

#[test]
fn defrag_modes_are_read_in_any_case() {
    assert_eq!(parse_defrag_mode("safe"), Some(DefragMode::Safe));
    assert_eq!(parse_defrag_mode("SaFe"), Some(DefragMode::Safe));
    assert_eq!(parse_defrag_mode("INPLACE"), Some(DefragMode::InPlace));
    assert_eq!(parse_defrag_mode("in-place"), None);
    assert_eq!(parse_defrag_mode(""), None);
}

#[test]
fn appending_adds_a_newline_when_missing() {
    assert_eq!(appended(b"a".to_vec(), "b", true), b"ab\n".to_vec());
    assert_eq!(appended(b"a".to_vec(), "b\n", true), b"ab\n".to_vec());
    assert_eq!(appended(b"a".to_vec(), "b", false), b"ab".to_vec());
    assert_eq!(appended(Vec::new(), "", true), b"\n".to_vec());
}

#[test]
fn child_paths_join_under_the_root_and_below() {
    assert_eq!(child_path("", "a"), "a");
    assert_eq!(child_path(".", "a"), "a");
    assert_eq!(child_path("docs", "a"), "docs/a");
    assert_eq!(child_path("./x", "a"), "./x/a");
}

#[test]
fn put_refuses_a_taken_name() {
    let mut dm = fresh();
    let id = put_file(&mut dm, "notes.txt", b"first", CompressionMode::Auto).unwrap();
    assert_eq!(dm.read_data(id).unwrap(), b"first".to_vec());
    assert_eq!(
        put_file(&mut dm, "notes.txt", b"second", CompressionMode::Auto),
        Err(CommandError::AlreadyExists)
    );
    assert_eq!(dm.read_data(id).unwrap(), b"first".to_vec());
    assert_eq!(
        put_file(&mut dm, "", b"x", CompressionMode::Auto),
        Err(CommandError::Fs(DiskManagerError::Io(FsFault::EmptyPath)))
    );
    assert_eq!(
        put_file(&mut dm, "missing/x", b"x", CompressionMode::Auto),
        Err(CommandError::Fs(DiskManagerError::Io(FsFault::NotFound)))
    );
}

#[test]
fn mkdir_then_put_inside() {
    let mut dm = fresh();
    let d = make_directory(&mut dm, "docs").unwrap();
    assert_eq!(make_directory(&mut dm, "docs"), Err(CommandError::AlreadyExists));
    let f = put_file(&mut dm, "docs/readme.md", b"# hi", CompressionMode::Never).unwrap();
    assert_eq!(dm.resolve_path("docs/readme.md"), Ok(f));
    assert_eq!(dm.lookup(d, "readme.md"), Ok(f));
}

#[test]
fn append_creates_then_extends() {
    let mut dm = fresh();
    let (id, total) = append_to_file(&mut dm, "log.jsonl", "{\"a\":1}", true, CompressionMode::Auto).unwrap();
    assert_eq!(total, 8);
    let (id2, total2) = append_to_file(&mut dm, "log.jsonl", "{\"b\":2}\n", true, CompressionMode::Never).unwrap();
    assert_eq!(id, id2);
    assert_eq!(total2, 16);
    assert_eq!(dm.read_data(id).unwrap(), b"{\"a\":1}\n{\"b\":2}\n".to_vec());
    let (_, total3) = append_to_file(&mut dm, "log.jsonl", "x", false, CompressionMode::Auto).unwrap();
    assert_eq!(total3, 17);
}

#[test]
fn listing_one_level_and_a_tree() {
    let mut dm = fresh();
    make_directory(&mut dm, "a").unwrap();
    put_file(&mut dm, "a/one", b"1", CompressionMode::Never).unwrap();
    make_directory(&mut dm, "a/b").unwrap();
    put_file(&mut dm, "a/b/two", b"22", CompressionMode::Never).unwrap();
    put_file(&mut dm, "top", b"333", CompressionMode::Never).unwrap();

    let root = list_directory(&dm, 0).unwrap();
    let names: Vec<&str> = root.iter().map(|e| e.name.as_str()).collect();
    assert_eq!(names, vec!["a", "top"]);
    assert_eq!(root[1].inode.as_ref().unwrap().size, 3);

    let flat = list_tree(&dm, 0, "", false, 100).unwrap();
    let flat_names: Vec<&str> = flat.iter().map(|(p, _)| p.as_str()).collect();
    assert_eq!(flat_names, vec!["a", "top"]);

    let tree = list_tree(&dm, 0, ".", true, 100).unwrap();
    let paths: Vec<&str> = tree.iter().map(|(p, _)| p.as_str()).collect();
    assert_eq!(paths, vec!["a", "a/one", "a/b", "a/b/two", "top"]);
    assert_eq!(tree[2].1.mode, FileType::Directory);
    assert_eq!(tree[3].1.size, 2);

    // A depth of 0 lists the first level only
    let shallow = list_tree(&dm, 0, "", true, 0).unwrap();
    assert_eq!(shallow.len(), 2);

    // A file lists nothing under it
    let f = dm.resolve_path("top").unwrap();
    assert!(list_directory(&dm, f).unwrap().is_empty());
    assert_eq!(
        list_directory(&dm, 1 << 40).err(),
        Some(DiskManagerError::Io(FsFault::OutOfBounds))
    );
}

#[test]
fn write_file_creates_then_overwrites() {
    let mut dm = fresh();
    let id = write_file(&mut dm, "memo.txt", b"one two three", CompressionMode::Auto).unwrap();
    assert_eq!(dm.read_data(id).unwrap(), b"one two three".to_vec());
    let again = write_file(&mut dm, "memo.txt", b"four", CompressionMode::Auto).unwrap();
    assert_eq!(again, id);
    // A shorter write keeps the size of the longer contents
    assert_eq!(dm.read_data(id).unwrap(), b"fourtwo three".to_vec());
    assert_eq!(
        write_file(&mut dm, "nowhere/memo.txt", b"x", CompressionMode::Auto),
        Err(CommandError::Fs(DiskManagerError::Io(FsFault::NotFound)))
    );
}

#[test]
fn strict_listing_reports_what_stops_it() {
    let mut dm = fresh();
    make_directory(&mut dm, "d").unwrap();
    let f = put_file(&mut dm, "d/f", b"abc", CompressionMode::Never).unwrap();
    let d = dm.resolve_path("d").unwrap();
    let root = list_directory_strict(&dm, 0).unwrap();
    assert_eq!(root.len(), 1);
    assert_eq!(root[0].0, "d");
    let inner = list_directory_strict(&dm, d).unwrap();
    assert_eq!(inner[0].0, "f");
    assert_eq!(inner[0].1.size, 3);
    assert_eq!(list_directory_strict(&dm, f).err(), Some(ListError::NotDirectory));
}
