//! Listing directories: one level, or a whole subtree with paths.
use crate::directory::{
    block_entries, entry_views, listed_entries, read_entries, scan_entries, DirectoryEntry, EntryView,
};
use crate::disk::{block_of, read_inode_at, DiskManager, DiskManagerError, FsView};
use crate::inode::{FileType, Inode};
use vstd::prelude::*;
use vstd::string::{StrSliceExecFns, StringExecFns};

verus! {

/// The path an entry is listed under: its bare name under the root (an empty
/// path or "."), else the directory's path, '/', and the name.
pub open spec fn path_join(dir: Seq<char>, name: Seq<char>) -> Seq<char> {
    if dir.len() == 0 || dir == seq!['.'] {
        name
    } else {
        dir + seq!['/'] + name
    }
}

/// Joins a directory's path and an entry's name as a listing shows them.
pub fn child_path(dir: &str, name: &str) -> (r: String)
    ensures
        r@ == path_join(dir@, name@),
{
    let n = dir.unicode_len();
    if n == 0 {
        return String::from_str(name);
    }
    if n == 1 && dir.get_char(0) == '.' {
        assert(dir@ =~= seq!['.']);
        return String::from_str(name);
    }
    proof {
        if dir@ == seq!['.'] {
            assert(dir@[0] == '.');
        }
    }
    let mut p = String::from_str(dir);
    p.append("/");
    p.append(name);
    proof {
        reveal_strlit("/");
        assert(p@ =~= dir@ + seq!['/'] + name@);
    }
    p
}

/// One entry of a directory: its name, its inode id, and what reading that
/// inode gives.
pub struct ListedEntry {
    pub name: String,
    pub inode_id: u64,
    pub inode: Result<Inode, DiskManagerError>,
}

/// What a listed entry stands for.
pub open spec fn listed_view(e: ListedEntry) -> (Seq<char>, u64, Result<Inode, DiskManagerError>) {
    (e.name@, e.inode_id, e.inode)
}

/// The entries of directory inode `d`: none when it is not a directory, has no
/// block, or its block lies past the image; else each readable record of the
/// block in order, with what reading the inode it names gives.
pub open spec fn dir_listing(s: FsView, d: Inode) -> Seq<(Seq<char>, u64, Result<Inode, DiskManagerError>)> {
    if d.mode != FileType::Directory || d.blocks[0] == 0 {
        Seq::empty()
    } else {
        match block_of(s.image, d.blocks[0] as int) {
            None => Seq::empty(),
            Some(b) => listed_entries(b, 0).map_values(
                |e: EntryView| (e.name, e.inode, read_inode_at(s.image, s.sb, e.inode as int)),
            ),
        }
    }
}

/// The readable records of the block of directory inode `d`; none when it is
/// not a directory, has no block, or its block lies past the image.
pub open spec fn dir_entry_views(s: FsView, d: Inode) -> Seq<EntryView> {
    if d.mode != FileType::Directory || d.blocks[0] == 0 {
        Seq::empty()
    } else {
        match block_of(s.image, d.blocks[0] as int) {
            None => Seq::empty(),
            Some(b) => listed_entries(b, 0),
        }
    }
}

/// The records of the block of directory inode `d` that read, or none.
fn dir_entries(dm: &DiskManager, d: &Inode) -> (r: Vec<DirectoryEntry>)
    ensures
        entry_views(r@) == dir_entry_views(dm@, *d),
{
    let empty: Vec<DirectoryEntry> = Vec::new();
    assert(entry_views(empty@) =~= Seq::<EntryView>::empty());
    if d.mode != FileType::Directory || d.blocks[0] == 0 {
        return empty;
    }
    match dm.get_block_copy(d.blocks[0]) {
        None => empty,
        Some(block) => block_entries(block.as_slice()),
    }
}

/// Lists directory `dir_id`: an error only when its inode cannot be read.
pub fn list_directory(dm: &DiskManager, dir_id: u64) -> (r: Result<Vec<ListedEntry>, DiskManagerError>)
    ensures
        match read_inode_at(dm@.image, dm@.sb, dir_id as int) {
            Err(e) => r matches Err(x) && x == e,
            Ok(d) => r matches Ok(v) && v@.map_values(|e: ListedEntry| listed_view(e)) == dir_listing(dm@, d),
        },
{
    let d = dm.read_inode(dir_id)?;
    let entries = dir_entries(dm, &d);
    let ghost es = entry_views(entries@);
    let mut out: Vec<ListedEntry> = Vec::new();
    let mut k: usize = 0;
    while k < entries.len()
        invariant
            k <= entries@.len(),
            es == entry_views(entries@),
            out@.len() == k,
            forall|j: int|
                0 <= j < k ==> #[trigger] listed_view(out@[j]) == (
                    es[j].name,
                    es[j].inode,
                    read_inode_at(dm@.image, dm@.sb, es[j].inode as int),
                ),
        decreases entries@.len() - k,
    {
        let e = &entries[k];
        let inode = dm.read_inode(e.inode);
        let name = e.name.clone();
        proof {
            assert(es[k as int] == entries@[k as int]@);
        }
        out.push(ListedEntry { name, inode_id: e.inode, inode });
        k = k + 1;
    }
    proof {
        let target = dir_listing(dm@, d);
        let got = out@.map_values(|e: ListedEntry| listed_view(e));
        assert(es.len() == entries@.len());
        if d.mode != FileType::Directory || d.blocks[0] == 0 {
            assert(target =~= Seq::empty());
        } else {
            match block_of(dm@.image, d.blocks[0] as int) {
                None => {
                    assert(target =~= Seq::empty());
                },
                Some(b) => {
                    assert(es == listed_entries(b, 0));
                    assert(target.len() == es.len());
                    assert forall|j: int| 0 <= j < got.len() implies got[j] == target[j] by {
                        assert(listed_view(out@[j]) == (es[j].name, es[j].inode, read_inode_at(dm@.image, dm@.sb, es[j].inode as int)));
                    }
                },
            }
        }
        assert(got =~= target);
    }
    Ok(out)
}

/// Listing the subtree of directory `dir`, whose entries are shown under path
/// `cur`: each entry in order with its path and inode, followed, when
/// `recursive` holds and the entry is a directory, by its own subtree, at most
/// `depth` levels further down. The first inode that cannot be read is the
/// error.
pub open spec fn tree_listing(s: FsView, dir: u64, cur: Seq<char>, recursive: bool, depth: nat) -> Result<
    Seq<(Seq<char>, Inode)>,
    DiskManagerError,
>
    decreases depth, 1nat, 0nat,
{
    match read_inode_at(s.image, s.sb, dir as int) {
        Err(e) => Err(e),
        Ok(d) => {
            let es = dir_entry_views(s, d);
            prefix_listing(s, es, es.len(), cur, recursive, depth)
        },
    }
}

/// The listing of the first `k` entries of `es`, shown under path `cur`.
pub open spec fn prefix_listing(
    s: FsView,
    es: Seq<EntryView>,
    k: nat,
    cur: Seq<char>,
    recursive: bool,
    depth: nat,
) -> Result<Seq<(Seq<char>, Inode)>, DiskManagerError>
    decreases depth, 0nat, k,
{
    if k == 0 || k > es.len() {
        Ok(Seq::empty())
    } else {
        match prefix_listing(s, es, (k - 1) as nat, cur, recursive, depth) {
            Err(e) => Err(e),
            Ok(acc) => {
                let e = es[k - 1];
                match read_inode_at(s.image, s.sb, e.inode as int) {
                    Err(err) => Err(err),
                    Ok(c) => {
                        let full = path_join(cur, e.name);
                        if recursive && c.mode == FileType::Directory && depth > 0 {
                            match tree_listing(s, e.inode, full, true, (depth - 1) as nat) {
                                Err(err) => Err(err),
                                Ok(sub) => Ok(acc.push((full, c)) + sub),
                            }
                        } else {
                            Ok(acc.push((full, c)))
                        }
                    },
                }
            },
        }
    }
}

/// Paths and inodes as sequences of characters.
pub open spec fn pairs_view(v: Seq<(String, Inode)>) -> Seq<(Seq<char>, Inode)> {
    v.map_values(|p: (String, Inode)| (p.0@, p.1))
}

proof fn lemma_prefix_err(
    s: FsView,
    es: Seq<EntryView>,
    k: nat,
    m: nat,
    cur: Seq<char>,
    recursive: bool,
    depth: nat,
    e: DiskManagerError,
)
    requires
        k <= m <= es.len(),
        prefix_listing(s, es, k, cur, recursive, depth) == Err::<Seq<(Seq<char>, Inode)>, DiskManagerError>(e),
    ensures
        prefix_listing(s, es, m, cur, recursive, depth) == Err::<Seq<(Seq<char>, Inode)>, DiskManagerError>(e),
    decreases m - k,
{
    if k < m {
        lemma_prefix_err(s, es, k, (m - 1) as nat, cur, recursive, depth, e);
    }
}

/// Appends the listing of the subtree of `dir` under path `cur` to `out`.
fn collect_tree(
    dm: &DiskManager,
    dir: u64,
    cur: &str,
    recursive: bool,
    depth: u64,
    out: &mut Vec<(String, Inode)>,
) -> (r: Result<(), DiskManagerError>)
    ensures
        match tree_listing(dm@, dir, cur@, recursive, depth as nat) {
            Ok(v) => r is Ok && pairs_view(final(out)@) == pairs_view(old(out)@) + v,
            Err(e) => r == Err::<(), DiskManagerError>(e),
        },
    decreases depth,
{
    let d = dm.read_inode(dir)?;
    let entries = dir_entries(dm, &d);
    let ghost es = entry_views(entries@);
    let ghost out0 = pairs_view(out@);
    let mut k: usize = 0;
    assert(pairs_view(out@) =~= out0 + Seq::<(Seq<char>, Inode)>::empty());
    while k < entries.len()
        invariant
            k <= entries@.len(),
            es == entry_views(entries@),
            es == dir_entry_views(dm@, d),
            read_inode_at(dm@.image, dm@.sb, dir as int) == Ok::<Inode, DiskManagerError>(d),
            prefix_listing(dm@, es, k as nat, cur@, recursive, depth as nat) matches Ok(acc) && pairs_view(out@) == out0 + acc,
        decreases entries@.len() - k,
    {
        let ghost acc = prefix_listing(dm@, es, k as nat, cur@, recursive, depth as nat)->Ok_0;
        let e = &entries[k];
        proof {
            assert(es[k as int] == entries@[k as int]@);
        }
        let c = match dm.read_inode(e.inode) {
            Ok(c) => c,
            Err(err) => {
                proof {
                    lemma_prefix_err(dm@, es, (k + 1) as nat, es.len(), cur@, recursive, depth as nat, err);
                }
                return Err(err);
            },
        };
        let full = child_path(cur, e.name.as_str());
        let ghost before = pairs_view(out@);
        out.push((full.clone(), c));
        proof {
            assert(pairs_view(out@) =~= before.push((full@, c)));
        }
        if recursive && c.mode == FileType::Directory && depth > 0 {
            let ghost mid = pairs_view(out@);
            match collect_tree(dm, e.inode, full.as_str(), true, depth - 1, out) {
                Ok(()) => {
                    proof {
                        let sub = tree_listing(dm@, e.inode, full@, true, (depth - 1) as nat)->Ok_0;
                        assert(pairs_view(out@) == mid + sub);
                        assert(pairs_view(out@) =~= out0 + (acc.push((full@, c)) + sub));
                    }
                },
                Err(err) => {
                    proof {
                        lemma_prefix_err(dm@, es, (k + 1) as nat, es.len(), cur@, recursive, depth as nat, err);
                    }
                    return Err(err);
                },
            }
        } else {
            proof {
                assert(pairs_view(out@) =~= out0 + acc.push((full@, c)));
            }
        }
        k = k + 1;
    }
    Ok(())
}

/// Lists the subtree of directory `dir`, its entries shown under path `base`,
/// descending into subdirectories when `recursive` holds, at most `depth`
/// levels further down.
pub fn list_tree(dm: &DiskManager, dir: u64, base: &str, recursive: bool, depth: u64) -> (r: Result<
    Vec<(String, Inode)>,
    DiskManagerError,
>)
    ensures
        match tree_listing(dm@, dir, base@, recursive, depth as nat) {
            Ok(v) => r matches Ok(x) && pairs_view(x@) == v,
            Err(e) => r matches Err(x) && x == e,
        },
{
    let mut out: Vec<(String, Inode)> = Vec::new();
    assert(pairs_view(out@) =~= Seq::<(Seq<char>, Inode)>::empty());
    match collect_tree(dm, dir, base, recursive, depth, &mut out) {
        Ok(()) => {
            proof {
                let v = tree_listing(dm@, dir, base@, recursive, depth as nat)->Ok_0;
                assert(pairs_view(out@) =~= Seq::<(Seq<char>, Inode)>::empty() + v);
            }
            Ok(out)
        },
        Err(e) => Err(e),
    }
}

/// Why a strict listing stopped.
#[derive(Debug, Clone, Copy, PartialEq, Eq, Structural)]
pub enum ListError {
    /// The file system refused a read
    Fs(DiskManagerError),
    /// The inode is not a directory
    NotDirectory,
    /// The directory's block lies past the image
    BlockMissing,
    /// A record of the directory cannot be read
    BadRecord,
}

/// The names and inodes of the first `k` entries of `es`; the first inode
/// that cannot be read is the error.
pub open spec fn named_inodes(s: FsView, es: Seq<EntryView>, k: nat) -> Result<Seq<(Seq<char>, Inode)>, ListError>
    decreases k,
{
    if k == 0 || k > es.len() {
        Ok(Seq::empty())
    } else {
        match named_inodes(s, es, (k - 1) as nat) {
            Err(e) => Err(e),
            Ok(acc) => match read_inode_at(s.image, s.sb, es[k - 1].inode as int) {
                Err(e) => Err(ListError::Fs(e)),
                Ok(c) => Ok(acc.push((es[k - 1].name, c))),
            },
        }
    }
}

/// Listing directory `dir` record by record, stopping at the first failure:
/// an inode that cannot be read, a file in place of the directory, a block
/// past the image, or a record that cannot be read after the entries before it.
pub open spec fn strict_listing(s: FsView, dir: u64) -> Result<Seq<(Seq<char>, Inode)>, ListError> {
    match read_inode_at(s.image, s.sb, dir as int) {
        Err(e) => Err(ListError::Fs(e)),
        Ok(d) => if d.mode != FileType::Directory {
            Err(ListError::NotDirectory)
        } else if d.blocks[0] == 0 {
            Ok(Seq::empty())
        } else {
            match block_of(s.image, d.blocks[0] as int) {
                None => Err(ListError::BlockMissing),
                Some(b) => {
                    let scan = scan_entries(b, 0);
                    match named_inodes(s, scan.entries, scan.entries.len()) {
                        Err(e) => Err(e),
                        Ok(v) => if scan.end is None {
                            Err(ListError::BadRecord)
                        } else {
                            Ok(v)
                        },
                    }
                },
            }
        },
    }
}

proof fn lemma_named_err(s: FsView, es: Seq<EntryView>, k: nat, m: nat, e: ListError)
    requires
        k <= m <= es.len(),
        named_inodes(s, es, k) == Err::<Seq<(Seq<char>, Inode)>, ListError>(e),
    ensures
        named_inodes(s, es, m) == Err::<Seq<(Seq<char>, Inode)>, ListError>(e),
    decreases m - k,
{
    if k < m {
        lemma_named_err(s, es, k, (m - 1) as nat, e);
    }
}

/// Lists directory `dir` with the name and inode of each entry, failing on
/// the first step that cannot be done.
pub fn list_directory_strict(dm: &DiskManager, dir: u64) -> (r: Result<Vec<(String, Inode)>, ListError>)
    ensures
        match strict_listing(dm@, dir) {
            Ok(v) => r matches Ok(x) && pairs_view(x@) == v,
            Err(e) => r matches Err(x) && x == e,
        },
{
    let d = match dm.read_inode(dir) {
        Ok(d) => d,
        Err(e) => return Err(ListError::Fs(e)),
    };
    if d.mode != FileType::Directory {
        return Err(ListError::NotDirectory);
    }
    let mut out: Vec<(String, Inode)> = Vec::new();
    assert(pairs_view(out@) =~= Seq::<(Seq<char>, Inode)>::empty());
    if d.blocks[0] == 0 {
        return Ok(out);
    }
    let block = match dm.get_block_copy(d.blocks[0]) {
        Some(b) => b,
        None => return Err(ListError::BlockMissing),
    };
    let (entries, end) = read_entries(block.as_slice());
    let ghost es = entry_views(entries@);
    let mut k: usize = 0;
    while k < entries.len()
        invariant
            k <= entries@.len(),
            es == entry_views(entries@),
            es == scan_entries(block@, 0).entries,
            read_inode_at(dm@.image, dm@.sb, dir as int) == Ok::<Inode, DiskManagerError>(d),
            d.mode == FileType::Directory,
            d.blocks[0] != 0,
            block_of(dm@.image, d.blocks[0] as int) == Some(block@),
            named_inodes(dm@, es, k as nat) == Ok::<Seq<(Seq<char>, Inode)>, ListError>(pairs_view(out@)),
        decreases entries@.len() - k,
    {
        let e = &entries[k];
        proof {
            assert(es[k as int] == entries@[k as int]@);
        }
        let c = match dm.read_inode(e.inode) {
            Ok(c) => c,
            Err(err) => {
                proof {
                    lemma_named_err(dm@, es, (k + 1) as nat, es.len(), ListError::Fs(err));
                }
                return Err(ListError::Fs(err));
            },
        };
        let name = e.name.clone();
        let ghost before = pairs_view(out@);
        out.push((name, c));
        proof {
            assert(pairs_view(out@) =~= before.push((es[k as int].name, c)));
        }
        k = k + 1;
    }
    if end.is_none() {
        return Err(ListError::BadRecord);
    }
    Ok(out)
}

} // verus!
