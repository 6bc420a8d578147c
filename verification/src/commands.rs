//! The operations that the command-line tool and the agent tools run on a
//! file system: what a flag selects, and the steps that import, append to, or
//! make an entry at a path.
use crate::disk::{
    create_spec, dir_lookup, path_parts, read_data_spec, walk, write_step, write_whole, CompressionMode,
    DefragMode, DiskManager, DiskManagerError, FsFault, FsView,
};
use crate::disk::read_inode_at;
use crate::fs_props::{keeps_frame, lemma_whole_write_compression};
use crate::inode::FileType;
use vstd::prelude::*;
use vstd::string::StringSliceAdditionalSpecFns;

verus! {

/// Why a command on a path stopped.
#[derive(Debug, Clone, Copy, PartialEq, Eq, Structural)]
pub enum CommandError {
    /// The file system refused a step
    Fs(DiskManagerError),
    /// An entry with that name is already there
    AlreadyExists,
}

/// The compression an import uses: `--compress` wins over `--no-compress`,
/// and with neither the size decides.
pub open spec fn flags_mode(compress: bool, no_compress: bool) -> CompressionMode {
    if compress {
        CompressionMode::Always
    } else if no_compress {
        CompressionMode::Never
    } else {
        CompressionMode::Auto
    }
}

/// Picks the compression mode for the import flags.
pub fn compression_for_flags(compress: bool, no_compress: bool) -> (r: CompressionMode)
    ensures
        r == flags_mode(compress, no_compress),
{
    if compress {
        CompressionMode::Always
    } else if no_compress {
        CompressionMode::Never
    } else {
        CompressionMode::Auto
    }
}

/// A byte with ASCII letters made lower case.
pub open spec fn ascii_lower(b: u8) -> u8 {
    if 65 <= b <= 90 {
        (b + 32) as u8
    } else {
        b
    }
}

/// The bytes `safe`.
pub open spec fn safe_word() -> Seq<u8> {
    seq![115u8, 97u8, 102u8, 101u8]
}

/// The bytes `inplace`.
pub open spec fn inplace_word() -> Seq<u8> {
    seq![105u8, 110u8, 112u8, 108u8, 97u8, 99u8, 101u8]
}

/// Whether `bytes`, ASCII letters taken in either case, spell `word`.
pub open spec fn spells(bytes: Seq<u8>, word: Seq<u8>) -> bool {
    bytes.len() == word.len() && forall|i: int| 0 <= i < bytes.len() ==> ascii_lower(#[trigger] bytes[i]) == word[i]
}

fn spells_exec(bytes: &[u8], word: &[u8]) -> (r: bool)
    ensures
        r == spells(bytes@, word@),
{
    if bytes.len() != word.len() {
        return false;
    }
    let mut i: usize = 0;
    while i < bytes.len()
        invariant
            bytes@.len() == word@.len(),
            i <= bytes@.len(),
            forall|j: int| 0 <= j < i ==> ascii_lower(#[trigger] bytes@[j]) == word@[j],
        decreases bytes@.len() - i,
    {
        let b = bytes[i];
        let lower = if 65 <= b && b <= 90 { b + 32 } else { b };
        if lower != word[i] {
            return false;
        }
        i = i + 1;
    }
    true
}

/// Reads a defragmentation mode by name, in any case of its letters:
/// `safe` or `inplace`; any other name is none.
pub fn parse_defrag_mode(mode: &str) -> (r: Option<DefragMode>)
    ensures
        r == (if spells(mode.spec_bytes(), safe_word()) {
            Some(DefragMode::Safe)
        } else if spells(mode.spec_bytes(), inplace_word()) {
            Some(DefragMode::InPlace)
        } else {
            None::<DefragMode>
        }),
{
    let bytes = mode.as_bytes();
    let safe: [u8; 4] = [115, 97, 102, 101];
    let inplace: [u8; 7] = [105, 110, 112, 108, 97, 99, 101];
    assert(safe@ =~= safe_word());
    assert(inplace@ =~= inplace_word());
    if spells_exec(bytes, &safe) {
        Some(DefragMode::Safe)
    } else if spells_exec(bytes, &inplace) {
        Some(DefragMode::InPlace)
    } else {
        None
    }
}

/// What an append stores: the old contents, the new bytes, and a newline
/// when one is wanted and the new bytes do not already end with it.
pub open spec fn appended_bytes(existing: Seq<u8>, content: Seq<u8>, add_newline: bool) -> Seq<u8> {
    if add_newline && !(content.len() > 0 && content.last() == 10u8) {
        existing + content + seq![10u8]
    } else {
        existing + content
    }
}

/// The old contents followed by `content`, and a newline as `appended_bytes` says.
pub fn appended(existing: Vec<u8>, content: &str, add_newline: bool) -> (r: Vec<u8>)
    ensures
        r@ == appended_bytes(existing@, content.spec_bytes(), add_newline),
{
    let mut v = existing;
    let bytes = content.as_bytes();
    v.extend_from_slice(bytes);
    let n = bytes.len();
    if add_newline && !(n > 0 && bytes[n - 1] == 10) {
        v.push(10);
    }
    v
}

/// The directory a path's entry goes into, and the entry's name: the path's
/// last step under the directory that the steps before it lead to.
pub open spec fn parent_of(s: FsView, path: Seq<char>) -> Result<(u64, Seq<char>), DiskManagerError> {
    let parts = path_parts(path);
    if parts.len() == 0 {
        Err(DiskManagerError::Io(FsFault::EmptyPath))
    } else {
        match walk(s.image, s.sb, s.sb.root_inode, parts.drop_last()) {
            Ok(p) => Ok((p, parts.last())),
            Err(e) => Err(e),
        }
    }
}

/// The image as it stands after a step that changed only the bytes.
pub open spec fn with_image(s: FsView, img: Seq<u8>) -> FsView {
    FsView { image: img, ..s }
}

/// Importing `data` as a new file at `path`: refused when the name is taken;
/// else the file is made at some time and written in `mode`.
pub open spec fn put_holds(
    s: FsView,
    path: Seq<char>,
    data: Seq<u8>,
    mode: CompressionMode,
    img_end: Seq<u8>,
    r: Result<u64, CommandError>,
) -> bool {
    match parent_of(s, path) {
        Err(e) => r == Err::<u64, CommandError>(CommandError::Fs(e)) && img_end == s.image,
        Ok((parent, name)) => if dir_lookup(s.image, s.sb, parent, name) is Ok {
            r == Err::<u64, CommandError>(CommandError::AlreadyExists) && img_end == s.image
        } else {
            exists|now: u64|
                {
                    let (mid, rc) = #[trigger] create_spec(s, parent, name, FileType::File, now);
                    match rc {
                        Err(e) => r == Err::<u64, CommandError>(CommandError::Fs(e)) && img_end == mid,
                        Ok(id) => exists|rw: Result<(), DiskManagerError>|
                            #[trigger] write_step(with_image(s, mid), id, data, mode, img_end, rw) && r == match rw {
                                Ok(_) => Ok::<u64, CommandError>(id),
                                Err(e) => Err(CommandError::Fs(e)),
                            },
                    }
                }
        },
    }
}

/// Making a directory at `path`: refused when the name is taken; else the
/// directory is made at some time.
pub open spec fn mkdir_holds(s: FsView, path: Seq<char>, img_end: Seq<u8>, r: Result<u64, CommandError>) -> bool {
    match parent_of(s, path) {
        Err(e) => r == Err::<u64, CommandError>(CommandError::Fs(e)) && img_end == s.image,
        Ok((parent, name)) => if dir_lookup(s.image, s.sb, parent, name) is Ok {
            r == Err::<u64, CommandError>(CommandError::AlreadyExists) && img_end == s.image
        } else {
            exists|now: u64|
                {
                    let (mid, rc) = #[trigger] create_spec(s, parent, name, FileType::Directory, now);
                    img_end == mid && r == match rc {
                        Ok(id) => Ok::<u64, CommandError>(id),
                        Err(e) => Err(CommandError::Fs(e)),
                    }
                }
        },
    }
}

/// Appending `content` to file `id`: what reading it gives, or nothing when
/// it does not read, followed by `content` (and a newline as wanted), written
/// back whole in `mode`.
pub open spec fn append_write(
    s: FsView,
    id: u64,
    content: Seq<u8>,
    add_newline: bool,
    mode: CompressionMode,
    img_end: Seq<u8>,
    r: Result<(u64, usize), CommandError>,
) -> bool {
    exists|rw: Result<(), DiskManagerError>|
        #[trigger] write_step(s, id, appended_bytes(contents_or_empty(s, id), content, add_newline), mode, img_end, rw)
            && r == match rw {
            Ok(_) => Ok::<(u64, usize), CommandError>(
                (id, appended_bytes(contents_or_empty(s, id), content, add_newline).len() as usize),
            ),
            Err(e) => Err(CommandError::Fs(e)),
        }
}

/// What reading file `id` gives, or nothing when it does not read.
pub open spec fn contents_or_empty(s: FsView, id: u64) -> Seq<u8> {
    match read_data_spec(s, id) {
        Ok(d) => d,
        Err(_) => Seq::empty(),
    }
}

/// Appending to the file at `path`, made first at some time when the name is
/// not found.
pub open spec fn append_holds(
    s: FsView,
    path: Seq<char>,
    content: Seq<u8>,
    add_newline: bool,
    mode: CompressionMode,
    img_end: Seq<u8>,
    r: Result<(u64, usize), CommandError>,
) -> bool {
    match parent_of(s, path) {
        Err(e) => r == Err::<(u64, usize), CommandError>(CommandError::Fs(e)) && img_end == s.image,
        Ok((parent, name)) => match dir_lookup(s.image, s.sb, parent, name) {
            Ok(id) => append_write(s, id, content, add_newline, mode, img_end, r),
            Err(_) => exists|now: u64|
                {
                    let (mid, rc) = #[trigger] create_spec(s, parent, name, FileType::File, now);
                    match rc {
                        Err(e) => r == Err::<(u64, usize), CommandError>(CommandError::Fs(e)) && img_end == mid,
                        Ok(id) => append_write(with_image(s, mid), id, content, add_newline, mode, img_end, r),
                    }
                },
        },
    }
}

/// Writing `data` as the whole contents of the file at `path`, which is made
/// first at some time when the name is not found.
pub open spec fn write_file_holds(
    s: FsView,
    path: Seq<char>,
    data: Seq<u8>,
    mode: CompressionMode,
    img_end: Seq<u8>,
    r: Result<u64, CommandError>,
) -> bool {
    match parent_of(s, path) {
        Err(e) => r == Err::<u64, CommandError>(CommandError::Fs(e)) && img_end == s.image,
        Ok((parent, name)) => match dir_lookup(s.image, s.sb, parent, name) {
            Ok(id) => exists|rw: Result<(), DiskManagerError>|
                #[trigger] write_step(s, id, data, mode, img_end, rw) && r == match rw {
                    Ok(_) => Ok::<u64, CommandError>(id),
                    Err(e) => Err(CommandError::Fs(e)),
                },
            Err(_) => exists|now: u64|
                {
                    let (mid, rc) = #[trigger] create_spec(s, parent, name, FileType::File, now);
                    match rc {
                        Err(e) => r == Err::<u64, CommandError>(CommandError::Fs(e)) && img_end == mid,
                        Ok(id) => exists|rw: Result<(), DiskManagerError>|
                            #[trigger] write_step(with_image(s, mid), id, data, mode, img_end, rw) && r == match rw {
                                Ok(_) => Ok::<u64, CommandError>(id),
                                Err(e) => Err(CommandError::Fs(e)),
                            },
                    }
                },
        },
    }
}

/// Imports `data` as a new file at `path`; refused when the name is taken.
pub fn put_file(dm: &mut DiskManager, path: &str, data: &[u8], mode: CompressionMode) -> (r: Result<u64, CommandError>)
    ensures
        put_holds(old(dm)@, path@, data@, mode, final(dm)@.image, r),
        final(dm)@.sb == old(dm)@.sb,
        final(dm)@.key == old(dm)@.key,
{
    let (parent, name) = match dm.resolve_parent(path) {
        Ok(p) => p,
        Err(e) => return Err(CommandError::Fs(e)),
    };
    if dm.lookup(parent, name.as_str()).is_ok() {
        return Err(CommandError::AlreadyExists);
    }
    let ghost s0 = dm@;
    let id = match dm.create_file(parent, name.as_str()) {
        Ok(id) => id,
        Err(e) => return Err(CommandError::Fs(e)),
    };
    let ghost s1 = dm@;
    let w = write_whole(dm, id, data, mode);
    proof {
        assert(s1 == with_image(s0, s1.image));
        let now0 = choose|now: u64| (s1.image, Ok::<u64, DiskManagerError>(id)) == #[trigger] create_spec(s0, parent, name@, FileType::File, now);
        assert(write_step(with_image(s0, s1.image), id, data@, mode, dm@.image, w));
        assert(create_spec(s0, parent, name@, FileType::File, now0) == (s1.image, Ok::<u64, DiskManagerError>(id)));
    }
    match w {
        Ok(()) => Ok(id),
        Err(e) => Err(CommandError::Fs(e)),
    }
}

/// Makes a directory at `path`; refused when the name is taken.
pub fn make_directory(dm: &mut DiskManager, path: &str) -> (r: Result<u64, CommandError>)
    ensures
        mkdir_holds(old(dm)@, path@, final(dm)@.image, r),
        final(dm)@.sb == old(dm)@.sb,
        final(dm)@.key == old(dm)@.key,
{
    let (parent, name) = match dm.resolve_parent(path) {
        Ok(p) => p,
        Err(e) => return Err(CommandError::Fs(e)),
    };
    if dm.lookup(parent, name.as_str()).is_ok() {
        return Err(CommandError::AlreadyExists);
    }
    match dm.create_directory(parent, name.as_str()) {
        Ok(id) => Ok(id),
        Err(e) => Err(CommandError::Fs(e)),
    }
}

/// Appends `content` to file `id`, whatever it held or nothing.
fn append_existing(
    dm: &mut DiskManager,
    id: u64,
    content: &str,
    add_newline: bool,
    mode: CompressionMode,
) -> (r: Result<(u64, usize), CommandError>)
    ensures
        append_write(old(dm)@, id, content.spec_bytes(), add_newline, mode, final(dm)@.image, r),
        final(dm)@.sb == old(dm)@.sb,
        final(dm)@.key == old(dm)@.key,
{
    let ghost ex = contents_or_empty(dm@, id);
    let existing = match dm.read_data(id) {
        Ok(d) => d,
        Err(_) => Vec::new(),
    };
    assert(existing@ =~= ex);
    let buf = appended(existing, content, add_newline);
    let n = buf.len();
    let w = write_whole(dm, id, buf.as_slice(), mode);
    let r = match w {
        Ok(()) => Ok((id, n)),
        Err(e) => Err(CommandError::Fs(e)),
    };
    proof {
        let sbuf = appended_bytes(ex, content.spec_bytes(), add_newline);
        assert(buf@ == sbuf);
        assert(write_step(old(dm)@, id, sbuf, mode, dm@.image, w));
    }
    r
}

/// Appends `content` to the file at `path`, which is made first when the
/// name is not found; a newline follows when `add_newline` holds and the
/// content does not end with one. The file is written back whole in `mode`.
pub fn append_to_file(
    dm: &mut DiskManager,
    path: &str,
    content: &str,
    add_newline: bool,
    mode: CompressionMode,
) -> (r: Result<(u64, usize), CommandError>)
    ensures
        append_holds(old(dm)@, path@, content.spec_bytes(), add_newline, mode, final(dm)@.image, r),
        final(dm)@.sb == old(dm)@.sb,
        final(dm)@.key == old(dm)@.key,
{
    let (parent, name) = match dm.resolve_parent(path) {
        Ok(p) => p,
        Err(e) => return Err(CommandError::Fs(e)),
    };
    match dm.lookup(parent, name.as_str()) {
        Ok(id) => append_existing(dm, id, content, add_newline, mode),
        Err(_) => {
            let ghost s0 = dm@;
            let id = match dm.create_file(parent, name.as_str()) {
                Ok(id) => id,
                Err(e) => return Err(CommandError::Fs(e)),
            };
            let ghost s1 = dm@;
            let r = append_existing(dm, id, content, add_newline, mode);
            proof {
                assert(s1 == with_image(s0, s1.image));
                let now0 = choose|now: u64| (s1.image, Ok::<u64, DiskManagerError>(id)) == #[trigger] create_spec(s0, parent, name@, FileType::File, now);
                assert(create_spec(s0, parent, name@, FileType::File, now0) == (s1.image, Ok::<u64, DiskManagerError>(id)));
            }
            r
        },
    }
}

/// Writes `data` as the whole contents of the file at `path`, making the
/// file first when the name is not found.
pub fn write_file(dm: &mut DiskManager, path: &str, data: &[u8], mode: CompressionMode) -> (r: Result<u64, CommandError>)
    ensures
        write_file_holds(old(dm)@, path@, data@, mode, final(dm)@.image, r),
        final(dm)@.sb == old(dm)@.sb,
        final(dm)@.key == old(dm)@.key,
{
    let (parent, name) = match dm.resolve_parent(path) {
        Ok(p) => p,
        Err(e) => return Err(CommandError::Fs(e)),
    };
    let id = match dm.lookup(parent, name.as_str()) {
        Ok(id) => {
            let w = write_whole(dm, id, data, mode);
            return match w {
                Ok(()) => Ok(id),
                Err(e) => Err(CommandError::Fs(e)),
            };
        },
        Err(_) => {
            let ghost s0 = dm@;
            let id = match dm.create_file(parent, name.as_str()) {
                Ok(id) => id,
                Err(e) => return Err(CommandError::Fs(e)),
            };
            proof {
                let now0 = choose|now: u64| (dm@.image, Ok::<u64, DiskManagerError>(id)) == #[trigger] create_spec(s0, parent, name@, FileType::File, now);
                assert(create_spec(s0, parent, name@, FileType::File, now0) == (dm@.image, Ok::<u64, DiskManagerError>(id)));
                assert(dm@ == with_image(s0, dm@.image));
            }
            id
        },
    };
    let w = write_whole(dm, id, data, mode);
    match w {
        Ok(()) => Ok(id),
        Err(e) => Err(CommandError::Fs(e)),
    }
}

/// The file that an import writes is written in the mode it is given: when
/// the import goes through, the new file reads back with a nonzero compressed
/// size exactly when that mode keeps the zstd frame of the data (`Always`
/// always, `Never` never, `Auto` for 8 KB or more that the frame shortens).
pub proof fn lemma_put_uses_mode(
    s: FsView,
    path: Seq<char>,
    data: Seq<u8>,
    mode: CompressionMode,
    img_end: Seq<u8>,
    id: u64,
)
    requires
        put_holds(s, path, data, mode, img_end, Ok::<u64, CommandError>(id)),
    ensures
        read_inode_at(img_end, s.sb, id as int) matches Ok(j) && (j.mode == FileType::File ==> (j.compressed_size > 0
            <==> keeps_frame(mode, data))),
{
    let (parent, name) = parent_of(s, path)->Ok_0;
    let now = choose|now: u64|
        {
            let (mid, rc) = #[trigger] create_spec(s, parent, name, FileType::File, now);
            match rc {
                Err(e) => Ok::<u64, CommandError>(id) == Err::<u64, CommandError>(CommandError::Fs(e)) && img_end == mid,
                Ok(id2) => exists|rw: Result<(), DiskManagerError>|
                    #[trigger] write_step(with_image(s, mid), id2, data, mode, img_end, rw) && Ok::<u64, CommandError>(id)
                        == match rw {
                        Ok(_) => Ok::<u64, CommandError>(id2),
                        Err(e) => Err(CommandError::Fs(e)),
                    },
            }
        };
    let (mid, rc) = create_spec(s, parent, name, FileType::File, now);
    let id2 = rc->Ok_0;
    let rw = choose|rw: Result<(), DiskManagerError>|
        #[trigger] write_step(with_image(s, mid), id2, data, mode, img_end, rw) && Ok::<u64, CommandError>(id) == match rw {
            Ok(_) => Ok::<u64, CommandError>(id2),
            Err(e) => Err(CommandError::Fs(e)),
        };
    assert(id2 == id && rw is Ok);
    lemma_whole_write_compression(with_image(s, mid), id, data, mode, img_end);
}

/// Writing the file at a path is done in the mode it is given: when it goes
/// through, the file reads back with a nonzero compressed size exactly when
/// that mode keeps the zstd frame of the data.
pub proof fn lemma_write_file_uses_mode(
    s: FsView,
    path: Seq<char>,
    data: Seq<u8>,
    mode: CompressionMode,
    img_end: Seq<u8>,
    id: u64,
)
    requires
        write_file_holds(s, path, data, mode, img_end, Ok::<u64, CommandError>(id)),
    ensures
        read_inode_at(img_end, s.sb, id as int) matches Ok(j) && (j.mode == FileType::File ==> (j.compressed_size > 0
            <==> keeps_frame(mode, data))),
{
    let (parent, name) = parent_of(s, path)->Ok_0;
    if let Ok(id1) = dir_lookup(s.image, s.sb, parent, name) {
        let rw = choose|rw: Result<(), DiskManagerError>|
            #[trigger] write_step(s, id1, data, mode, img_end, rw) && Ok::<u64, CommandError>(id) == match rw {
                Ok(_) => Ok::<u64, CommandError>(id1),
                Err(e) => Err(CommandError::Fs(e)),
            };
        assert(id1 == id && rw is Ok);
        lemma_whole_write_compression(s, id, data, mode, img_end);
    } else {
        let now = choose|now: u64|
            {
                let (mid, rc) = #[trigger] create_spec(s, parent, name, FileType::File, now);
                match rc {
                    Err(e) => Ok::<u64, CommandError>(id) == Err::<u64, CommandError>(CommandError::Fs(e)) && img_end
                        == mid,
                    Ok(id2) => exists|rw: Result<(), DiskManagerError>|
                        #[trigger] write_step(with_image(s, mid), id2, data, mode, img_end, rw) && Ok::<u64, CommandError>(
                            id,
                        ) == match rw {
                            Ok(_) => Ok::<u64, CommandError>(id2),
                            Err(e) => Err(CommandError::Fs(e)),
                        },
                }
            };
        let (mid, rc) = create_spec(s, parent, name, FileType::File, now);
        let id2 = rc->Ok_0;
        let rw = choose|rw: Result<(), DiskManagerError>|
            #[trigger] write_step(with_image(s, mid), id2, data, mode, img_end, rw) && Ok::<u64, CommandError>(id)
                == match rw {
                Ok(_) => Ok::<u64, CommandError>(id2),
                Err(e) => Err(CommandError::Fs(e)),
            };
        assert(id2 == id && rw is Ok);
        lemma_whole_write_compression(with_image(s, mid), id, data, mode, img_end);
    }
}

/// An append writes the file back in the mode it is given: when it goes
/// through, reporting `n` bytes, the file reads back with a nonzero
/// compressed size exactly when that mode keeps the zstd frame of the `n`
/// bytes written.
pub proof fn lemma_append_uses_mode(
    s: FsView,
    path: Seq<char>,
    content: Seq<u8>,
    add_newline: bool,
    mode: CompressionMode,
    img_end: Seq<u8>,
    id: u64,
    n: usize,
)
    requires
        append_holds(s, path, content, add_newline, mode, img_end, Ok::<(u64, usize), CommandError>((id, n))),
    ensures
        read_inode_at(img_end, s.sb, id as int) matches Ok(j) && (j.mode == FileType::File ==> exists|d: Seq<u8>|
            d.len() as usize == n && (j.compressed_size > 0 <==> #[trigger] keeps_frame(mode, d))),
{
    let (parent, name) = parent_of(s, path)->Ok_0;
    let v = if let Ok(id1) = dir_lookup(s.image, s.sb, parent, name) {
        s
    } else {
        let now = choose|now: u64|
            {
                let (mid, rc) = #[trigger] create_spec(s, parent, name, FileType::File, now);
                match rc {
                    Err(e) => Ok::<(u64, usize), CommandError>((id, n)) == Err::<(u64, usize), CommandError>(
                        CommandError::Fs(e),
                    ) && img_end == mid,
                    Ok(id2) => append_write(with_image(s, mid), id2, content, add_newline, mode, img_end, Ok::<(u64, usize), CommandError>((id, n))),
                }
            };
        with_image(s, create_spec(s, parent, name, FileType::File, now).0)
    };
    let id0 = if let Ok(id1) = dir_lookup(s.image, s.sb, parent, name) {
        id1
    } else {
        let now = choose|now: u64|
            {
                let (mid, rc) = #[trigger] create_spec(s, parent, name, FileType::File, now);
                match rc {
                    Err(e) => Ok::<(u64, usize), CommandError>((id, n)) == Err::<(u64, usize), CommandError>(
                        CommandError::Fs(e),
                    ) && img_end == mid,
                    Ok(id2) => append_write(with_image(s, mid), id2, content, add_newline, mode, img_end, Ok::<(u64, usize), CommandError>((id, n))),
                }
            };
        create_spec(s, parent, name, FileType::File, now).1->Ok_0
    };
    assert(append_write(v, id0, content, add_newline, mode, img_end, Ok::<(u64, usize), CommandError>((id, n))));
    let d = appended_bytes(contents_or_empty(v, id0), content, add_newline);
    let rw = choose|rw: Result<(), DiskManagerError>|
        #[trigger] write_step(v, id0, d, mode, img_end, rw) && Ok::<(u64, usize), CommandError>((id, n)) == match rw {
            Ok(_) => Ok::<(u64, usize), CommandError>((id0, d.len() as usize)),
            Err(e) => Err(CommandError::Fs(e)),
        };
    assert(id0 == id && rw is Ok);
    lemma_whole_write_compression(v, id, d, mode, img_end);
    let j = read_inode_at(img_end, s.sb, id as int)->Ok_0;
    if j.mode == FileType::File {
        assert(d.len() as usize == n && (j.compressed_size > 0 <==> keeps_frame(mode, d)));
    }
}

} // verus!
