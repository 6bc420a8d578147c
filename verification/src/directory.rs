//! Directory records.
//!
//! A directory block holds records one after the other:
//! `inode: u64 | hash: u64 | name_len: u16 | name: name_len bytes of UTF-8`,
//! all little-endian. A record whose name length is 0, or a block that ends
//! before a full header, ends the list.
use crate::encoding::{
    le16, le64, lemma_le_lengths, lemma_u16_at_placed, lemma_u64_at_placed, push_all, push_u16,
    push_u64, read_u16, read_u64, u16_at, u64_at,
};
use vstd::prelude::*;
use vstd::string::{StrSliceExecFns, StringSliceAdditionalSpecFns};
use vstd::utf8::{decode_utf8, encode_utf8, encode_utf8_decode_utf8, encode_utf8_valid_utf8, valid_utf8};

verus! {

/// The kinds of input/output failure that directory records report.
#[derive(Debug, Clone, Copy, PartialEq, Eq, Structural)]
pub enum IoFault {
    /// The input was refused (a name holding '/')
    InvalidInput,
    /// The data ended inside a record
    UnexpectedEof,
}

#[derive(Debug, Clone, Copy, PartialEq, Eq, Structural)]
pub enum DirectoryError {
    Io(IoFault),
    /// The stored name is not UTF-8
    Utf8Error,
    /// The name is longer than `MAX_FILENAME_LEN` bytes
    EntryTooLarge,
}

/// The bytes of the header before the name.
pub const ENTRY_HEADER_LEN: usize = 18;

/// Longest name, in bytes, that a record may hold.
pub const MAX_FILENAME_LEN: usize = 255;

#[derive(Debug, Clone, PartialEq)]
pub struct DirectoryEntry {
    pub inode: u64,
    pub hash: u64,
    pub name: String,
}

/// What a directory record says, with its name as characters.
pub struct EntryView {
    pub inode: u64,
    pub hash: u64,
    pub name: Seq<char>,
}

/// What reading one record at a position gives, and where the reader is after.
pub enum EntryRead {
    /// No further record; `next` is the reader's position after the attempt.
    End { next: int },
    /// A record, followed by the position just past it.
    Entry { entry: EntryView, next: int },
    /// A record that cannot be read.
    Invalid { err: DirectoryError, next: int },
}

/// The record that stores an entry.
pub open spec fn entry_record(inode: u64, hash: u64, name: Seq<char>) -> Seq<u8> {
    le64(inode) + le64(hash) + le16(encode_utf8(name).len() as u16) + encode_utf8(name)
}

/// What `serialize_into` appends for each of `es`, in order, one record
/// after the other.
pub open spec fn serialized(es: Seq<EntryView>) -> Seq<u8>
    decreases es.len(),
{
    if es.len() == 0 {
        Seq::empty()
    } else {
        serialized(es.drop_last()) + entry_record(es.last().inode, es.last().hash, es.last().name)
    }
}

/// Whether `serialize_into` stores `name`, and a reader gives it back as an
/// entry rather than as the end of the list: it is not empty, holds no '/'
/// and takes at most `MAX_FILENAME_LEN` bytes.
pub open spec fn storable_name(name: Seq<char>) -> bool {
    name.len() > 0 && !name.contains('/') && encode_utf8(name).len() <= MAX_FILENAME_LEN
}

/// Reading one record at `pos` of `data`.
pub open spec fn read_entry_at(data: Seq<u8>, pos: int) -> EntryRead {
    let n = data.len() as int;
    if pos < 0 || pos + ENTRY_HEADER_LEN > n {
        EntryRead::End { next: n }
    } else {
        let len = u16_at(data, pos + 16) as int;
        let start = pos + ENTRY_HEADER_LEN;
        if len == 0 {
            EntryRead::End { next: start }
        } else if start + len > n {
            EntryRead::Invalid { err: DirectoryError::Io(IoFault::UnexpectedEof), next: n }
        } else if valid_utf8(data.subrange(start, start + len)) {
            EntryRead::Entry {
                entry: EntryView {
                    inode: u64_at(data, pos),
                    hash: u64_at(data, pos + 8),
                    name: decode_utf8(data.subrange(start, start + len)),
                },
                next: start + len,
            }
        } else {
            EntryRead::Invalid { err: DirectoryError::Utf8Error, next: start + len }
        }
    }
}

/// The records of a directory block from `pos` on: the entries read in order,
/// then `Some(offset)` of the place where the list ends, or `None` when a
/// record cannot be read.
pub struct DirScan {
    pub entries: Seq<EntryView>,
    pub end: Option<int>,
}

pub open spec fn scan_entries(data: Seq<u8>, pos: int) -> DirScan
    decreases data.len() - pos,
{
    match read_entry_at(data, pos) {
        EntryRead::End { .. } => DirScan { entries: Seq::empty(), end: Some(pos) },
        EntryRead::Invalid { .. } => DirScan { entries: Seq::empty(), end: None },
        EntryRead::Entry { entry, next } => {
            if pos < next <= data.len() {
                let rest = scan_entries(data, next);
                DirScan { entries: seq![entry] + rest.entries, end: rest.end }
            } else {
                DirScan { entries: Seq::empty(), end: None }
            }
        },
    }
}

/// The views of a list of entries.
pub open spec fn entry_views(v: Seq<DirectoryEntry>) -> Seq<EntryView> {
    v.map_values(|e: DirectoryEntry| e@)
}

/// The entries that walking a block record by record yields from `pos` on: a
/// record that cannot be read is passed over, and the walk goes on after it
/// until the list ends.
pub open spec fn listed_entries(data: Seq<u8>, pos: int) -> Seq<EntryView>
    decreases data.len() - pos,
{
    if pos < 0 || pos >= data.len() {
        Seq::empty()
    } else {
        match read_entry_at(data, pos) {
            EntryRead::End { .. } => Seq::empty(),
            EntryRead::Entry { entry, next } => if pos < next {
                seq![entry] + listed_entries(data, next)
            } else {
                seq![entry]
            },
            EntryRead::Invalid { next, .. } => if pos < next {
                listed_entries(data, next)
            } else {
                Seq::empty()
            },
        }
    }
}

/// The entries that a `DirectoryIterator` over `data` yields, records that
/// cannot be read left out.
pub fn block_entries(data: &[u8]) -> (r: Vec<DirectoryEntry>)
    ensures
        entry_views(r@) == listed_entries(data@, 0),
{
    let mut out: Vec<DirectoryEntry> = Vec::new();
    let mut it = DirectoryIterator::new(data);
    assert(entry_views(out@) =~= Seq::<EntryView>::empty());
    loop
        invariant
            it.data() == data@,
            0 <= it.position(),
            listed_entries(data@, 0) == entry_views(out@) + listed_entries(data@, it.position()),
        decreases data@.len() - it.position(),
    {
        let ghost pos = it.position();
        match it.next() {
            None => {
                proof {
                    assert(listed_entries(data@, pos) =~= Seq::<EntryView>::empty());
                    assert(entry_views(out@) + Seq::<EntryView>::empty() =~= entry_views(out@));
                }
                return out;
            },
            Some(Ok(e)) => {
                proof {
                    let rest = listed_entries(data@, it.position());
                    assert(listed_entries(data@, pos) == seq![e@] + rest);
                    assert(entry_views(out@.push(e)) =~= entry_views(out@).push(e@));
                    assert(entry_views(out@) + (seq![e@] + rest) =~= entry_views(out@).push(e@) + rest);
                }
                out.push(e);
            },
            Some(Err(_)) => {},
        }
    }
}

/// The inode of the first entry named `name`.
pub open spec fn find_inode(entries: Seq<EntryView>, name: Seq<char>) -> Option<u64>
    decreases entries.len(),
{
    if entries.len() == 0 {
        None
    } else if entries[0].name == name {
        Some(entries[0].inode)
    } else {
        find_inode(entries.drop_first(), name)
    }
}

/// Reads the records of a directory block from its start: the entries before
/// the list ends, and where it ends (`None` when a record cannot be read).
pub fn read_entries(data: &[u8]) -> (r: (Vec<DirectoryEntry>, Option<usize>))
    ensures
        entry_views(r.0@) == scan_entries(data@, 0).entries,
        match scan_entries(data@, 0).end {
            Some(e) => r.1 == Some(e as usize),
            None => r.1 is None,
        },
{
    let mut out: Vec<DirectoryEntry> = Vec::new();
    let mut pos: usize = 0;
    let n = data.len();
    loop
        invariant
            n == data@.len(),
            pos <= n,
            scan_entries(data@, 0).entries == entry_views(out@) + scan_entries(data@, pos as int).entries,
            scan_entries(data@, 0).end == scan_entries(data@, pos as int).end,
        decreases n - pos,
    {
        let start = pos;
        match DirectoryEntry::deserialize_from(data, &mut pos) {
            Ok(Some(e)) => {
                proof {
                    let rest = scan_entries(data@, pos as int);
                    assert(scan_entries(data@, start as int).entries == seq![e@] + rest.entries);
                    assert(entry_views(out@.push(e)) =~= entry_views(out@).push(e@));
                    assert(entry_views(out@) + (seq![e@] + rest.entries) =~= entry_views(out@).push(e@) + rest.entries);
                }
                out.push(e);
            },
            Ok(None) => {
                proof {
                    assert(scan_entries(data@, start as int).entries =~= Seq::<EntryView>::empty());
                    assert(entry_views(out@) + Seq::<EntryView>::empty() =~= entry_views(out@));
                }
                return (out, Some(start));
            },
            Err(_) => {
                proof {
                    assert(scan_entries(data@, start as int).entries =~= Seq::<EntryView>::empty());
                    assert(entry_views(out@) + Seq::<EntryView>::empty() =~= entry_views(out@));
                }
                return (out, None);
            },
        }
    }
}

/// The inode of the first entry named `name`.
pub fn find_entry(entries: &Vec<DirectoryEntry>, name: &String) -> (r: Option<u64>)
    ensures
        r == find_inode(entry_views(entries@), name@),
{
    let n = entries.len();
    let mut i: usize = 0;
    assert(entry_views(entries@).subrange(0, n as int) =~= entry_views(entries@));
    while i < n
        invariant
            n == entries@.len(),
            i <= n,
            find_inode(entry_views(entries@), name@) == find_inode(
                entry_views(entries@).subrange(i as int, n as int),
                name@,
            ),
        decreases n - i,
    {
        let ghost rest = entry_views(entries@).subrange(i as int, n as int);
        if entries[i].name == *name {
            assert(rest[0] == entries@[i as int]@);
            return Some(entries[i].inode);
        }
        assert(rest.drop_first() =~= entry_views(entries@).subrange(i + 1, n as int));
        i = i + 1;
    }
    None
}

/// A stored record reads back as the entry it was made from, wherever it lies
/// and whatever follows it, when its name is not empty.
pub proof fn lemma_entry_round_trip(data: Seq<u8>, pos: int, inode: u64, hash: u64, name: Seq<char>)
    requires
        0 <= pos,
        0 < encode_utf8(name).len() <= MAX_FILENAME_LEN,
        pos + entry_record(inode, hash, name).len() <= data.len(),
        data.subrange(pos, pos + entry_record(inode, hash, name).len()) == entry_record(inode, hash, name),
    ensures
        entry_record(inode, hash, name).len() == ENTRY_HEADER_LEN + encode_utf8(name).len(),
        read_entry_at(data, pos) == (EntryRead::Entry {
            entry: EntryView { inode, hash, name },
            next: pos + entry_record(inode, hash, name).len(),
        }),
{
    lemma_le_lengths();
    let nb = encode_utf8(name);
    let len = nb.len() as u16;
    let rec = entry_record(inode, hash, name);
    assert(rec.len() == 18 + nb.len());
    let sub = data.subrange(pos, pos + rec.len());
    assert(data.subrange(pos, pos + 8) =~= sub.subrange(0, 8));
    assert(sub.subrange(0, 8) =~= le64(inode));
    lemma_u64_at_placed(data, pos, inode);
    assert(data.subrange(pos + 8, pos + 16) =~= sub.subrange(8, 16));
    assert(sub.subrange(8, 16) =~= le64(hash));
    lemma_u64_at_placed(data, pos + 8, hash);
    assert(data.subrange(pos + 16, pos + 18) =~= sub.subrange(16, 18));
    assert(sub.subrange(16, 18) =~= le16(len));
    lemma_u16_at_placed(data, pos + 16, len);
    assert(data.subrange(pos + 18, pos + 18 + nb.len()) =~= sub.subrange(18, rec.len() as int));
    assert(sub.subrange(18, rec.len() as int) =~= nb);
    encode_utf8_valid_utf8(name);
    encode_utf8_decode_utf8(name);
}

/// Reading a record depends only on the bytes of that record.
pub proof fn lemma_read_agree(b: Seq<u8>, c: Seq<u8>, pos: int, hi: int)
    requires
        b.len() == c.len(),
        0 <= pos <= hi <= b.len(),
        forall|k: int| pos <= k < hi ==> b[k] == c[k],
        read_entry_at(b, pos) matches EntryRead::Entry { next, .. } && next <= hi,
    ensures
        read_entry_at(c, pos) == read_entry_at(b, pos),
{
    let len = u16_at(b, pos + 16) as int;
    assert(b.subrange(pos, pos + 8) =~= c.subrange(pos, pos + 8));
    assert(b.subrange(pos + 8, pos + 16) =~= c.subrange(pos + 8, pos + 16));
    assert(b.subrange(pos + 16, pos + 18) =~= c.subrange(pos + 16, pos + 18));
    assert(b.subrange(pos + 18, pos + 18 + len) =~= c.subrange(pos + 18, pos + 18 + len));
}

/// Where a scan stops lies within the data, at or after where it began.
pub proof fn lemma_scan_end_bound(b: Seq<u8>, pos: int)
    requires
        0 <= pos <= b.len(),
    ensures
        scan_entries(b, pos).end matches Some(off) ==> pos <= off <= b.len(),
    decreases b.len() - pos,
{
    match read_entry_at(b, pos) {
        EntryRead::Entry { next, .. } => {
            if pos < next <= b.len() {
                lemma_scan_end_bound(b, next);
            }
        },
        _ => {},
    }
}

/// Placing a readable record where a list of records ends extends the list by
/// that record: the entries read before it are kept.
pub proof fn lemma_scan_append(b: Seq<u8>, c: Seq<u8>, pos: int, off: int, e: EntryView, next: int)
    requires
        b.len() == c.len(),
        0 <= pos <= b.len(),
        scan_entries(b, pos).end == Some(off),
        forall|k: int| 0 <= k < off ==> b[k] == c[k],
        read_entry_at(c, off) == (EntryRead::Entry { entry: e, next }),
        off < next <= c.len(),
    ensures
        scan_entries(c, pos).entries == scan_entries(b, pos).entries + seq![e] + scan_entries(c, next).entries,
    decreases b.len() - pos,
{
    lemma_scan_end_bound(b, pos);
    match read_entry_at(b, pos) {
        EntryRead::End { .. } => {
            assert(off == pos);
            assert(scan_entries(b, pos).entries =~= Seq::<EntryView>::empty());
            assert(scan_entries(c, pos).entries =~= seq![e] + scan_entries(c, next).entries);
            assert(Seq::<EntryView>::empty() + seq![e] + scan_entries(c, next).entries =~= seq![e] + scan_entries(c, next).entries);
        },
        EntryRead::Invalid { .. } => {},
        EntryRead::Entry { entry, next: n } => {
            if pos < n <= b.len() {
                lemma_scan_end_bound(b, n);
                lemma_read_agree(b, c, pos, n);
                lemma_scan_append(b, c, n, off, e, next);
                assert(scan_entries(c, pos).entries == seq![entry] + scan_entries(c, n).entries);
                assert(seq![entry] + (scan_entries(b, n).entries + seq![e] + scan_entries(c, next).entries)
                    =~= seq![entry] + scan_entries(b, n).entries + seq![e] + scan_entries(c, next).entries);
            }
        },
    }
}

/// Entries that do not hold a name do not hide a later one.
pub proof fn lemma_find_inode_append(a: Seq<EntryView>, e: EntryView, rest: Seq<EntryView>, name: Seq<char>)
    requires
        find_inode(a, name) is None,
        e.name == name,
    ensures
        find_inode(a + seq![e] + rest, name) == Some(e.inode),
    decreases a.len(),
{
    if a.len() == 0 {
        assert(a + seq![e] + rest =~= seq![e] + rest);
    } else {
        assert((a + seq![e] + rest).drop_first() =~= a.drop_first() + seq![e] + rest);
        lemma_find_inode_append(a.drop_first(), e, rest, name);
    }
}

/// Whether the name holds the path separator '/'.
fn name_has_separator(name: &str) -> (r: bool)
    ensures
        r == name@.contains('/'),
{
    let n = name.unicode_len();
    let mut i: usize = 0;
    while i < n
        invariant
            n == name@.len(),
            i <= n,
            forall|j: int| 0 <= j < i ==> name@[j] != '/',
        decreases n - i,
    {
        if name.get_char(i) == '/' {
            return true;
        }
        i = i + 1;
    }
    false
}

/// The string that UTF-8 bytes spell, or `None` when they are not UTF-8
/// (std's `String::from_utf8`, with its error dropped).
#[verifier::external_body]
fn string_from_utf8(bytes: Vec<u8>) -> (r: Option<String>)
    ensures
        r is Some <==> valid_utf8(bytes@),
        r matches Some(s) ==> s@ == decode_utf8(bytes@),
{
    String::from_utf8(bytes).ok()
}

impl DirectoryEntry {
    pub open spec fn view(&self) -> EntryView {
        EntryView { inode: self.inode, hash: self.hash, name: self.name@ }
    }

    /// Appends the entry's record to `writer`. A name holding '/' is refused
    /// with `Io(InvalidInput)`, a name longer than `MAX_FILENAME_LEN` bytes with
    /// `EntryTooLarge`; `writer` is then left as it was.
    pub fn serialize_into(&self, writer: &mut Vec<u8>) -> (r: Result<(), DirectoryError>)
        ensures
            self.name@.contains('/') ==> r == Err::<(), DirectoryError>(
                DirectoryError::Io(IoFault::InvalidInput),
            ),
            !self.name@.contains('/') && encode_utf8(self.name@).len() > MAX_FILENAME_LEN ==> r
                == Err::<(), DirectoryError>(DirectoryError::EntryTooLarge),
            r is Ok <==> !self.name@.contains('/') && encode_utf8(self.name@).len()
                <= MAX_FILENAME_LEN,
            r is Ok ==> final(writer)@ == old(writer)@ + entry_record(
                self.inode,
                self.hash,
                self.name@,
            ),
            r is Err ==> final(writer)@ == old(writer)@,
    {
        let name = self.name.as_str();
        if name_has_separator(name) {
            return Err(DirectoryError::Io(IoFault::InvalidInput));
        }
        let name_bytes = name.as_bytes();
        if name_bytes.len() > MAX_FILENAME_LEN {
            return Err(DirectoryError::EntryTooLarge);
        }
        push_u64(writer, self.inode);
        push_u64(writer, self.hash);
        push_u16(writer, name_bytes.len() as u16);
        push_all(writer, name_bytes);
        Ok(())
    }

    /// Reads the record at `*pos` of `data`, moving `*pos` as a reader over
    /// `data` would: `Ok(None)` when no further record follows (the block ends
    /// before a full header, or the name length is 0), `Err` when the name runs
    /// past the end or is not UTF-8.
    pub fn deserialize_from(data: &[u8], pos: &mut usize) -> (r: Result<Option<Self>, DirectoryError>)
        ensures
            match read_entry_at(data@, *old(pos) as int) {
                EntryRead::End { next } => r == Ok::<Option<Self>, DirectoryError>(None)
                    && *final(pos) == next,
                EntryRead::Entry { entry, next } => r matches Ok(Some(e)) && e@ == entry
                    && *final(pos) == next,
                EntryRead::Invalid { err, next } => r == Err::<Option<Self>, DirectoryError>(err)
                    && *final(pos) == next,
            },
    {
        let n = data.len();
        let p = *pos;
        if p > n || n - p < ENTRY_HEADER_LEN {
            *pos = n;
            return Ok(None);
        }
        proof {
            assert(p + ENTRY_HEADER_LEN <= n);
        }
        let inode = read_u64(data, p);
        let hash = read_u64(data, p + 8);
        let len = read_u16(data, p + 16) as usize;
        let start = p + ENTRY_HEADER_LEN;
        if len == 0 {
            // A zero-length name ends the list
            *pos = start;
            return Ok(None);
        }
        if n - start < len {
            *pos = n;
            return Err(DirectoryError::Io(IoFault::UnexpectedEof));
        }
        *pos = start + len;
        let mut name_buf: Vec<u8> = Vec::new();
        push_all(&mut name_buf, &data[start..start + len]);
        match string_from_utf8(name_buf) {
            Some(name) => Ok(Some(Self { inode, hash, name })),
            None => Err(DirectoryError::Utf8Error),
        }
    }
}

/// Walks the records of a directory block.
pub struct DirectoryIterator<'a> {
    data: &'a [u8],
    position: usize,
}

impl<'a> DirectoryIterator<'a> {
    pub closed spec fn data(&self) -> Seq<u8> {
        self.data@
    }

    pub closed spec fn position(&self) -> int {
        self.position as int
    }

    pub fn new(data: &'a [u8]) -> (r: Self)
        ensures
            r.data() == data@,
            r.position() == 0,
    {
        Self { data, position: 0 }
    }

    /// The next record: `None` once the position reached the end or no further
    /// record follows, `Some(Err(..))` for a record that cannot be read.
    pub fn next(&mut self) -> (r: Option<Result<DirectoryEntry, DirectoryError>>)
        ensures
            final(self).data() == old(self).data(),
            old(self).position() >= old(self).data().len() ==> r is None && final(self).position()
                == old(self).position(),
            old(self).position() < old(self).data().len() ==> match read_entry_at(
                old(self).data(),
                old(self).position(),
            ) {
                EntryRead::End { next } => r is None && final(self).position() == next,
                EntryRead::Entry { entry, next } => r matches Some(Ok(e)) && e@ == entry
                    && final(self).position() == next,
                EntryRead::Invalid { err, next } => r == Some(
                    Err::<DirectoryEntry, DirectoryError>(err),
                ) && final(self).position() == next,
            },
    {
        if self.position >= self.data.len() {
            return None;
        }
        let mut p = self.position;
        let res = DirectoryEntry::deserialize_from(self.data, &mut p);
        self.position = p;
        match res {
            Ok(Some(entry)) => Some(Ok(entry)),
            Ok(None) => None,
            Err(e) => Some(Err(e)),
        }
    }
}

} // verus!
