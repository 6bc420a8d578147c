# OIFS

OIFS is a small inode file system kept in a single image file: a superblock,
an inode bitmap, a data bitmap, an inode table and 4 KB data blocks. Files
have up to 12 direct blocks (48 KB), may be compressed with zstd and, on an
encrypted file system, are sealed with XChaCha20-Poly1305 under a key derived
from a password with Argon2id.

## Layout

- `src/` is the library, verified with Verus. `DiskManager` holds the image
  in memory; every operation is specified over the image bytes.
  - `bitmap`, `allocator`: bit-level allocation of inodes and blocks.
  - `encoding`, `inode`, `superblock`, `directory`: the on-disk records and
    their round trips.
  - `compression`, `encryption`: the calls into zstd, argon2 and
    chacha20poly1305.
  - `disk`: format, open, create, lookup, read, write, delete, fragmentation
    counts and the rewrite pass of defragmentation.
  - `listing`, `commands`: directory listings and the path-level steps of the
    tools.
  - `fs_props`: properties that relate operations to one another (a read
    gives back what a write stored, a created name is found, a deleted one is
    not, a new image opens again, serialized directory records read back).
  - `defrag_props`: what the rewrite pass of defragmentation leaves: one run
    of blocks in use, and every inode it moved with the same mode, size,
    contents and lookups.
- `tests/`: tests of the library.
- `app/`: the `oifs` command-line tool (also an MCP server when started as
  `oifs_mcp`) and the C interface. It opens the image file under an
  exclusive lock, maps it, and writes the library's image back after each
  change.

## Keys in memory

The derived encryption key is held in an ordinary 32-byte array inside
`EncryptionKey`; it is not wiped when the value is dropped. The library has
no `Drop` impls (its types are verified, and a zeroizing derive is not among
what the verified code can use), so a program that needs the key's bytes
cleared from memory has to arrange that itself. `EncryptionKey::redacted()`
gives a description of a key that does not show its bytes.
