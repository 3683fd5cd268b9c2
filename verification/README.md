# littlefs_rust_core

The core of a littlefs-style filesystem for small block devices, written in
Verus: the executable code carries `requires` / `ensures` contracts and is
proved against them.

## Layout

- `src/` is the verified library.
  - `storage.rs`: the block device (`Storage`), and an in-memory device.
  - `bd.rs`: read and program caches over the device, with a byte view of
    the device as the filesystem sees it, compare and CRC helpers.
  - `crc.rs`, `endian.rs`, `util.rs`, `tag.rs`: CRC-32, byte order, tags
    and arithmetic helpers, each with a spec of what it computes.
  - `block_alloc.rs`: the lookahead block allocator.
  - `ctz.rs`, `ctz_list.rs`: files stored as CTZ skip lists (find, extend,
    traverse).
  - `dir.rs`, `dir_get.rs`, `commit.rs`: metadata pairs, searches of their
    logs, allocating a pair, and appending attributes and CRCs to a log.
  - `fetch.rs`: loading a metadata pair, commit by commit, each commit
    checked against its CRC.
  - `traverse.rs`: the walk over the metadata pairs from the root, the
    blocks their entries and the open files use, the size of the
    filesystem, and the pair before a given one.
  - `mount.rs`: mounting: the walk with the superblock check and the
    global state added up.
  - `file.rs`, `file_write.rs`: file reads, writes, flushes, seeks and
    truncation, with read-after-write laws.
  - `lfs_gstate.rs`, `superblock.rs`, `fs.rs`, `lfs.rs`: global state,
    superblock checks and filesystem-wide state.
  - `laws.rs`: properties that span several operations.
- `tests/`: tests against the compiled library.
- `app/`: types that carry derives of outside crates.
