//! A verified core of the littlefs embedded filesystem: on-disk tag
//! encoding, CRC, global state, the cached block-device layer, the
//! lookahead block allocator, the CTZ skip-lists that hold files, and
//! reading, writing, seeking and truncating files, inline or kept in
//! skip-lists.

pub mod error;
pub mod types;
pub mod util;
pub mod lfs_type;
pub mod tag;
pub mod crc;
pub mod lfs_gstate;
pub mod storage;
pub mod endian;
pub mod bd;
pub mod dir;
pub mod lfs;
pub mod block_alloc;
pub mod ctz;
pub mod ctz_list;
pub mod dir_get;
pub mod commit;
pub mod traverse;
pub mod fetch;
pub mod mount;
pub mod superblock;
pub mod fs;
pub mod file;
pub mod file_write;
pub mod laws;
