//! The core of a small filesystem that keeps its directory as one metadata file and the
//! contents of its files as blob files.
//!
//! The library decides; it touches neither the kernel nor the disk. A request that needs the
//! disk hands back the file operations to perform, in order, and is resumed with how they ended.

pub mod attr;
pub mod behaviour;
pub mod consistency;
pub mod contents;
pub mod directory;
pub mod disk;
pub mod durability;
pub mod errno;
pub mod fs;
pub mod laws;
pub mod media;
pub mod model;
pub mod names;
pub mod power;
pub mod reading;
pub mod store;

pub use attr::{blocks, FileAttr, FileType, Owner};
pub use attr::{BLOCK_BYTES, DEFAULT_FILE_MODE, ROOT, ROOT_MODE, TTL_SECS};
pub use contents::{blobs_fit, read_window, set_len, write_at};
pub use directory::{BlobRef, Directory, Entry, Metadata};
pub use errno::{errno, EEXIST, EINVAL, EIO, ENOENT, ENOTDIR};
pub use fs::{DirEntry, Fetched, MagicFS, Step, Task};
pub use model::{Opened, Reply, FOPEN_DIRECT_IO};
pub use names::{blob_name, join_path, order_names, NameOrder};
pub use store::{blob_plan, blobs_dir, metadata_path, metadata_plan, scratch_path, FileOp};
