//! What is reported of a file or of the directory.

use vstd::prelude::*;
use crate::directory::Entry;
use crate::directory::EntryView;
use crate::fs::MagicFS;

verus! {

/// The inode of the one directory.
pub const ROOT: u64 = 1;

/// For how many seconds the kernel may keep what it was told of a file.
pub const TTL_SECS: u64 = 1;

/// The size of the blocks in which the space of a file is counted.
pub const BLOCK_BYTES: u64 = 512;

/// The permissions of the files that a new store starts with.
pub const DEFAULT_FILE_MODE: u16 = 0o644;

/// The permissions of the one directory.
pub const ROOT_MODE: u16 = 0o755;

/// What kind of thing a name stands for.
#[derive(Clone, Copy, Debug, PartialEq, Eq, Structural)]
pub enum FileType {
    Directory,
    RegularFile,
}

/// Who owns everything in the filesystem.
#[derive(Clone, Copy, Debug, PartialEq, Eq, Structural)]
pub struct Owner {
    pub uid: u32,
    pub gid: u32,
}

/// The attributes of a file or of the directory. Times are seconds since the epoch.
#[derive(Clone, Copy, Debug, PartialEq, Eq, Structural)]
pub struct FileAttr {
    pub ino: u64,
    pub size: u64,
    pub blocks: u64,
    pub atime: u64,
    pub mtime: u64,
    pub ctime: u64,
    pub crtime: u64,
    pub kind: FileType,
    pub perm: u16,
    pub nlink: u32,
    pub uid: u32,
    pub gid: u32,
    pub rdev: u32,
    pub blksize: u32,
    pub flags: u32,
}

/// The number of blocks that hold `size` bytes.
pub open spec fn blocks_of(size: u64) -> u64 {
    ((size + BLOCK_BYTES - 1) / BLOCK_BYTES as int) as u64
}

/// The attributes of a regular file of `size` bytes.
pub open spec fn file_attr(ino: u64, mode: u16, size: u64, owner: Owner) -> FileAttr {
    FileAttr {
        ino,
        size,
        blocks: blocks_of(size),
        atime: 0,
        mtime: 0,
        ctime: 0,
        crtime: 0,
        kind: FileType::RegularFile,
        perm: mode,
        nlink: 1,
        uid: owner.uid,
        gid: owner.gid,
        rdev: 0,
        blksize: 4096,
        flags: 0,
    }
}

/// The attributes of a file as it was last committed.
pub open spec fn entry_attr(entry: EntryView, owner: Owner) -> FileAttr {
    file_attr(entry.ino, entry.mode, entry.size, owner)
}

/// The attributes of the one directory.
pub open spec fn directory_attr(owner: Owner) -> FileAttr {
    FileAttr {
        ino: ROOT,
        size: 0,
        blocks: 0,
        atime: 0,
        mtime: 0,
        ctime: 0,
        crtime: 0,
        kind: FileType::Directory,
        perm: ROOT_MODE,
        nlink: 2,
        uid: owner.uid,
        gid: owner.gid,
        rdev: 0,
        blksize: 4096,
        flags: 0,
    }
}

/// The blocks of a file hold its bytes, and one block less would not.
pub proof fn blocks_cover_size(size: u64)
    ensures
        blocks_of(size) * BLOCK_BYTES >= size,
        size > 0 ==> (blocks_of(size) - 1) * BLOCK_BYTES < size,
        size == 0 ==> blocks_of(size) == 0,
{
}

/// The number of blocks that hold `size` bytes.
pub fn blocks(size: u64) -> (r: u64)
    ensures
        r == blocks_of(size),
{
    let whole: u64 = size / BLOCK_BYTES;
    if size % BLOCK_BYTES == 0 {
        whole
    } else {
        whole + 1
    }
}

impl MagicFS {
    /// The attributes of a file as it was last committed.
    pub fn attr_for_entry(&self, entry: &Entry, owner: Owner) -> (r: FileAttr)
        ensures
            r == entry_attr(entry@, owner),
    {
        FileAttr {
            ino: entry.ino,
            size: entry.size,
            blocks: blocks(entry.size),
            atime: 0,
            mtime: 0,
            ctime: 0,
            crtime: 0,
            kind: FileType::RegularFile,
            perm: entry.mode,
            nlink: 1,
            uid: owner.uid,
            gid: owner.gid,
            rdev: 0,
            blksize: 4096,
            flags: 0,
        }
    }

    /// The attributes of the one directory.
    pub fn root_attr(owner: Owner) -> (r: FileAttr)
        ensures
            r == directory_attr(owner),
    {
        FileAttr {
            ino: ROOT,
            size: 0,
            blocks: 0,
            atime: 0,
            mtime: 0,
            ctime: 0,
            crtime: 0,
            kind: FileType::Directory,
            perm: ROOT_MODE,
            nlink: 2,
            uid: owner.uid,
            gid: owner.gid,
            rdev: 0,
            blksize: 4096,
            flags: 0,
        }
    }
}

} // verus!
