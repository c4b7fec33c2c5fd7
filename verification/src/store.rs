//! The store: where its files lie, and in which steps they are replaced.

use vstd::prelude::*;
use vstd::slice::slice_to_vec;
use vstd::string::*;
use crate::names::join_path;
use crate::names::joined;

verus! {

/// One step on the files of the store.
#[derive(Debug)]
pub enum FileOp {
    /// Create a directory and what leads to it, where it is not there yet.
    MakeDirs { path: String },
    /// Create a file, or empty it.
    Create { path: String },
    /// Write bytes at the end of a file that was just created.
    Write { path: String, data: Vec<u8> },
    /// Write the metadata at the end of a file that was just created.
    WriteMetadata { path: String },
    /// Bring a file that was just written to the disk.
    SyncFile { path: String },
    /// Give a file another name, in place of what had that name.
    Rename { from: String, to: String },
    /// Bring the names in a directory to the disk.
    SyncDir { path: String },
}

/// What a [`FileOp`] says.
#[verifier::ext_equal]
pub enum FileOpView {
    MakeDirs { path: Seq<char> },
    Create { path: Seq<char> },
    Write { path: Seq<char>, data: Seq<u8> },
    WriteMetadata { path: Seq<char> },
    SyncFile { path: Seq<char> },
    Rename { from: Seq<char>, to: Seq<char> },
    SyncDir { path: Seq<char> },
}

impl View for FileOp {
    type V = FileOpView;

    open spec fn view(&self) -> FileOpView {
        match self {
            FileOp::MakeDirs { path } => FileOpView::MakeDirs { path: path@ },
            FileOp::Create { path } => FileOpView::Create { path: path@ },
            FileOp::Write { path, data } => FileOpView::Write { path: path@, data: data@ },
            FileOp::WriteMetadata { path } => FileOpView::WriteMetadata { path: path@ },
            FileOp::SyncFile { path } => FileOpView::SyncFile { path: path@ },
            FileOp::Rename { from, to } => FileOpView::Rename { from: from@, to: to@ },
            FileOp::SyncDir { path } => FileOpView::SyncDir { path: path@ },
        }
    }
}

/// The steps in a list.
pub open spec fn steps_of(ops: Seq<FileOp>) -> Seq<FileOpView> {
    ops.map_values(|op: FileOp| op@)
}

/// The directory of the blobs in a store.
pub open spec fn blobs_dir_of(store_dir: Seq<char>) -> Seq<char> {
    joined(store_dir, "blobs"@)
}

/// The metadata file of a store.
pub open spec fn metadata_path_of(store_dir: Seq<char>) -> Seq<char> {
    joined(store_dir, "metadata.json"@)
}

/// The directory of a blob's file: named by the first two characters of the blob's name.
pub open spec fn blob_dir_of(store_dir: Seq<char>, blob: Seq<char>) -> Seq<char> {
    if blob.len() >= 2 {
        joined(blobs_dir_of(store_dir), blob.take(2))
    } else {
        blobs_dir_of(store_dir)
    }
}

/// The file of a blob.
pub open spec fn blob_path_of(store_dir: Seq<char>, blob: Seq<char>) -> Seq<char> {
    joined(blob_dir_of(store_dir, blob), blob)
}

/// The file that is written in place of the file `path`, until it is complete.
pub open spec fn scratch_of(path: Seq<char>) -> Seq<char> {
    path + ".tmp"@
}

/// The steps that keep `data` in the file `path` of directory `dir`, which may be new in the
/// directory `blobs`: the bytes are complete on the disk before the file gets its name.
pub open spec fn blob_steps(
    blobs: Seq<char>,
    dir: Seq<char>,
    path: Seq<char>,
    data: Seq<u8>,
) -> Seq<FileOpView> {
    seq![
        FileOpView::MakeDirs { path: dir },
        FileOpView::Create { path: scratch_of(path) },
        FileOpView::Write { path: scratch_of(path), data },
        FileOpView::SyncFile { path: scratch_of(path) },
        FileOpView::Rename { from: scratch_of(path), to: path },
        FileOpView::SyncDir { path: dir },
        FileOpView::SyncDir { path: blobs },
    ]
}

/// The byte that ends the metadata file.
pub open spec fn line_end() -> Seq<u8> {
    seq![10u8]
}

/// The steps that replace the metadata file of a store.
pub open spec fn metadata_steps(store_dir: Seq<char>) -> Seq<FileOpView> {
    let path = metadata_path_of(store_dir);
    seq![
        FileOpView::MakeDirs { path: store_dir },
        FileOpView::Create { path: scratch_of(path) },
        FileOpView::WriteMetadata { path: scratch_of(path) },
        FileOpView::Write { path: scratch_of(path), data: line_end() },
        FileOpView::SyncFile { path: scratch_of(path) },
        FileOpView::Rename { from: scratch_of(path), to: path },
        FileOpView::SyncDir { path: store_dir },
    ]
}

/// The directory of the blobs in a store.
pub fn blobs_dir(store_dir: &str) -> (r: String)
    ensures
        r@ == blobs_dir_of(store_dir@),
{
    join_path(store_dir, "blobs")
}

/// The metadata file of a store.
pub fn metadata_path(store_dir: &str) -> (r: String)
    ensures
        r@ == metadata_path_of(store_dir@),
{
    join_path(store_dir, "metadata.json")
}

/// The file that is written in place of the file `path`, until it is complete.
pub fn scratch_path(path: &str) -> (r: String)
    ensures
        r@ == scratch_of(path@),
{
    String::from_str(path).concat(".tmp")
}

/// The steps that keep `data` in the file `path` of directory `dir`, which may be new in the
/// directory `blobs`.
pub fn blob_plan(blobs: &str, dir: &str, path: &str, data: &[u8]) -> (r: Vec<FileOp>)
    ensures
        steps_of(r@) == blob_steps(blobs@, dir@, path@, data@),
{
    let mut ops: Vec<FileOp> = Vec::new();
    ops.push(FileOp::MakeDirs { path: String::from_str(dir) });
    ops.push(FileOp::Create { path: scratch_path(path) });
    ops.push(FileOp::Write { path: scratch_path(path), data: slice_to_vec(data) });
    ops.push(FileOp::SyncFile { path: scratch_path(path) });
    ops.push(FileOp::Rename { from: scratch_path(path), to: String::from_str(path) });
    ops.push(FileOp::SyncDir { path: String::from_str(dir) });
    ops.push(FileOp::SyncDir { path: String::from_str(blobs) });
    assert(steps_of(ops@) =~= blob_steps(blobs@, dir@, path@, data@));
    ops
}

/// The steps that replace the metadata file `path` of the store `store_dir`.
pub fn metadata_plan(store_dir: &str, path: &str) -> (r: Vec<FileOp>)
    requires
        path@ == metadata_path_of(store_dir@),
    ensures
        steps_of(r@) == metadata_steps(store_dir@),
{
    let mut end: Vec<u8> = Vec::new();
    end.push(10u8);
    assert(end@ =~= line_end());
    let mut ops: Vec<FileOp> = Vec::new();
    ops.push(FileOp::MakeDirs { path: String::from_str(store_dir) });
    ops.push(FileOp::Create { path: scratch_path(path) });
    ops.push(FileOp::WriteMetadata { path: scratch_path(path) });
    ops.push(FileOp::Write { path: scratch_path(path), data: end });
    ops.push(FileOp::SyncFile { path: scratch_path(path) });
    ops.push(FileOp::Rename { from: scratch_path(path), to: String::from_str(path) });
    ops.push(FileOp::SyncDir { path: String::from_str(store_dir) });
    assert(steps_of(ops@) =~= metadata_steps(store_dir@));
    ops
}

} // verus!
