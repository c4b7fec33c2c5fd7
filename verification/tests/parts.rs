use magicfs::{
    blob_plan, blobs_fit, blocks, errno, metadata_plan, read_window, set_len, write_at, BlobRef,
    Directory, Entry, FileOp, MagicFS, Metadata, Owner, FileType,
};

fn entry(ino: u64, size: u64) -> Entry {
    Entry { ino, mode: 0o600, size, blobs: Vec::new() }
}

fn piece(offset: u64, len: u64) -> BlobRef {
    BlobRef { blob: "b".to_string(), offset, len }
}

fn empty_fs() -> MagicFS {
    let meta = Metadata { next_inode: 2, next_blob: 1, entries: Directory::new() };
    MagicFS::open("s".to_string(), Some(meta)).0
}

#[test]
fn a_directory_is_walked_in_the_order_of_names() {
    let mut dir = Directory::new();
    for (i, name) in ["m", "a", "z", "b"].iter().enumerate() {
        dir.insert(name.to_string(), entry(i as u64 + 2, 0));
    }
    let names: Vec<&str> = (0..dir.len()).map(|i| dir.row(i).0).collect();
    assert_eq!(names, vec!["a", "b", "m", "z"]);
    assert_eq!(dir.get("m").unwrap().ino, 2);
    assert!(dir.get("mm").is_none());
    assert!(dir.contains_key("z"));
    assert!(!dir.contains_key(""));
}

#[test]
fn inserting_under_a_taken_name_replaces_its_entry() {
    let mut dir = Directory::new();
    dir.insert("x".to_string(), entry(2, 0));
    dir.insert("y".to_string(), entry(3, 0));
    dir.insert("x".to_string(), entry(4, 9));
    assert_eq!(dir.len(), 2);
    assert_eq!(dir.get("x").unwrap().ino, 4);
    assert_eq!(dir.get("x").unwrap().size, 9);
}

#[test]
fn removing_gives_the_entry_once() {
    let mut dir = Directory::new();
    dir.insert("x".to_string(), entry(2, 0));
    assert!(dir.remove("y").is_none());
    assert_eq!(dir.remove("x").unwrap().ino, 2);
    assert!(dir.remove("x").is_none());
    assert_eq!(dir.len(), 0);
}

#[test]
fn an_inode_under_two_names_is_found_under_the_first() {
    let mut dir = Directory::new();
    dir.insert("q".to_string(), entry(7, 1));
    dir.insert("c".to_string(), entry(7, 2));
    dir.insert("a".to_string(), entry(5, 3));
    assert_eq!(dir.find(7).unwrap().0, "c");
    assert!(dir.find(6).is_none());
    let (name, found) = dir.find_mut(7).unwrap();
    assert_eq!(name, "c");
    found.size = 99;
    assert_eq!(dir.get("c").unwrap().size, 99);
    assert_eq!(dir.get("q").unwrap().size, 1);
    assert!(dir.find_mut(6).is_none());
}

#[test]
fn writing_fills_gaps_with_zeros() {
    let mut buf = vec![1, 2, 3];
    write_at(&mut buf, 1, &[9]);
    assert_eq!(buf, vec![1, 9, 3]);
    write_at(&mut buf, 2, &[7, 8]);
    assert_eq!(buf, vec![1, 9, 7, 8]);
    write_at(&mut buf, 6, &[5]);
    assert_eq!(buf, vec![1, 9, 7, 8, 0, 0, 5]);
    write_at(&mut buf, 9, &[]);
    assert_eq!(buf, vec![1, 9, 7, 8, 0, 0, 5, 0, 0]);
}

#[test]
fn setting_the_length_cuts_or_extends() {
    let mut buf = vec![1, 2, 3];
    set_len(&mut buf, 5);
    assert_eq!(buf, vec![1, 2, 3, 0, 0]);
    set_len(&mut buf, 2);
    assert_eq!(buf, vec![1, 2]);
    set_len(&mut buf, 0);
    assert!(buf.is_empty());
}

#[test]
fn a_read_stays_within_the_file() {
    let data = vec![1, 2, 3, 4, 5];
    assert_eq!(read_window(&data, 0, 5), vec![1, 2, 3, 4, 5]);
    assert_eq!(read_window(&data, 1, 3), vec![2, 3, 4]);
    assert_eq!(read_window(&data, 3, 100), vec![4, 5]);
    assert_eq!(read_window(&data, 5, 1), Vec::<u8>::new());
    assert_eq!(read_window(&data, i64::MAX, u32::MAX), Vec::<u8>::new());
    assert_eq!(read_window(&data, -3, 2), vec![1, 2]);
    assert_eq!(read_window(&data, i64::MIN, 0), Vec::<u8>::new());
}

#[test]
fn reads_one_after_the_other_join() {
    let data: Vec<u8> = (0..50).collect();
    for offset in 0..60 {
        for first in 0..8u32 {
            let mut both = read_window(&data, offset, first);
            both.extend(read_window(&data, offset + first as i64, 5));
            assert_eq!(both, read_window(&data, offset, first + 5));
        }
    }
}

#[test]
fn later_blobs_lie_over_earlier_ones() {
    let fs = empty_fs();
    let mut file = entry(2, 6);
    file.blobs = vec![piece(0, 4), piece(2, 3)];
    let blobs = vec![vec![1, 1, 1, 1, 1], vec![2, 2, 2]];
    assert!(blobs_fit(&file, &blobs));
    assert_eq!(fs.read_committed(&file, &blobs), vec![1, 1, 2, 2, 2, 0]);
}

#[test]
fn a_file_without_blobs_reads_as_zeros() {
    let fs = empty_fs();
    assert_eq!(fs.read_committed(&entry(2, 3), &Vec::new()), vec![0, 0, 0]);
}

#[test]
fn blobs_that_do_not_fit_are_told() {
    let mut file = entry(2, 6);
    file.blobs = vec![piece(4, 2)];
    assert!(blobs_fit(&file, &vec![vec![1, 2]]));
    assert!(!blobs_fit(&file, &vec![vec![1]]));
    assert!(!blobs_fit(&file, &Vec::new()));
    file.blobs = vec![piece(5, 2)];
    assert!(!blobs_fit(&file, &vec![vec![1, 2]]));
    file.blobs = vec![piece(u64::MAX, 2)];
    assert!(!blobs_fit(&file, &vec![vec![1, 2]]));
    assert!(!blobs_fit(&entry(2, u64::MAX), &Vec::new()));
}

#[test]
fn blocks_are_counted_up() {
    assert_eq!(blocks(0), 0);
    assert_eq!(blocks(1), 1);
    assert_eq!(blocks(512), 1);
    assert_eq!(blocks(513), 2);
    assert_eq!(blocks(35), 1);
    assert_eq!(blocks(u64::MAX), u64::MAX.div_ceil(512));
    for size in 0..3000u64 {
        assert!(blocks(size) * 512 >= size);
        assert!(size == 0 || (blocks(size) - 1) * 512 < size);
    }
}

#[test]
fn an_error_without_a_number_is_an_io_error() {
    assert_eq!(errno(None), libc::EIO);
    assert_eq!(errno(Some(libc::ENOSPC)), libc::ENOSPC);
}

#[test]
fn attributes_of_files_and_of_the_directory() {
    let fs = empty_fs();
    let owner = Owner { uid: 501, gid: 20 };
    let file = fs.attr_for_entry(&entry(9, 1025), owner);
    assert_eq!((file.ino, file.size, file.blocks), (9, 1025, 3));
    assert_eq!((file.kind, file.perm, file.nlink), (FileType::RegularFile, 0o600, 1));
    assert_eq!((file.uid, file.gid, file.rdev), (501, 20, 0));
    assert_eq!((file.blksize, file.flags), (4096, 0));
    assert_eq!((file.atime, file.mtime, file.ctime, file.crtime), (0, 0, 0, 0));
    let root = MagicFS::root_attr(owner);
    assert_eq!((root.ino, root.size, root.blocks), (1, 0, 0));
    assert_eq!((root.kind, root.perm, root.nlink), (FileType::Directory, 0o755, 2));
    assert_eq!((root.uid, root.gid, root.rdev), (501, 20, 0));
    assert_eq!((root.blksize, root.flags), (4096, 0));
}

#[test]
fn a_blob_is_complete_before_it_gets_its_name() {
    let ops = blob_plan("d", "d/xy", "d/xy/xyz", &[1, 2]);
    let tmp = "d/xy/xyz.tmp";
    assert_eq!(ops.len(), 7);
    assert!(matches!(&ops[0], FileOp::MakeDirs { path } if path == "d/xy"));
    assert!(matches!(&ops[1], FileOp::Create { path } if path == tmp));
    assert!(matches!(&ops[2], FileOp::Write { path, data } if path == tmp && *data == vec![1, 2]));
    assert!(matches!(&ops[3], FileOp::SyncFile { path } if path == tmp));
    assert!(matches!(&ops[4], FileOp::Rename { from, to } if from == tmp && to == "d/xy/xyz"));
    assert!(matches!(&ops[5], FileOp::SyncDir { path } if path == "d/xy"));
    assert!(matches!(&ops[6], FileOp::SyncDir { path } if path == "d"));
}

#[test]
fn metadata_is_complete_before_it_gets_its_name() {
    let ops = metadata_plan("s", "s/metadata.json");
    let tmp = "s/metadata.json.tmp";
    assert_eq!(ops.len(), 7);
    assert!(matches!(&ops[0], FileOp::MakeDirs { path } if path == "s"));
    assert!(matches!(&ops[1], FileOp::Create { path } if path == tmp));
    assert!(matches!(&ops[2], FileOp::WriteMetadata { path } if path == tmp));
    assert!(matches!(&ops[3], FileOp::Write { path, data } if path == tmp && *data == b"\n".to_vec()));
    assert!(matches!(&ops[4], FileOp::SyncFile { path } if path == tmp));
    assert!(matches!(&ops[5], FileOp::Rename { from, to } if from == tmp && to == "s/metadata.json"));
    assert!(matches!(&ops[6], FileOp::SyncDir { path } if path == "s"));
}
