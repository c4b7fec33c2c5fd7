use magicfs::{
    BlobRef, Directory, Entry, Fetched, FileOp, FileType, MagicFS, Metadata, Owner, Reply, Step, Task,
};
use std::collections::{HashMap, HashSet};

const OWNER: Owner = Owner { uid: 1000, gid: 100 };

/// A store in memory: its files and directories, and the step at which it starts to fail. The
/// step that fails leaves the file that it writes to half done.
struct Store {
    files: HashMap<String, Vec<u8>>,
    dirs: HashSet<String>,
    fail_at: Option<usize>,
    taken: usize,
}

fn parent(path: &str) -> String {
    path.rsplit_once('/').unwrap().0.to_string()
}

/// Metadata as text: the two numbers, then a line for each file.
fn encode(meta: &Metadata) -> Vec<u8> {
    let mut text = format!("{} {}", meta.next_inode, meta.next_blob);
    for i in 0..meta.entries.len() {
        let (name, entry) = meta.entries.row(i);
        text.push_str(&format!("\n{} {} {} {}", name, entry.ino, entry.mode, entry.size));
        for piece in &entry.blobs {
            text.push_str(&format!(" {} {} {}", piece.blob, piece.offset, piece.len));
        }
    }
    text.into_bytes()
}

fn decode(bytes: &[u8]) -> Metadata {
    let text = std::str::from_utf8(bytes).unwrap();
    let mut rows = text.lines().map(|row| row.split(' ').collect::<Vec<&str>>());
    let first = rows.next().unwrap();
    let mut entries = Directory::new();
    for row in rows {
        let blobs = row[4..]
            .chunks(3)
            .map(|piece| BlobRef {
                blob: piece[0].to_string(),
                offset: piece[1].parse().unwrap(),
                len: piece[2].parse().unwrap(),
            })
            .collect();
        let entry = Entry {
            ino: row[1].parse().unwrap(),
            mode: row[2].parse().unwrap(),
            size: row[3].parse().unwrap(),
            blobs,
        };
        entries.insert(row[0].to_string(), entry);
    }
    Metadata {
        next_inode: first[0].parse().unwrap(),
        next_blob: first[1].parse().unwrap(),
        entries,
    }
}

impl Store {
    fn new() -> Self {
        Store {
            files: HashMap::new(),
            dirs: HashSet::from(["".to_string()]),
            fail_at: None,
            taken: 0,
        }
    }

    fn perform(&mut self, ops: &[FileOp], json: &[u8]) -> Result<(), Option<i32>> {
        for op in ops {
            let fails = self.fail_at == Some(self.taken);
            self.taken += 1;
            let part = |data: &[u8]| data[..if fails { data.len() / 2 } else { data.len() }].to_vec();
            match op {
                FileOp::MakeDirs { path } => {
                    let mut dir = path.clone();
                    while !fails && self.dirs.insert(dir.clone()) {
                        dir = parent(&dir);
                    }
                }
                FileOp::Create { path } => {
                    assert!(self.dirs.contains(&parent(path)), "{}", path);
                    self.files.insert(path.clone(), Vec::new());
                }
                FileOp::Write { path, data } => {
                    self.files.get_mut(path).unwrap().extend(part(data));
                }
                FileOp::WriteMetadata { path } => {
                    self.files.get_mut(path).unwrap().extend(part(json));
                }
                FileOp::Rename { from, to } => {
                    if !fails {
                        let data = self.files.remove(from).unwrap();
                        self.files.insert(to.clone(), data);
                    }
                }
                FileOp::SyncFile { path } => {
                    assert!(self.files.contains_key(path));
                }
                FileOp::SyncDir { path } => {
                    assert!(self.dirs.contains(path), "{}", path);
                }
            }
            if fails {
                self.taken -= 1;
                return Err(Some(libc::ENOSPC));
            }
        }
        Ok(())
    }

    fn finish(&mut self, fs: &mut MagicFS, mut step: Step) -> Result<Reply, i32> {
        loop {
            match step {
                Step::Done(answer) => return answer,
                Step::Perform { ops, then } => {
                    let json = encode(fs.meta());
                    let outcome = self.perform(&ops, &json);
                    step = fs.resume(then, outcome);
                }
            }
        }
    }

    fn metadata(&self) -> Metadata {
        decode(&self.files["/s/metadata.json"])
    }

    fn reopen(&self) -> MagicFS {
        let (fs, step) = MagicFS::open("/s".to_string(), Some(self.metadata()));
        assert!(matches!(step, Step::Done(Ok(Reply::Empty))));
        fs
    }

    fn fetch(&self, fs: &MagicFS, ino: u64) -> Fetched {
        let mut blobs = Vec::new();
        for path in fs.blobs_to_read(ino) {
            match self.files.get(&path) {
                Some(data) => blobs.push(data.clone()),
                None => return Err(Some(libc::ENOENT)),
            }
        }
        Ok(blobs)
    }

    fn read(&self, fs: &MagicFS, ino: u64) -> Result<Vec<u8>, i32> {
        let fetched = self.fetch(fs, ino);
        assert!(fs.readable(ino, &fetched));
        fs.read(ino, 0, 1 << 20, &fetched)
    }

    fn write(&self, fs: &mut MagicFS, ino: u64, offset: i64, data: &[u8]) -> Result<u32, i32> {
        let fetched = self.fetch(fs, ino);
        fs.write(ino, offset, data, &fetched)
    }

    fn truncate(&self, fs: &mut MagicFS, ino: u64, size: u64) -> Result<u64, i32> {
        let fetched = self.fetch(fs, ino);
        fs.setattr(ino, Some(size), &fetched, OWNER).map(|attr| attr.size)
    }

    fn flush(&mut self, fs: &mut MagicFS, ino: u64) -> Result<Reply, i32> {
        let step = fs.flush(ino);
        self.finish(fs, step)
    }
}

fn new_store() -> (MagicFS, Store) {
    let (mut fs, step) = MagicFS::open("/s".to_string(), None);
    let mut store = Store::new();
    assert_eq!(store.finish(&mut fs, step), Ok(Reply::Empty));
    (fs, store)
}

fn create(fs: &mut MagicFS, store: &mut Store, name: &str) -> u64 {
    let step = fs.create(1, Some(name), 0o100644, OWNER);
    match store.finish(fs, step) {
        Ok(Reply::Created { attr, .. }) => attr.ino,
        other => panic!("{:?}", other),
    }
}

fn names(fs: &MagicFS) -> Vec<String> {
    let mut list = Vec::new();
    for i in 0..fs.meta().entries.len() {
        list.push(fs.meta().entries.row(i).0.to_string());
    }
    list
}

#[test]
fn a_new_store_starts_with_two_files() {
    let (fs, store) = new_store();
    assert_eq!(names(&fs), vec!["hello.txt", "notes.txt"]);
    let hello = fs.lookup(1, Some("hello.txt"), OWNER).unwrap();
    assert_eq!((hello.ino, hello.size, hello.perm), (2, 35, 0o644));
    assert_eq!(
        store.read(&fs, 2),
        Ok(b"Hello from a tiny FUSE filesystem.\n".to_vec())
    );
    let notes = fs.lookup(1, Some("notes.txt"), OWNER).unwrap();
    assert_eq!((notes.ino, notes.size, notes.perm), (3, 0, 0o644));
    assert_eq!(store.read(&fs, 3), Ok(Vec::new()));
    assert_eq!((fs.meta().next_inode, fs.meta().next_blob), (4, 2));
    assert!(store.files.contains_key("/s/blobs/bl/blob-000000000001"));
    assert!(store.files["/s/metadata.json"].ends_with(b"\n"));
    assert_eq!(store.files.len(), 2);
}

#[test]
fn a_new_store_that_cannot_be_written_is_refused() {
    let (mut fs, step) = MagicFS::open("/s".to_string(), None);
    let mut store = Store::new();
    store.fail_at = Some(2);
    assert_eq!(store.finish(&mut fs, step), Err(libc::ENOSPC));
    assert_eq!(fs.meta().entries.len(), 0);
    assert_eq!(fs.meta().next_blob, 2);
    assert!(!store.files.contains_key("/s/metadata.json"));
}

#[test]
fn a_stored_store_is_opened_as_it_was_left() {
    let mut entries = Directory::new();
    entries.insert("f".to_string(), Entry { ino: 8, mode: 0o600, size: 4, blobs: Vec::new() });
    let meta = Metadata { next_inode: 9, next_blob: 5, entries };
    let (fs, step) = MagicFS::open("/s".to_string(), Some(meta));
    assert!(matches!(step, Step::Done(Ok(Reply::Empty))));
    assert_eq!((fs.meta().next_inode, fs.meta().next_blob), (9, 5));
    assert_eq!(fs.name_for_inode(8), Some("f"));
    assert_eq!(fs.read(8, 0, 10, &Ok(Vec::new())), Ok(vec![0, 0, 0, 0]));
}

#[test]
fn numbers_are_handed_out_once() {
    let (mut fs, _) = new_store();
    assert_eq!(fs.allocate_inode(), 4);
    assert_eq!(fs.allocate_inode(), 5);
    assert_eq!(fs.allocate_blob(), "blob-000000000002");
    assert_eq!(fs.allocate_blob(), "blob-000000000003");
    assert_eq!(fs.blob_path("blob-000000000003"), "/s/blobs/bl/blob-000000000003");
}

#[test]
fn blobs_lie_in_directories_named_by_their_first_two_characters() {
    let (fs, _) = new_store();
    assert_eq!(fs.blob_path("7f83"), "/s/blobs/7f/7f83");
    assert_eq!(fs.blob_dir("7f83"), "/s/blobs/7f");
    assert_eq!(fs.blob_path("éèê"), "/s/blobs/éè/éèê");
    assert_eq!(fs.blob_path("xy"), "/s/blobs/xy/xy");
    assert_eq!(fs.blob_path("x"), "/s/blobs/x");
    assert_eq!(fs.blob_dir(""), "/s/blobs");
}

#[test]
fn inodes_have_names() {
    let (mut fs, _) = new_store();
    assert_eq!(fs.name_for_inode(1), Some("."));
    assert_eq!(fs.name_for_inode(3), Some("notes.txt"));
    assert_eq!(fs.name_for_inode(4), None);
    assert_eq!(fs.entry_for_inode(2).unwrap().0, "hello.txt");
    assert!(fs.entry_for_inode(1).is_none());
    let (name, entry) = fs.entry_for_inode_mut(3).unwrap();
    assert_eq!(name, "notes.txt");
    entry.mode = 0o400;
    assert_eq!(fs.getattr(3, OWNER).unwrap().perm, 0o400);
    assert!(fs.entry_for_inode_mut(77).is_none());
}

#[test]
fn lookup_refuses_what_is_not_there() {
    let (fs, _) = new_store();
    assert_eq!(fs.lookup(2, Some("hello.txt"), OWNER), Err(libc::ENOENT));
    assert_eq!(fs.lookup(1, None, OWNER), Err(libc::ENOENT));
    assert_eq!(fs.lookup(1, Some("hello"), OWNER), Err(libc::ENOENT));
}

#[test]
fn lookup_and_getattr_agree() {
    let (fs, _) = new_store();
    for name in ["hello.txt", "notes.txt"] {
        let found = fs.lookup(1, Some(name), OWNER).unwrap();
        assert_eq!(fs.getattr(found.ino, OWNER), Ok(found));
    }
    assert_eq!(fs.getattr(1, OWNER), Ok(MagicFS::root_attr(OWNER)));
    assert_eq!(fs.getattr(9, OWNER), Err(libc::ENOENT));
}

#[test]
fn only_files_are_opened() {
    let (fs, _) = new_store();
    let opened = fs.open_file(2).unwrap();
    assert_eq!((opened.fh, opened.flags), (0, fuser::consts::FOPEN_DIRECT_IO));
    assert_eq!(fs.open_file(1), Err(libc::ENOENT));
    assert_eq!(fs.open_file(4), Err(libc::ENOENT));
}

#[test]
fn the_directory_is_no_file() {
    let (mut fs, store) = new_store();
    assert_eq!(store.read(&fs, 1), Err(libc::ENOENT));
    assert_eq!(store.write(&mut fs, 1, 0, b"x"), Err(libc::ENOENT));
    assert_eq!(store.truncate(&mut fs, 1, 0), Err(libc::ENOENT));
    assert!(fs.staged(1).is_none());
}

#[test]
fn a_write_is_read_back_before_it_is_committed() {
    let (mut fs, store) = new_store();
    assert_eq!(store.write(&mut fs, 2, 6, b"there"), Ok(5));
    assert_eq!(fs.read(2, 6, 5, &Err(None)), Ok(b"there".to_vec()));
    assert_eq!(
        store.read(&fs, 2),
        Ok(b"Hello therea tiny FUSE filesystem.\n".to_vec())
    );
    assert_eq!(fs.getattr(2, OWNER).unwrap().size, 35);
    assert!(fs.blobs_to_read(2).is_empty());
    assert_eq!(fs.meta().next_blob, 2);
}

#[test]
fn a_write_past_the_end_leaves_zeros() {
    let (mut fs, store) = new_store();
    assert_eq!(store.write(&mut fs, 3, 3, b"ab"), Ok(2));
    assert_eq!(store.read(&fs, 3), Ok(vec![0, 0, 0, b'a', b'b']));
    assert_eq!(store.write(&mut fs, 3, -5, b"Z"), Ok(1));
    assert_eq!(store.read(&fs, 3), Ok(vec![b'Z', 0, 0, b'a', b'b']));
    assert_eq!(store.write(&mut fs, 3, 7, b""), Ok(0));
    assert_eq!(store.read(&fs, 3).unwrap().len(), 7);
}

#[test]
fn a_write_leaves_other_files_alone() {
    let (mut fs, store) = new_store();
    let before = store.read(&fs, 2);
    assert_eq!(store.write(&mut fs, 3, 0, b"text"), Ok(4));
    assert_eq!(store.read(&fs, 2), before);
    assert_eq!(fs.getattr(3, OWNER).unwrap().size, 0);
}

#[test]
fn a_blob_that_cannot_be_read_refuses_the_request() {
    let (mut fs, _) = new_store();
    assert_eq!(fs.read(2, 0, 9, &Err(Some(libc::EACCES))), Err(libc::EACCES));
    assert_eq!(fs.read(2, 0, 9, &Err(None)), Err(libc::EIO));
    assert_eq!(fs.write(2, 0, b"x", &Err(None)), Err(libc::EIO));
    assert_eq!(fs.setattr(2, Some(1), &Err(Some(libc::EACCES)), OWNER), Err(libc::EACCES));
    assert!(fs.staged(2).is_none());
    assert!(!fs.readable(2, &Ok(vec![vec![0; 34]])));
    assert!(fs.readable(2, &Ok(vec![vec![0; 36]])));
}

#[test]
fn staging_gives_the_bytes_to_be_changed() {
    let (mut fs, store) = new_store();
    let fetched = store.fetch(&fs, 2);
    fs.stage_inode(2, &fetched).unwrap().truncate(5);
    assert_eq!(store.read(&fs, 2), Ok(b"Hello".to_vec()));
    fs.stage_inode(2, &Err(None)).unwrap().push(b'!');
    assert_eq!(fs.read_inode(2, &Err(None)), Ok(b"Hello!".to_vec()));
    assert_eq!(fs.stage_inode(9, &Ok(Vec::new())), Err(libc::ENOENT));
    assert_eq!(fs.read_inode(9, &Ok(Vec::new())), Err(libc::ENOENT));
}

#[test]
fn a_flush_is_read_back_from_the_disk() {
    let (mut fs, mut store) = new_store();
    assert_eq!(store.truncate(&mut fs, 3, 0), Ok(0));
    assert_eq!(store.write(&mut fs, 3, 0, b"remember the milk\n"), Ok(18));
    assert_eq!(store.flush(&mut fs, 3), Ok(Reply::Empty));
    assert!(fs.staged(3).is_none());
    assert_eq!(fs.blobs_to_read(3), vec!["/s/blobs/bl/blob-000000000002"]);
    assert_eq!(store.read(&fs, 3), Ok(b"remember the milk\n".to_vec()));
    assert_eq!(fs.getattr(3, OWNER).unwrap().size, 18);
    let entry = fs.entry_for_inode(3).unwrap().1;
    assert_eq!(entry.blobs.len(), 1);
    assert_eq!((entry.blobs[0].offset, entry.blobs[0].len), (0, 18));
    assert_eq!(store.metadata().next_blob, 3);
    assert_eq!(store.files.len(), 3);
}

#[test]
fn fsync_commits_as_flush_does() {
    for cut in 0..15 {
        let mut ends = Vec::new();
        for datasync in [None, Some(false), Some(true)] {
            let (mut fs, mut store) = new_store();
            assert_eq!(store.write(&mut fs, 3, 0, b"a"), Ok(1));
            store.fail_at = Some(store.taken + cut);
            let step = match datasync {
                None => fs.flush(3),
                Some(datasync) => fs.fsync(3, datasync),
            };
            let answer = store.finish(&mut fs, step);
            assert_eq!(answer.is_ok(), cut == 14);
            assert!(fs.staged(3).is_none());
            ends.push((answer, encode(fs.meta()), store.files, store.dirs));
        }
        assert_eq!(ends[0], ends[1]);
        assert_eq!(ends[0], ends[2]);
    }
}

#[test]
fn a_clean_file_is_flushed_without_a_step() {
    let (mut fs, mut store) = new_store();
    assert!(matches!(fs.flush(2), Step::Done(Ok(Reply::Empty))));
    assert!(matches!(fs.flush(77), Step::Done(Ok(Reply::Empty))));
    assert_eq!(store.write(&mut fs, 3, 0, b"a"), Ok(1));
    assert_eq!(store.flush(&mut fs, 3), Ok(Reply::Empty));
    assert!(matches!(fs.flush(3), Step::Done(Ok(Reply::Empty))));
    assert_eq!(fs.meta().next_blob, 3);
}

#[test]
fn an_emptied_file_needs_no_blob() {
    let (mut fs, mut store) = new_store();
    assert_eq!(store.truncate(&mut fs, 2, 0), Ok(0));
    assert_eq!(store.flush(&mut fs, 2), Ok(Reply::Empty));
    assert!(fs.entry_for_inode(2).unwrap().1.blobs.is_empty());
    assert_eq!(fs.meta().next_blob, 2);
    assert_eq!(store.read(&fs, 2), Ok(Vec::new()));
    assert!(store.files.contains_key("/s/blobs/bl/blob-000000000001"));
}

#[test]
fn a_flush_that_is_cut_off_leaves_old_or_new() {
    let hello = b"Hello from a tiny FUSE filesystem.\n".to_vec();
    for cut in 0..15 {
        let (mut fs, mut store) = new_store();
        assert_eq!(store.write(&mut fs, 2, 0, b"JELLO"), Ok(5));
        let old_metadata = store.files["/s/metadata.json"].clone();
        store.fail_at = Some(store.taken + cut);
        let answer = store.flush(&mut fs, 2);
        assert_eq!(answer.is_ok(), cut == 14);
        assert_eq!(store.files["/s/blobs/bl/blob-000000000001"], hello);
        let again = store.reopen();
        assert_eq!(store.read(&again, 3), Ok(Vec::new()));
        if cut < 13 {
            assert_eq!(store.files["/s/metadata.json"], old_metadata);
            assert_eq!(store.read(&again, 2), Ok(hello.clone()));
        } else {
            assert_eq!(store.metadata().next_blob, 3);
            assert!(store.read(&again, 2).unwrap().starts_with(b"JELLO from"));
        }
    }
}

#[test]
fn a_flush_whose_blob_fails_keeps_the_old_entry() {
    let (mut fs, mut store) = new_store();
    assert_eq!(store.write(&mut fs, 2, 0, b"JELLO"), Ok(5));
    store.fail_at = Some(store.taken + 2);
    assert_eq!(store.flush(&mut fs, 2), Err(libc::ENOSPC));
    assert!(fs.staged(2).is_none());
    assert_eq!(fs.getattr(2, OWNER).unwrap().size, 35);
    assert_eq!(
        store.read(&fs, 2),
        Ok(b"Hello from a tiny FUSE filesystem.\n".to_vec())
    );
    assert_eq!(fs.meta().next_blob, 3);
}

#[test]
fn a_failure_without_a_number_is_an_io_error() {
    let (mut fs, _) = new_store();
    assert!(matches!(fs.resume(Task::Finish, Err(None)), Step::Done(Err(code)) if code == libc::EIO));
}

#[test]
fn a_new_size_is_staged_and_reported() {
    let (mut fs, store) = new_store();
    let fetched = store.fetch(&fs, 2);
    let attr = fs.setattr(2, Some(1000), &fetched, OWNER).unwrap();
    assert_eq!((attr.size, attr.blocks), (1000, 2));
    assert_eq!(fs.getattr(2, OWNER).unwrap().size, 35);
    let attr = fs.setattr(2, None, &Ok(Vec::new()), OWNER).unwrap();
    assert_eq!((attr.size, attr.blocks), (1000, 2));
    let data = store.read(&fs, 2).unwrap();
    assert!(data.starts_with(b"Hello from"));
    assert_eq!(data[35..], vec![0; 965][..]);
    assert_eq!(fs.setattr(3, None, &Ok(Vec::new()), OWNER).unwrap().size, 0);
    assert_eq!(fs.setattr(9, None, &Ok(Vec::new()), OWNER), Err(libc::ENOENT));
}

#[test]
fn the_directory_is_listed_in_order() {
    let (mut fs, mut store) = new_store();
    create(&mut fs, &mut store, "a");
    let list = fs.readdir(1, 0).unwrap();
    let shown: Vec<(u64, i64, FileType, &str)> =
        list.iter().map(|e| (e.ino, e.offset, e.kind, e.name.as_str())).collect();
    assert_eq!(
        shown,
        vec![
            (1, 1, FileType::Directory, "."),
            (1, 2, FileType::Directory, ".."),
            (4, 3, FileType::RegularFile, "a"),
            (2, 4, FileType::RegularFile, "hello.txt"),
            (3, 5, FileType::RegularFile, "notes.txt"),
        ]
    );
}

#[test]
fn pages_of_the_directory_join() {
    let (fs, _) = new_store();
    let all: Vec<String> = fs.readdir(1, 0).unwrap().into_iter().map(|e| e.name).collect();
    for taken in 1..=all.len() {
        let mut seen = Vec::new();
        let mut offset = 0;
        loop {
            let page = fs.readdir(1, offset).unwrap();
            if page.is_empty() {
                break;
            }
            for entry in page.into_iter().take(taken) {
                offset = entry.offset;
                seen.push(entry.name);
            }
        }
        assert_eq!(seen, all);
    }
    assert!(fs.readdir(1, -1).unwrap().is_empty());
    assert!(fs.readdir(1, i64::MAX).unwrap().is_empty());
    assert_eq!(fs.readdir(2, 0).err(), Some(libc::ENOTDIR));
}

#[test]
fn a_created_file_is_found_and_empty() {
    let (mut fs, mut store) = new_store();
    let step = fs.create(1, Some("new"), 0o101755, OWNER);
    let Ok(Reply::Created { attr, opened }) = store.finish(&mut fs, step) else {
        panic!("not created");
    };
    assert_eq!((attr.ino, attr.size, attr.perm), (4, 0, 0o755));
    assert_eq!((attr.uid, attr.gid), (1000, 100));
    assert_eq!(opened, fs.open_file(4).unwrap());
    assert_eq!(fs.lookup(1, Some("new"), OWNER), Ok(attr));
    assert_eq!(store.read(&fs, 4), Ok(Vec::new()));
    let again = fs.create(1, Some("new"), 0o644, OWNER);
    assert_eq!(store.finish(&mut fs, again), Err(libc::EEXIST));
    assert_eq!(fs.meta().next_inode, 5);
}

#[test]
fn create_refuses_what_it_cannot_do() {
    let (mut fs, mut store) = new_store();
    let step = fs.create(2, Some("x"), 0o644, OWNER);
    assert_eq!(store.finish(&mut fs, step), Err(libc::ENOENT));
    let step = fs.create(1, None, 0o644, OWNER);
    assert_eq!(store.finish(&mut fs, step), Err(libc::EINVAL));
    assert_eq!((fs.meta().next_inode, fs.meta().entries.len()), (4, 2));
    store.fail_at = Some(store.taken + 5);
    let step = fs.create(1, Some("x"), 0o644, OWNER);
    assert_eq!(store.finish(&mut fs, step), Err(libc::ENOSPC));
    assert_eq!(fs.lookup(1, Some("x"), OWNER).map(|attr| attr.ino), Ok(4));
}

#[test]
fn a_removed_file_is_gone() {
    let (mut fs, mut store) = new_store();
    assert_eq!(store.write(&mut fs, 2, 0, b"x"), Ok(1));
    let step = fs.unlink(1, Some("hello.txt"));
    assert_eq!(store.finish(&mut fs, step), Ok(Reply::Empty));
    assert_eq!(fs.lookup(1, Some("hello.txt"), OWNER), Err(libc::ENOENT));
    assert_eq!(fs.getattr(2, OWNER), Err(libc::ENOENT));
    assert_eq!(store.read(&fs, 2), Err(libc::ENOENT));
    assert!(fs.staged(2).is_none());
    assert!(store.files.contains_key("/s/blobs/bl/blob-000000000001"));
    assert_eq!(names(&fs), vec!["notes.txt"]);
    let step = fs.unlink(1, Some("hello.txt"));
    assert_eq!(store.finish(&mut fs, step), Err(libc::ENOENT));
    let step = fs.unlink(1, None);
    assert_eq!(store.finish(&mut fs, step), Err(libc::EINVAL));
    let step = fs.unlink(3, Some("notes.txt"));
    assert_eq!(store.finish(&mut fs, step), Err(libc::ENOENT));
}

#[test]
fn a_renamed_file_keeps_its_inode_and_bytes() {
    let (mut fs, mut store) = new_store();
    let step = fs.rename(1, Some("hello.txt"), 1, Some("z"), 0);
    assert_eq!(store.finish(&mut fs, step), Ok(Reply::Empty));
    assert_eq!(names(&fs), vec!["notes.txt", "z"]);
    assert_eq!(fs.name_for_inode(2), Some("z"));
    assert_eq!(store.read(&fs, 2).unwrap().len(), 35);
    let step = fs.rename(1, Some("z"), 1, Some("hello.txt"), 0);
    assert_eq!(store.finish(&mut fs, step), Ok(Reply::Empty));
    assert_eq!(names(&fs), vec!["hello.txt", "notes.txt"]);
    let step = fs.rename(1, Some("notes.txt"), 1, Some("notes.txt"), 0);
    assert_eq!(store.finish(&mut fs, step), Ok(Reply::Empty));
    assert_eq!(fs.name_for_inode(3), Some("notes.txt"));
}

#[test]
fn rename_refuses_what_it_cannot_do() {
    let (mut fs, mut store) = new_store();
    for (parent, name, newparent, newname, flags, code) in [
        (2, Some("hello.txt"), 1, Some("z"), 0, libc::EINVAL),
        (1, Some("hello.txt"), 2, Some("z"), 0, libc::EINVAL),
        (1, Some("hello.txt"), 1, Some("z"), 1, libc::EINVAL),
        (1, None, 1, Some("z"), 0, libc::EINVAL),
        (1, Some("hello.txt"), 1, None, 0, libc::EINVAL),
        (1, Some("none"), 1, Some("z"), 0, libc::ENOENT),
        (1, Some("none"), 1, None, 0, libc::EINVAL),
    ] {
        let step = fs.rename(parent, name, newparent, newname, flags);
        assert_eq!(store.finish(&mut fs, step), Err(code));
    }
    assert_eq!(names(&fs), vec!["hello.txt", "notes.txt"]);
}

#[test]
fn a_replaced_file_is_gone_but_its_staged_bytes_stay() {
    let (mut fs, mut store) = new_store();
    assert_eq!(store.write(&mut fs, 3, 0, b"lost"), Ok(4));
    let step = fs.rename(1, Some("hello.txt"), 1, Some("notes.txt"), 0);
    assert_eq!(store.finish(&mut fs, step), Ok(Reply::Empty));
    assert_eq!(names(&fs), vec!["notes.txt"]);
    assert_eq!(fs.name_for_inode(2), Some("notes.txt"));
    assert_eq!(fs.getattr(3, OWNER), Err(libc::ENOENT));
    assert_eq!(store.read(&fs, 3), Ok(b"lost".to_vec()));
    assert_eq!(fs.setattr(3, Some(2), &Ok(Vec::new()), OWNER), Err(libc::ENOENT));
    assert_eq!(store.read(&fs, 3), Ok(b"lo".to_vec()));
    assert_eq!(store.flush(&mut fs, 3), Err(libc::ENOENT));
    assert!(fs.staged(3).is_none());
    assert_eq!(store.read(&fs, 2).unwrap().len(), 35);
}

#[test]
fn every_file_keeps_an_inode_and_a_blob_of_its_own() {
    let (mut fs, mut store) = new_store();
    for i in 0..20u8 {
        let ino = create(&mut fs, &mut store, &format!("f{}", i));
        assert_eq!(store.write(&mut fs, ino, 0, &[i]), Ok(1));
        assert_eq!(store.flush(&mut fs, ino), Ok(Reply::Empty));
        if i % 3 == 0 {
            let step = fs.unlink(1, Some(&format!("f{}", i)));
            assert_eq!(store.finish(&mut fs, step), Ok(Reply::Empty));
        }
    }
    let mut inodes = Vec::new();
    let mut blobs = Vec::new();
    for i in 0..fs.meta().entries.len() {
        let (_, entry) = fs.meta().entries.row(i);
        assert!(1 < entry.ino && entry.ino < fs.meta().next_inode);
        assert!(!inodes.contains(&entry.ino));
        inodes.push(entry.ino);
        for piece in &entry.blobs {
            assert!(!blobs.contains(&piece.blob));
            blobs.push(piece.blob.clone());
            assert_eq!((piece.offset, piece.len), (0, entry.size));
        }
    }
}

#[test]
fn a_store_that_is_opened_again_reads_the_same() {
    let (mut fs, mut store) = new_store();
    assert_eq!(store.write(&mut fs, 3, 0, b"kept"), Ok(4));
    assert_eq!(store.flush(&mut fs, 3), Ok(Reply::Empty));
    assert_eq!(store.write(&mut fs, 3, 0, b"lost"), Ok(4));
    let files = store.files.clone();
    let again = store.reopen();
    assert_eq!(store.files, files);
    assert_eq!(names(&again), names(&fs));
    assert_eq!(encode(again.meta()), encode(fs.meta()));
    assert_eq!(store.read(&again, 3), Ok(b"kept".to_vec()));
    assert_eq!(store.read(&again, 2).unwrap().len(), 35);
    assert!(again.staged(3).is_none());
}

#[test]
fn the_metadata_on_the_disk_follows_every_request() {
    let (mut fs, mut store) = new_store();
    assert_eq!(encode(store.reopen().meta()), encode(fs.meta()));
    create(&mut fs, &mut store, "new");
    assert_eq!(encode(store.reopen().meta()), encode(fs.meta()));
    assert_eq!(store.write(&mut fs, 4, 2, b"text"), Ok(4));
    assert_eq!(store.flush(&mut fs, 4), Ok(Reply::Empty));
    assert_eq!(encode(store.reopen().meta()), encode(fs.meta()));
    let step = fs.rename(1, Some("new"), 1, Some("notes.txt"), 0);
    assert_eq!(store.finish(&mut fs, step), Ok(Reply::Empty));
    assert_eq!(encode(store.reopen().meta()), encode(fs.meta()));
    assert_eq!(store.read(&store.reopen(), 4), Ok(b"\0\0text".to_vec()));
    let step = fs.unlink(1, Some("hello.txt"));
    assert_eq!(store.finish(&mut fs, step), Ok(Reply::Empty));
    assert_eq!(encode(store.reopen().meta()), encode(fs.meta()));
    assert_eq!(names(&store.reopen()), vec!["notes.txt"]);
}

#[test]
fn a_write_is_read_back_after_a_flush_and_renames() {
    for flush in [false, true] {
        let (mut fs, mut store) = new_store();
        let hello = store.read(&fs, 2);
        assert_eq!(store.write(&mut fs, 3, 4, b"bytes"), Ok(5));
        if flush {
            assert_eq!(store.flush(&mut fs, 3), Ok(Reply::Empty));
        }
        for (name, newname) in
            [("notes.txt", "a"), ("hello.txt", "b"), ("a", "hello.txt"), ("none", "hello.txt")]
        {
            let step = fs.rename(1, Some(name), 1, Some(newname), 0);
            assert_eq!(store.finish(&mut fs, step).is_ok(), name != "none");
        }
        assert_eq!(names(&fs), vec!["b", "hello.txt"]);
        assert_eq!(fs.name_for_inode(3), Some("hello.txt"));
        let fetched = store.fetch(&fs, 3);
        assert_eq!(fs.read(3, 4, 5, &fetched), Ok(b"bytes".to_vec()));
        assert_eq!(store.read(&fs, 2), hello);
    }
}

#[test]
fn a_new_store_that_is_cut_off_holds_no_metadata_or_all_of_it() {
    for cut in 0..15 {
        let (mut fs, step) = MagicFS::open("/s".to_string(), None);
        let mut store = Store::new();
        store.fail_at = Some(cut);
        assert_eq!(store.finish(&mut fs, step).is_ok(), cut == 14);
        if cut < 13 {
            assert!(!store.files.contains_key("/s/metadata.json"));
        } else {
            assert_eq!(names(&store.reopen()), vec!["hello.txt", "notes.txt"]);
            assert_eq!(store.read(&store.reopen(), 2).unwrap().len(), 35);
        }
    }
}

#[test]
fn a_change_of_the_directory_that_is_cut_off_leaves_old_or_new() {
    for cut in 0..8 {
        let (mut fs, mut store) = new_store();
        let old = store.files["/s/metadata.json"].clone();
        fs.allocate_blob();
        store.fail_at = Some(store.taken + cut);
        let step = fs.rename(1, Some("hello.txt"), 1, Some("z"), 0);
        assert_eq!(store.finish(&mut fs, step).is_ok(), cut == 7);
        if cut < 6 {
            assert_eq!(store.files["/s/metadata.json"], old);
        } else {
            assert_eq!(store.metadata().next_blob, 3);
            assert_eq!(names(&store.reopen()), vec!["notes.txt", "z"]);
        }
        assert_eq!(store.read(&fs, 2).unwrap().len(), 35);
    }
}
