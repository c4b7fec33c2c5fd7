use magicfs::{BlobRef, Directory, Entry, Fetched, FileOp, MagicFS, Metadata, Owner, Reply, Step};
use std::collections::{BTreeMap, BTreeSet};

const OWNER: Owner = Owner { uid: 0, gid: 0 };

/// A disk that forgets what was not synced: its names and files as they are seen, the names as
/// they were last synced, the files whose bytes are synced, and the directories that are not.
#[derive(Clone, Default)]
struct Media {
    names: BTreeMap<String, usize>,
    kept: BTreeMap<String, usize>,
    bytes: Vec<Vec<u8>>,
    synced: BTreeSet<usize>,
    dirs: BTreeSet<String>,
    loose: BTreeSet<String>,
}

type Disk = BTreeMap<String, Vec<u8>>;

fn parent(path: &str) -> String {
    path.rsplit_once('/').unwrap().0.to_string()
}

impl Media {
    fn write(&mut self, path: &str, data: &[u8]) {
        let file = self.names[path];
        self.bytes[file].extend_from_slice(data);
        self.synced.remove(&file);
    }

    fn take(&mut self, op: &FileOp, json: &[u8]) {
        match op {
            FileOp::MakeDirs { path } => {
                let mut dir = path.clone();
                while !dir.is_empty() && self.dirs.insert(dir.clone()) {
                    self.loose.insert(dir.clone());
                    dir = parent(&dir);
                }
            }
            FileOp::Create { path } => {
                assert!(!self.names.contains_key(path));
                self.names.insert(path.clone(), self.bytes.len());
                self.bytes.push(Vec::new());
            }
            FileOp::Write { path, data } => self.write(path, data),
            FileOp::WriteMetadata { path } => self.write(path, json),
            FileOp::SyncFile { path } => {
                self.synced.insert(self.names[path]);
            }
            FileOp::Rename { from, to } => {
                let file = self.names.remove(from).unwrap();
                self.names.insert(to.clone(), file);
            }
            FileOp::SyncDir { path } => {
                self.kept.retain(|name, _| parent(name) != *path);
                for (name, file) in &self.names {
                    if parent(name) == *path {
                        self.kept.insert(name.clone(), *file);
                    }
                }
                self.loose.retain(|dir| parent(dir) != *path);
            }
        }
    }

    /// What a power loss may leave: names as they are now, where `fresh`, or as they were last
    /// synced; with or without the directories that are not synced; and no bytes that are not.
    fn left(&self, fresh: bool, lose_dirs: bool) -> Disk {
        let names = if fresh { &self.names } else { &self.kept };
        let mut disk = Disk::new();
        for (name, file) in names {
            let lost = self.loose.iter().any(|dir| name.starts_with(&format!("{}/", dir)));
            if !(lose_dirs && lost) {
                let bytes = &self.bytes[*file];
                let bytes = if self.synced.contains(file) { bytes } else { &vec![0; bytes.len() / 2] };
                disk.insert(name.clone(), bytes.clone());
            }
        }
        disk
    }
}

/// Takes the steps of a request, and gives the answer and all that a power loss may leave before
/// or after any of them.
fn finish(media: &mut Media, fs: &mut MagicFS, mut step: Step) -> (Result<Reply, i32>, Vec<Disk>) {
    let mut left = Vec::new();
    loop {
        match step {
            Step::Done(answer) => return (answer, left),
            Step::Perform { ops, then } => {
                for op in &ops {
                    media.take(op, &encode(fs.meta()));
                    for fresh in [false, true] {
                        for lose_dirs in [false, true] {
                            left.push(media.left(fresh, lose_dirs));
                        }
                    }
                }
                step = fs.resume(then, Ok(()));
            }
        }
    }
}

fn encode(meta: &Metadata) -> Vec<u8> {
    let mut text = format!("{} {}", meta.next_inode, meta.next_blob);
    for i in 0..meta.entries.len() {
        let (name, entry) = meta.entries.row(i);
        text.push_str(&format!("\n{} {} {}", name, entry.ino, entry.size));
        for piece in &entry.blobs {
            text.push_str(&format!(" {}", piece.blob));
        }
    }
    text.into_bytes()
}

fn open(disk: &Disk) -> MagicFS {
    let text = String::from_utf8(disk["/s/metadata.json"].clone()).unwrap();
    assert!(text.ends_with('\n'));
    let rows: Vec<Vec<&str>> = text.lines().map(|row| row.split(' ').collect()).collect();
    let mut entries = Directory::new();
    for row in &rows[1..] {
        let size: u64 = row[2].parse().unwrap();
        let blobs = row[3..]
            .iter()
            .map(|blob| BlobRef { blob: blob.to_string(), offset: 0, len: size })
            .collect();
        let ino = row[1].parse().unwrap();
        entries.insert(row[0].to_string(), Entry { ino, mode: 0o644, size, blobs });
    }
    let meta = Metadata {
        next_inode: rows[0][0].parse().unwrap(),
        next_blob: rows[0][1].parse().unwrap(),
        entries,
    };
    MagicFS::open("/s".to_string(), Some(meta)).0
}

fn read(disk: &Disk, fs: &MagicFS, ino: u64) -> Vec<u8> {
    let fetched: Fetched = Ok(fs.blobs_to_read(ino).iter().map(|path| disk[path].clone()).collect());
    assert!(fs.readable(ino, &fetched));
    fs.read(ino, 0, 1 << 20, &fetched).unwrap()
}

fn new_store() -> (MagicFS, Media) {
    let mut media = Media::default();
    let (mut fs, step) = MagicFS::open("/s".to_string(), None);
    assert_eq!(finish(&mut media, &mut fs, step).0, Ok(Reply::Empty));
    media.loose.clear();
    (fs, media)
}

#[test]
fn a_flush_survives_a_power_loss() {
    let (mut fs, mut media) = new_store();
    let fetched: Fetched = Ok(Vec::new());
    assert_eq!(fs.write(3, 0, b"remember", &fetched), Ok(8));
    let old = encode(fs.meta());
    let step = fs.flush(3);
    let (answer, left) = finish(&mut media, &mut fs, step);
    assert_eq!(answer, Ok(Reply::Empty));
    assert_eq!(left.len(), 14 * 4);
    let mut olds = 0;
    for disk in &left {
        let again = open(disk);
        assert_eq!(read(disk, &again, 2).len(), 35);
        if again.meta().next_blob == 2 {
            olds += 1;
            assert_eq!(encode(again.meta()), old);
            assert!(read(disk, &again, 3).is_empty());
        } else {
            assert_eq!(encode(again.meta()), encode(fs.meta()));
            assert_eq!(read(disk, &again, 3), b"remember".to_vec());
        }
    }
    assert_eq!(olds, 12 * 4 + 2);
    assert_eq!(open(&media.left(false, true)).meta().next_blob, 3);
}

#[test]
fn a_change_of_the_directory_survives_a_power_loss() {
    let (mut fs, mut media) = new_store();
    for round in 0..3 {
        let old = encode(fs.meta());
        let step = match round {
            0 => fs.create(1, Some("new"), 0o644, OWNER),
            1 => fs.rename(1, Some("hello.txt"), 1, Some("new"), 0),
            _ => fs.unlink(1, Some("notes.txt")),
        };
        let (answer, left) = finish(&mut media, &mut fs, step);
        assert!(answer.is_ok());
        for disk in &left {
            let again = open(disk);
            assert!(encode(again.meta()) == old || encode(again.meta()) == encode(fs.meta()));
            assert_eq!(read(disk, &again, 2).len(), 35);
        }
        assert_eq!(encode(open(&media.left(false, true)).meta()), encode(fs.meta()));
    }
}

#[test]
fn a_new_store_is_found_complete_or_without_metadata_after_a_power_loss() {
    let mut media = Media::default();
    let (mut fs, step) = MagicFS::open("/s".to_string(), None);
    let (answer, left) = finish(&mut media, &mut fs, step);
    assert_eq!(answer, Ok(Reply::Empty));
    let mut found = 0;
    for disk in &left {
        if disk.contains_key("/s/metadata.json") {
            found += 1;
            assert_eq!(encode(open(disk).meta()), encode(fs.meta()));
        }
    }
    assert!(found > 0 && found < left.len());
}

#[test]
fn unlinking_a_file_that_was_just_created_spends_only_its_inode() {
    let (mut fs, mut media) = new_store();
    assert_eq!(fs.write(3, 0, b"kept", &Ok(Vec::new())), Ok(4));
    let step = fs.create(1, Some("new"), 0o644, OWNER);
    assert!(finish(&mut media, &mut fs, step).0.is_ok());
    assert_eq!(fs.write(4, 3, b"lost", &Ok(Vec::new())), Ok(4));
    assert_eq!(fs.write(4, 0, b"lost", &Ok(Vec::new())), Ok(4));
    let step = fs.unlink(1, Some("new"));
    assert_eq!(finish(&mut media, &mut fs, step).0, Ok(Reply::Empty));
    assert_eq!((fs.meta().next_inode, fs.meta().next_blob), (5, 2));
    assert_eq!(fs.meta().entries.len(), 2);
    assert!(fs.staged(4).is_none());
    assert_eq!(fs.staged(3).map(|data| data.len()), Some(4));
    assert_eq!(fs.read_inode(4, &Ok(Vec::new())), Err(libc::ENOENT));
}
