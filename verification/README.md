# magicfs

A small FUSE filesystem whose core is verified with Verus. It mounts one directory where tools
like `ls`, `cat`, `echo`, `mv` and `rm` work, while the store behind it is a metadata file and
blob files named by allocated IDs:

```text
/tmp/magicfs-store/
  metadata.json
  blobs/
    bl/
      blob-000000000001
```

A blob lies in a directory named by the first two characters of its ID.

Writes are staged in memory. A flush or an fsync keeps them in a new blob and then replaces
`metadata.json` atomically.

## Layout

- `src/` is the verified library. It decides what each request makes of the filesystem and which
  steps have to be taken on the store, and touches neither the kernel nor the disk.
  - `names`: the order of names, the names of blobs, paths.
  - `directory`: entries, kept in the order of their names.
  - `contents`: the bytes of a file.
  - `attr`, `errno`: attributes and error numbers.
  - `store`: the files of a store and the steps that replace them.
  - `model`: the state of the filesystem and the meaning of each request.
  - `fs`: the filesystem itself.
  - `consistency`: what holds at all times.
  - `disk`: what steps make of a disk, also where they are cut off.
  - `durability`: what is on the disk of the filesystem while the steps of a request are taken,
    and what a store gives back when it is opened again.
  - `media`: a disk when the power may fail: what the syncs among the steps are for.
  - `power`: what a power loss leaves of the filesystem.
  - `reading`: what is read of a file after writes, flushes and renames.
  - `laws`: what else callers can rely on over several requests.
- `app/` mounts a store: it takes the steps and talks to the kernel.
- `tests/` runs the library.

## Running it

```console
magicfs <mountpoint> [store-dir]
```

Unmount with `fusermount3 -u <mountpoint>`. The program logs the requests that it receives.
