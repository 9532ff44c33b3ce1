# WFS

A block-structured file system stored in a single drive image, served
through FUSE, with its logic verified by Verus.

- Blocks are 256 bytes. A file or directory has a start block (metadata:
  indexes, permissions, type, times, owner, size and a 208-byte name) and a
  chain of data blocks, each holding 248 bytes of content and the index of
  the next block. A directory's content is a sequence of 4-byte entries,
  each the index of a start block; `u32::MAX` marks a free entry.
- The root directory's start block is block 1. A new drive image must be all
  zero bytes; `init` then writes the root directory.

## Layout

- `src/` — the verified library (crate `wfs`):
  - `blocks.rs`, `ne_bytes.rs`: the block types and their byte layout;
  - `drive.rs`: a drive image held in memory, read and written by block;
  - `drive_actions/`: block I/O, chains, free blocks, files, directories,
    deletion, path resolution;
  - `filesystem.rs`: the file system requests once paths are resolved;
  - `laws.rs`, `directory_laws.rs`, `deletion_laws.rs`, `creation_laws.rs`,
    `lookup_laws.rs`, `truncate_laws.rs`, `frame_laws.rs`: what holds across
    operations (a write is read back, changes only its own file and keeps
    files consistent, a chain grows by free blocks, an added entry is
    listed, a removed one is not, a new directory lists nothing, a created
    entry is found by its name and path, a moved entry is listed in its new
    directory only, a deleted file's blocks are zero, deleting a directory
    deletes its files, setting a file's length keeps its first bytes and
    pads it with zero bytes).
- `tests/` — tests of the library on concrete drive images.
- `app/` — the `WFS <target> <mountpoint>` program: FUSE plumbing, file I/O
  of the image, error numbers and file handles.
