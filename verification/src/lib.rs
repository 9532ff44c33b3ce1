//! WFS: a block-structured file system stored in a single drive image.
//!
//! Every block is 256 bytes long. A file or directory is described by a
//! start block (its metadata) and a chain of data blocks, each holding 248
//! bytes of content and the index of the next block of the chain.

pub mod ne_bytes;
pub mod blocks;
pub mod results;
pub mod drive;
pub mod drive_actions;
pub mod laws;
pub mod filesystem;
pub mod directory_laws;
pub mod deletion_laws;
pub mod creation_laws;
pub mod lookup_laws;
pub mod truncate_laws;
pub mod frame_laws;
pub mod attribute_laws;
