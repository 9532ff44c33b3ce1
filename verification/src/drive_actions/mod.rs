//! The actions that read and change the file system on a drive.

/// Reading, writing and deleting single blocks.
pub mod block_actions;
/// Chains of data blocks, their content and directory entries.
pub mod data_block_actions;
/// Finding blocks that are free.
pub mod drive_utils;
/// Growing, reading and shrinking files.
pub mod file_utils;
/// Deleting data, files and directories.
pub mod deletion_utils;
/// Adding, removing and listing directory entries.
pub mod directory_actions;
/// Creating files and directories and writing to files.
pub mod write_utils;
/// Finding start blocks by name and by path.
pub mod start_block_actions;
