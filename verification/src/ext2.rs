//! The ext2 filesystem: on-disk records, layout, and the session that
//! reads and writes a mounted volume.

pub mod accounting;
pub mod bitmap;
pub mod copies;
pub mod data;
pub mod descriptor;
pub mod dir_entry;
pub mod file_laws;
pub mod file_tree;
pub mod holes;
pub mod inode;
pub mod laws;
pub mod mounted;
pub mod ops;
pub mod outcomes;
pub mod separation;
pub mod session;
pub mod soundness;
pub mod superblock;
pub mod tree;
pub mod volume;
