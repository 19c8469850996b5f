//! Block storage, GPT partitions and an ext2 filesystem session over
//! sector-addressable devices, with machine-checked contracts.

pub mod bytes;
pub mod console;
pub mod ext2;
pub mod formatting;
pub mod fs;
pub mod guid;
pub mod partitions;
pub mod pata;
pub mod sector_storage;
