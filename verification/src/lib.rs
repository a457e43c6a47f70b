//! Disk image carving: file signatures, pattern search, and the on-disk
//! structures (MBR, NTFS, FAT16/32, EnCase evidence chunks) used to rebuild
//! files from a raw or evidence image.

pub mod binary;
pub mod disk_reader;
pub mod fs_parser;
pub mod simd_search;
pub mod file_types;
pub mod cli;
pub mod carver;
pub mod recovery;
pub mod e01;
pub mod naming;
