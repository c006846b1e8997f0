//! Read-only inspection of FAT12/FAT16/FAT32 volume images.
//!
//! A volume image is handed in as a plain byte vector. The library parses the
//! BIOS parameter block into a geometry record, translates between clusters,
//! sectors and byte offsets, walks cluster chains through the file allocation
//! table, and decodes directory regions, coalescing long-file-name shards with
//! their short entries. Every operation is specified and verified; the caller
//! is responsible only for obtaining the bytes.

pub mod bytes;
pub mod fat;
pub mod fat_entry;
pub mod numfmt;
pub mod stdlib;
pub mod tree;
