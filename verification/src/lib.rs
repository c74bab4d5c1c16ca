//! A FAT32 filesystem engine for a small bare-metal kernel, together with a
//! few of the kernel's plain support types.
//!
//! The engine works against a block storage device addressed by byte offset.
//! It follows cluster chains through the allocation table, decodes and encodes
//! the fixed 32-byte directory records (8.3 short names and multi-fragment
//! long names linked by checksum), builds a queryable listing of a directory,
//! and supports byte-range read/write plus create/delete on top of that.

pub mod bytes;
pub mod codec;
pub mod device;
pub mod fat;
pub mod graphic;
pub mod name;
pub mod ops;
pub mod trap;
pub mod tree;
