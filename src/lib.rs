//! A read-only decoder for PennFat filesystem images: header geometry, the
//! file-allocation table, block addressing, block chains and directory entries.
pub mod error;
pub mod block;
pub mod image;
pub mod le;
pub mod text;
