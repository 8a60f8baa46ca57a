//! A hotness-aware, page-packed key-value store.
//!
//! Records are packed into fixed-size pages, pages are persisted as blocks of
//! a device image, and a decayed access counter per key steers rewrites of
//! frequently read keys onto pages of their own class.
pub mod bytes;
pub mod codec;
pub mod database;
pub mod device;
pub mod free_space;
pub mod hotness;
pub mod lru;
pub mod page;
pub mod page_manager;
pub mod slab;
