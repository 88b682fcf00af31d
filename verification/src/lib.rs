//! Core of a deduplicating, content-addressed archive repository.

pub mod address;
pub mod chunk_storage;
pub mod crypto;
pub mod gc;
pub mod hex;
pub mod htree;
pub mod htree_writer;
pub mod hydrogen;
pub mod repository;
