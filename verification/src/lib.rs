//! A single-file, disk-backed B+-tree storage engine.
//!
//! Keys are 64-bit unsigned integers; values are variable-length byte
//! strings. Records live in fixed-size pages held by a pager; a cursor
//! drives traversal and mutation. The host program owns the backing file
//! and hands the pager its bytes.
use vstd::prelude::*;

pub mod btree;
pub mod cell;
pub mod codec;
pub mod commands;
pub mod cursor;
pub mod layout;
pub mod page;
pub mod pager;
pub mod statement;
pub mod table;

verus! {

/// Interface of a record store keyed by 64-bit identifiers.
pub trait StorageEngine {
    /// Inserts a new record under `identifier`.
    fn insert(&mut self, identifier: u64, value: Vec<u8>) -> Result<(), String>;

    /// Replaces the record stored under `identifier`.
    fn update(&mut self, identifier: u64, value: Vec<u8>) -> Result<(), String>;

    /// Removes the record stored under `identifier`.
    fn remove(&mut self, identifier: u64) -> Result<(), String>;

    /// Retrieves the record stored under `identifier`.
    fn get(self, identifier: u64) -> Result<Vec<u8>, String>;
}

} // verus!
