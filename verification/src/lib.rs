//! An encrypted record store: a table of file, directory and symlink records
//! whose file contents are encrypted, compressed and kept in one backing blob.

pub mod error;
pub mod filetime;
pub mod record;
pub mod fragments;
pub mod separation;
pub mod crypto;
pub mod table;
pub mod sizes;
pub mod deletion;
pub mod laws;
