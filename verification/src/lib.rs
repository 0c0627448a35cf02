//! A separate-chaining hash table built on an SDBM-style string hasher,
//! together with a thin key-value store core around it.

pub mod db;
pub mod hash;
