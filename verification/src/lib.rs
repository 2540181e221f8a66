//! Build-time generator for a two-way (cuckoo) perfect hash table.
//!
//! A fixed dictionary of entries is placed into a 1024-slot table using two
//! Pearson hash functions whose 256-byte permutation tables are shuffled by a
//! deterministic legacy pseudo-random sequence.  The search reshuffles and
//! retries until every entry has a slot.

pub mod cuckoo;
pub mod errors;
pub mod pearson;
pub mod rng;
pub mod rom;
pub mod search;
pub mod symbol_table;
pub mod word;
