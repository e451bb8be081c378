//! An associative container built on open addressing with linear probing,
//! together with a symbol table that assigns each distinct token a unique,
//! sequential identifier in first-seen order.

pub mod hash_table;
pub mod key;
pub mod symbol_table;
