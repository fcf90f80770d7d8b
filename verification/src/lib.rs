//! Verified core of a set of small network services: a sorted price store
//! with range averages, a primality answerer, a key-value store with a
//! protected version key, and a chat room with its line framing.

pub mod binary_search;
pub mod buffer;
pub mod price_store;
pub mod prime;
pub mod text;
pub mod kv_store;
pub mod chat;
pub mod line;
