//! A sorted map keyed by a single byte, meant as the children map of a trie
//! node: entries sit in a contiguous array in ascending key order, and an
//! empty map holds no array at all.

pub mod sorted;
pub mod ordered_u8_map;

pub use ordered_u8_map::{OrderedU8Map, OrderedU8MapIterator, OrderedU8ValuesIterator};
