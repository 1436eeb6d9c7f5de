//! An ordered map from byte strings to values, stored as an adaptive radix
//! tree.
//!
//! The tree compresses paths: an internal node carries the bytes that all
//! keys below it share, and stores its children in the smallest of four
//! layouts that has room for them. A key that ends at an internal node sits
//! in the node's own leaf slot.
//!
//! `map` holds the map itself and `entry` the entries of single keys.
//! `node` holds the nodes and their layouts; `search`, `locate`, `insert`,
//! `remove` and `navigate` hold the algorithms on them; `shape` and `laws`
//! state what the invariant of the tree entails.

pub mod util;
pub mod order;
pub mod marker;
pub mod node;
pub mod search;
pub mod insert;
pub mod remove;
pub mod locate;
pub mod site;
pub mod entry;
pub mod map;
pub mod tree;
pub mod shape;
pub mod navigate;
pub mod laws;
