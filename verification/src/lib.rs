//! A lazily expandable tree, its projection into an ordered list of visible
//! rows, and the windowing that maps a viewport onto that list.

use vstd::prelude::*;

pub mod changes;
pub mod dynamic;
pub mod error;
pub mod flags;
pub mod item;
pub mod iter;
pub mod laws;
pub mod model;
pub mod node;
pub mod ordered_map;
pub mod plain;
pub mod projection;
pub mod provider;
pub mod root;
pub mod sizes;
pub mod subscribers;
pub mod view;
pub mod visible;

verus! {

/// Key that identifies a node among the nodes of a tree.
pub type KeyType = usize;

/// Cheap fingerprint of what a row displays.
pub type HashType = u64;

/// Key reserved for the root sentinel.
pub const ROOT_KEY: KeyType = usize::MAX;

} // verus!
