//! An ordered key/value index kept as a B-tree, with a fixed-size page
//! format and a metadata-anchored snapshot of the whole tree.

mod btree;
mod codec;
mod image;
pub mod laws;
mod metadata;
mod node;
mod pager;
mod rebalance;
pub mod round_trip;
mod snapshot;

pub use btree::Btree;
pub use codec::{decode_page, encode_page, Page};
pub use metadata::BtreeMetadata;
pub use node::Node;
pub use pager::Pager;

use vstd::prelude::*;

verus! {

/// Order parameter of the tree.
pub const DEGREE: i32 = 3;

/// Fewest items a non-root node may hold.
pub const MIN_ITEMS: i32 = DEGREE - 1;

/// Most items any node may hold.
pub const MAX_ITEMS: i32 = DEGREE * 2;

/// A key paired with its value.
#[derive(Clone, Debug)]
pub struct Item {
    pub key: i32,
    pub val: String,
}

impl Item {
    /// A copy of the item with the same key and the same characters.
    pub fn duplicate(&self) -> (r: Item)
        ensures
            r.key == self.key,
            r.val@ == self.val@,
    {
        Item { key: self.key, val: self.val.as_str().to_owned() }
    }
}

/// The kinds of failure that the index reports.
#[derive(Clone, Copy, Debug, PartialEq, Eq, Structural)]
pub enum BtreeError {
    /// The key is absent, or the tree is empty.
    NotFound,
    /// The request cannot be served with the given arguments.
    InvalidInput,
    /// Stored bytes do not describe a valid page, metadata record or tree.
    InvalidData,
}

} // verus!
