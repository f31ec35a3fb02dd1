//! The insertion engine of a B+Tree: an ordered map from `u64` keys to values
//! whose nodes hold a bounded number of entries and split when they overflow.

pub mod entry;
pub mod leaf;
pub mod node;
pub mod tree;
pub mod table;

pub use entry::{DuplicatePolicy, Entry, InsertError};
pub use leaf::LeafNode;
pub use node::{InternalNode, Node};
pub use table::{Pager, RecordID, Schema, Table, TableValue};
pub use tree::BPTree;
