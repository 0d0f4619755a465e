//! An in-memory table of uniquely keyed records with ordered secondary indices,
//! validation hooks and constraints, and all-or-nothing inserts.
mod btree;
mod btree_unique;
mod error;
mod index;
pub mod table;

pub use crate::btree::BTreeIndex;
pub use crate::btree_unique::UniqueBTreeIndex;
pub use crate::error::{IndexError, TableError};
pub use crate::index::{Index, KeyFn};
pub use crate::table::{Constraint, Identity, PostInsertHook, PreInsertHook, Records, Table};
