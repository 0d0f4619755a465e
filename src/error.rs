use vstd::prelude::*;

verus! {

/// Errors that can occur when dealing with tables.
#[derive(Debug, PartialEq, Eq)]
pub enum TableError {
    /// The named constraint rejected the record, with the constraint's own message.
    Constraint(String, String),
    /// A record with this primary key already exists.
    Exists(u64),
    /// The named unique index already holds a record (given by its primary key)
    /// under the same derived key.
    Duplicate(String, u64),
}

/// Errors that can occur when dealing with indices.
#[derive(Debug, Clone, Copy, PartialEq, Eq)]
pub enum IndexError {
    /// The index already holds the record with this primary key under the same derived key.
    Duplicate(u64),
}

} // verus!
