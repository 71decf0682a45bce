//! The handful of query-syntax types that the storage engine's surroundings
//! exchange with it. The full expression grammar lives outside the engine;
//! only the plain carriers below are part of this crate.

use vstd::prelude::*;

verus! {

/// A table referenced by a statement.
#[derive(Debug)]
pub struct Table {
    pub name: String,
}

/// Comparison operators of a `WHERE` clause.
#[derive(Debug, Clone, Copy, PartialEq, Eq, Structural)]
pub enum BinaryOperator {
    Equal,
    NotEqual,
    LessThan,
    LessThanOrEqual,
    GreaterThan,
    GreaterThanOrEqual,
}

/// Direction of an `ORDER BY` clause.
#[derive(Debug, Clone, Copy, PartialEq, Eq, Structural)]
pub enum SortOrder {
    Ascending,
    Descending,
}

} // verus!
