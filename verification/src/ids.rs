use vstd::prelude::*;

verus! {

/// Identifier of a row inside one table; identifiers are handed out in
/// increasing order starting from 1.
#[derive(Debug, Clone, Copy, PartialEq, Eq, PartialOrd, Ord, Hash)]
pub struct RowId(pub u64);

impl RowId {
    pub fn from_value(value: u64) -> (id: Self)
        ensures
            id.0 == value,
    {
        RowId(value)
    }

    pub fn new(value: u64) -> (id: Self)
        ensures
            id.0 == value,
    {
        RowId(value)
    }

    pub fn value(self) -> (v: u64)
        ensures
            v == self.0,
    {
        self.0
    }
}

/// Identifier of a binding set of a database.
#[derive(Debug, Clone, Copy, PartialEq, Eq, PartialOrd, Ord, Hash)]
pub struct BindingId(pub u64);

impl BindingId {
    pub fn from_value(value: u64) -> (id: Self)
        ensures
            id.0 == value,
    {
        BindingId(value)
    }

    pub fn new(value: u64) -> (id: Self)
        ensures
            id.0 == value,
    {
        BindingId(value)
    }

    pub fn value(self) -> (v: u64)
        ensures
            v == self.0,
    {
        self.0
    }
}

/// Identifier of a conflict record inside one table.
#[derive(Debug, Clone, Copy, PartialEq, Eq, PartialOrd, Ord, Hash)]
pub struct ConflictId(pub u64);

impl ConflictId {
    pub fn new(value: u64) -> (id: Self)
        ensures
            id.0 == value,
    {
        ConflictId(value)
    }

    pub fn value(self) -> (v: u64)
        ensures
            v == self.0,
    {
        self.0
    }
}

} // verus!
