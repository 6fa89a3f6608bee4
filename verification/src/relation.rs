use vstd::prelude::*;

use crate::ids::{ConflictId, RowId};

verus! {

/// An undirected relation between two rows, stored with the smaller row
/// identifier first.
#[derive(Debug, Clone, Copy, PartialEq, Eq, PartialOrd, Ord, Hash)]
pub struct SemanticEdge {
    pub first: RowId,
    pub second: RowId,
}

/// The edge between `a` and `b`, whichever is named first.
pub open spec fn edge_of(a: RowId, b: RowId) -> SemanticEdge {
    if a.0 <= b.0 {
        SemanticEdge { first: a, second: b }
    } else {
        SemanticEdge { first: b, second: a }
    }
}

impl SemanticEdge {
    pub open spec fn wf(&self) -> bool {
        self.first.0 <= self.second.0
    }

    pub open spec fn touches(&self, r: RowId) -> bool {
        self.first == r || self.second == r
    }

    pub fn new(left: RowId, right: RowId) -> (e: Self)
        ensures
            e == edge_of(left, right),
            e.wf(),
    {
        if left.0 <= right.0 {
            SemanticEdge { first: left, second: right }
        } else {
            SemanticEdge { first: right, second: left }
        }
    }

    pub fn first(&self) -> (r: RowId)
        ensures
            r == self.first,
    {
        self.first
    }

    pub fn second(&self) -> (r: RowId)
        ensures
            r == self.second,
    {
        self.second
    }

    pub fn contains(&self, row_id: RowId) -> (r: bool)
        ensures
            r == self.touches(row_id),
    {
        self.first.0 == row_id.0 || self.second.0 == row_id.0
    }
}

/// The edge between two rows does not depend on the order in which they are
/// named.
pub proof fn lemma_edge_symmetric(a: RowId, b: RowId)
    ensures
        edge_of(a, b) == edge_of(b, a),
        edge_of(a, b).touches(a),
        edge_of(a, b).touches(b),
        edge_of(a, b).wf(),
{
}

/// The state of a conflict record.
#[derive(Debug, Clone, Copy, PartialEq, Eq, Structural)]
pub enum ConflictStatus {
    Open,
    Resolved,
    Dismissed,
}

/// A recorded conflict among a set of rows of one table.
#[derive(Debug, Clone, PartialEq, Eq)]
pub struct ConflictRecord {
    pub id: ConflictId,
    pub rows: Vec<RowId>,
    pub status: ConflictStatus,
}

impl ConflictRecord {
    pub fn new(id: ConflictId, rows: Vec<RowId>) -> (r: Self)
        ensures
            r.id == id,
            r.rows == rows,
            r.status == ConflictStatus::Open,
    {
        ConflictRecord { id, rows, status: ConflictStatus::Open }
    }

    pub fn id(&self) -> (r: ConflictId)
        ensures
            r == self.id,
    {
        self.id
    }

    /// The rows of the conflict, in increasing order.
    pub fn rows(&self) -> (r: &[RowId])
        ensures
            r@ == self.rows@,
    {
        self.rows.as_slice()
    }

    pub fn status(&self) -> (r: ConflictStatus)
        ensures
            r == self.status,
    {
        self.status
    }

    pub fn set_status(&mut self, status: ConflictStatus)
        ensures
            final(self).status == status,
            final(self).id == old(self).id,
            final(self).rows == old(self).rows,
    {
        self.status = status;
    }
}

} // verus!
