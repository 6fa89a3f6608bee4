use vstd::prelude::*;

use crate::ids::{ConflictId, RowId};
use crate::relation::SemanticEdge;

verus! {

/// What a write did: the new row, and the relations it recorded.
#[derive(Debug, Clone, PartialEq, Eq)]
pub struct PersistOutcome {
    pub row_id: RowId,
    pub compatible_edges: Vec<SemanticEdge>,
    pub support_edges: Vec<SemanticEdge>,
    pub compressible_edges: Vec<SemanticEdge>,
    pub conflict_edges: Vec<SemanticEdge>,
    pub conflict_ids: Vec<ConflictId>,
}

impl PersistOutcome {
    pub open spec fn effects_empty(&self) -> bool {
        &&& self.compatible_edges@.len() == 0
        &&& self.support_edges@.len() == 0
        &&& self.compressible_edges@.len() == 0
        &&& self.conflict_edges@.len() == 0
        &&& self.conflict_ids@.len() == 0
    }

    pub fn new(
        row_id: RowId,
        compatible_edges: Vec<SemanticEdge>,
        support_edges: Vec<SemanticEdge>,
        compressible_edges: Vec<SemanticEdge>,
        conflict_edges: Vec<SemanticEdge>,
        conflict_ids: Vec<ConflictId>,
    ) -> (r: Self)
        ensures
            r.row_id == row_id,
            r.compatible_edges == compatible_edges,
            r.support_edges == support_edges,
            r.compressible_edges == compressible_edges,
            r.conflict_edges == conflict_edges,
            r.conflict_ids == conflict_ids,
    {
        PersistOutcome {
            row_id,
            compatible_edges,
            support_edges,
            compressible_edges,
            conflict_edges,
            conflict_ids,
        }
    }

    /// The outcome of a write that recorded no relation.
    pub fn plain(row_id: RowId) -> (r: Self)
        ensures
            r.row_id == row_id,
            r.effects_empty(),
    {
        PersistOutcome::new(row_id, Vec::new(), Vec::new(), Vec::new(), Vec::new(), Vec::new())
    }

    pub fn row_id(&self) -> (r: RowId)
        ensures
            r == self.row_id,
    {
        self.row_id
    }

    pub fn compatible_edges(&self) -> (r: &[SemanticEdge])
        ensures
            r@ == self.compatible_edges@,
    {
        self.compatible_edges.as_slice()
    }

    pub fn support_edges(&self) -> (r: &[SemanticEdge])
        ensures
            r@ == self.support_edges@,
    {
        self.support_edges.as_slice()
    }

    pub fn compressible_edges(&self) -> (r: &[SemanticEdge])
        ensures
            r@ == self.compressible_edges@,
    {
        self.compressible_edges.as_slice()
    }

    pub fn conflict_edges(&self) -> (r: &[SemanticEdge])
        ensures
            r@ == self.conflict_edges@,
    {
        self.conflict_edges.as_slice()
    }

    pub fn conflict_ids(&self) -> (r: &[ConflictId])
        ensures
            r@ == self.conflict_ids@,
    {
        self.conflict_ids.as_slice()
    }

    pub fn has_semantic_effects(&self) -> (r: bool)
        ensures
            r == !self.effects_empty(),
    {
        !(self.compatible_edges.len() == 0 && self.support_edges.len() == 0
            && self.compressible_edges.len() == 0 && self.conflict_edges.len() == 0
            && self.conflict_ids.len() == 0)
    }
}

} // verus!
