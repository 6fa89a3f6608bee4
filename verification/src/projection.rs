use vstd::prelude::*;

use crate::ids::{BindingId, ConflictId, RowId};

verus! {

/// How a projection resolves the rows it considers.
#[derive(Debug, Clone, Copy, PartialEq, Eq, Structural)]
pub enum ProjectionMode {
    Conservative,
}

/// Which neighbors of the bound rows a projection considers, and how it
/// resolves them.
#[derive(Debug, Clone, Copy, PartialEq, Eq)]
pub struct ProjectionPolicy {
    pub mode: ProjectionMode,
    pub include_support_neighbors: bool,
    pub include_compressible_neighbors: bool,
    pub include_conflict_neighbors: bool,
}

impl ProjectionPolicy {
    /// Support and conflict neighbors are considered; compressible ones are not.
    pub fn conservative() -> (r: Self)
        ensures
            r.mode == ProjectionMode::Conservative,
            r.include_support_neighbors,
            !r.include_compressible_neighbors,
            r.include_conflict_neighbors,
    {
        ProjectionPolicy {
            mode: ProjectionMode::Conservative,
            include_support_neighbors: true,
            include_compressible_neighbors: false,
            include_conflict_neighbors: true,
        }
    }

    pub fn mode(&self) -> (r: ProjectionMode)
        ensures
            r == self.mode,
    {
        self.mode
    }

    pub fn include_support_neighbors(&self) -> (r: bool)
        ensures
            r == self.include_support_neighbors,
    {
        self.include_support_neighbors
    }

    pub fn include_compressible_neighbors(&self) -> (r: bool)
        ensures
            r == self.include_compressible_neighbors,
    {
        self.include_compressible_neighbors
    }

    pub fn include_conflict_neighbors(&self) -> (r: bool)
        ensures
            r == self.include_conflict_neighbors,
    {
        self.include_conflict_neighbors
    }
}

/// The task-local view that a projection produces: every considered row is
/// accepted, suppressed or ambiguous.
#[derive(Debug, Clone, PartialEq, Eq)]
pub struct ProjectionOutcome {
    pub binding_id: BindingId,
    pub considered_rows: Vec<RowId>,
    pub accepted_rows: Vec<RowId>,
    pub suppressed_rows: Vec<RowId>,
    pub ambiguous_rows: Vec<RowId>,
    pub consulted_conflicts: Vec<ConflictId>,
}

impl ProjectionOutcome {
    pub fn new(
        binding_id: BindingId,
        considered_rows: Vec<RowId>,
        accepted_rows: Vec<RowId>,
        suppressed_rows: Vec<RowId>,
        ambiguous_rows: Vec<RowId>,
        consulted_conflicts: Vec<ConflictId>,
    ) -> (r: Self)
        ensures
            r.binding_id == binding_id,
            r.considered_rows == considered_rows,
            r.accepted_rows == accepted_rows,
            r.suppressed_rows == suppressed_rows,
            r.ambiguous_rows == ambiguous_rows,
            r.consulted_conflicts == consulted_conflicts,
    {
        ProjectionOutcome {
            binding_id,
            considered_rows,
            accepted_rows,
            suppressed_rows,
            ambiguous_rows,
            consulted_conflicts,
        }
    }

    pub fn binding_id(&self) -> (r: BindingId)
        ensures
            r == self.binding_id,
    {
        self.binding_id
    }

    pub fn considered_rows(&self) -> (r: &[RowId])
        ensures
            r@ == self.considered_rows@,
    {
        self.considered_rows.as_slice()
    }

    pub fn accepted_rows(&self) -> (r: &[RowId])
        ensures
            r@ == self.accepted_rows@,
    {
        self.accepted_rows.as_slice()
    }

    pub fn suppressed_rows(&self) -> (r: &[RowId])
        ensures
            r@ == self.suppressed_rows@,
    {
        self.suppressed_rows.as_slice()
    }

    pub fn ambiguous_rows(&self) -> (r: &[RowId])
        ensures
            r@ == self.ambiguous_rows@,
    {
        self.ambiguous_rows.as_slice()
    }

    pub fn consulted_conflicts(&self) -> (r: &[ConflictId])
        ensures
            r@ == self.consulted_conflicts@,
    {
        self.consulted_conflicts.as_slice()
    }
}

} // verus!
