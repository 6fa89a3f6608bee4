use vstd::prelude::*;

verus! {

/// Kinds of compatibility between two semantic subjects.
#[derive(Debug, Clone, Copy, PartialEq, Eq, Structural)]
pub enum CompatibleRelation {
    Generic,
    Nonredundant,
    Redundant,
}

/// The relation that a judge finds between two semantic subjects.
#[derive(Debug, Clone, Copy, PartialEq, Eq, Structural)]
pub enum SemanticRelation {
    Conflict,
    NoRelation,
    Compatible(CompatibleRelation),
}

impl SemanticRelation {
    pub fn compatible() -> (r: Self)
        ensures
            r == SemanticRelation::Compatible(CompatibleRelation::Generic),
    {
        SemanticRelation::Compatible(CompatibleRelation::Generic)
    }

    pub fn support() -> (r: Self)
        ensures
            r == SemanticRelation::Compatible(CompatibleRelation::Nonredundant),
    {
        SemanticRelation::Compatible(CompatibleRelation::Nonredundant)
    }

    pub fn compressible() -> (r: Self)
        ensures
            r == SemanticRelation::Compatible(CompatibleRelation::Redundant),
    {
        SemanticRelation::Compatible(CompatibleRelation::Redundant)
    }

    pub fn conflict() -> (r: Self)
        ensures
            r == SemanticRelation::Conflict,
    {
        SemanticRelation::Conflict
    }

    pub fn none() -> (r: Self)
        ensures
            r == SemanticRelation::NoRelation,
    {
        SemanticRelation::NoRelation
    }

    pub fn is_conflict(self) -> (r: bool)
        ensures
            r == (self is Conflict),
    {
        match self {
            SemanticRelation::Conflict => true,
            _ => false,
        }
    }

    pub fn is_support(self) -> (r: bool)
        ensures
            r == (self == SemanticRelation::Compatible(CompatibleRelation::Nonredundant)),
    {
        match self {
            SemanticRelation::Compatible(CompatibleRelation::Nonredundant) => true,
            _ => false,
        }
    }

    pub fn is_compressible(self) -> (r: bool)
        ensures
            r == (self == SemanticRelation::Compatible(CompatibleRelation::Redundant)),
    {
        match self {
            SemanticRelation::Compatible(CompatibleRelation::Redundant) => true,
            _ => false,
        }
    }

    pub fn is_generic_compatible(self) -> (r: bool)
        ensures
            r == (self == SemanticRelation::Compatible(CompatibleRelation::Generic)),
    {
        match self {
            SemanticRelation::Compatible(CompatibleRelation::Generic) => true,
            _ => false,
        }
    }

    pub fn is_compatible(self) -> (r: bool)
        ensures
            r == (self is Compatible),
    {
        match self {
            SemanticRelation::Compatible(_) => true,
            _ => false,
        }
    }
}

/// What a write-time policy does with a new semantic row.
#[derive(Debug, Clone, Copy, PartialEq, Eq, Structural)]
pub enum SemanticAction {
    Insert,
    Block,
}

/// A new row is blocked exactly when one of its relations is a conflict.
pub fn semantic_insert_action(relations: &[SemanticRelation]) -> (r: SemanticAction)
    ensures
        r == (if exists|i: int| 0 <= i < relations@.len() && #[trigger] relations@[i] is Conflict {
            SemanticAction::Block
        } else {
            SemanticAction::Insert
        }),
{
    let mut i: usize = 0;
    while i < relations.len()
        invariant
            i <= relations@.len(),
            forall|k: int| 0 <= k < i ==> !(#[trigger] relations@[k] is Conflict),
        decreases relations@.len() - i,
    {
        if relations[i].is_conflict() {
            return SemanticAction::Block;
        }
        i = i + 1;
    }
    SemanticAction::Insert
}

} // verus!
