//! Compilation-local semantic identities.
use vstd::prelude::*;

verus! {

/// A field identity unique within one compilation.
#[derive(Clone, Copy, Debug, PartialEq, Eq, PartialOrd, Ord, Hash, Structural)]
pub struct FieldId(pub u32);

/// A common-table-expression declaration identity.
#[derive(Clone, Copy, Debug, PartialEq, Eq, PartialOrd, Ord, Hash, Structural)]
pub struct CteId(pub u32);

/// A relation-source occurrence identity.
#[derive(Clone, Copy, Debug, PartialEq, Eq, PartialOrd, Ord, Hash, Structural)]
pub struct RelationOccurrenceId(pub u32);

impl FieldId {
    pub fn index(self) -> (index: u32)
        ensures
            index == self.0,
    {
        self.0
    }

    pub fn from_index(index: u32) -> (id: Self)
        ensures
            id.0 == index,
    {
        FieldId(index)
    }
}

impl CteId {
    pub fn index(self) -> (index: u32)
        ensures
            index == self.0,
    {
        self.0
    }

    pub fn from_index(index: u32) -> (id: Self)
        ensures
            id.0 == index,
    {
        CteId(index)
    }
}

impl RelationOccurrenceId {
    pub fn index(self) -> (index: u32)
        ensures
            index == self.0,
    {
        self.0
    }

    pub fn from_index(index: u32) -> (id: Self)
        ensures
            id.0 == index,
    {
        RelationOccurrenceId(index)
    }
}

} // verus!
