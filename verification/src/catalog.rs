//! Immutable compile-time catalog snapshots.
use crate::name::Name;
use crate::types::TypeDescriptor;
use vstd::prelude::*;

verus! {

/// An opaque host identity copied into Shape IR `input` nodes.
#[derive(Debug, PartialEq, Eq, PartialOrd, Ord, Hash)]
pub struct RelationBinding(String);

impl View for RelationBinding {
    type V = Seq<char>;

    closed spec fn view(&self) -> Seq<char> {
        self.0@
    }
}

impl Clone for RelationBinding {
    fn clone(&self) -> (binding: Self)
        ensures
            binding@ == self@,
    {
        RelationBinding(self.0.clone())
    }
}

impl RelationBinding {
    pub fn new(value: &str) -> (binding: Self)
        ensures
            binding@ == value@,
    {
        RelationBinding(String::from_str(value))
    }

    pub fn from_string(value: String) -> (binding: Self)
        ensures
            binding@ == value@,
    {
        RelationBinding(value)
    }

    pub fn as_str(&self) -> (text: &str)
        ensures
            text@ == self@,
    {
        self.0.as_str()
    }

    pub fn into_string(self) -> (text: String)
        ensures
            text@ == self@,
    {
        self.0
    }

    /// Whether two bindings are the same host identity.
    pub fn same(&self, other: &RelationBinding) -> (r: bool)
        ensures
            r == (self@ == other@),
    {
        self.0 == other.0
    }
}

/// An ordered field declaration in a catalog relation.
#[derive(Debug, PartialEq, Eq)]
pub struct CatalogField {
    pub name: Name,
    pub descriptor: TypeDescriptor,
}

impl Clone for CatalogField {
    fn clone(&self) -> (field: Self)
        ensures
            field.name@ == self.name@,
            field.descriptor == self.descriptor,
    {
        CatalogField { name: self.name.clone(), descriptor: self.descriptor }
    }
}

impl CatalogField {
    pub fn new(name: &str, descriptor: TypeDescriptor) -> (field: Self)
        ensures
            field.name@ == name@,
            field.descriptor == descriptor,
    {
        CatalogField { name: Name::new(name), descriptor }
    }
}

/// One source-visible relation declaration in a catalog snapshot.
#[derive(Debug, PartialEq, Eq)]
pub struct CatalogRelation {
    pub name: Name,
    pub binding: RelationBinding,
    pub fields: Vec<CatalogField>,
}

impl CatalogRelation {
    pub fn new(name: Name, binding: RelationBinding, fields: Vec<CatalogField>) -> (relation: Self)
        ensures
            relation.name@ == name@,
            relation.binding@ == binding@,
            relation.fields@ == fields@,
    {
        CatalogRelation { name, binding, fields }
    }
}

/// A materialized, immutable compile-time relation namespace.
///
/// A `Catalog` contains declarations only. It performs no I/O and does not
/// provide relation rows, statistics, authorization checks, or transaction
/// state.
#[derive(Debug, PartialEq, Eq)]
pub struct Catalog {
    relations: Vec<CatalogRelation>,
}

impl View for Catalog {
    type V = Seq<CatalogRelation>;

    closed spec fn view(&self) -> Seq<CatalogRelation> {
        self.relations@
    }
}

impl Catalog {
    pub fn new(relations: Vec<CatalogRelation>) -> (catalog: Self)
        ensures
            catalog@ == relations@,
    {
        Catalog { relations }
    }

    pub fn relations(&self) -> (relations: &[CatalogRelation])
        ensures
            relations@ == self@,
    {
        self.relations.as_slice()
    }

    pub fn push(&mut self, relation: CatalogRelation)
        ensures
            final(self)@ == old(self)@.push(relation),
    {
        self.relations.push(relation);
    }
}

impl Default for Catalog {
    fn default() -> (catalog: Self)
        ensures
            catalog@ == Seq::<CatalogRelation>::empty(),
    {
        Catalog { relations: Vec::new() }
    }
}

} // verus!
