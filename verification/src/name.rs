//! Normalized source names.
use vstd::prelude::*;

verus! {

/// A normalized relation, field, or qualifier name.
#[derive(Debug, PartialEq, Eq, Hash)]
pub struct Name(String);

impl View for Name {
    type V = Seq<char>;

    closed spec fn view(&self) -> Seq<char> {
        self.0@
    }
}

impl Clone for Name {
    fn clone(&self) -> (name: Self)
        ensures
            name@ == self@,
    {
        Name(self.0.clone())
    }
}

impl Default for Name {
    fn default() -> (name: Self)
        ensures
            name@ == Seq::<char>::empty(),
    {
        Name(String::new())
    }
}

impl Name {
    pub fn new(value: &str) -> (name: Self)
        ensures
            name@ == value@,
    {
        Name(String::from_str(value))
    }

    pub fn from_string(value: String) -> (name: Self)
        ensures
            name@ == value@,
    {
        Name(value)
    }

    pub fn as_str(&self) -> (text: &str)
        ensures
            text@ == self@,
    {
        self.0.as_str()
    }

    /// Whether two names are the same normalized name.
    pub fn same(&self, other: &Name) -> (r: bool)
        ensures
            r == (self@ == other@),
    {
        self.0 == other.0
    }

    pub fn into_string(self) -> (text: String)
        ensures
            text@ == self@,
    {
        self.0
    }
}

} // verus!
