//! The identity of a type.

use vstd::prelude::*;

verus! {

/// The key under which a type is known: the spelling of its canonical form.
/// Two references to one type, by whatever alias, carry the same `TypeId`.
#[derive(Debug, PartialEq, Eq, PartialOrd, Ord, Hash)]
pub struct TypeId(pub String);

impl View for TypeId {
    type V = Seq<char>;

    open spec fn view(&self) -> Seq<char> {
        self.0@
    }
}

impl Clone for TypeId {
    fn clone(&self) -> (id: TypeId)
        ensures
            id == *self,
    {
        TypeId(self.0.clone())
    }
}

impl TypeId {
    /// The identity that is spelled `spelling`.
    pub fn new(spelling: String) -> (id: TypeId)
        ensures
            id@ == spelling@,
    {
        TypeId(spelling)
    }

    /// The spelling.
    pub fn as_str(&self) -> (s: &str)
        ensures
            s@ == self@,
    {
        self.0.as_str()
    }

    /// The spelling as an owned string.
    pub fn to_string(&self) -> (s: String)
        ensures
            s@ == self@,
    {
        self.0.clone()
    }

    /// Whether both name the same type.
    pub fn same(&self, other: &TypeId) -> (r: bool)
        ensures
            r == (self@ == other@),
    {
        self.0 == other.0
    }
}

} // verus!
