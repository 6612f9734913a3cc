use vstd::prelude::*;

verus! {

/// Why an operation on the store, a list or the hierarchy failed.
#[derive(Clone, Copy, Debug, PartialEq, Eq, Structural)]
pub enum Error {
    /// No list has the given name.
    NoSuchList,
    /// No todo has the given id in the list.
    NoSuchTodo,
    /// The todo still has children, so it cannot be removed.
    HasChildren,
    /// A todo names a child that is not in the list.
    DanglingReference,
    /// The children links of the list loop back on themselves.
    Cyclic,
    /// The user broke off the browsing session.
    Interrupted,
    /// The move would put a todo under itself or under one of its descendants.
    WouldCreateCycle,
    /// The list already uses the largest id there is.
    IdExhausted,
}

impl Error {
    /// A short human-readable description.
    pub fn message(&self) -> (r: &'static str) {
        match self {
            Error::NoSuchList => "no such list",
            Error::NoSuchTodo => "no such todo",
            Error::HasChildren => "todo still has children",
            Error::DanglingReference => "a todo names a child that does not exist",
            Error::Cyclic => "the children links of the list form a cycle",
            Error::Interrupted => "interrupted",
            Error::WouldCreateCycle => "a todo cannot be moved under itself or its descendants",
            Error::IdExhausted => "no id is left in this list",
        }
    }
}

} // verus!
