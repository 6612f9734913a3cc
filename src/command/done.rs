use vstd::prelude::*;

verus! {

/// Options of the command that marks todos done.
#[derive(Debug)]
pub struct DoneOptions {
    pub todo_id: Vec<u32>,
    /// Undo the completion instead.
    pub undo: bool,
    /// Include all descendants of the given todos.
    pub recursive: bool,
    /// Mark todos in this list.
    pub list: Option<String>,
}

} // verus!
