use vstd::prelude::*;

verus! {

/// Options of the command that removes todos.
#[derive(Debug)]
pub struct RemoveOptions {
    pub todo_id: Vec<u32>,
    pub recursive: bool,
    /// Remove todos from this list.
    pub list: Option<String>,
}

} // verus!
