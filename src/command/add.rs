use vstd::prelude::*;

verus! {

/// Options of the command that adds a todo.
#[derive(Debug)]
pub struct AddOptions {
    /// Add the todo as a child of this todo.
    pub into: Option<u32>,
    /// Description and link given on the command line; asked for interactively when absent.
    pub todo_from_args: Option<AddArgs>,
    /// Add the todo to this list.
    pub list: Option<String>,
}

/// Description and link of a new todo.
#[derive(Debug)]
pub struct AddArgs {
    pub desc: String,
    pub link: Option<String>,
}

} // verus!
