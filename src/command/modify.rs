use vstd::prelude::*;

verus! {

/// Options of the command that changes a todo.
#[derive(Debug)]
pub struct ModifyOptions {
    pub todo_id: u32,
    /// New description and link; asked for interactively when absent.
    pub todo_from_args: Option<ModifyArgs>,
    /// Modify a todo in this list.
    pub list: Option<String>,
}

/// New description and link of a todo; an absent one stays as it is.
#[derive(Debug)]
pub struct ModifyArgs {
    pub desc: Option<String>,
    pub link: Option<String>,
}

} // verus!
