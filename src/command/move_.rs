use vstd::prelude::*;

verus! {

/// Options of the command that moves a todo.
#[derive(Debug)]
pub struct MoveOptions {
    pub todo_id: u32,
    pub todo_move_target: TodoMoveTarget,
    /// Move a todo in this list.
    pub list: Option<String>,
}

/// Where the todo goes: under `parent`, or to the top level.
#[derive(Debug)]
pub struct TodoMoveTarget {
    pub parent: u32,
    pub top: bool,
}

} // verus!
