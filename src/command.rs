use vstd::prelude::*;

pub mod add;
pub mod clean;
pub mod done;
pub mod init;
pub mod list_add;
pub mod list_default;
pub mod list_remove;
pub mod list_show;
pub mod modify;
pub mod move_;
pub mod remove;
pub mod track;
pub mod tree;

verus! {

/// The command line: global flags and the command to run.
#[derive(Debug)]
pub struct Cli {
    /// Output the result without performing any actual operation.
    pub dry_run: bool,
    /// Work on the global store.
    pub global: bool,
    pub cmd: Option<Cmd>,
}

/// A command.
#[derive(Debug)]
pub enum Cmd {
    /// Create a new store in the current working directory.
    Init(init::InitOptions),
    Todo(TodoCmd),
}

/// A command on an existing store.
#[derive(Debug)]
pub enum TodoCmd {
    /// Add a new todo.
    Add(add::AddOptions),
    /// Browse the todos of a list.
    Tree(tree::TreeOptions),
    /// Show detailed information of a todo.
    Track(track::TrackOptions),
    /// Modify an existing todo.
    Modify(modify::ModifyOptions),
    /// Change the level of a todo and its children.
    Move(move_::MoveOptions),
    /// Remove todos that have no children.
    Remove(remove::RemoveOptions),
    /// Mark todos as done.
    Done(done::DoneOptions),
    /// Clean up completed todos.
    Clean(clean::CleanOptions),
    /// Show all lists.
    ListShow(list_show::ListShowOptions),
    /// Add lists.
    ListAdd(list_add::ListAddOptions),
    /// Remove lists.
    ListRemove(list_remove::ListRemoveOptions),
    /// Set the default list.
    ListDefault(list_default::ListDefaultOptions),
}

} // verus!
