use vstd::prelude::*;

verus! {

/// Options of the command that removes lists.
#[derive(Debug)]
pub struct ListRemoveOptions {
    pub remove_lists: Vec<String>,
    /// Move the todos of non-empty lists into the default list instead of keeping the list.
    pub force: bool,
}

} // verus!
