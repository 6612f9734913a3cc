use vstd::prelude::*;

verus! {

/// Options of the command that sets the default list.
#[derive(Debug)]
pub struct ListDefaultOptions {
    pub new_default_lists: String,
    /// Create the list when it does not exist.
    pub new: bool,
}

} // verus!
