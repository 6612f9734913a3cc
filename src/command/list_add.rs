use vstd::prelude::*;

verus! {

/// Options of the command that adds lists.
#[derive(Debug)]
pub struct ListAddOptions {
    pub new_lists: Vec<String>,
}

} // verus!
