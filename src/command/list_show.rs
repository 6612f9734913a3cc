use vstd::prelude::*;

verus! {

/// Options of the command that shows all lists.
#[derive(Debug)]
pub struct ListShowOptions;

} // verus!
