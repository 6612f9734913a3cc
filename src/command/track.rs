use vstd::prelude::*;

verus! {

/// Options of the command that shows one todo in detail.
#[derive(Debug)]
pub struct TrackOptions {
    pub todo_id: u32,
    /// Look in this list.
    pub list: Option<String>,
}

} // verus!
