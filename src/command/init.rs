use vstd::prelude::*;

verus! {

/// Options of the command that creates a store.
#[derive(Debug)]
pub struct InitOptions {
    /// Name of the default list instead of the configured one.
    pub default_list: Option<String>,
    /// Further lists to create.
    pub lists: Vec<String>,
}

} // verus!
