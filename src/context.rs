use vstd::prelude::*;

use crate::config::Config;
use crate::store::Store;

verus! {

/// What a command runs against: the settings, where the store lives, and the store.
#[derive(Debug)]
pub struct Context {
    pub config: Config,
    pub store_path: String,
    pub store: Store,
}

impl Context {
    pub fn new(config: Config, store_path: String, store: Store) -> (r: Context)
        ensures
            r.config == config,
            r.store_path == store_path,
            r.store == store,
    {
        Context { store_path, store, config }
    }
}

} // verus!
