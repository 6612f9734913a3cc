use vstd::prelude::*;

verus! {

/// Rows the tree view shows when none is configured.
pub const D_TREE_LINE: u8 = 10;

/// User settings.
#[derive(Debug)]
pub struct Config {
    default_list: String,
    global_store: String,
    data_file_name: String,
    tree_line: u8,
}

impl Config {
    pub closed spec fn spec_default_list(&self) -> Seq<char> {
        self.default_list@
    }

    pub closed spec fn spec_global_store(&self) -> Seq<char> {
        self.global_store@
    }

    pub closed spec fn spec_data_file_name(&self) -> Seq<char> {
        self.data_file_name@
    }

    pub closed spec fn spec_tree_line(&self) -> u8 {
        self.tree_line
    }

    pub fn new(default_list: String, global_store: String, data_file_name: String, tree_line: u8) -> (r:
        Config)
        ensures
            r.spec_default_list() == default_list@,
            r.spec_global_store() == global_store@,
            r.spec_data_file_name() == data_file_name@,
            r.spec_tree_line() == tree_line,
    {
        Config { default_list, global_store, data_file_name, tree_line }
    }

    /// The settings used when no configuration file is read, with the global store at
    /// `global_store`.
    pub fn defaults(global_store: String) -> (r: Config)
        ensures
            r.spec_default_list() == seq!['d', 'e', 'f', 'a', 'u', 'l', 't'],
            r.spec_global_store() == global_store@,
            r.spec_data_file_name() == seq!['.', 't', 'o', 'd', 'o'],
            r.spec_tree_line() == 10,
    {
        proof {
            reveal_strlit("default");
            reveal_strlit(".todo");
        }
        Config {
            default_list: String::from_str("default"),
            global_store,
            data_file_name: String::from_str(".todo"),
            tree_line: D_TREE_LINE,
        }
    }

    pub fn default_list(&self) -> (r: &str)
        ensures
            r@ == self.spec_default_list(),
    {
        self.default_list.as_str()
    }

    pub fn global_store(&self) -> (r: &String)
        ensures
            r@ == self.spec_global_store(),
    {
        &self.global_store
    }

    pub fn data_file_name(&self) -> (r: &str)
        ensures
            r@ == self.spec_data_file_name(),
    {
        self.data_file_name.as_str()
    }

    pub fn tree_line(&self) -> (r: u8)
        ensures
            r == self.spec_tree_line(),
    {
        self.tree_line
    }
}

} // verus!
