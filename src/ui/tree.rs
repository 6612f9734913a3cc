use vstd::prelude::*;

use crate::browse::{visible, Tree};
use crate::error::Error;
use crate::model::TodoMap;
use crate::tree::{build_tree, forest_of, RowView};

verus! {

/// The interactive browser of one list.
pub struct TreeUI;

impl TreeUI {
    /// The browsable forest of `todos`, under a root named `root_id`, with the cursor on
    /// the first row; fails as `build_tree` does.
    pub fn tree(root_id: &String, todos: &TodoMap) -> (r: Result<Tree, Error>)
        requires
            todos.wf(),
        ensures
            r is Ok <==> forest_of(todos@, todos.id_seq()) is Ok,
            r matches Err(e) ==> forest_of(todos@, todos.id_seq()) == Err::<Seq<RowView>, Error>(
                e,
            ),
            r matches Ok(t) ==> {
                &&& t.wf()
                &&& t.root_name() == root_id@
                &&& t.rows_view() == forest_of(todos@, todos.id_seq())->Ok_0
                &&& t.visible_view() == visible(t.rows_view())
                &&& t.spec_position() == 0
            },
    {
        match build_tree(todos) {
            Ok(rows) => Ok(Tree::new(root_id.clone(), rows)),
            Err(e) => Err(e),
        }
    }
}

} // verus!
