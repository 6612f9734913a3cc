use vstd::prelude::*;

use crate::context::Context;
use crate::error::Error;
use crate::model::TodoMap;

verus! {

/// The list a command works on: the one named by `arg`; else the store's default list;
/// else, when that name is empty, the configured default list.
pub fn get_list(arg: Option<String>, ctx: &Context) -> (r: String)
    ensures
        arg matches Some(l) ==> r@ == l@,
        arg is None && ctx.store.default_name().len() > 0 ==> r@ == ctx.store.default_name(),
        arg is None && ctx.store.default_name().len() == 0 ==> r@
            == ctx.config.spec_default_list(),
{
    match arg {
        Some(list) => list,
        None => {
            let default_list = ctx.store.default_list();
            if default_list.as_str().is_empty() {
                ctx.config.default_list().to_owned()
            } else {
                default_list.clone()
            }
        },
    }
}

/// `Ok` when the list holds `key`, `NoSuchTodo` otherwise.
pub fn check_key(todos: &TodoMap, key: u32) -> (r: Result<(), Error>)
    requires
        todos.wf(),
    ensures
        r is Ok <==> todos@.contains_key(key),
        r matches Err(e) ==> e == Error::NoSuchTodo,
{
    if todos.contains_key(key) {
        Ok(())
    } else {
        Err(Error::NoSuchTodo)
    }
}

/// Reading an empty value as no value.
pub trait IntoOption: Sized {
    type Target;

    /// `None` for an empty value, the value otherwise.
    fn into_option(self) -> Option<Self::Target>;
}

impl IntoOption for String {
    type Target = String;

    fn into_option(self) -> (r: Option<String>)
        ensures
            self@.len() == 0 ==> r is None,
            self@.len() > 0 ==> r == Some(self),
    {
        if self.as_str().is_empty() {
            None
        } else {
            Some(self)
        }
    }
}

} // verus!
