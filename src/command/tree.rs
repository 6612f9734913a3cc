use vstd::prelude::*;

verus! {

/// Options of the command that browses a list.
#[derive(Debug)]
pub struct TreeOptions {
    pub rel_date: Option<RelDateOptions>,
    pub abs_date: Option<AbsDateOptions>,
    /// Only incomplete todos.
    pub todo: bool,
    /// Only completed todos.
    pub done: bool,
    /// Reverse sort order.
    pub reverse: bool,
    /// Browse this list.
    pub list: Option<String>,
}

/// A date relative to today, in days, weeks, months or years.
#[derive(Debug)]
pub struct RelDateOptions {
    pub day_rel: Option<i32>,
    pub week_rel: Option<i32>,
    pub month_rel: Option<i32>,
    pub year_rel: Option<i32>,
}

/// An absolute date, or a month and a year.
#[derive(Debug)]
pub struct AbsDateOptions {
    pub date: Option<String>,
    pub month: Option<u32>,
    pub year: Option<u32>,
}

} // verus!
