//! Nested todo lists: the hierarchy of todos, its recursive operations, and the
//! foldable tree view over it.

pub mod date;
pub mod model;
pub mod cascade;
pub mod error;
pub mod hierarchy;
pub mod text;
pub mod tree;
pub mod browse;
pub mod store;
pub mod config;
pub mod context;
pub mod util;
pub mod command;
pub mod ui;
