//! A hierarchical todo-list library: a tree of todo items addressed by
//! colon-separated index paths, with per-list identifier pools that recycle
//! small integer ids, a deadline grammar for absolute and relative dates,
//! and a text codec for persisting the whole tree.

pub mod codec;
pub mod datetime;
pub mod deadline;
pub mod errors;
pub mod id_pool;
pub mod path;
pub mod render;
pub mod text;
pub mod todo_list;
