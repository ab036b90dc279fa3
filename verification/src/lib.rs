//! A small todo-list library: an ordered list of items (description plus a
//! done flag), positional-index mutations, and a textual document format for
//! persisting the whole list.
//!
//! The library itself performs no input or output: callers hand it the
//! persisted document as a string and receive the new document back, along
//! with plain row data for display.

pub mod cli;
pub mod codec;
pub mod todo;

pub use cli::{apply, parse_command, parse_index, CliError, Command};
pub use todo::{DisplayRow, ItemModel, TodoError, TodoItem, TodoList};
