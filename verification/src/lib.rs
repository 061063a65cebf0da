//! A todo.txt task list: the lines of the file read into tasks, an ordered
//! list of tasks with stable identifiers, and the tree of the projects that
//! the tasks name.
//!
//! The library works on text and values and touches no file. A list is read
//! from the text of its file and gives back the text to write; reading the
//! file and writing it is left to the program around the library.
//!
//! - `task`: one task and the line that writes it.
//! - `list`: the list of tasks, and `laws`: what holds of it over any run of
//!   operations.
//! - `tree`: the tree of projects, `path`: the segments of a project tag, and
//!   `forest`: that the tree of given tags is one and only one, and that its
//!   counts add up.
//! - `commands` and `snapshot`: the operations and the tasks as the outside
//!   sees them, and `display`: small decisions of the display.
//! - `text`, `words`, `date`: characters, tokens and lines, and calendar
//!   dates.

pub mod commands;
pub mod date;
pub mod display;
pub mod error;
pub mod forest;
pub mod laws;
pub mod list;
pub mod path;
pub mod snapshot;
pub mod task;
pub mod text;
pub mod tree;
pub mod words;

pub use crate::commands::{add_todo, delete_todo, get_todos, toggle_todo, Outcome};
pub use crate::date::Date;
pub use crate::display::{is_blank, pad_class, priority_label};
pub use crate::error::ErrorKind;
pub use crate::list::{TodoList, WriteRequest};
pub use crate::path::PROJECT_SEPARATOR;
pub use crate::snapshot::{to_response, TodoResponse};
pub use crate::task::{TodoItem, NO_PRIORITY};
pub use crate::tree::{build_project_tree, build_tree, ProjectNode};
