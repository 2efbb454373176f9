//! Smart lists for todo.txt task directories: parsing of `.list` files,
//! filtering, sorting and grouping of tasks, and the state of the terminal
//! session that browses them.
pub mod text;
pub mod smartlist;
pub mod date;
pub mod task;
pub mod app;
pub mod config;
pub mod mouse;
pub mod render;
pub mod keys;
pub mod list_order;
pub mod ranking;
pub mod task_line;
pub mod session;
