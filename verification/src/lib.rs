//! A small task-list library: an in-memory store of tasks with
//! add/complete/list operations, and a pipe-delimited text codec
//! that persists the store one record per line.

pub mod codec;
pub mod numeral;
pub mod store;
pub mod task;

pub use numeral::parse_usize;
pub use numeral::usize_to_string;
pub use store::TaskManager;
pub use task::Task;
