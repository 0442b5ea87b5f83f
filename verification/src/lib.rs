//! A small task tracker: an in-memory store of task records with unique
//! monotone identifiers and ordered timestamps, and a textual codec that
//! round-trips the store through its persisted form.

pub mod clock;
pub mod codec;
pub mod store;
pub mod task;

pub use store::TaskError;
pub use store::TaskManager;
pub use task::Status;
pub use task::Task;
