//! The data the cleaner keeps about its tasks.

pub mod task_model;
pub mod task_process_model;
