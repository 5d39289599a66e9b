//! Logging and log-file helpers.

pub mod log_tail;
pub mod logger;
