//! The operations the user interface invokes.

pub mod commands;
