//! Task bookkeeping and duplicate-file cleanup planning for the Fox in Socks
//! desktop cleaner.

pub mod cleanup;
pub mod commands;
pub mod controllers;
pub mod models;
pub mod patterns;
pub mod text;
pub mod utills;
