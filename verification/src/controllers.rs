//! The task store and the registry of running cleaning processes.

pub mod clean_processes_controller;
