//! A file manager's background transfer engine: copy/cut/paste/delete of
//! directory trees with progress tracking, throughput estimation and
//! interactive conflict resolution, verified over an explicit model of the
//! filesystem and of the user-facing state.

pub mod actions;
pub mod clipboard;
pub mod conflict;
pub mod delete;
pub mod estimator;
pub mod fs;
pub mod history;
pub mod laws;
pub mod paste;
pub mod progress;
pub mod properties;
pub mod selection;
pub mod types;
pub mod ui_model;
