//! A verified core for a local-first file organizer: duplicate detection,
//! plans, their execution and undo, and the state behind the terminal UI.

pub mod actions;
pub mod cache;
pub mod calendar;
pub mod dedup;
pub mod dirdup;
pub mod dirs;
pub mod filesystem;
pub mod hashing;
pub mod order;
pub mod paths;
pub mod plan;
pub mod report;
pub mod screen;
pub mod sorting;
pub mod text;
pub mod ui;
pub mod walker;
