//! Changelog entries and the engine that folds pending entries into a
//! release section of a Markdown changelog.
pub mod create;
pub mod date;
pub mod entry;
pub mod error;
pub mod git_info;
pub mod json;
pub mod merge;
pub mod render;
pub mod text;
pub mod update;
