//! Command-suggestion logic for interactive shells.
pub mod cache;
pub mod candidates;
pub mod config;
pub mod context;
pub mod history;
pub mod live;
pub mod markers;
pub mod matcher;
pub mod overlay;
pub mod path;
pub mod process;
pub mod protocol;
pub mod shell;
pub mod startup;
pub mod text;
pub mod version;
pub mod workspace;
