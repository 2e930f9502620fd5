//! Decisions of a tool that turns GitHub issues and branches into isolated Git worktrees.

pub mod adding;
pub mod app;
pub mod changes;
pub mod clean;
pub mod cleanup;
pub mod completion;
pub mod config;
pub mod config_laws;
pub mod copy_laws;
pub mod detection;
pub mod devbox;
pub mod doctor;
pub mod environment;
pub mod environment_laws;
pub mod inspection;
pub mod json;
pub mod model;
pub mod paths;
pub mod ports;
pub mod process;
pub mod project_laws;
pub mod pulls;
pub mod reference_laws;
pub mod rewriting_laws;
pub mod servers;
pub mod setup;
pub mod shell;
pub mod state;
pub mod store_laws;
pub mod text;
pub mod ui;
