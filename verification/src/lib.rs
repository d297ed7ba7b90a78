//! Skills manager core: source parsing, targets and layout, the install
//! registry, the two-level update planner, favorites and the TUI state
//! machine, each stated over mathematical models and proved with Verus.

pub mod text;
pub mod error;
pub mod strmap;
pub mod paths;
pub mod config;
pub mod config_doc;
pub mod registry;
pub mod source;
pub mod tags;
pub mod update;
pub mod cache;
pub mod favorites;
pub mod tui;
pub mod cli;
pub mod install;
pub mod remove;
pub mod manifest;
pub mod commands;
