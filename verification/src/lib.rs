//! The logic of the `tsr` task runner: reading its config, planning what runs
//! and deciding what each result means.

pub mod builtins;
pub mod changed;
pub mod cli;
pub mod config;
pub mod confine;
pub mod detect;
pub mod edit;
pub mod env;
pub mod error;
pub mod exec;
pub mod form;
pub mod graph;
pub mod guard;
pub mod json;
pub mod path;
pub mod pkggraph;
pub mod preview;
pub mod proc;
pub mod report;
pub mod resolve;
pub mod run;
pub mod screen;
pub mod shell;
pub mod text;
pub mod toml;
pub mod tui;
pub mod workspace;
