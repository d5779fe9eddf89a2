//! The rules of a mod manager: which mods to install, update and delete, which version of each
//! satisfies everyone who asked for it, and how a configuration file takes up new options.

pub mod aliases;
pub mod answers;
pub mod config;
pub mod config_merge;
pub mod delete;
pub mod delete_args;
pub mod dependencies;
pub mod dependency_laws;
pub mod errors;
pub mod install;
pub mod install_manager;
pub mod keyed;
pub mod messages;
pub mod package;
pub mod paint;
pub mod questions;
pub mod requested;
pub mod resolve_installs;
pub mod resolve_laws;
pub mod sync;
pub mod text;
pub mod toml_tree;
pub mod update;
pub mod walk;
pub mod walk_laws;
