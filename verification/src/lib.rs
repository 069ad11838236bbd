//! A linker for configuration modules: it mirrors the files of a module's
//! source directory under a link root as symbolic links, and removes those
//! links again.
//!
//! The library never touches the disk. It decides what has to be done and
//! hands that out one command at a time; a host carries each command out and
//! replies with what came of it.
//!
//! - `config`: the manifest and its modules.
//! - `path`: paths as text.
//! - `symlink`: the steps that linking and unlinking a tree come to.
//! - `run`: one operation on one module, command by command.
//! - `module`: the modules that a request means, and the run of each.
//! - `session`: a request over several modules.
//! - `laws`: what holds of every run, whatever the host replies.
//! - `verbosity`: how much the program says.
//! - `error`: the ways in which an operation fails.

pub mod config;
pub mod error;
pub mod laws;
pub mod module;
pub mod path;
pub mod run;
pub mod session;
pub mod symlink;
pub mod verbosity;
