//! What `cid` says on a terminal, and what it decides before saying it.
//!
//! - [`project`] holds the steps a project is installed or built with, and
//!   [`project::report`] renders a run of them.
//! - [`cmd::project`] decides what `cid project` does with a directory and with
//!   what each command it ran came to.
//! - [`prompt`] is a one-line text prompt with a live preview.
//!
//! Everything here is a function of its arguments: reading the directory,
//! running the commands and owning the terminal belong to the caller.

pub mod text;
pub mod width;
pub mod duration;
pub mod term;
pub mod project;
pub mod escapes;
pub mod utf8;
pub mod prompt;
pub mod cmd;
