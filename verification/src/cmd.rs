//! The commands of `cid`.

pub mod lines;
pub mod project;
