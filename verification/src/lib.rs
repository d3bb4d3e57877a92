//! Output filters for developer tools: each filter condenses the verbose
//! output of a build or test tool into the lines a reader needs.

pub mod cmds;
pub mod pattern;
pub mod text;
