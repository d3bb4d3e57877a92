//! One filter per tool.

pub mod apple;
pub mod elixir;
pub mod git;
