//! Filters for the Elixir `mix` tool.

pub mod mix_cmd;
pub mod mix_run_cmd;
pub mod mix_test_cmd;
