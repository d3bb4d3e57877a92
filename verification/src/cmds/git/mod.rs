//! Filters for git.

pub mod git_ls_files;
