//! Filters for Apple developer tools.

pub mod xcodebuild_cmd;
