//! Code health analysis: line splitting, complexity estimation, function
//! length detection, issue collection and report rendering.

pub mod text;
pub mod analyzer;
pub mod config;
pub mod output;
