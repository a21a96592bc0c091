//! Plans which commands to run for a set of changed files, by matching the
//! files against the path patterns of a dependency graph of nodes.
pub mod text;
pub mod deps;
pub mod glob;
pub mod config;
pub mod graph;
pub mod render;
pub mod git;
pub mod init;
pub mod runner;
pub mod agent;
