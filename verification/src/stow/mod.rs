//! Linking packages of dotfiles into a target directory, as GNU Stow does:
//! planning, conflict detection and the reports of what was done.
pub mod types;
pub mod tree;
pub mod error;
pub mod operations;
pub mod conflict;
pub mod manager;
pub mod laws;
pub mod execution;
