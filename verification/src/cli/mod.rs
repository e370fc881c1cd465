//! The command-line front end: its arguments, the structured protocol for
//! automated clients, and the decisions of its commands and screens.
pub mod args;
pub mod output;
pub mod commands;
pub mod tui;
