//! The manager's engine: configuration, state, modules, backups and the
//! operations it reports.
pub mod error;
pub mod config;
pub mod operation;
pub mod modules;
pub mod state;
pub mod backup;
pub mod apply;
