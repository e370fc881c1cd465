//! Dotfiles manager: stow planning, module discovery, backups, secrets and the
//! structured protocol used by automated clients.

pub mod text;
pub mod system;
pub mod paths;
pub mod stow;
pub mod sort;
pub mod select;
pub mod engine;
pub mod secrets;
pub mod templates;
pub mod cli;
