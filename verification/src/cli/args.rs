//! The command line: global flags and subcommands. Parsing happens outside
//! the library; these are the values it yields.
use vstd::prelude::*;

verus! {

/// The command line.
pub struct Cli {
    pub command: Commands,
    /// Never ask (for CI and automated clients).
    pub non_interactive: bool,
    /// Write the structured protocol.
    pub json: bool,
    /// Answer yes to every question.
    pub yes: bool,
    /// The dotfiles repository, overriding the configured one.
    pub root: Option<String>,
    /// How much to log.
    pub verbose: u8,
}

/// The subcommands.
pub enum Commands {
    Apply(ApplyArgs),
    List(ListArgs),
    Status(StatusArgs),
    Backup(BackupCommands),
    Secret(SecretCommands),
    InstallDeps(InstallDepsArgs),
    Update(UpdateArgs),
    Init(InitArgs),
    Interactive,
}

/// `apply`: install or update modules.
pub struct ApplyArgs {
    /// The modules to install (all when empty).
    pub modules: Vec<String>,
    pub dry_run: bool,
    pub no_backup: bool,
    pub no_hooks: bool,
    pub force: bool,
}

/// `list`: the modules found.
pub struct ListArgs {
    pub installed: bool,
    pub table: bool,
}

/// `status`: the current state.
pub struct StatusArgs {
    pub detailed: bool,
}

/// `backup`: backups.
pub enum BackupCommands {
    Create { force: bool },
    List { size: bool },
    Restore { backup: String },
    Clean { keep: usize },
}

/// `secret`: secrets.
pub enum SecretCommands {
    Encrypt { file: String },
    Decrypt { file: String },
    Setup { provider: SecretProviderArg },
}

/// The secrets providers that can be set up.
#[derive(Clone, Copy, Debug, PartialEq, Eq, Structural)]
pub enum SecretProviderArg {
    Age,
    Sops,
    Onepassword,
    Bitwarden,
}

/// `install-deps`: system dependencies.
pub struct InstallDepsArgs {
    pub module: Option<String>,
    pub dry_run: bool,
}

/// `update`: update the manager.
pub struct UpdateArgs {
    pub version: Option<String>,
    pub check: bool,
}

/// `init`: start a dotfiles repository.
pub struct InitArgs {
    pub path: Option<String>,
    pub remote: Option<String>,
    pub with_examples: bool,
}

}
