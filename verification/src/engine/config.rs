//! The manager's configuration.
use vstd::prelude::*;
use crate::paths::{join, join_path};
use crate::stow::types::{dotfiles_root_for, dotfiles_under};
use crate::system::home_dir;
use super::error::DreamcoderError;

verus! {

/// The version of this manager.
pub const VERSION: &'static str = "2.0.0";

/// Which secrets provider is configured.
#[derive(Clone, Copy, Debug, PartialEq, Eq, Structural)]
pub enum SecretProviderType {
    Age,
    Sops,
    OnePassword,
    Bitwarden,
    /// No provider (`none` in the configuration file).
    Disabled,
}

/// The secrets provider and its key file.
pub struct SecretsProvider {
    pub provider_type: SecretProviderType,
    pub key_file: Option<String>,
}

/// How system packages are installed.
pub struct PackageManagerConfig {
    pub auto_install: bool,
    /// pacman, apt, brew, ...
    pub preferred_manager: Option<String>,
}

/// How the manager talks to automated clients.
pub struct AiConfig {
    pub structured_output: bool,
    pub non_interactive: bool,
    pub auto_confirm: bool,
    pub json_pretty: bool,
}

/// The configuration of the manager.
pub struct Config {
    pub version: String,
    pub dotfiles_root: String,
    pub backup_dir: String,
    pub state_dir: String,
    pub max_backups: usize,
    pub detect_changes: bool,
    pub auto_backup: bool,
    pub generate_reports: bool,
    pub secrets_provider: SecretsProvider,
    pub package_manager: PackageManagerConfig,
    pub ai: AiConfig,
}

/// `c` is the default configuration for the home directory `home`.
pub open spec fn is_default_config(c: Config, home: Seq<char>) -> bool {
    &&& c.version@ == VERSION@
    &&& c.dotfiles_root@ == dotfiles_under(home)
    &&& c.backup_dir@ == join(join(home, ".config"@), "dreamcoder-backups"@)
    &&& c.state_dir@ == join(join(home, ".config"@), "dreamcoder-manager"@)
    &&& c.max_backups == 5
    &&& c.detect_changes
    &&& c.auto_backup
    &&& c.generate_reports
    &&& c.secrets_provider.provider_type == SecretProviderType::Disabled
    &&& c.secrets_provider.key_file is None
    &&& !c.package_manager.auto_install
    &&& c.package_manager.preferred_manager is None
    &&& c.ai.structured_output
    &&& !c.ai.non_interactive
    &&& !c.ai.auto_confirm
    &&& c.ai.json_pretty
}

impl Config {
    /// The default configuration for the home directory `home`.
    pub fn for_home(home: &str) -> (r: Config)
        ensures
            is_default_config(r, home@),
    {
        let dot_config = join_path(home, ".config");
        Config {
            version: VERSION.to_string(),
            dotfiles_root: dotfiles_root_for(home),
            backup_dir: join_path(dot_config.as_str(), "dreamcoder-backups"),
            state_dir: join_path(dot_config.as_str(), "dreamcoder-manager"),
            max_backups: 5,
            detect_changes: true,
            auto_backup: true,
            generate_reports: true,
            secrets_provider: SecretsProvider { provider_type: SecretProviderType::Disabled, key_file: None },
            package_manager: PackageManagerConfig { auto_install: false, preferred_manager: None },
            ai: AiConfig { structured_output: true, non_interactive: false, auto_confirm: false, json_pretty: true },
        }
    }

    /// The configuration: the defaults, as nothing is read from a file yet.
    pub fn load() -> (r: Result<Config, DreamcoderError>)
        ensures
            r matches Ok(c) && exists|home: Seq<char>| is_default_config(c, home),
    {
        Ok(Config::default())
    }

    /// Saves the configuration: nothing is written yet, and nothing fails.
    pub fn save(&self) -> (r: Result<(), DreamcoderError>)
        ensures
            r is Ok,
    {
        Ok(())
    }
}

impl Default for Config {
    /// The default configuration for the current user's home directory (an
    /// empty path where there is none).
    fn default() -> (r: Config)
        ensures
            exists|home: Seq<char>| is_default_config(r, home),
    {
        let home = match home_dir() {
            Some(h) => h,
            None => String::new(),
        };
        Config::for_home(home.as_str())
    }
}

}
