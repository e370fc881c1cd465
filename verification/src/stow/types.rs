//! The data the stow engine plans and reports with.
use vstd::prelude::*;
use crate::paths::{join, join_path};
use crate::system::home_dir;

verus! {

/// Where packages come from and where they are linked to.
pub struct StowConfig {
    /// The directory that holds the packages.
    pub source_dir: String,
    /// The directory links are made in (usually the home directory).
    pub target_dir: String,
    /// Move existing files aside before linking over them.
    pub backup_existing: bool,
    /// Plan and report only; change nothing.
    pub simulate: bool,
}

/// The dotfiles repository under a home directory.
pub open spec fn dotfiles_under(home: Seq<char>) -> Seq<char> {
    join(join(join(home, "Documents"@), "PROYECTOS"@), "Dreamcoder_dots"@)
}

/// `c` is the default configuration for the home directory `home`.
pub open spec fn is_default_stow_config(c: StowConfig, home: Seq<char>) -> bool {
    &&& c.source_dir@ == dotfiles_under(home)
    &&& c.target_dir@ == home
    &&& c.backup_existing
    &&& !c.simulate
}

/// The repository path under `home`.
pub fn dotfiles_root_for(home: &str) -> (r: String)
    ensures
        r@ == dotfiles_under(home@),
{
    let a = join_path(home, "Documents");
    let b = join_path(a.as_str(), "PROYECTOS");
    join_path(b.as_str(), "Dreamcoder_dots")
}

impl StowConfig {
    /// The default configuration for the home directory `home`.
    pub fn for_home(home: &str) -> (r: StowConfig)
        ensures
            is_default_stow_config(r, home@),
    {
        StowConfig {
            source_dir: dotfiles_root_for(home),
            target_dir: home.to_string(),
            backup_existing: true,
            simulate: false,
        }
    }

    /// A copy of the configuration.
    pub fn copy(&self) -> (r: StowConfig)
        ensures
            r.source_dir@ == self.source_dir@,
            r.target_dir@ == self.target_dir@,
            r.backup_existing == self.backup_existing,
            r.simulate == self.simulate,
    {
        StowConfig {
            source_dir: self.source_dir.clone(),
            target_dir: self.target_dir.clone(),
            backup_existing: self.backup_existing,
            simulate: self.simulate,
        }
    }
}

impl Default for StowConfig {
    /// The default configuration for the current user's home directory (an
    /// empty path where there is none).
    fn default() -> (r: StowConfig)
        ensures
            exists|home: Seq<char>| is_default_stow_config(r, home),
    {
        let home = match home_dir() {
            Some(h) => h,
            None => String::new(),
        };
        StowConfig::for_home(home.as_str())
    }
}

/// The kinds of step a stow plan is made of.
#[derive(Clone, Copy, Debug, PartialEq, Eq, Structural)]
pub enum OperationType {
    /// Create a symlink.
    CreateSymlink,
    /// Remove a symlink.
    RemoveSymlink,
    /// Create a directory.
    CreateDir,
    /// Remove a directory if it is empty.
    RemoveDir,
    /// Move an existing file aside.
    Backup,
}

/// One step of a stow plan.
pub struct SymlinkOperation {
    pub op_type: OperationType,
    pub source: String,
    pub target: String,
    pub is_dir: bool,
    pub description: String,
}

/// A step as plain values: kind, source, target, whether it is a directory, description.
pub type OpView = (OperationType, Seq<char>, Seq<char>, bool, Seq<char>);

impl View for SymlinkOperation {
    type V = OpView;

    open spec fn view(&self) -> OpView {
        (self.op_type, self.source@, self.target@, self.is_dir, self.description@)
    }
}

impl SymlinkOperation {
    /// A copy of the step.
    pub fn copy(&self) -> (r: SymlinkOperation)
        ensures
            r@ == self@,
    {
        SymlinkOperation {
            op_type: self.op_type,
            source: self.source.clone(),
            target: self.target.clone(),
            is_dir: self.is_dir,
            description: self.description.clone(),
        }
    }
}

/// The outcome of one executed step.
pub struct OperationResult {
    pub success: bool,
    pub operation: SymlinkOperation,
    pub error: Option<String>,
}

/// The outcome of stowing or unstowing a package.
pub struct StowResult {
    pub package: String,
    pub operations: usize,
    pub symlinks_created: usize,
    pub errors: usize,
}

/// A package and its files.
pub struct PackageInfo {
    pub name: String,
    pub path: String,
    pub files: Vec<String>,
    pub is_installed: bool,
}

}
