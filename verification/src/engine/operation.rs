//! The operations the engine reports, in the shape automated clients read.
use vstd::prelude::*;
use super::modules::Module;

verus! {

/// What an operation does.
#[derive(Clone, Copy, Debug, PartialEq, Eq, Structural)]
pub enum ActionType {
    Backup,
    Install,
    Uninstall,
    Update,
    Template,
    Hook,
    PackageInstall,
}

/// How an action is written.
pub open spec fn action_text(a: ActionType) -> Seq<char> {
    match a {
        ActionType::Backup => "backup"@,
        ActionType::Install => "install"@,
        ActionType::Uninstall => "uninstall"@,
        ActionType::Update => "update"@,
        ActionType::Template => "template"@,
        ActionType::Hook => "hook"@,
        ActionType::PackageInstall => "package-install"@,
    }
}

impl ActionType {
    /// How the action is written.
    pub fn to_string(&self) -> (r: String)
        ensures
            r@ == action_text(*self),
    {
        let s = match self {
            ActionType::Backup => "backup",
            ActionType::Install => "install",
            ActionType::Uninstall => "uninstall",
            ActionType::Update => "update",
            ActionType::Template => "template",
            ActionType::Hook => "hook",
            ActionType::PackageInstall => "package-install",
        };
        s.to_string()
    }
}

/// Where an operation stands.
#[derive(Clone, Copy, Debug, PartialEq, Eq, Structural)]
pub enum Status {
    Pending,
    Running,
    Success,
    Failed,
    Skipped,
    PendingInput,
}

/// The kind of answer an operation waits for.
#[derive(Clone, Copy, Debug, PartialEq, Eq, Structural)]
pub enum InputType {
    Confirm,
    Text,
    Password,
    Select,
}

/// A question that an operation needs answered.
pub struct InputRequest {
    pub input_type: InputType,
    pub message: String,
    pub default: Option<String>,
}

/// A value in an operation's metadata.
pub enum MetaValue {
    Text(String),
    Count(usize),
    Bytes(u64),
    Code(i32),
    Null,
    Paths(Vec<String>),
}

/// One step of the engine's work, as it is reported.
pub struct Operation {
    pub id: String,
    pub action: ActionType,
    pub status: Status,
    pub message: String,
    pub requires_input: Option<InputRequest>,
    pub metadata: Vec<(String, MetaValue)>,
}

/// The outcome of applying modules.
pub struct OperationResult {
    /// Every operation succeeded.
    pub success: bool,
    pub operations: Vec<Operation>,
    /// Seconds since the Unix epoch.
    pub timestamp: i64,
}

/// What to apply, and how.
pub struct ApplyOptions {
    pub modules: Vec<Module>,
    pub backup: bool,
    pub dry_run: bool,
    pub skip_hooks: bool,
}

/// The machine the manager runs on.
pub struct SystemInfo {
    pub os: String,
    pub arch: String,
    pub hostname: String,
    pub username: String,
    pub home_dir: String,
}

/// The user name: `USER`, else `USERNAME`, else empty.
pub open spec fn chosen_username(user: Option<Seq<char>>, username: Option<Seq<char>>) -> Seq<char> {
    match user {
        Some(u) => u,
        None => match username {
            Some(u) => u,
            None => seq![],
        },
    }
}

impl SystemInfo {
    /// The user name from the values of `USER` and `USERNAME`.
    pub fn username_from(user: Option<String>, username: Option<String>) -> (r: String)
        ensures
            r@ == chosen_username(
                match user { Some(u) => Some(u@), None => None },
                match username { Some(u) => Some(u@), None => None },
            ),
    {
        match user {
            Some(u) => u,
            None => match username {
                Some(u) => u,
                None => String::new(),
            },
        }
    }
}

/// All operations succeeded.
pub open spec fn all_success(ops: Seq<Operation>) -> bool {
    forall|i: int| 0 <= i < ops.len() ==> (#[trigger] ops[i]).status == Status::Success
}

/// Whether all operations succeeded.
pub fn every_success(ops: &Vec<Operation>) -> (r: bool)
    ensures
        r == all_success(ops@),
{
    let mut i: usize = 0;
    while i < ops.len()
        invariant
            i <= ops.len(),
            forall|k: int| 0 <= k < i ==> (#[trigger] ops@[k]).status == Status::Success,
        decreases ops.len() - i,
    {
        if ops[i].status != Status::Success {
            return false;
        }
        i = i + 1;
    }
    true
}

}
