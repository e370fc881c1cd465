//! The engine: it applies modules, and reports each step as an operation.
//!
//! The steps themselves (backups on disk, links, hook processes) run outside
//! the library; here are the plan of an apply and the operations that report
//! each step's outcome.
use vstd::prelude::*;
use crate::paths::{debug_path, path_debug};
use crate::system::{new_id, now_seconds};
use crate::text::concat;
use super::config::Config;
use super::error::DreamcoderError;
use super::modules::{Module, ModuleManager};
use super::operation::{
    all_success, every_success, ActionType, ApplyOptions, InputRequest, InputType, MetaValue,
    Operation, OperationResult, Status,
};
use super::state::{State, StateManager};

verus! {

/// A step of applying modules.
#[derive(Clone, Copy, Debug, PartialEq, Eq, Structural)]
pub enum ApplyStep {
    /// Back up before anything else.
    Backup,
    /// Install the module at this index of the options.
    Install(usize),
    /// Run the post-install hook of the module at this index.
    Hook(usize),
}

/// The installs of the first `n` modules, in order.
pub open spec fn install_steps(n: nat) -> Seq<ApplyStep>
    decreases n,
{
    if n == 0 {
        seq![]
    } else {
        install_steps((n - 1) as nat).push(ApplyStep::Install((n - 1) as usize))
    }
}

/// The hooks of the modules among `ms` that have one, in order.
pub open spec fn hook_steps(ms: Seq<Module>) -> Seq<ApplyStep>
    decreases ms.len(),
{
    if ms.len() == 0 {
        seq![]
    } else {
        let rest = hook_steps(ms.drop_last());
        if ms.last().post_install_hook is Some {
            rest.push(ApplyStep::Hook((ms.len() - 1) as usize))
        } else {
            rest
        }
    }
}

/// The steps an apply plans: a backup if asked for, every module installed
/// in order, then the post-install hooks in order unless hooks are skipped.
pub open spec fn planned_steps(o: ApplyOptions) -> Seq<ApplyStep> {
    (if o.backup { seq![ApplyStep::Backup] } else { seq![] }) + install_steps(o.modules.len() as nat) + (if o.skip_hooks {
        seq![]
    } else {
        hook_steps(o.modules@)
    })
}

/// The steps an apply executes: those planned, or none on a dry run.
pub open spec fn apply_plan(o: ApplyOptions) -> Seq<ApplyStep> {
    if o.dry_run {
        seq![]
    } else {
        planned_steps(o)
    }
}

/// How `{:?}` writes a list of paths.
pub open spec fn paths_debug(ps: Seq<Seq<char>>) -> Seq<char> {
    "["@ + joined_debug(ps) + "]"@
}

/// The debug forms of the paths, separated by `, `.
pub open spec fn joined_debug(ps: Seq<Seq<char>>) -> Seq<char>
    decreases ps.len(),
{
    if ps.len() == 0 {
        seq![]
    } else if ps.len() == 1 {
        path_debug(ps[0])
    } else {
        joined_debug(ps.drop_last()) + ", "@ + path_debug(ps.last())
    }
}

/// The engine that applies modules.
pub struct DreamcoderEngine {
    pub config: Config,
    pub state: StateManager,
    pub module_manager: ModuleManager,
}

/// `op` reports an action with a status, a message, a question and no other
/// details than those checked by the caller.
pub open spec fn reports(op: Operation, action: ActionType, status: Status, message: Seq<char>) -> bool {
    op.action == action && op.status == status && op.message@ == message
}

impl DreamcoderEngine {
    /// An engine for the configuration, holding the state read from disk.
    pub fn new(config: Config, state: State) -> (r: Result<DreamcoderEngine, DreamcoderError>)
        ensures
            r matches Ok(e) && e.config == config && e.state.state == state && e.module_manager.root() == config.dotfiles_root@,
    {
        let state = StateManager::with_state(&config, state);
        let module_manager = match ModuleManager::new(&config) {
            Ok(m) => m,
            Err(e) => return Err(e),
        };
        Ok(DreamcoderEngine { config, state, module_manager })
    }

    /// The steps of applying the options.
    pub fn apply_steps(options: &ApplyOptions) -> (r: Vec<ApplyStep>)
        ensures
            r@ == apply_plan(*options),
    {
        if options.dry_run {
            return Vec::new();
        }
        Self::planned(options)
    }

    /// The steps an apply of the options plans, executed or not.
    pub fn planned(options: &ApplyOptions) -> (r: Vec<ApplyStep>)
        ensures
            r@ == planned_steps(*options),
    {
        let mut out: Vec<ApplyStep> = Vec::new();
        if options.backup {
            out.push(ApplyStep::Backup);
        }
        let ghost start = out@;
        let mut i: usize = 0;
        while i < options.modules.len()
            invariant
                i <= options.modules.len(),
                out@ == start + install_steps(i as nat),
            decreases options.modules.len() - i,
        {
            out.push(ApplyStep::Install(i));
            i = i + 1;
        }
        let ghost mid = out@;
        if options.skip_hooks {
            assert(out@ =~= planned_steps(*options));
            return out;
        }
        let mut j: usize = 0;
        while j < options.modules.len()
            invariant
                j <= options.modules.len(),
                out@ == mid + hook_steps(options.modules@.take(j as int)),
            decreases options.modules.len() - j,
        {
            proof {
                let t = options.modules@.take(j + 1);
                assert(t.drop_last() =~= options.modules@.take(j as int));
                assert(t.last() == options.modules@[j as int]);
            }
            if options.modules[j].post_install_hook.is_some() {
                out.push(ApplyStep::Hook(j));
            }
            j = j + 1;
        }
        assert(options.modules@.take(j as int) =~= options.modules@);
        assert(out@ =~= planned_steps(*options));
        out
    }

    /// The outcome of an apply made of the operations, at `timestamp`.
    pub fn apply_result(operations: Vec<Operation>, timestamp: i64) -> (r: OperationResult)
        ensures
            r.success == all_success(operations@),
            r.operations == operations,
            r.timestamp == timestamp,
    {
        let success = every_success(&operations);
        OperationResult { success, operations, timestamp }
    }

    /// The outcome of an apply made of the operations, now.
    pub fn finish_apply(operations: Vec<Operation>) -> (r: OperationResult)
        ensures
            r.success == all_success(operations@),
            r.operations == operations,
    {
        let now = now_seconds();
        Self::apply_result(operations, now)
    }

    /// The report of a backup that was not made, as nothing changed.
    pub fn skipped_backup_operation() -> (r: Operation)
        ensures
            reports(r, ActionType::Backup, Status::Skipped, "No changes detected"@),
            r.requires_input is None,
            r.metadata@.len() == 0,
    {
        Operation {
            id: new_id(),
            action: ActionType::Backup,
            status: Status::Skipped,
            message: "No changes detected".to_string(),
            requires_input: None,
            metadata: Vec::new(),
        }
    }

    /// The report of a backup made at `path`, holding `size` bytes.
    pub fn created_backup_operation(path: &str, size: u64) -> (r: Operation)
        ensures
            reports(r, ActionType::Backup, Status::Success, "Backup created at "@ + path_debug(path@)),
            r.requires_input is None,
            r.metadata@.len() == 2,
            r.metadata@[0].0@ == "path"@,
            r.metadata@[0].1 matches MetaValue::Text(p) && p@ == path@,
            r.metadata@[1].0@ == "size"@,
            r.metadata@[1].1 matches MetaValue::Bytes(n) && n == size,
    {
        let d = debug_path(path);
        let mut metadata: Vec<(String, MetaValue)> = Vec::new();
        metadata.push(("path".to_string(), MetaValue::Text(path.to_string())));
        metadata.push(("size".to_string(), MetaValue::Bytes(size)));
        Operation {
            id: new_id(),
            action: ActionType::Backup,
            status: Status::Success,
            message: concat("Backup created at ", d.as_str()),
            requires_input: None,
            metadata,
        }
    }

    /// `{:?}` of a list of paths.
    fn debug_paths(ps: &Vec<String>) -> (r: String)
        ensures
            r@ == paths_debug(ps.deep_view()),
    {
        let mut body = String::new();
        let mut i: usize = 0;
        while i < ps.len()
            invariant
                i <= ps.len(),
                body@ == joined_debug(ps.deep_view().take(i as int)),
            decreases ps.len() - i,
        {
            let d = debug_path(ps[i].as_str());
            proof {
                let t = ps.deep_view().take(i + 1);
                assert(t.drop_last() =~= ps.deep_view().take(i as int));
                assert(t.last() == ps[i as int]@);
                if i == 0 {
                    assert(t[0] == ps[0]@);
                }
            }
            if i == 0 {
                body = d;
            } else {
                let with_sep = concat(body.as_str(), ", ");
                body = concat(with_sep.as_str(), d.as_str());
            }
            i = i + 1;
        }
        assert(ps.deep_view().take(i as int) =~= ps.deep_view());
        let open = concat("[", body.as_str());
        concat(open.as_str(), "]")
    }

    /// The report of an install that waits for confirmation, as the given
    /// files are in the way.
    pub fn conflict_operation(module: &Module, conflicts: &Vec<String>) -> (r: Operation)
        ensures
            reports(r, ActionType::Install, Status::PendingInput, "Conflicts detected for module "@ + module.name@),
            r.requires_input matches Some(q) && q.input_type == InputType::Confirm
                && q.message@ == "Overwrite existing files? "@ + paths_debug(conflicts.deep_view())
                && (q.default matches Some(d) && d@ == "false"@),
            r.metadata@.len() == 2,
            r.metadata@[0].0@ == "module"@,
            r.metadata@[0].1 matches MetaValue::Text(n) && n@ == module.name@,
            r.metadata@[1].0@ == "conflicts"@,
            r.metadata@[1].1 matches MetaValue::Paths(ps) && ps.deep_view() == conflicts.deep_view(),
    {
        let listed = Self::debug_paths(conflicts);
        let copy = conflicts.clone();
        assert(copy.deep_view() =~= conflicts.deep_view());
        let mut metadata: Vec<(String, MetaValue)> = Vec::new();
        metadata.push(("module".to_string(), MetaValue::Text(module.name.clone())));
        metadata.push(("conflicts".to_string(), MetaValue::Paths(copy)));
        Operation {
            id: new_id(),
            action: ActionType::Install,
            status: Status::PendingInput,
            message: concat("Conflicts detected for module ", module.name.as_str()),
            requires_input: Some(InputRequest {
                input_type: InputType::Confirm,
                message: concat("Overwrite existing files? ", listed.as_str()),
                default: Some("false".to_string()),
            }),
            metadata,
        }
    }

    /// The report of a module installed.
    pub fn installed_operation(module: &Module) -> (r: Operation)
        ensures
            reports(r, ActionType::Install, Status::Success,
                "Module "@ + module.name@ + " installed successfully"@),
            r.requires_input is None,
            r.metadata@.len() == 2,
            r.metadata@[0].0@ == "module"@,
            r.metadata@[0].1 matches MetaValue::Text(n) && n@ == module.name@,
            r.metadata@[1].0@ == "symlinks_created"@,
            r.metadata@[1].1 matches MetaValue::Count(n) && n == module.symlinks.len(),
    {
        let mut metadata: Vec<(String, MetaValue)> = Vec::new();
        metadata.push(("module".to_string(), MetaValue::Text(module.name.clone())));
        metadata.push(("symlinks_created".to_string(), MetaValue::Count(module.symlinks.len())));
        let head = concat("Module ", module.name.as_str());
        Operation {
            id: new_id(),
            action: ActionType::Install,
            status: Status::Success,
            message: concat(head.as_str(), " installed successfully"),
            requires_input: None,
            metadata,
        }
    }

    /// The report of a post-install hook that ran: its output as the
    /// message; on failure, a question whether to go on.
    pub fn hook_operation(hook: &str, module: &Module, success: bool, stdout: &str, exit_code: Option<i32>) -> (r: Operation)
        ensures
            reports(r, ActionType::Hook, if success { Status::Success } else { Status::Failed }, stdout@),
            success ==> r.requires_input is None,
            !success ==> (r.requires_input matches Some(q) && q.input_type == InputType::Confirm
                && q.message@ == "Hook failed, continue?"@ && (q.default matches Some(d) && d@ == "true"@)),
            r.metadata@.len() == 3,
            r.metadata@[0].0@ == "module"@,
            r.metadata@[0].1 matches MetaValue::Text(n) && n@ == module.name@,
            r.metadata@[1].0@ == "hook"@,
            r.metadata@[1].1 matches MetaValue::Text(h) && h@ == hook@,
            r.metadata@[2].0@ == "exit_code"@,
            match exit_code {
                Some(c) => r.metadata@[2].1 matches MetaValue::Code(x) && x == c,
                None => r.metadata@[2].1 is Null,
            },
    {
        let mut metadata: Vec<(String, MetaValue)> = Vec::new();
        metadata.push(("module".to_string(), MetaValue::Text(module.name.clone())));
        metadata.push(("hook".to_string(), MetaValue::Text(hook.to_string())));
        let code = match exit_code {
            Some(c) => MetaValue::Code(c),
            None => MetaValue::Null,
        };
        metadata.push(("exit_code".to_string(), code));
        let requires_input = if success {
            None
        } else {
            Some(InputRequest {
                input_type: InputType::Confirm,
                message: "Hook failed, continue?".to_string(),
                default: Some("true".to_string()),
            })
        };
        Operation {
            id: new_id(),
            action: ActionType::Hook,
            status: if success { Status::Success } else { Status::Failed },
            message: stdout.to_string(),
            requires_input,
            metadata,
        }
    }
}

/// The action a planned step takes.
pub open spec fn step_action(step: ApplyStep) -> ActionType {
    match step {
        ApplyStep::Backup => ActionType::Backup,
        ApplyStep::Install(_) => ActionType::Install,
        ApplyStep::Hook(_) => ActionType::Hook,
    }
}

/// What a dry run reports of a planned step.
pub open spec fn step_message(o: ApplyOptions, step: ApplyStep) -> Seq<char> {
    match step {
        ApplyStep::Backup => "Backup would be created"@,
        ApplyStep::Install(i) => "Module "@ + o.modules@[i as int].name@ + " would be installed"@,
        ApplyStep::Hook(i) => "Post-install hook of "@ + o.modules@[i as int].name@ + " would run"@,
    }
}

/// A step names a module of the options, where it names one.
pub open spec fn step_in_range(o: ApplyOptions, step: ApplyStep) -> bool {
    match step {
        ApplyStep::Backup => true,
        ApplyStep::Install(i) => i < o.modules.len(),
        ApplyStep::Hook(i) => i < o.modules.len(),
    }
}

proof fn lemma_planned_in_range(o: ApplyOptions)
    ensures
        forall|k: int| 0 <= k < planned_steps(o).len() ==> step_in_range(o, #[trigger] planned_steps(o)[k]),
{
    let b: Seq<ApplyStep> = if o.backup { seq![ApplyStep::Backup] } else { seq![] };
    let n = o.modules.len() as nat;
    let h: Seq<ApplyStep> = if o.skip_hooks { seq![] } else { hook_steps(o.modules@) };
    let p = planned_steps(o);
    lemma_install_steps_len(n);
    assert(p == b + install_steps(n) + h);
    assert forall|k: int| 0 <= k < p.len() implies step_in_range(o, #[trigger] p[k]) by {
        if k < b.len() {
            assert(p[k] == b[k]);
        } else if k < b.len() + n {
            lemma_install_steps(n, k - b.len());
            assert(p[k] == install_steps(n)[k - b.len()]);
        } else {
            assert(p[k] == h[k - b.len() - n]);
            lemma_hook_steps_in_range(o.modules@, k - b.len() - n);
        }
    }
}

proof fn lemma_hook_steps_in_range(ms: Seq<Module>, k: int)
    requires
        0 <= k < hook_steps(ms).len(),
    ensures
        hook_steps(ms)[k] matches ApplyStep::Hook(i) && i < ms.len(),
    decreases ms.len(),
{
    let rest = hook_steps(ms.drop_last());
    if k < rest.len() {
        lemma_hook_steps_in_range(ms.drop_last(), k);
        if ms.last().post_install_hook is Some {
            assert(hook_steps(ms)[k] == rest[k]);
        }
    }
}

impl DreamcoderEngine {
    /// What a dry run reports of a planned step: the step's action, pending,
    /// with what it would do.
    pub fn planned_operation(options: &ApplyOptions, step: ApplyStep) -> (r: Operation)
        requires
            step_in_range(*options, step),
        ensures
            reports(r, step_action(step), Status::Pending, step_message(*options, step)),
            r.requires_input is None,
            r.metadata@.len() == 0,
    {
        let message = match step {
            ApplyStep::Backup => "Backup would be created".to_string(),
            ApplyStep::Install(i) => {
                let head = concat("Module ", options.modules[i].name.as_str());
                concat(head.as_str(), " would be installed")
            },
            ApplyStep::Hook(i) => {
                let head = concat("Post-install hook of ", options.modules[i].name.as_str());
                concat(head.as_str(), " would run")
            },
        };
        let action = match step {
            ApplyStep::Backup => ActionType::Backup,
            ApplyStep::Install(_) => ActionType::Install,
            ApplyStep::Hook(_) => ActionType::Hook,
        };
        Operation { id: new_id(), action, status: Status::Pending, message, requires_input: None, metadata: Vec::new() }
    }

    /// The outcome of a dry run: one pending operation for each step the apply
    /// plans, in order, and nothing executed.
    pub fn dry_run_result(options: &ApplyOptions) -> (r: OperationResult)
        ensures
            r.operations@.len() == planned_steps(*options).len(),
            forall|k: int| 0 <= k < r.operations@.len() ==> reports(
                #[trigger] r.operations@[k],
                step_action(planned_steps(*options)[k]),
                Status::Pending,
                step_message(*options, planned_steps(*options)[k]),
            ),
            r.success == all_success(r.operations@),
    {
        let steps = Self::planned(options);
        proof {
            lemma_planned_in_range(*options);
        }
        let mut ops: Vec<Operation> = Vec::new();
        let mut k: usize = 0;
        while k < steps.len()
            invariant
                k <= steps.len(),
                steps@ == planned_steps(*options),
                forall|q: int| 0 <= q < steps@.len() ==> step_in_range(*options, #[trigger] steps@[q]),
                ops@.len() == k,
                forall|q: int| 0 <= q < k ==> reports(
                    #[trigger] ops@[q],
                    step_action(steps@[q]),
                    Status::Pending,
                    step_message(*options, steps@[q]),
                ),
            decreases steps.len() - k,
        {
            assert(step_in_range(*options, steps@[k as int]));
            ops.push(Self::planned_operation(options, steps[k]));
            k = k + 1;
        }
        Self::finish_apply(ops)
    }
}

proof fn lemma_install_steps(n: nat, k: int)
    requires
        0 <= k < n,
    ensures
        install_steps(n).len() == n,
        install_steps(n)[k] == ApplyStep::Install(k as usize),
    decreases n,
{
    lemma_install_steps_len(n);
    lemma_install_steps_len((n - 1) as nat);
    if k < n - 1 {
        lemma_install_steps((n - 1) as nat, k);
    }
}

proof fn lemma_install_steps_len(n: nat)
    ensures
        install_steps(n).len() == n,
    decreases n,
{
    if n > 0 {
        lemma_install_steps_len((n - 1) as nat);
    }
}

/// An apply plans a backup first when asked to, then installs every module
/// once, in the given order, before any post-install hook; with hooks
/// skipped it plans no hook; on a dry run it executes nothing.
pub proof fn law_apply_installs_in_order(o: ApplyOptions, i: int)
    requires
        0 <= i < o.modules.len(),
    ensures
        planned_steps(o)[(if o.backup { 1int } else { 0int }) + i] == ApplyStep::Install(i as usize),
        o.backup ==> planned_steps(o)[0] == ApplyStep::Backup,
        forall|j: int| 0 <= j < (if o.backup { 1int } else { 0int }) + o.modules.len() ==> !(#[trigger] planned_steps(o)[j] is Hook),
        o.skip_hooks ==> forall|j: int| 0 <= j < planned_steps(o).len() ==> !(#[trigger] planned_steps(o)[j] is Hook),
        o.dry_run ==> apply_plan(o).len() == 0,
        !o.dry_run ==> apply_plan(o) == planned_steps(o),
{
    let b: Seq<ApplyStep> = if o.backup { seq![ApplyStep::Backup] } else { seq![] };
    let n = o.modules.len() as nat;
    let h: Seq<ApplyStep> = if o.skip_hooks { seq![] } else { hook_steps(o.modules@) };
    lemma_install_steps(n, i);
    let p = planned_steps(o);
    assert(p == b + install_steps(n) + h);
    assert(p[b.len() + i] == install_steps(n)[i]);
    assert forall|j: int| 0 <= j < b.len() + n implies !(#[trigger] p[j] is Hook) by {
        if j >= b.len() {
            lemma_install_steps(n, j - b.len());
            assert(p[j] == install_steps(n)[j - b.len()]);
        } else {
            assert(p[j] == b[j]);
        }
    }
    if o.skip_hooks {
        assert(p.len() == b.len() + n);
    }
}

}
