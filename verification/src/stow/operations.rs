//! Planning the steps that stow or unstow a package.
//!
//! The directory walks happen outside the library: for each entry of the
//! package (or each symlink of the target directory) the caller hands over
//! what it found, and the plan is computed here.
use vstd::prelude::*;
use crate::paths::{
    debug_path, join, join_path, parent, parent_path, path_debug, path_eq, path_starts_with,
    relative, same_path, starts_with, strip_prefix,
};
use crate::engine::backup::{stamp_now, written_stamp, STAMP_FORMAT};
use crate::paths::{file_name, path_file_name, path_with_file_name, with_file_name};
use crate::text::concat;
use super::error::{StowError, StowErrorView, opt_view};
use super::types::{OpView, OperationResult, OperationType, StowConfig, SymlinkOperation};

verus! {

/// What is found at the place a package entry would be linked to.
pub enum TargetState {
    /// Nothing there.
    Missing,
    /// A symlink to an existing file or directory, pointing at `points_to`.
    Symlink { points_to: String },
    /// A symlink whose target does not exist, pointing at `points_to`.
    Dangling { points_to: String },
    /// A file or directory that is not a symlink.
    Occupied,
}

/// An entry of a package directory (the package itself excluded), with what
/// is found at its place in the target directory.
pub struct PackageEntry {
    pub source_path: String,
    pub is_dir: bool,
    pub target: TargetState,
}

/// A symlink found in the target directory.
pub struct LinkEntry {
    /// Where the symlink is.
    pub path: String,
    /// What it points at.
    pub points_to: String,
    /// Whether the walk reported it as a directory.
    pub is_dir: bool,
}

/// Plans and (outside the library) executes stow steps.
pub struct StowEngine {
    pub config: StowConfig,
}

/// A step as plain values.
pub open spec fn op(t: OperationType, source: Seq<char>, target: Seq<char>, is_dir: bool, d: Seq<char>) -> OpView {
    (t, source, target, is_dir, d)
}

/// The steps for one package entry at relative path `rel`, linked into `target_dir`.
pub open spec fn stow_steps(
    target_dir: Seq<char>,
    backup_existing: bool,
    source: Seq<char>,
    rel: Seq<char>,
    is_dir: bool,
    state: TargetState,
) -> Seq<OpView> {
    let target = join(target_dir, rel);
    let create = op(OperationType::CreateSymlink, source, target, false,
        "Create symlink for "@ + path_debug(rel));
    if is_dir {
        match state {
            TargetState::Missing | TargetState::Dangling { .. } => seq![op(OperationType::CreateDir, source,
                target, true, "Create directory "@ + path_debug(rel))],
            _ => seq![],
        }
    } else {
        match state {
            TargetState::Missing => seq![create],
            TargetState::Dangling { .. } => seq![op(OperationType::RemoveSymlink, source, target, false,
                "Remove existing symlink "@ + path_debug(target)), create],
            TargetState::Symlink { points_to } => if same_path(points_to@, source) {
                seq![]
            } else {
                seq![op(OperationType::RemoveSymlink, source, target, false,
                    "Remove existing symlink "@ + path_debug(target)), create]
            },
            TargetState::Occupied => if backup_existing {
                seq![op(OperationType::Backup, target, target, false,
                    "Backup existing file "@ + path_debug(target)), create]
            } else {
                seq![create]
            },
        }
    }
}

/// Every entry lies under the package.
pub open spec fn all_under(package: Seq<char>, entries: Seq<PackageEntry>) -> bool {
    forall|i: int| 0 <= i < entries.len() ==> #[trigger] starts_with(entries[i].source_path@, package)
}

/// The steps for the given entries of `package`, in order.
pub open spec fn stow_plan(cfg: StowConfig, package: Seq<char>, entries: Seq<PackageEntry>) -> Seq<OpView>
    decreases entries.len(),
{
    if entries.len() == 0 {
        seq![]
    } else {
        let e = entries.last();
        stow_plan(cfg, package, entries.drop_last()) + stow_steps(
            cfg.target_dir@,
            cfg.backup_existing,
            e.source_path@,
            relative(e.source_path@, package).unwrap(),
            e.is_dir,
            e.target,
        )
    }
}

/// The steps that unlink one symlink that points into `package`.
pub open spec fn unstow_steps(target_dir: Seq<char>, package: Seq<char>, l: LinkEntry) -> Seq<OpView> {
    if starts_with(l.points_to@, package) {
        let remove = op(OperationType::RemoveSymlink, l.points_to@, l.path@, l.is_dir,
            "Remove symlink "@ + path_debug(l.path@));
        match parent(l.path@) {
            Some(par) => if !same_path(par, target_dir) {
                seq![remove, op(OperationType::RemoveDir, par, par, true,
                    "Remove empty dir "@ + path_debug(par))]
            } else {
                seq![remove]
            },
            None => seq![remove],
        }
    } else {
        seq![]
    }
}

/// The unstow steps for the given symlinks: the symlinks are taken from the
/// last found to the first, and each one's removal comes before the removal
/// of its parent directory.
pub open spec fn unstow_plan(target_dir: Seq<char>, package: Seq<char>, links: Seq<LinkEntry>) -> Seq<OpView>
    decreases links.len(),
{
    if links.len() == 0 {
        seq![]
    } else {
        unstow_steps(target_dir, package, links.last()) + unstow_plan(target_dir, package, links.drop_last())
    }
}

/// The views of a list of steps.
pub open spec fn ops_view(v: Seq<SymlinkOperation>) -> Seq<OpView> {
    v.map_values(|o: SymlinkOperation| o@)
}

fn make_op(t: OperationType, source: &str, target: &str, is_dir: bool, prefix: &str, shown: &str) -> (r: SymlinkOperation)
    ensures
        r@ == op(t, source@, target@, is_dir, prefix@ + path_debug(shown@)),
{
    let d = debug_path(shown);
    SymlinkOperation {
        op_type: t,
        source: source.to_string(),
        target: target.to_string(),
        is_dir,
        description: concat(prefix, d.as_str()),
    }
}

proof fn lemma_push_all(v: Seq<SymlinkOperation>, w: Seq<SymlinkOperation>)
    ensures
        ops_view(v + w) == ops_view(v) + ops_view(w),
{
    assert(ops_view(v + w) =~= ops_view(v) + ops_view(w));
}

impl StowEngine {
    /// An engine for the configuration.
    pub fn new(config: StowConfig) -> (r: StowEngine)
        ensures
            r.config == config,
    {
        StowEngine { config }
    }

    /// The place in the target directory that the package entry `source`
    /// is linked to, if it lies under `package`.
    pub fn target_for(&self, package: &str, source: &str) -> (r: Option<String>)
        ensures
            r matches Some(t) ==> (relative(source@, package@) matches Some(rel) && t@ == join(self.config.target_dir@, rel)),
            r is None <==> relative(source@, package@) is None,
    {
        match strip_prefix(source, package) {
            Some(rel) => Some(join_path(self.config.target_dir.as_str(), rel.as_str())),
            None => None,
        }
    }

    /// The steps for one package entry.
    fn plan_entry(&self, rel: &str, e: &PackageEntry, out: &mut Vec<SymlinkOperation>)
        ensures
            ops_view(final(out)@) == ops_view(old(out)@) + stow_steps(
                self.config.target_dir@,
                self.config.backup_existing,
                e.source_path@,
                rel@,
                e.is_dir,
                e.target,
            ),
    {
        let ghost start = out@;
        let target = join_path(self.config.target_dir.as_str(), rel);
        let src = e.source_path.as_str();
        let mut steps: Vec<SymlinkOperation> = Vec::new();
        if e.is_dir {
            match &e.target {
                TargetState::Missing | TargetState::Dangling { .. } => {
                    steps.push(make_op(OperationType::CreateDir, src, target.as_str(), true, "Create directory ", rel));
                },
                _ => {},
            }
        } else {
            match &e.target {
                TargetState::Missing => {},
                TargetState::Dangling { .. } => {
                    steps.push(make_op(OperationType::RemoveSymlink, src, target.as_str(), false,
                        "Remove existing symlink ", target.as_str()));
                },
                TargetState::Symlink { points_to } => {
                    if path_eq(points_to.as_str(), src) {
                        assert(ops_view(out@) =~= ops_view(start) + stow_steps(self.config.target_dir@,
                            self.config.backup_existing, e.source_path@, rel@, e.is_dir, e.target));
                        return;
                    }
                    steps.push(make_op(OperationType::RemoveSymlink, src, target.as_str(), false,
                        "Remove existing symlink ", target.as_str()));
                },
                TargetState::Occupied => {
                    if self.config.backup_existing {
                        steps.push(make_op(OperationType::Backup, target.as_str(), target.as_str(), false,
                            "Backup existing file ", target.as_str()));
                    }
                },
            }
            steps.push(make_op(OperationType::CreateSymlink, src, target.as_str(), false, "Create symlink for ", rel));
        }
        assert(ops_view(steps@) =~= stow_steps(self.config.target_dir@, self.config.backup_existing,
            e.source_path@, rel@, e.is_dir, e.target));
        let ghost mid = out@;
        let ghost st = steps@;
        out.append(&mut steps);
        proof {
            lemma_push_all(mid, st);
        }
    }

    /// Plans the stow of the package at `package` whose entries (in walk
    /// order) are `entries`. Fails, as the walk's `strip_prefix` does, when
    /// an entry does not lie under the package.
    pub fn plan_stow(&self, package: &str, entries: &Vec<PackageEntry>) -> (r: Result<Vec<SymlinkOperation>, StowError>)
        ensures
            all_under(package@, entries@) ==> (r matches Ok(ops) && ops_view(ops@) == stow_plan(self.config, package@, entries@)),
            !all_under(package@, entries@) ==> (r matches Err(e) && e@ == crate::stow::error::StowErrorView::InvalidPath("Cannot strip prefix"@)),
    {
        let mut out: Vec<SymlinkOperation> = Vec::new();
        let mut i: usize = 0;
        while i < entries.len()
            invariant
                i <= entries.len(),
                all_under(package@, entries@.take(i as int)),
                ops_view(out@) == stow_plan(self.config, package@, entries@.take(i as int)),
            decreases entries.len() - i,
        {
            let e = &entries[i];
            match strip_prefix(e.source_path.as_str(), package) {
                Some(rel) => {
                    self.plan_entry(rel.as_str(), e, &mut out);
                    proof {
                        let t = entries@.take(i + 1);
                        assert(t.drop_last() =~= entries@.take(i as int));
                        assert(t.last() == entries@[i as int]);
                        assert forall|k: int| 0 <= k < t.len() implies #[trigger] starts_with(t[k].source_path@, package@) by {
                            if k < i {
                                assert(t[k] == entries@.take(i as int)[k]);
                            }
                        }
                    }
                },
                None => {
                    assert(!starts_with(entries@[i as int].source_path@, package@));
                    return Err(StowError::InvalidPath("Cannot strip prefix".to_string()));
                },
            }
            i = i + 1;
        }
        assert(entries@.take(i as int) =~= entries@);
        Ok(out)
    }

    /// The steps for one symlink of the target directory.
    fn plan_unlink(&self, package: &str, l: &LinkEntry, out: &mut Vec<SymlinkOperation>)
        ensures
            ops_view(final(out)@) == ops_view(old(out)@) + unstow_steps(self.config.target_dir@, package@, *l),
    {
        let ghost start = out@;
        if !path_starts_with(l.points_to.as_str(), package) {
            assert(ops_view(out@) =~= ops_view(start) + unstow_steps(self.config.target_dir@, package@, *l));
            return;
        }
        let mut steps: Vec<SymlinkOperation> = Vec::new();
        steps.push(make_op(OperationType::RemoveSymlink, l.points_to.as_str(), l.path.as_str(), l.is_dir,
            "Remove symlink ", l.path.as_str()));
        match parent_path(l.path.as_str()) {
            Some(par) => {
                if !path_eq(par.as_str(), self.config.target_dir.as_str()) {
                    steps.push(make_op(OperationType::RemoveDir, par.as_str(), par.as_str(), true,
                        "Remove empty dir ", par.as_str()));
                }
            },
            None => {},
        }
        assert(ops_view(steps@) =~= unstow_steps(self.config.target_dir@, package@, *l));
        let ghost mid = out@;
        let ghost st = steps@;
        out.append(&mut steps);
        proof {
            lemma_push_all(mid, st);
        }
    }

    /// Plans the unstow of the package at `package`: for each symlink of the
    /// target directory that points into the package, its removal and then
    /// the removal of its parent directory if that is not the target
    /// directory and ends up empty; the symlinks are taken from the last found
    /// to the first, so that directories empty from the inside out.
    pub fn plan_unstow(&self, package: &str, links: &Vec<LinkEntry>) -> (r: Vec<SymlinkOperation>)
        ensures
            ops_view(r@) == unstow_plan(self.config.target_dir@, package@, links@),
    {
        let mut out: Vec<SymlinkOperation> = Vec::new();
        let mut i: usize = links.len();
        assert(links@.take(i as int) =~= links@);
        while i > 0
            invariant
                i <= links.len(),
                ops_view(out@) + unstow_plan(self.config.target_dir@, package@, links@.take(i as int))
                    == unstow_plan(self.config.target_dir@, package@, links@),
            decreases i,
        {
            let ghost before = ops_view(out@);
            self.plan_unlink(package, &links[i - 1], &mut out);
            proof {
                let t = links@.take(i as int);
                assert(t.drop_last() =~= links@.take(i - 1));
                assert(t.last() == links@[i - 1]);
                assert(ops_view(out@) + unstow_plan(self.config.target_dir@, package@, links@.take(i - 1))
                    =~= before + unstow_plan(self.config.target_dir@, package@, t));
            }
            i = i - 1;
        }
        assert(links@.take(0) =~= Seq::<LinkEntry>::empty());
        assert(ops_view(out@) =~= unstow_plan(self.config.target_dir@, package@, links@));
        out
    }
}

/// What executing a step does to the file system.
pub enum StepAction {
    /// Nothing: the run only simulates its steps.
    Skip,
    /// Create the missing parents of `target`, then a symlink at `target` to `source`.
    Link { source: String, target: String, is_dir: bool },
    /// Remove the symlink at `target`.
    Unlink { target: String },
    /// Create the directory `target` with its missing parents.
    MakeDir { target: String },
    /// Remove the directory `target` if it is empty.
    RemoveEmptyDir { target: String },
    /// Rename `target` to `backup`.
    MoveAside { target: String, backup: String },
}

/// An action as plain values.
pub enum ActionView {
    Skip,
    Link { source: Seq<char>, target: Seq<char>, is_dir: bool },
    Unlink { target: Seq<char> },
    MakeDir { target: Seq<char> },
    RemoveEmptyDir { target: Seq<char> },
    MoveAside { target: Seq<char>, backup: Seq<char> },
}

impl View for StepAction {
    type V = ActionView;

    open spec fn view(&self) -> ActionView {
        match self {
            StepAction::Skip => ActionView::Skip,
            StepAction::Link { source, target, is_dir } => ActionView::Link { source: source@, target: target@, is_dir: *is_dir },
            StepAction::Unlink { target } => ActionView::Unlink { target: target@ },
            StepAction::MakeDir { target } => ActionView::MakeDir { target: target@ },
            StepAction::RemoveEmptyDir { target } => ActionView::RemoveEmptyDir { target: target@ },
            StepAction::MoveAside { target, backup } => ActionView::MoveAside { target: target@, backup: backup@ },
        }
    }
}

/// Where a file is moved aside to: `<name>.backup.<stamp>` beside it, if
/// the path has a file name.
pub open spec fn moved_aside(target: Seq<char>, stamp: Seq<char>) -> Option<Seq<char>> {
    match file_name(target) {
        Some(n) => Some(with_file_name(target, n + ".backup."@ + stamp)),
        None => None,
    }
}

/// The action that executes step `o`, `stamp` being the time of a backup;
/// `None` when a backup's path has no file name.
pub open spec fn action_of(simulate: bool, o: OpView, stamp: Seq<char>) -> Option<ActionView> {
    if simulate {
        Some(ActionView::Skip)
    } else {
        match o.0 {
            OperationType::CreateSymlink => Some(ActionView::Link { source: o.1, target: o.2, is_dir: o.3 }),
            OperationType::RemoveSymlink => Some(ActionView::Unlink { target: o.2 }),
            OperationType::CreateDir => Some(ActionView::MakeDir { target: o.2 }),
            OperationType::RemoveDir => Some(ActionView::RemoveEmptyDir { target: o.2 }),
            OperationType::Backup => match moved_aside(o.2, stamp) {
                Some(b) => Some(ActionView::MoveAside { target: o.2, backup: b }),
                None => None,
            },
        }
    }
}

/// `r` is what `action_of` gives: the action, or the error for a path without a file name.
pub open spec fn is_action_result(r: Result<StepAction, StowError>, a: Option<ActionView>) -> bool {
    match a {
        Some(x) => r matches Ok(y) && y@ == x,
        None => r matches Err(e) && e@ == StowErrorView::InvalidPath("Invalid file name"@),
    }
}

impl StowEngine {
    /// The action that executes `op`, a backup being stamped with `stamp`.
    pub fn action_at(&self, op: &SymlinkOperation, stamp: &str) -> (r: Result<StepAction, StowError>)
        ensures
            is_action_result(r, action_of(self.config.simulate, op@, stamp@)),
    {
        if self.config.simulate {
            return Ok(StepAction::Skip);
        }
        match op.op_type {
            OperationType::CreateSymlink => Ok(StepAction::Link {
                source: op.source.clone(),
                target: op.target.clone(),
                is_dir: op.is_dir,
            }),
            OperationType::RemoveSymlink => Ok(StepAction::Unlink { target: op.target.clone() }),
            OperationType::CreateDir => Ok(StepAction::MakeDir { target: op.target.clone() }),
            OperationType::RemoveDir => Ok(StepAction::RemoveEmptyDir { target: op.target.clone() }),
            OperationType::Backup => match path_file_name(op.target.as_str()) {
                Some(name) => {
                    let with_suffix = concat(name.as_str(), ".backup.");
                    let full = concat(with_suffix.as_str(), stamp);
                    Ok(StepAction::MoveAside {
                        target: op.target.clone(),
                        backup: path_with_file_name(op.target.as_str(), full.as_str()),
                    })
                },
                None => Err(StowError::InvalidPath("Invalid file name".to_string())),
            },
        }
    }

    /// The action that executes `op` now: a backup is stamped with the
    /// current time.
    pub fn action_for(&self, op: &SymlinkOperation) -> (r: Result<StepAction, StowError>)
        ensures
            exists|stamp: Seq<char>|
                #[trigger] is_action_result(r, action_of(self.config.simulate, op@, stamp)) && (!self.config.simulate
                    && op.op_type == OperationType::Backup ==> written_stamp(stamp, STAMP_FORMAT@)),
    {
        let stamp = if !self.config.simulate && op.op_type == OperationType::Backup {
            stamp_now(STAMP_FORMAT)
        } else {
            String::new()
        };
        let r = self.action_at(op, stamp.as_str());
        assert(is_action_result(r, action_of(self.config.simulate, op@, stamp@)));
        r
    }

    /// The record of executing `op`, which failed with the error text `outcome`
    /// or succeeded.
    pub fn record(op: &SymlinkOperation, outcome: Option<String>) -> (r: OperationResult)
        ensures
            r.success == outcome is None,
            r.operation@ == op@,
            opt_view(r.error) == opt_view(outcome),
    {
        OperationResult { success: outcome.is_none(), operation: op.copy(), error: outcome }
    }
}

}
