//! Finding what stands in the way of the links a plan creates, and deciding
//! what to do about it.
use vstd::prelude::*;
use crate::paths::{debug_path, path_debug, path_eq, same_path};
use crate::text::concat;
use super::error::{copy_opt, opt_view, StowError, StowErrorView};
use super::operations::{op, ops_view};
use super::types::{OpView, OperationType, SymlinkOperation};

verus! {

/// What stands in the way of a new link.
#[derive(Clone, Copy, Debug, PartialEq, Eq, Structural)]
pub enum ConflictType {
    /// A regular file.
    RegularFile,
    /// A directory that is not empty.
    NonEmptyDir,
    /// A symlink that points somewhere else.
    WrongSymlinkTarget,
    /// A symlink that leads back to itself.
    CircularSymlink,
}

/// A conflict found at `path`.
pub struct Conflict {
    pub path: String,
    pub existing_target: Option<String>,
    pub new_target: String,
    pub conflict_type: ConflictType,
}

/// A conflict as plain values: path, existing target, new target, kind.
pub type ConflictView = (Seq<char>, Option<Seq<char>>, Seq<char>, ConflictType);

impl View for Conflict {
    type V = ConflictView;

    open spec fn view(&self) -> ConflictView {
        (self.path@, opt_view(self.existing_target), self.new_target@, self.conflict_type)
    }
}

/// What is found at the target of a planned link.
pub enum TargetProbe {
    /// Nothing, or a symlink whose target does not exist.
    Absent,
    /// A regular file.
    File,
    /// A directory, and whether it holds anything.
    Dir { empty: bool },
    /// A symlink to something that exists, pointing at `points_to`.
    Symlink { points_to: String },
    /// Something else (a socket, a device).
    Other,
}

/// How conflicts are dealt with.
#[derive(Clone, Copy, Debug, PartialEq, Eq, Structural)]
pub enum ResolutionStrategy {
    /// Move the conflicting files aside.
    Backup,
    /// Leave them, and do not link there.
    Skip,
    /// Give up.
    Abort,
}

/// The conflict, if any, that the probe of a step's target shows. Only
/// symlink creations can conflict.
pub open spec fn conflict_for(o: OpView, probe: TargetProbe) -> Option<ConflictView> {
    if o.0 != OperationType::CreateSymlink {
        None
    } else {
        match probe {
            TargetProbe::File => Some((o.2, None, o.1, ConflictType::RegularFile)),
            TargetProbe::Dir { empty } => if empty { None } else { Some((o.2, None, o.1, ConflictType::NonEmptyDir)) },
            TargetProbe::Symlink { points_to } => if same_path(points_to@, o.1) {
                None
            } else {
                Some((o.2, Some(points_to@), o.1, ConflictType::WrongSymlinkTarget))
            },
            _ => None,
        }
    }
}

/// Some step among `ops` moves the file at `target` aside.
pub open spec fn backed_up_before(ops: Seq<OpView>, target: Seq<char>) -> bool {
    exists|k: int| 0 <= k < ops.len() && (#[trigger] ops[k]).0 == OperationType::Backup && same_path(ops[k].2, target)
}

/// The conflicts that the probes show, in the order of the steps. What an
/// earlier step of the plan moves aside does not stand in the way.
pub open spec fn conflicts_of(ops: Seq<OpView>, probes: Seq<TargetProbe>) -> Seq<ConflictView>
    decreases ops.len(),
{
    if ops.len() == 0 || probes.len() == 0 {
        seq![]
    } else {
        let rest = conflicts_of(ops.drop_last(), probes.drop_last());
        if backed_up_before(ops.drop_last(), ops.last().2) {
            rest
        } else {
            match conflict_for(ops.last(), probes.last()) {
                Some(c) => rest.push(c),
                None => rest,
            }
        }
    }
}

/// The views of a list of conflicts.
pub open spec fn conflicts_view(v: Seq<Conflict>) -> Seq<ConflictView> {
    v.map_values(|c: Conflict| c@)
}

/// The steps that the backup strategy plans for the conflicts.
pub open spec fn backup_steps(cs: Seq<ConflictView>) -> Seq<OpView>
    decreases cs.len(),
{
    if cs.len() == 0 {
        seq![]
    } else {
        let p = cs.last().0;
        backup_steps(cs.drop_last()).push(op(OperationType::Backup, p, p, false,
            "Backup conflicting file "@ + path_debug(p)))
    }
}

/// Finds and resolves conflicts.
pub struct ConflictResolver;

impl ConflictResolver {
    /// The conflict that `probe`, taken at the target of `o`, shows.
    pub fn classify(o: &SymlinkOperation, probe: &TargetProbe) -> (r: Option<Conflict>)
        ensures
            match r {
                Some(c) => conflict_for(o@, *probe) == Some(c@),
                None => conflict_for(o@, *probe) is None,
            },
    {
        if o.op_type != OperationType::CreateSymlink {
            return None;
        }
        match probe {
            TargetProbe::File => Some(Conflict {
                path: o.target.clone(),
                existing_target: None,
                new_target: o.source.clone(),
                conflict_type: ConflictType::RegularFile,
            }),
            TargetProbe::Dir { empty } => {
                if *empty {
                    None
                } else {
                    Some(Conflict {
                        path: o.target.clone(),
                        existing_target: None,
                        new_target: o.source.clone(),
                        conflict_type: ConflictType::NonEmptyDir,
                    })
                }
            },
            TargetProbe::Symlink { points_to } => {
                if path_eq(points_to.as_str(), o.source.as_str()) {
                    None
                } else {
                    Some(Conflict {
                        path: o.target.clone(),
                        existing_target: Some(points_to.clone()),
                        new_target: o.source.clone(),
                        conflict_type: ConflictType::WrongSymlinkTarget,
                    })
                }
            },
            _ => None,
        }
    }

    /// Whether a step before the `i`-th moves its target aside.
    fn backed_up_earlier(operations: &Vec<SymlinkOperation>, i: usize) -> (r: bool)
        requires
            i < operations.len(),
        ensures
            r == backed_up_before(ops_view(operations@.take(i as int)), operations@[i as int].target@),
    {
        let ghost pre = ops_view(operations@.take(i as int));
        let target = operations[i].target.as_str();
        let mut k: usize = 0;
        while k < i
            invariant
                k <= i < operations.len(),
                pre == ops_view(operations@.take(i as int)),
                target@ == operations@[i as int].target@,
                forall|q: int| 0 <= q < k ==> !((#[trigger] pre[q]).0 == OperationType::Backup && same_path(pre[q].2, target@)),
            decreases i - k,
        {
            assert(pre[k as int] == operations@[k as int]@);
            if operations[k].op_type == OperationType::Backup && path_eq(operations[k].target.as_str(), target) {
                assert(pre[k as int].0 == OperationType::Backup && same_path(pre[k as int].2, target@));
                return true;
            }
            k = k + 1;
        }
        false
    }

    /// The conflicts in front of a plan: `probes[i]` is what is found at the
    /// target of `operations[i]`.
    pub fn detect_conflicts(operations: &Vec<SymlinkOperation>, probes: &Vec<TargetProbe>) -> (r: Vec<Conflict>)
        requires
            probes.len() == operations.len(),
        ensures
            conflicts_view(r@) == conflicts_of(ops_view(operations@), probes@),
    {
        let mut out: Vec<Conflict> = Vec::new();
        let mut i: usize = 0;
        while i < operations.len()
            invariant
                i <= operations.len(),
                probes.len() == operations.len(),
                conflicts_view(out@) == conflicts_of(ops_view(operations@.take(i as int)), probes@.take(i as int)),
            decreases operations.len() - i,
        {
            let ghost before = out@;
            let cleared = Self::backed_up_earlier(operations, i);
            if !cleared {
                let c = Self::classify(&operations[i], &probes[i]);
                match c {
                    Some(c) => {
                        out.push(c);
                    },
                    None => {},
                }
            }
            proof {
                let to = ops_view(operations@.take(i + 1));
                let tp = probes@.take(i + 1);
                assert(to.drop_last() =~= ops_view(operations@.take(i as int)));
                assert(to.last() == operations@[i as int]@);
                assert(tp.drop_last() =~= probes@.take(i as int));
                assert(tp.last() == probes@[i as int]);
                assert(conflicts_view(out@) =~= conflicts_of(to, tp));
            }
            i = i + 1;
        }
        assert(operations@.take(i as int) =~= operations@);
        assert(probes@.take(i as int) =~= probes@);
        out
    }

    /// The steps that deal with the conflicts: with `Backup`, one backup of
    /// each conflicting path; with `Skip`, none; with `Abort`, an error about
    /// the first conflict (when there is one).
    pub fn resolve_conflicts(conflicts: &Vec<Conflict>, strategy: ResolutionStrategy) -> (r: Result<Vec<SymlinkOperation>, StowError>)
        ensures
            strategy == ResolutionStrategy::Backup ==> (r matches Ok(ops) && ops_view(ops@) == backup_steps(conflicts_view(conflicts@))),
            strategy == ResolutionStrategy::Skip ==> (r matches Ok(ops) && ops@.len() == 0),
            strategy == ResolutionStrategy::Abort && conflicts.len() == 0 ==> (r matches Ok(ops) && ops@.len() == 0),
            strategy == ResolutionStrategy::Abort && conflicts.len() > 0 ==> (r matches Err(e) && e@ == StowErrorView::Conflict {
                message: "Cannot resolve conflict at "@ + path_debug(conflicts[0].path@),
                path: conflicts[0].path@,
                existing: opt_view(conflicts[0].existing_target),
            }),
    {
        let mut out: Vec<SymlinkOperation> = Vec::new();
        if strategy == ResolutionStrategy::Skip {
            return Ok(out);
        }
        if strategy == ResolutionStrategy::Abort {
            if conflicts.len() > 0 {
                let c = &conflicts[0];
                let d = debug_path(c.path.as_str());
                return Err(StowError::Conflict {
                    message: concat("Cannot resolve conflict at ", d.as_str()),
                    path: c.path.clone(),
                    existing: copy_opt(&c.existing_target),
                });
            }
            return Ok(out);
        }
        let mut i: usize = 0;
        while i < conflicts.len()
            invariant
                i <= conflicts.len(),
                ops_view(out@) == backup_steps(conflicts_view(conflicts@.take(i as int))),
            decreases conflicts.len() - i,
        {
            let p = conflicts[i].path.as_str();
            let d = debug_path(p);
            let o = SymlinkOperation {
                op_type: OperationType::Backup,
                source: p.to_string(),
                target: p.to_string(),
                is_dir: false,
                description: concat("Backup conflicting file ", d.as_str()),
            };
            out.push(o);
            proof {
                let t = conflicts_view(conflicts@.take(i + 1));
                assert(t.drop_last() =~= conflicts_view(conflicts@.take(i as int)));
                assert(t.last() == conflicts@[i as int]@);
                assert(ops_view(out@) =~= backup_steps(t));
            }
            i = i + 1;
        }
        assert(conflicts@.take(i as int) =~= conflicts@);
        Ok(out)
    }
}


/// The backup strategy plans one backup per conflict, in the order of the
/// conflicts: the `i`-th step moves aside the path of the `i`-th conflict.
pub proof fn law_one_backup_per_conflict(cs: Seq<ConflictView>)
    ensures
        backup_steps(cs).len() == cs.len(),
        forall|i: int|
            0 <= i < cs.len() ==> #[trigger] backup_steps(cs)[i] == (
                OperationType::Backup,
                cs[i].0,
                cs[i].0,
                false,
                "Backup conflicting file "@ + path_debug(cs[i].0),
            ),
    decreases cs.len(),
{
    if cs.len() > 0 {
        let pre = cs.drop_last();
        law_one_backup_per_conflict(pre);
        assert forall|i: int|
            0 <= i < cs.len() implies #[trigger] backup_steps(cs)[i] == (
                OperationType::Backup,
                cs[i].0,
                cs[i].0,
                false,
                "Backup conflicting file "@ + path_debug(cs[i].0),
            ) by {
            if i < pre.len() {
                assert(pre[i] == cs[i]);
                assert(backup_steps(cs)[i] == backup_steps(pre)[i]);
            }
        }
    }
}

}
