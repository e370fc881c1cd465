//! What planning a stow or an unstow promises as a whole.
use vstd::prelude::*;
use crate::paths::{join, parent, relative, same_path, starts_with};
use super::conflict::{backed_up_before, conflict_for, conflicts_of, ConflictView, TargetProbe};
use super::operations::{all_under, stow_plan, stow_steps, unstow_plan, unstow_steps, LinkEntry, PackageEntry, TargetState};
use super::types::{OpView, OperationType, StowConfig};

verus! {

/// The entry is a file already linked to its own source.
pub open spec fn already_linked(e: PackageEntry) -> bool {
    &&& !e.is_dir
    &&& e.target matches TargetState::Symlink { points_to } && same_path(points_to@, e.source_path@)
}

/// The entry is a directory that exists in the target directory.
pub open spec fn dir_present(e: PackageEntry) -> bool {
    e.is_dir && !(e.target is Missing) && !(e.target is Dangling)
}

/// Some step of `plan` creates a symlink at `target` that points to `source`.
pub open spec fn links(plan: Seq<OpView>, source: Seq<char>, target: Seq<char>) -> bool {
    exists|j: int|
        0 <= j < plan.len() && (#[trigger] plan[j]).0 == OperationType::CreateSymlink && plan[j].1 == source
            && plan[j].2 == target
}

/// The `i`-th entry is a file not yet linked, whose source is `source` and
/// whose place in the target directory is `target`.
pub open spec fn to_link(cfg: StowConfig, package: Seq<char>, entries: Seq<PackageEntry>, i: int, source: Seq<char>, target: Seq<char>) -> bool {
    &&& 0 <= i < entries.len()
    &&& !entries[i].is_dir
    &&& !already_linked(entries[i])
    &&& entries[i].source_path@ == source
    &&& target == join(cfg.target_dir@, relative(source, package).unwrap())
}

proof fn lemma_links_concat(a: Seq<OpView>, b: Seq<OpView>, source: Seq<char>, target: Seq<char>)
    ensures
        links(a + b, source, target) <==> links(a, source, target) || links(b, source, target),
{
    if links(a + b, source, target) {
        let j = choose|j: int|
            0 <= j < (a + b).len() && (#[trigger] (a + b)[j]).0 == OperationType::CreateSymlink && (a + b)[j].1 == source
                && (a + b)[j].2 == target;
        if j < a.len() {
            assert(a[j] == (a + b)[j]);
        } else {
            assert(b[j - a.len()] == (a + b)[j]);
        }
    }
    if links(a, source, target) {
        let j = choose|j: int|
            0 <= j < a.len() && (#[trigger] a[j]).0 == OperationType::CreateSymlink && a[j].1 == source && a[j].2 == target;
        assert((a + b)[j] == a[j]);
    }
    if links(b, source, target) {
        let j = choose|j: int|
            0 <= j < b.len() && (#[trigger] b[j]).0 == OperationType::CreateSymlink && b[j].1 == source && b[j].2 == target;
        assert((a + b)[j + a.len()] == b[j]);
    }
}

/// The steps of one entry link exactly that entry, unless it is a directory
/// or already linked.
proof fn lemma_links_steps(cfg: StowConfig, package: Seq<char>, e: PackageEntry, source: Seq<char>, target: Seq<char>)
    ensures
        links(
            stow_steps(cfg.target_dir@, cfg.backup_existing, e.source_path@, relative(e.source_path@, package).unwrap(), e.is_dir, e.target),
            source,
            target,
        ) <==> (!e.is_dir && !already_linked(e) && e.source_path@ == source && target == join(
            cfg.target_dir@,
            relative(source, package).unwrap(),
        )),
{
    let steps = stow_steps(cfg.target_dir@, cfg.backup_existing, e.source_path@, relative(e.source_path@, package).unwrap(), e.is_dir, e.target);
    if !e.is_dir && !already_linked(e) && e.source_path@ == source && target == join(cfg.target_dir@, relative(source, package).unwrap()) {
        let j = steps.len() - 1;
        assert(steps[j].0 == OperationType::CreateSymlink);
        assert(links(steps, source, target));
    }
}

/// Stowing a package whose files are all linked to their sources, and whose
/// directories all exist, plans nothing.
pub proof fn law_linked_package_plans_nothing(cfg: StowConfig, package: Seq<char>, entries: Seq<PackageEntry>)
    requires
        forall|i: int| 0 <= i < entries.len() ==> already_linked(#[trigger] entries[i]) || dir_present(entries[i]),
    ensures
        stow_plan(cfg, package, entries) == Seq::<OpView>::empty(),
    decreases entries.len(),
{
    if entries.len() > 0 {
        let pre = entries.drop_last();
        assert forall|i: int| 0 <= i < pre.len() implies already_linked(#[trigger] pre[i]) || dir_present(pre[i]) by {
            assert(pre[i] == entries[i]);
        }
        law_linked_package_plans_nothing(cfg, package, pre);
        let e = entries.last();
        assert(already_linked(entries[entries.len() - 1]) || dir_present(entries[entries.len() - 1]));
        assert(stow_plan(cfg, package, entries) =~= Seq::<OpView>::empty());
    }
}

/// A stow plan creates a symlink at `target` to `source` exactly when
/// `source` is a file of the package not yet linked and `target` is its
/// place in the target directory.
pub proof fn law_plan_links_each_unlinked_file(
    cfg: StowConfig,
    package: Seq<char>,
    entries: Seq<PackageEntry>,
    source: Seq<char>,
    target: Seq<char>,
)
    ensures
        links(stow_plan(cfg, package, entries), source, target) <==> exists|i: int| #[trigger] to_link(
            cfg,
            package,
            entries,
            i,
            source,
            target,
        ),
    decreases entries.len(),
{
    if entries.len() > 0 {
        let pre = entries.drop_last();
        let n = entries.len() - 1;
        let e = entries.last();
        law_plan_links_each_unlinked_file(cfg, package, pre, source, target);
        lemma_links_concat(
            stow_plan(cfg, package, pre),
            stow_steps(cfg.target_dir@, cfg.backup_existing, e.source_path@, relative(e.source_path@, package).unwrap(), e.is_dir, e.target),
            source,
            target,
        );
        lemma_links_steps(cfg, package, e, source, target);
        if exists|i: int| #[trigger] to_link(cfg, package, pre, i, source, target) {
            let i = choose|i: int| #[trigger] to_link(cfg, package, pre, i, source, target);
            assert(pre[i] == entries[i]);
            assert(to_link(cfg, package, entries, i, source, target));
        }
        if exists|i: int| #[trigger] to_link(cfg, package, entries, i, source, target) {
            let i = choose|i: int| #[trigger] to_link(cfg, package, entries, i, source, target);
            if i < n {
                assert(pre[i] == entries[i]);
                assert(to_link(cfg, package, pre, i, source, target));
            } else {
                assert(entries[i] == e);
            }
        }
        if links(stow_steps(cfg.target_dir@, cfg.backup_existing, e.source_path@, relative(e.source_path@, package).unwrap(), e.is_dir, e.target), source, target) {
            assert(to_link(cfg, package, entries, n, source, target));
        }
    }
}

/// The `i`-th symlink points into `package`.
pub open spec fn into_package(package: Seq<char>, ls: Seq<LinkEntry>, i: int) -> bool {
    0 <= i < ls.len() && starts_with(ls[i].points_to@, package)
}

/// The step removes a symlink into `package`, or the directory holding one,
/// which is not the target directory.
pub open spec fn unstow_step_allowed(target_dir: Seq<char>, package: Seq<char>, ls: Seq<LinkEntry>, x: OpView) -> bool {
    ||| x.0 == OperationType::RemoveSymlink && exists|i: int| #[trigger] into_package(package, ls, i) && ls[i].path@ == x.2
    ||| x.0 == OperationType::RemoveDir && exists|i: int| #[trigger] into_package(package, ls, i)
        && parent(ls[i].path@) == Some(x.2) && !same_path(x.2, target_dir)
}

proof fn lemma_unstow_allowed(target_dir: Seq<char>, package: Seq<char>, ls: Seq<LinkEntry>, x: OpView)
    requires
        unstow_plan(target_dir, package, ls).contains(x),
    ensures
        unstow_step_allowed(target_dir, package, ls, x),
    decreases ls.len(),
{
    let pre = ls.drop_last();
    let n = ls.len() - 1;
    let b = unstow_steps(target_dir, package, ls.last());
    let a = unstow_plan(target_dir, package, pre);
    let k = choose|k: int| 0 <= k < (b + a).len() && (b + a)[k] == x;
    if k >= b.len() {
        assert(a[k - b.len()] == x);
        lemma_unstow_allowed(target_dir, package, pre, x);
        if x.0 == OperationType::RemoveSymlink {
            let i = choose|i: int| #[trigger] into_package(package, pre, i) && pre[i].path@ == x.2;
            assert(pre[i] == ls[i]);
            assert(into_package(package, ls, i));
        } else {
            let i = choose|i: int| #[trigger] into_package(package, pre, i) && parent(pre[i].path@) == Some(x.2)
                && !same_path(x.2, target_dir);
            assert(pre[i] == ls[i]);
            assert(into_package(package, ls, i));
        }
    } else {
        assert(b[k] == x);
        assert(into_package(package, ls, n));
    }
}

/// Every step of an unstow plan removes a symlink that points into the
/// package, or the directory holding such a symlink (never the target
/// directory itself).
pub proof fn law_unstow_touches_only_package_links(
    target_dir: Seq<char>,
    package: Seq<char>,
    links: Seq<LinkEntry>,
    x: OpView,
)
    requires
        unstow_plan(target_dir, package, links).contains(x),
    ensures
        unstow_step_allowed(target_dir, package, links, x),
{
    lemma_unstow_allowed(target_dir, package, links, x);
}

/// In `plan`, step `j` removes the symlink at `path`, and, when its parent
/// directory is not the target directory, the next step removes that
/// directory if empty.
pub open spec fn removed_then_parent(plan: Seq<OpView>, target_dir: Seq<char>, path: Seq<char>, j: int) -> bool {
    &&& 0 <= j < plan.len()
    &&& plan[j].0 == OperationType::RemoveSymlink && plan[j].2 == path
    &&& (parent(path) matches Some(par) && !same_path(par, target_dir)) ==> (j + 1 < plan.len()
        && plan[j + 1].0 == OperationType::RemoveDir && plan[j + 1].2 == parent(path)->Some_0)
}

/// An unstow plan removes every symlink that points into the package, and
/// right after it the symlink's parent directory (unless that is the target
/// directory), so that directories are emptied from the inside out.
pub proof fn law_unstow_removes_each_package_link(target_dir: Seq<char>, package: Seq<char>, links: Seq<LinkEntry>, i: int)
    requires
        into_package(package, links, i),
    ensures
        exists|j: int| #[trigger] removed_then_parent(unstow_plan(target_dir, package, links), target_dir, links[i].path@, j),
    decreases links.len(),
{
    let pre = links.drop_last();
    let n = links.len() - 1;
    let b = unstow_steps(target_dir, package, links.last());
    let a = unstow_plan(target_dir, package, pre);
    let f = b + a;
    assert(f == unstow_plan(target_dir, package, links));
    let path = links[i].path@;
    if i < n {
        assert(pre[i] == links[i]);
        law_unstow_removes_each_package_link(target_dir, package, pre, i);
        let j = choose|j: int| #[trigger] removed_then_parent(a, target_dir, path, j);
        assert(f[b.len() + j] == a[j]);
        if j + 1 < a.len() {
            assert(f[b.len() + j + 1] == a[j + 1]);
        }
        assert(removed_then_parent(f, target_dir, path, b.len() + j));
    } else {
        assert(links.last() == links[i]);
        assert(f[0] == b[0]);
        if b.len() > 1 {
            assert(f[1] == b[1]);
        }
        assert(removed_then_parent(f, target_dir, path, 0));
    }
}

/// In `plan`, step `j` moves the file at `target` aside and the next step
/// links `source` there.
pub open spec fn backed_up_then_linked(plan: Seq<OpView>, source: Seq<char>, target: Seq<char>, j: int) -> bool {
    &&& 0 <= j && j + 1 < plan.len()
    &&& plan[j].0 == OperationType::Backup && plan[j].1 == target && plan[j].2 == target
    &&& plan[j + 1].0 == OperationType::CreateSymlink && plan[j + 1].1 == source && plan[j + 1].2 == target
}

/// With backups on, a file of the package whose place is taken by a file
/// that is not a symlink is linked only right after that file is moved aside.
pub proof fn law_occupied_targets_are_backed_up(cfg: StowConfig, package: Seq<char>, entries: Seq<PackageEntry>, i: int)
    requires
        cfg.backup_existing,
        0 <= i < entries.len(),
        !entries[i].is_dir,
        entries[i].target is Occupied,
    ensures
        exists|j: int| #[trigger] backed_up_then_linked(
            stow_plan(cfg, package, entries),
            entries[i].source_path@,
            join(cfg.target_dir@, relative(entries[i].source_path@, package).unwrap()),
            j,
        ),
    decreases entries.len(),
{
    let pre = entries.drop_last();
    let n = entries.len() - 1;
    let e = entries.last();
    let a = stow_plan(cfg, package, pre);
    let b = stow_steps(cfg.target_dir@, cfg.backup_existing, e.source_path@, relative(e.source_path@, package).unwrap(), e.is_dir, e.target);
    let plan = stow_plan(cfg, package, entries);
    assert(plan == a + b);
    let source = entries[i].source_path@;
    let target = join(cfg.target_dir@, relative(entries[i].source_path@, package).unwrap());
    if i < n {
        assert(pre[i] == entries[i]);
        law_occupied_targets_are_backed_up(cfg, package, pre, i);
        let j = choose|j: int| #[trigger] backed_up_then_linked(a, source, target, j);
        assert(plan[j] == a[j] && plan[j + 1] == a[j + 1]);
        assert(backed_up_then_linked(plan, source, target, j));
    } else {
        assert(e == entries[i]);
        let j = a.len() as int;
        assert(plan[j] == b[0] && plan[j + 1] == b[1]);
        assert(backed_up_then_linked(plan, source, target, j));
    }
}

/// Step `k` of `ops` creates a link that conflict `c` stands in the way of,
/// and no earlier step moves its target aside.
pub open spec fn blocks_link(ops: Seq<OpView>, c: ConflictView, k: int) -> bool {
    &&& 0 <= k < ops.len()
    &&& ops[k].0 == OperationType::CreateSymlink
    &&& ops[k].2 == c.0
    &&& ops[k].1 == c.2
    &&& !backed_up_before(ops.take(k), ops[k].2)
}

/// Only links a plan creates can conflict, and only where no earlier step
/// of the plan moves the target aside.
pub proof fn law_conflicts_only_at_unprotected_links(ops: Seq<OpView>, probes: Seq<TargetProbe>, c: ConflictView)
    requires
        conflicts_of(ops, probes).contains(c),
    ensures
        exists|k: int| #[trigger] blocks_link(ops, c, k),
    decreases ops.len(),
{
    let pre = ops.drop_last();
    let rest = conflicts_of(pre, probes.drop_last());
    let n = ops.len() - 1;
    assert(ops.take(n) =~= pre);
    if rest.contains(c) {
        law_conflicts_only_at_unprotected_links(pre, probes.drop_last(), c);
        let k = choose|k: int| #[trigger] blocks_link(pre, c, k);
        assert(pre[k] == ops[k]);
        assert(pre.take(k) =~= ops.take(k));
        assert(blocks_link(ops, c, k));
    } else {
        let i = choose|i: int| 0 <= i < conflicts_of(ops, probes).len() && conflicts_of(ops, probes)[i] == c;
        assert(conflicts_of(ops, probes) != rest);
        assert(conflict_for(ops.last(), probes.last()) == Some(conflicts_of(ops, probes).last()));
        if i < rest.len() {
            assert(rest[i] == c);
        }
        assert(blocks_link(ops, c, n));
    }
}


/// A target is moved aside by two parts of a plan exactly when one of them
/// moves it aside.
proof fn lemma_backed_up_concat(a: Seq<OpView>, b: Seq<OpView>, t: Seq<char>)
    ensures
        backed_up_before(a + b, t) <==> backed_up_before(a, t) || backed_up_before(b, t),
{
    let s = a + b;
    if backed_up_before(s, t) {
        let k = choose|k: int| 0 <= k < s.len() && (#[trigger] s[k]).0 == OperationType::Backup && same_path(s[k].2, t);
        if k < a.len() {
            assert(a[k] == s[k]);
        } else {
            assert(b[k - a.len()] == s[k]);
        }
    }
    if backed_up_before(a, t) {
        let k = choose|k: int| 0 <= k < a.len() && (#[trigger] a[k]).0 == OperationType::Backup && same_path(a[k].2, t);
        assert(s[k] == a[k]);
    }
    if backed_up_before(b, t) {
        let k = choose|k: int| 0 <= k < b.len() && (#[trigger] b[k]).0 == OperationType::Backup && same_path(b[k].2, t);
        assert(s[k + a.len()] == b[k]);
    }
}

/// The conflicts of a plan made of two parts are those of the first part
/// followed by those of the second, where the first part moves none of the
/// second part's targets aside.
pub proof fn law_conflicts_append(a: Seq<OpView>, pa: Seq<TargetProbe>, b: Seq<OpView>, pb: Seq<TargetProbe>)
    requires
        a.len() == pa.len(),
        b.len() == pb.len(),
        forall|j: int| 0 <= j < b.len() ==> !backed_up_before(a, (#[trigger] b[j]).2),
    ensures
        conflicts_of(a + b, pa + pb) == conflicts_of(a, pa) + conflicts_of(b, pb),
    decreases b.len(),
{
    if b.len() == 0 {
        assert(a + b =~= a);
        assert(pa + pb =~= pa);
        assert(conflicts_of(a, pa) + conflicts_of(b, pb) =~= conflicts_of(a, pa));
    } else {
        let b1 = b.drop_last();
        let pb1 = pb.drop_last();
        assert forall|j: int| 0 <= j < b1.len() implies !backed_up_before(a, (#[trigger] b1[j]).2) by {
            assert(b1[j] == b[j]);
        }
        law_conflicts_append(a, pa, b1, pb1);
        assert((a + b).drop_last() =~= a + b1);
        assert((pa + pb).drop_last() =~= pa + pb1);
        assert((a + b).last() == b.last());
        assert((pa + pb).last() == pb.last());
        let t = b.last().2;
        assert(!backed_up_before(a, b[b.len() - 1].2));
        lemma_backed_up_concat(a, b1, t);
        let x = conflicts_of(a, pa);
        let y1 = conflicts_of(b1, pb1);
        if !backed_up_before(b1, t) {
            match conflict_for(b.last(), pb.last()) {
                Some(c) => {
                    assert((x + y1).push(c) =~= x + y1.push(c));
                },
                None => {},
            }
        }
    }
}


/// Every link a stow plan creates points at the source of one of the entries.
proof fn lemma_links_from_entries(cfg: StowConfig, package: Seq<char>, entries: Seq<PackageEntry>, source: Seq<char>, target: Seq<char>)
    requires
        links(stow_plan(cfg, package, entries), source, target),
    ensures
        exists|k: int| 0 <= k < entries.len() && (#[trigger] entries[k]).source_path@ == source,
    decreases entries.len(),
{
    if entries.len() > 0 {
        let pre = entries.drop_last();
        let e = entries.last();
        let b = stow_steps(cfg.target_dir@, cfg.backup_existing, e.source_path@,
            relative(e.source_path@, package).unwrap(), e.is_dir, e.target);
        lemma_links_concat(stow_plan(cfg, package, pre), b, source, target);
        if links(stow_plan(cfg, package, pre), source, target) {
            lemma_links_from_entries(cfg, package, pre, source, target);
            let k = choose|k: int| 0 <= k < pre.len() && (#[trigger] pre[k]).source_path@ == source;
            assert(entries[k] == pre[k]);
        } else {
            let j = choose|j: int|
                0 <= j < b.len() && (#[trigger] b[j]).0 == OperationType::CreateSymlink && b[j].1 == source && b[j].2 == target;
            assert(b[j].1 == e.source_path@);
            assert(entries[entries.len() - 1] == e);
        }
    }
}

/// Unstowing undoes stowing: each symlink that a stow plan creates, once it
/// is found in the target directory pointing where the plan made it point,
/// is removed by the unstow plan of the same package, and right after it its
/// parent directory (unless that is the target directory).
pub proof fn law_unstow_undoes_stow(
    cfg: StowConfig,
    package: Seq<char>,
    entries: Seq<PackageEntry>,
    found: Seq<LinkEntry>,
    source: Seq<char>,
    target: Seq<char>,
    i: int,
)
    requires
        all_under(package, entries),
        links(stow_plan(cfg, package, entries), source, target),
        0 <= i < found.len(),
        found[i].path@ == target,
        found[i].points_to@ == source,
    ensures
        exists|j: int| #[trigger] removed_then_parent(unstow_plan(cfg.target_dir@, package, found), cfg.target_dir@, target, j),
{
    lemma_links_from_entries(cfg, package, entries, source, target);
    let k = choose|k: int| 0 <= k < entries.len() && (#[trigger] entries[k]).source_path@ == source;
    assert(starts_with(entries[k].source_path@, package));
    assert(into_package(package, found, i));
    law_unstow_removes_each_package_link(cfg.target_dir@, package, found, i);
}


/// The steps of `ops` that `keep` accepts, each with its probe.
pub open spec fn kept_steps(ops: Seq<OpView>, probes: Seq<TargetProbe>, keep: spec_fn(OpView) -> bool) -> (Seq<OpView>, Seq<TargetProbe>)
    decreases ops.len(),
{
    if ops.len() == 0 || probes.len() == 0 {
        (seq![], seq![])
    } else {
        let rest = kept_steps(ops.drop_last(), probes.drop_last(), keep);
        if keep(ops.last()) {
            (rest.0.push(ops.last()), rest.1.push(probes.last()))
        } else {
            rest
        }
    }
}

/// The step creates a symlink.
pub open spec fn is_creation(o: OpView) -> bool {
    o.0 == OperationType::CreateSymlink
}

/// The step creates a symlink or moves a file aside.
pub open spec fn creates_or_backs_up(o: OpView) -> bool {
    o.0 == OperationType::CreateSymlink || o.0 == OperationType::Backup
}

proof fn lemma_kept_steps(ops: Seq<OpView>, probes: Seq<TargetProbe>, keep: spec_fn(OpView) -> bool, t: Seq<char>)
    requires
        ops.len() == probes.len(),
        forall|k: int| 0 <= k < ops.len() && (#[trigger] ops[k]).0 == OperationType::Backup ==> keep(ops[k]),
    ensures
        kept_steps(ops, probes, keep).0.len() == kept_steps(ops, probes, keep).1.len(),
        backed_up_before(kept_steps(ops, probes, keep).0, t) <==> backed_up_before(ops, t),
    decreases ops.len(),
{
    if ops.len() > 0 {
        let pre = ops.drop_last();
        let o = ops.last();
        assert forall|k: int| 0 <= k < pre.len() && (#[trigger] pre[k]).0 == OperationType::Backup implies keep(pre[k]) by {
            assert(pre[k] == ops[k]);
        }
        lemma_kept_steps(pre, probes.drop_last(), keep, t);
        let a = kept_steps(pre, probes.drop_last(), keep).0;
        assert(ops =~= pre + seq![o]);
        lemma_backed_up_concat(pre, seq![o], t);
        assert(backed_up_before(seq![o], t) <==> o.0 == OperationType::Backup && same_path(o.2, t)) by {
            if backed_up_before(seq![o], t) {
                let k = choose|k: int| 0 <= k < seq![o].len() && (#[trigger] seq![o][k]).0 == OperationType::Backup && same_path(seq![o][k].2, t);
                assert(seq![o][k] == o);
            }
            if o.0 == OperationType::Backup && same_path(o.2, t) {
                assert(seq![o][0] == o);
            }
        }
        if keep(o) {
            assert(a.push(o) =~= a + seq![o]);
            lemma_backed_up_concat(a, seq![o], t);
        } else {
            assert(ops[ops.len() - 1] == o);
        }
    }
}

proof fn lemma_kept_conflicts(ops: Seq<OpView>, probes: Seq<TargetProbe>, keep: spec_fn(OpView) -> bool)
    requires
        ops.len() == probes.len(),
        forall|k: int| 0 <= k < ops.len() && creates_or_backs_up(#[trigger] ops[k]) ==> keep(ops[k]),
    ensures
        conflicts_of(ops, probes) == conflicts_of(kept_steps(ops, probes, keep).0, kept_steps(ops, probes, keep).1),
    decreases ops.len(),
{
    if ops.len() > 0 {
        let pre = ops.drop_last();
        let pp = probes.drop_last();
        let o = ops.last();
        assert forall|k: int| 0 <= k < pre.len() && creates_or_backs_up(#[trigger] pre[k]) implies keep(pre[k]) by {
            assert(pre[k] == ops[k]);
        }
        lemma_kept_conflicts(pre, pp, keep);
        assert forall|k: int| 0 <= k < pre.len() && (#[trigger] pre[k]).0 == OperationType::Backup implies keep(pre[k]) by {
            assert(creates_or_backs_up(pre[k]));
        }
        lemma_kept_steps(pre, pp, keep, o.2);
        let r = kept_steps(pre, pp, keep);
        if keep(o) {
            let k2 = (r.0.push(o), r.1.push(probes.last()));
            assert(k2.0.drop_last() =~= r.0);
            assert(k2.1.drop_last() =~= r.1);
        } else {
            assert(creates_or_backs_up(ops[ops.len() - 1]) ==> keep(ops[ops.len() - 1]));
            assert(!creates_or_backs_up(o));
            assert(conflict_for(o, probes.last()) is None);
        }
    }
}

/// Only the steps that create a symlink or move a file aside bear on the
/// conflicts: dropping every other step, with its probe, leaves the
/// conflicts as they were.
pub proof fn law_only_creations_and_backups_matter(ops: Seq<OpView>, probes: Seq<TargetProbe>)
    requires
        ops.len() == probes.len(),
    ensures
        conflicts_of(ops, probes) == conflicts_of(
            kept_steps(ops, probes, |o: OpView| creates_or_backs_up(o)).0,
            kept_steps(ops, probes, |o: OpView| creates_or_backs_up(o)).1,
        ),
{
    lemma_kept_conflicts(ops, probes, |o: OpView| creates_or_backs_up(o));
}

/// Only creations conflict: in a plan that moves nothing aside, the
/// conflicts are those of its symlink creations alone.
pub proof fn law_only_creations_conflict(ops: Seq<OpView>, probes: Seq<TargetProbe>)
    requires
        ops.len() == probes.len(),
        forall|k: int| 0 <= k < ops.len() ==> (#[trigger] ops[k]).0 != OperationType::Backup,
    ensures
        conflicts_of(ops, probes) == conflicts_of(
            kept_steps(ops, probes, |o: OpView| is_creation(o)).0,
            kept_steps(ops, probes, |o: OpView| is_creation(o)).1,
        ),
{
    lemma_kept_conflicts(ops, probes, |o: OpView| is_creation(o));
}

}
