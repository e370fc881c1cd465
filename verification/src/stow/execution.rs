//! What running a plan does to the places of the target directory, as a
//! model, and what running a stow plan, then an unstow plan, reaches.
use vstd::prelude::*;
use crate::paths::{join, relative, same_path};
use super::laws::{already_linked, dir_present, law_linked_package_plans_nothing, law_plan_links_each_unlinked_file, law_unstow_undoes_stow, links, removed_then_parent, to_link};
use super::operations::{all_under, stow_plan, stow_steps, unstow_plan, unstow_steps, LinkEntry, PackageEntry, TargetState};
use super::types::{OpView, OperationType, StowConfig};

verus! {

/// What stands at a place of the target directory.
pub enum Place {
    /// Nothing.
    Empty,
    /// A symlink pointing at the given path.
    Link(Seq<char>),
    /// A file or a directory.
    Other,
}

/// The place that a probe of the target directory reports.
pub open spec fn place_of(t: TargetState) -> Place {
    match t {
        TargetState::Missing => Place::Empty,
        TargetState::Symlink { points_to } => Place::Link(points_to@),
        TargetState::Dangling { points_to } => Place::Link(points_to@),
        TargetState::Occupied => Place::Other,
    }
}

/// What a step leaves at its target, once it has succeeded: a symlink
/// creation the symlink, a directory creation a directory, a removal or a
/// move aside nothing.
pub open spec fn left_by(o: OpView) -> Place {
    match o.0 {
        OperationType::CreateSymlink => Place::Link(o.1),
        OperationType::CreateDir => Place::Other,
        _ => Place::Empty,
    }
}

/// The places after the steps `ops` have run, one after the other, on the
/// places `fs`, each succeeding. A step changes its own target only.
pub open spec fn run_steps(fs: spec_fn(Seq<char>) -> Place, ops: Seq<OpView>) -> spec_fn(Seq<char>) -> Place
    decreases ops.len(),
{
    if ops.len() == 0 {
        fs
    } else {
        let before = run_steps(fs, ops.drop_last());
        let o = ops.last();
        |p: Seq<char>| if p == o.2 { left_by(o) } else { before(p) }
    }
}

/// The place in the target directory of a package entry.
pub open spec fn place_for(cfg: StowConfig, package: Seq<char>, e: PackageEntry) -> Seq<char> {
    join(cfg.target_dir@, relative(e.source_path@, package).unwrap())
}

/// The steps for one entry of the package.
pub open spec fn entry_steps(cfg: StowConfig, package: Seq<char>, e: PackageEntry) -> Seq<OpView> {
    stow_steps(cfg.target_dir@, cfg.backup_existing, e.source_path@, relative(e.source_path@, package).unwrap(), e.is_dir, e.target)
}

/// Steps that do not touch `p` leave it as it was.
proof fn lemma_run_untouched(fs: spec_fn(Seq<char>) -> Place, a: Seq<OpView>, b: Seq<OpView>, p: Seq<char>)
    requires
        forall|k: int| 0 <= k < b.len() ==> (#[trigger] b[k]).2 != p,
    ensures
        run_steps(fs, a + b)(p) == run_steps(fs, a)(p),
    decreases b.len(),
{
    if b.len() == 0 {
        assert(a + b =~= a);
    } else {
        let b1 = b.drop_last();
        assert((a + b).drop_last() =~= a + b1);
        assert((a + b).last() == b[b.len() - 1]);
        assert forall|k: int| 0 <= k < b1.len() implies (#[trigger] b1[k]).2 != p by {
            assert(b1[k] == b[k]);
        }
        lemma_run_untouched(fs, a, b1, p);
    }
}

/// The last step on `p` decides what stands there.
proof fn lemma_run_last(fs: spec_fn(Seq<char>) -> Place, a: Seq<OpView>, s: Seq<OpView>, p: Seq<char>)
    requires
        s.len() > 0,
        s.last().2 == p,
    ensures
        run_steps(fs, a + s)(p) == left_by(s.last()),
{
    assert((a + s).last() == s.last());
}

/// Every step an entry plans has the entry's place as its target.
proof fn lemma_entry_targets(cfg: StowConfig, package: Seq<char>, e: PackageEntry)
    ensures
        forall|k: int| 0 <= k < entry_steps(cfg, package, e).len() ==> (#[trigger] entry_steps(cfg, package, e)[k]).2
            == place_for(cfg, package, e),
{
}

/// Every step of a stow plan has the place of one of the entries as its target.
proof fn lemma_plan_targets(cfg: StowConfig, package: Seq<char>, entries: Seq<PackageEntry>, k: int)
    requires
        0 <= k < stow_plan(cfg, package, entries).len(),
    ensures
        exists|j: int| 0 <= j < entries.len() && stow_plan(cfg, package, entries)[k].2 == place_for(cfg, package, #[trigger] entries[j]),
    decreases entries.len(),
{
    let pre = entries.drop_last();
    let e = entries.last();
    let a = stow_plan(cfg, package, pre);
    let s = entry_steps(cfg, package, e);
    assert(stow_plan(cfg, package, entries) == a + s);
    lemma_entry_targets(cfg, package, e);
    if k < a.len() {
        lemma_plan_targets(cfg, package, pre, k);
        let j = choose|j: int| 0 <= j < pre.len() && a[k].2 == place_for(cfg, package, #[trigger] pre[j]);
        assert(pre[j] == entries[j]);
    } else {
        assert(s[k - a.len()] == (a + s)[k]);
        assert(entries[entries.len() - 1] == e);
    }
}

/// The places of the entries are distinct.
pub open spec fn distinct_places(cfg: StowConfig, package: Seq<char>, entries: Seq<PackageEntry>) -> bool {
    forall|i: int, j: int|
        0 <= i < entries.len() && 0 <= j < entries.len() && i != j ==> place_for(cfg, package, #[trigger] entries[i])
            != place_for(cfg, package, #[trigger] entries[j])
}

/// What stands at the place of an entry once its own steps have run, given
/// what stood there before.
pub open spec fn after_entry(cfg: StowConfig, package: Seq<char>, e: PackageEntry, start: Place) -> Place {
    let s = entry_steps(cfg, package, e);
    if s.len() == 0 {
        start
    } else {
        left_by(s.last())
    }
}

/// Running a stow plan leaves at each entry's place what the entry's own
/// steps leave there.
proof fn lemma_run_plan(cfg: StowConfig, package: Seq<char>, entries: Seq<PackageEntry>, fs: spec_fn(Seq<char>) -> Place, i: int)
    requires
        distinct_places(cfg, package, entries),
        0 <= i < entries.len(),
    ensures
        run_steps(fs, stow_plan(cfg, package, entries))(place_for(cfg, package, entries[i])) == after_entry(
            cfg,
            package,
            entries[i],
            fs(place_for(cfg, package, entries[i])),
        ),
    decreases entries.len(),
{
    let n = entries.len() - 1;
    let pre = entries.drop_last();
    let e = entries.last();
    let a = stow_plan(cfg, package, pre);
    let s = entry_steps(cfg, package, e);
    assert(stow_plan(cfg, package, entries) == a + s);
    let p = place_for(cfg, package, entries[i]);
    lemma_entry_targets(cfg, package, e);
    if i < n {
        assert(pre[i] == entries[i]);
        assert forall|a1: int, b1: int|
            0 <= a1 < pre.len() && 0 <= b1 < pre.len() && a1 != b1 implies place_for(cfg, package, #[trigger] pre[a1])
                != place_for(cfg, package, #[trigger] pre[b1]) by {
            assert(pre[a1] == entries[a1] && pre[b1] == entries[b1]);
        }
        lemma_run_plan(cfg, package, pre, fs, i);
        assert(entries[n] == e);
        assert(place_for(cfg, package, entries[n]) != p);
        lemma_run_untouched(fs, a, s, p);
    } else {
        assert(entries[i] == e);
        if s.len() > 0 {
            lemma_run_last(fs, a, s, p);
        } else {
            assert(a + s =~= a);
            assert forall|k: int| 0 <= k < a.len() implies (#[trigger] a[k]).2 != p by {
                lemma_plan_targets(cfg, package, pre, k);
                let j = choose|j: int| 0 <= j < pre.len() && a[k].2 == place_for(cfg, package, #[trigger] pre[j]);
                assert(pre[j] == entries[j]);
            }
            lemma_run_untouched(fs, Seq::<OpView>::empty(), a, p);
            assert(Seq::<OpView>::empty() + a =~= a);
        }
    }
}


/// After an entry's own steps have run, it is linked to its source, or it
/// is a directory that exists.
proof fn lemma_entry_reached(cfg: StowConfig, package: Seq<char>, e: PackageEntry, a: PackageEntry)
    requires
        a.source_path@ == e.source_path@,
        a.is_dir == e.is_dir,
        place_of(a.target) == after_entry(cfg, package, e, place_of(e.target)),
        !(a.target is Dangling),
    ensures
        already_linked(a) || dir_present(a),
{
    let s = entry_steps(cfg, package, e);
    if !e.is_dir {
        match e.target {
            TargetState::Symlink { points_to } => {
                if same_path(points_to@, e.source_path@) {
                    assert(s.len() == 0);
                } else {
                    assert(s.last().0 == OperationType::CreateSymlink);
                }
            },
            _ => {
                assert(s.last().0 == OperationType::CreateSymlink);
            },
        }
        match a.target {
            TargetState::Symlink { points_to } => {},
            _ => {},
        }
    }
}

/// Running a stow plan reaches what it plans for: once every step of the
/// plan has run, each succeeding, on the places the plan was made from,
/// planning the same package again from what is then found at each entry's
/// place plans nothing. The entries' places are distinct, and the package's
/// files exist, so that no link to one of them is found dangling.
pub proof fn law_replan_after_run(
    cfg: StowConfig,
    package: Seq<char>,
    before: Seq<PackageEntry>,
    after: Seq<PackageEntry>,
    fs: spec_fn(Seq<char>) -> Place,
)
    requires
        distinct_places(cfg, package, before),
        after.len() == before.len(),
        forall|i: int| 0 <= i < before.len() ==> place_of((#[trigger] before[i]).target) == fs(place_for(cfg, package, before[i])),
        forall|i: int|
            0 <= i < after.len() ==> {
                &&& (#[trigger] after[i]).source_path@ == before[i].source_path@
                &&& after[i].is_dir == before[i].is_dir
                &&& place_of(after[i].target) == run_steps(fs, stow_plan(cfg, package, before))(place_for(cfg, package, before[i]))
                &&& !(after[i].target is Dangling)
            },
    ensures
        stow_plan(cfg, package, after) == Seq::<OpView>::empty(),
{
    assert forall|i: int| 0 <= i < after.len() implies already_linked(#[trigger] after[i]) || dir_present(after[i]) by {
        lemma_run_plan(cfg, package, before, fs, i);
        assert(place_of(before[i].target) == fs(place_for(cfg, package, before[i])));
        lemma_entry_reached(cfg, package, before[i], after[i]);
    }
    law_linked_package_plans_nothing(cfg, package, after);
}


/// An unstow plan only removes.
proof fn lemma_unstow_removes_only(target_dir: Seq<char>, package: Seq<char>, found: Seq<LinkEntry>, k: int)
    requires
        0 <= k < unstow_plan(target_dir, package, found).len(),
    ensures
        left_by(unstow_plan(target_dir, package, found)[k]) == Place::Empty,
    decreases found.len(),
{
    let b = unstow_steps(target_dir, package, found.last());
    let a = unstow_plan(target_dir, package, found.drop_last());
    assert(unstow_plan(target_dir, package, found) == b + a);
    if k >= b.len() {
        lemma_unstow_removes_only(target_dir, package, found.drop_last(), k - b.len());
        assert((b + a)[k] == a[k - b.len()]);
    } else {
        assert((b + a)[k] == b[k]);
    }
}

/// Where steps that each leave nothing reach a place, nothing is left there.
proof fn lemma_run_removals(fs: spec_fn(Seq<char>) -> Place, ops: Seq<OpView>, p: Seq<char>, j: int)
    requires
        0 <= j < ops.len(),
        ops[j].2 == p,
        forall|k: int| 0 <= k < ops.len() ==> left_by(#[trigger] ops[k]) == Place::Empty,
    ensures
        run_steps(fs, ops)(p) == Place::Empty,
    decreases ops.len(),
{
    let n = ops.len() - 1;
    if ops[n].2 != p {
        let pre = ops.drop_last();
        assert(pre[j] == ops[j]);
        assert forall|k: int| 0 <= k < pre.len() implies left_by(#[trigger] pre[k]) == Place::Empty by {
            assert(pre[k] == ops[k]);
        }
        lemma_run_removals(fs, pre, p, j);
    } else {
        assert(left_by(ops[n]) == Place::Empty);
    }
}

/// Unstowing undoes stowing: where a file of the package had nothing at its
/// place, running the stow plan and then the unstow plan, made from the
/// symlinks then found (among them every symlink the stow plan made), leaves
/// nothing there again.
pub proof fn law_unstow_restores_places(
    cfg: StowConfig,
    package: Seq<char>,
    entries: Seq<PackageEntry>,
    fs: spec_fn(Seq<char>) -> Place,
    found: Seq<LinkEntry>,
    i: int,
)
    requires
        all_under(package, entries),
        0 <= i < entries.len(),
        !entries[i].is_dir,
        place_of(entries[i].target) == fs(place_for(cfg, package, entries[i])),
        fs(place_for(cfg, package, entries[i])) == Place::Empty,
        forall|j: int|
            0 <= j < stow_plan(cfg, package, entries).len() && (#[trigger] stow_plan(cfg, package, entries)[j]).0
                == OperationType::CreateSymlink ==> exists|l: int|
                0 <= l < found.len() && (#[trigger] found[l]).path@ == stow_plan(cfg, package, entries)[j].2
                    && found[l].points_to@ == stow_plan(cfg, package, entries)[j].1,
    ensures
        run_steps(run_steps(fs, stow_plan(cfg, package, entries)), unstow_plan(cfg.target_dir@, package, found))(
            place_for(cfg, package, entries[i]),
        ) == fs(place_for(cfg, package, entries[i])),
{
    let plan = stow_plan(cfg, package, entries);
    let e = entries[i];
    let source = e.source_path@;
    let target = place_for(cfg, package, e);
    assert(e.target is Missing);
    assert(!already_linked(e));
    assert(to_link(cfg, package, entries, i, source, target));
    law_plan_links_each_unlinked_file(cfg, package, entries, source, target);
    assert(links(plan, source, target));
    let j = choose|j: int|
        0 <= j < plan.len() && (#[trigger] plan[j]).0 == OperationType::CreateSymlink && plan[j].1 == source
            && plan[j].2 == target;
    let l = choose|l: int| 0 <= l < found.len() && (#[trigger] found[l]).path@ == plan[j].2 && found[l].points_to@ == plan[j].1;
    law_unstow_undoes_stow(cfg, package, entries, found, source, target, l);
    let u = unstow_plan(cfg.target_dir@, package, found);
    let j2 = choose|j2: int| #[trigger] removed_then_parent(u, cfg.target_dir@, target, j2);
    assert forall|k: int| 0 <= k < u.len() implies left_by(#[trigger] u[k]) == Place::Empty by {
        lemma_unstow_removes_only(cfg.target_dir@, package, found, k);
    }
    lemma_run_removals(run_steps(fs, plan), u, target, j2);
}

}
