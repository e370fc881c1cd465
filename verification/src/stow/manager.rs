//! The stow API: packages, stowing, unstowing and checking links.
//!
//! What touches the file system (walking directories, looking at targets,
//! making and removing links) happens outside the library; the decisions
//! between those steps are made here.
use vstd::prelude::*;
use crate::paths::{join, join_path, path_starts_with, starts_with};
use crate::select::{lemma_picks_next, lemma_picks_none, picks};
use crate::sort::{sorted, stable_sort};
use crate::text::{concat, decimal, decimal_string};
use super::conflict::{Conflict, ConflictView};
use super::error::{copy_opt, opt_view, StowError, StowErrorView};
use super::operations::{stow_plan, PackageEntry, StowEngine, all_under, ops_view};
use super::types::{OperationResult, StowConfig, StowResult, SymlinkOperation};

verus! {

/// A link into the source directory whose target does not exist.
pub struct BrokenSymlink {
    pub link: String,
    pub target: String,
    pub reason: String,
}

/// A link that stow manages.
pub struct LinkInfo {
    pub source: String,
    pub target: String,
    pub is_dir: bool,
}

/// An entry of the source directory, as a directory listing gives it.
pub struct SourceEntry {
    /// The entry's name, or `None` where it is not valid Unicode.
    pub name: Option<String>,
    pub is_dir: bool,
}

/// A symlink of the target directory, with where it points and whether
/// that exists.
pub struct LinkCheck {
    pub link: String,
    pub target: String,
    pub target_exists: bool,
}

/// Stows packages from a source directory into a target directory.
pub struct StowManager {
    pub engine: StowEngine,
    pub config: StowConfig,
}

/// The number of results that succeeded.
pub open spec fn count_success(rs: Seq<OperationResult>) -> nat
    decreases rs.len(),
{
    if rs.len() == 0 {
        0
    } else {
        count_success(rs.drop_last()) + if rs.last().success { 1nat } else { 0nat }
    }
}

/// The names of the directories among the entries, in order.
pub open spec fn dir_names(es: Seq<SourceEntry>) -> Seq<Seq<char>>
    decreases es.len(),
{
    if es.len() == 0 {
        seq![]
    } else {
        let rest = dir_names(es.drop_last());
        let e = es.last();
        if e.is_dir && e.name is Some {
            rest.push(e.name.unwrap()@)
        } else {
            rest
        }
    }
}

/// Some directory among the entries has a name that is not valid Unicode.
pub open spec fn has_unnamed_dir(es: Seq<SourceEntry>) -> bool {
    exists|i: int| 0 <= i < es.len() && (#[trigger] es[i]).is_dir && es[i].name is None
}

/// The broken links among the checked symlinks, in order: those that point
/// into `source_dir` at something that does not exist.
pub open spec fn broken_links(source_dir: Seq<char>, ls: Seq<LinkCheck>) -> Seq<(Seq<char>, Seq<char>, Seq<char>)>
    decreases ls.len(),
{
    if ls.len() == 0 {
        seq![]
    } else {
        let rest = broken_links(source_dir, ls.drop_last());
        let l = ls.last();
        if starts_with(l.target@, source_dir) && !l.target_exists {
            rest.push((l.link@, l.target@, "Target does not exist"@))
        } else {
            rest
        }
    }
}

impl StowManager {
    /// A manager for the configuration.
    pub fn new(config: StowConfig) -> (r: StowManager)
        ensures
            r.config == config,
            r.engine.config.source_dir@ == config.source_dir@,
            r.engine.config.target_dir@ == config.target_dir@,
            r.engine.config.backup_existing == config.backup_existing,
            r.engine.config.simulate == config.simulate,
    {
        let engine = StowEngine::new(config.copy());
        StowManager { engine, config }
    }

    /// Where the package named `package` lives.
    pub fn package_path(&self, package: &str) -> (r: String)
        ensures
            r@ == join(self.config.source_dir@, package@),
    {
        join_path(self.config.source_dir.as_str(), package)
    }

    /// Stowing starts from the package directory: it is an error when it
    /// does not exist.
    pub fn check_source(&self, package: &str, package_exists: bool) -> (r: Result<String, StowError>)
        ensures
            package_exists ==> (r matches Ok(p) && p@ == join(self.config.source_dir@, package@)),
            !package_exists ==> (r matches Err(e) && e@ == StowErrorView::SourceNotFound(join(self.config.source_dir@, package@))),
    {
        let p = self.package_path(package);
        if package_exists {
            Ok(p)
        } else {
            Err(StowError::SourceNotFound(p))
        }
    }

    /// The plan for stowing `package`, whose entries the walk found.
    pub fn plan(&self, package: &str, entries: &Vec<PackageEntry>) -> (r: Result<Vec<SymlinkOperation>, StowError>)
        ensures
            all_under(join(self.config.source_dir@, package@), entries@) ==> (r matches Ok(ops) && ops_view(ops@)
                == stow_plan(self.engine.config, join(self.config.source_dir@, package@), entries@)),
            !all_under(join(self.config.source_dir@, package@), entries@) ==> (r matches Err(e) && e@
                == StowErrorView::InvalidPath("Cannot strip prefix"@)),
    {
        let p = self.package_path(package);
        self.engine.plan_stow(p.as_str(), entries)
    }

    /// Stowing stops at conflicts: an error naming how many there are and
    /// the first of them.
    pub fn check_conflicts(conflicts: &Vec<Conflict>) -> (r: Result<(), StowError>)
        ensures
            conflicts.len() == 0 ==> r is Ok,
            conflicts.len() > 0 ==> (r matches Err(e) && e@ == StowErrorView::Conflict {
                message: decimal(conflicts.len() as nat) + " conflicts detected"@,
                path: conflicts[0].path@,
                existing: opt_view(conflicts[0].existing_target),
            }),
    {
        if conflicts.len() == 0 {
            return Ok(());
        }
        let n = decimal_string(conflicts.len());
        Err(StowError::Conflict {
            message: concat(n.as_str(), " conflicts detected"),
            path: conflicts[0].path.clone(),
            existing: copy_opt(&conflicts[0].existing_target),
        })
    }

    /// How many results succeeded.
    fn successes(results: &Vec<OperationResult>) -> (r: usize)
        ensures
            r == count_success(results@),
    {
        let mut n: usize = 0;
        let mut i: usize = 0;
        while i < results.len()
            invariant
                i <= results.len(),
                n == count_success(results@.take(i as int)),
                n <= i,
            decreases results.len() - i,
        {
            proof {
                assert(results@.take(i + 1).drop_last() =~= results@.take(i as int));
            }
            if results[i].success {
                n = n + 1;
            }
            i = i + 1;
        }
        assert(results@.take(i as int) =~= results@);
        n
    }

    /// The report of stowing `package`: every executed step counts, the
    /// successful ones as created links, the others as errors.
    pub fn stow_report(package: &str, results: &Vec<OperationResult>) -> (r: StowResult)
        ensures
            r.package@ == package@,
            r.operations == results.len(),
            r.symlinks_created == count_success(results@),
            r.errors == results.len() - count_success(results@),
    {
        let ok = Self::successes(results);
        proof {
            lemma_count_success_bound(results@);
        }
        StowResult {
            package: package.to_string(),
            operations: results.len(),
            symlinks_created: ok,
            errors: results.len() - ok,
        }
    }

    /// The report of unstowing `package`: no link is created.
    pub fn unstow_report(package: &str, results: &Vec<OperationResult>) -> (r: StowResult)
        ensures
            r.package@ == package@,
            r.operations == results.len(),
            r.symlinks_created == 0,
            r.errors == results.len() - count_success(results@),
    {
        let ok = Self::successes(results);
        proof {
            lemma_count_success_bound(results@);
        }
        StowResult {
            package: package.to_string(),
            operations: results.len(),
            symlinks_created: 0,
            errors: results.len() - ok,
        }
    }

    /// The packages of the source directory: the names of its
    /// subdirectories, sorted. A subdirectory whose name is not valid
    /// Unicode is an error.
    pub fn list_packages(entries: &Vec<SourceEntry>) -> (r: Result<Vec<String>, StowError>)
        ensures
            has_unnamed_dir(entries@) ==> (r matches Err(e) && e@ == StowErrorView::InvalidPath("Invalid package name"@)),
            !has_unnamed_dir(entries@) ==> (r matches Ok(names)
                && names.deep_view().to_multiset() == dir_names(entries@).to_multiset()
                && sorted(names@)),
    {
        let mut names: Vec<String> = Vec::new();
        let mut i: usize = 0;
        while i < entries.len()
            invariant
                i <= entries.len(),
                !has_unnamed_dir(entries@.take(i as int)),
                names.deep_view() == dir_names(entries@.take(i as int)),
            decreases entries.len() - i,
        {
            let e = &entries[i];
            proof {
                let t = entries@.take(i + 1);
                assert(t.drop_last() =~= entries@.take(i as int));
                assert(t.last() == entries@[i as int]);
            }
            if e.is_dir {
                match &e.name {
                    Some(n) => {
                        let ghost before = names.deep_view();
                        names.push(n.clone());
                        assert(names.deep_view() =~= before.push(n@));
                    },
                    None => {
                        assert(has_unnamed_dir(entries@));
                        return Err(StowError::InvalidPath("Invalid package name".to_string()));
                    },
                }
            }
            proof {
                let t = entries@.take(i + 1);
                assert forall|k: int| 0 <= k < t.len() && (#[trigger] t[k]).is_dir implies t[k].name is Some by {
                    if k < i {
                        assert(t[k] == entries@.take(i as int)[k]);
                    }
                }
            }
            i = i + 1;
        }
        assert(entries@.take(i as int) =~= entries@);
        let sorted_names = stable_sort(names);
        proof {
            lemma_deep_multiset(sorted_names@, names@);
            assert(sorted_names.deep_view() =~= sorted_names@.map_values(|s: String| s@));
            assert(names.deep_view() =~= names@.map_values(|s: String| s@));
        }
        Ok(sorted_names)
    }

    /// The broken links among the symlinks of the target directory.
    pub fn verify(&self, links: &Vec<LinkCheck>) -> (r: Vec<BrokenSymlink>)
        ensures
            r@.map_values(|b: BrokenSymlink| (b.link@, b.target@, b.reason@)) == broken_links(self.config.source_dir@, links@),
    {
        let mut out: Vec<BrokenSymlink> = Vec::new();
        let mut i: usize = 0;
        while i < links.len()
            invariant
                i <= links.len(),
                out@.map_values(|b: BrokenSymlink| (b.link@, b.target@, b.reason@)) == broken_links(self.config.source_dir@, links@.take(i as int)),
            decreases links.len() - i,
        {
            let l = &links[i];
            let ghost before = out@.map_values(|b: BrokenSymlink| (b.link@, b.target@, b.reason@));
            proof {
                let t = links@.take(i + 1);
                assert(t.drop_last() =~= links@.take(i as int));
                assert(t.last() == links@[i as int]);
            }
            if path_starts_with(l.target.as_str(), self.config.source_dir.as_str()) && !l.target_exists {
                out.push(BrokenSymlink {
                    link: l.link.clone(),
                    target: l.target.clone(),
                    reason: "Target does not exist".to_string(),
                });
            }
            assert(out@.map_values(|b: BrokenSymlink| (b.link@, b.target@, b.reason@)) =~= broken_links(self.config.source_dir@, links@.take(i + 1)));
            i = i + 1;
        }
        assert(links@.take(i as int) =~= links@);
        out
    }
}

proof fn lemma_count_success_bound(rs: Seq<OperationResult>)
    ensures
        count_success(rs) <= rs.len(),
    decreases rs.len(),
{
    if rs.len() > 0 {
        lemma_count_success_bound(rs.drop_last());
    }
}

/// Equal multisets of strings have equal multisets of texts.
proof fn lemma_deep_multiset(a: Seq<String>, b: Seq<String>)
    requires
        a.to_multiset() == b.to_multiset(),
    ensures
        a.map_values(|s: String| s@).to_multiset() == b.map_values(|s: String| s@).to_multiset(),
{
    crate::sort::lemma_map_multiset(a, b, |s: String| s@);
}


/// The positions of the checked symlinks that point into `source_dir` at
/// something that does not exist.
pub open spec fn dangling_into(source_dir: Seq<char>, ls: Seq<LinkCheck>) -> spec_fn(int) -> bool {
    |i: int| starts_with(ls[i].target@, source_dir) && !ls[i].target_exists
}

proof fn lemma_broken_pick(source_dir: Seq<char>, ls: Seq<LinkCheck>, keep: spec_fn(int) -> bool, m: int)
    requires
        0 <= m <= ls.len(),
        forall|i: int| 0 <= i < ls.len() ==> #[trigger] keep(i) == (starts_with(ls[i].target@, source_dir) && !ls[i].target_exists),
    ensures
        exists|from: Seq<int>|
            #[trigger] picks(from, m, keep) && from.len() == broken_links(source_dir, ls.take(m)).len() && forall|k: int|
                0 <= k < from.len() ==> broken_links(source_dir, ls.take(m))[k] == (
                    ls[from[k]].link@,
                    ls[from[k]].target@,
                    "Target does not exist"@,
                ),
    decreases m,
{
    if m == 0 {
        lemma_picks_none(keep);
        let from = Seq::<int>::empty();
        assert(picks(from, m, keep));
    } else {
        lemma_broken_pick(source_dir, ls, keep, m - 1);
        let from = choose|from: Seq<int>|
            #[trigger] picks(from, m - 1, keep) && from.len() == broken_links(source_dir, ls.take(m - 1)).len() && forall|k: int|
                0 <= k < from.len() ==> broken_links(source_dir, ls.take(m - 1))[k] == (
                    ls[from[k]].link@,
                    ls[from[k]].target@,
                    "Target does not exist"@,
                );
        lemma_picks_next(from, m - 1, keep);
        let t = ls.take(m);
        assert(t.drop_last() =~= ls.take(m - 1));
        assert(t.last() == ls[m - 1]);
        let prev = broken_links(source_dir, ls.take(m - 1));
        if keep(m - 1) {
            let f = from.push(m - 1);
            assert(broken_links(source_dir, t) == prev.push((ls[m - 1].link@, ls[m - 1].target@, "Target does not exist"@)));
            assert forall|k: int| 0 <= k < f.len() implies broken_links(source_dir, t)[k] == (
                ls[f[k]].link@,
                ls[f[k]].target@,
                "Target does not exist"@,
            ) by {
                if k < from.len() {
                    assert(f[k] == from[k]);
                }
            }
        } else {
            assert(broken_links(source_dir, t) == prev);
        }
    }
}

/// Every checked symlink that points into the source directory at
/// something that does not exist is reported, in order, with the reason
/// "Target does not exist", and no other symlink is.
pub proof fn law_every_broken_link_is_reported(source_dir: Seq<char>, ls: Seq<LinkCheck>)
    ensures
        exists|from: Seq<int>|
            #[trigger] picks(from, ls.len() as int, dangling_into(source_dir, ls)) && from.len() == broken_links(source_dir, ls).len()
                && forall|k: int|
                0 <= k < from.len() ==> broken_links(source_dir, ls)[k] == (
                    ls[from[k]].link@,
                    ls[from[k]].target@,
                    "Target does not exist"@,
                ),
{
    lemma_broken_pick(source_dir, ls, dangling_into(source_dir, ls), ls.len() as int);
    assert(ls.take(ls.len() as int) =~= ls);
}

}
