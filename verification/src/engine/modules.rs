//! Modules of dotfiles: directories of the repository whose names start with
//! `Dreamcoder`, and the links that install them.
use vstd::prelude::*;
use crate::paths::{file_name, join, join_path, parent, parent_path, path_file_name, path_with_file_name, relative, strip_prefix, with_file_name};
use crate::sort::{lemma_lex_asymmetric, lemma_lex_transitive, lemma_lex_weak, lex_before, sorted, stable_from, stable_sort, str_before, Ordered};
use crate::system::{home_dir, now_seconds};
use crate::select::{lemma_picks_next, lemma_picks_none, picks};
use crate::text::{concat, has_prefix, signed_decimal, signed_decimal_string, starts_with_str};
use super::config::Config;
use super::error::DreamcoderError;

verus! {

/// A symlink a module installs.
pub struct Symlink {
    pub source: String,
    pub target: String,
    pub backup_existing: bool,
}

/// A variant of a module for one operating system.
pub struct ModuleVariant {
    pub path: String,
    pub packages: Vec<String>,
}

/// Variants of a module by operating system.
pub struct OsSpecific {
    pub linux: Option<ModuleVariant>,
    pub macos: Option<ModuleVariant>,
    pub windows: Option<ModuleVariant>,
}

/// A module of dotfiles.
pub struct Module {
    pub name: String,
    pub path: String,
    pub description: Option<String>,
    pub symlinks: Vec<Symlink>,
    pub dependencies: Vec<String>,
    pub pre_install_hook: Option<String>,
    pub post_install_hook: Option<String>,
    pub os_specific: Option<OsSpecific>,
}


impl Ordered for Module {
    open spec fn before(self, other: Self) -> bool {
        lex_before(self.name@, other.name@)
    }

    proof fn before_asymmetric(a: Self, b: Self) {
        lemma_lex_asymmetric(a.name@, b.name@);
    }

    proof fn before_transitive(a: Self, b: Self, c: Self) {
        lemma_lex_transitive(a.name@, b.name@, c.name@);
    }

    proof fn before_weak(a: Self, b: Self, c: Self) {
        lemma_lex_weak(a.name@, b.name@, c.name@);
    }

    fn comes_before(&self, other: &Self) -> (r: bool) {
        str_before(self.name.as_str(), other.name.as_str())
    }
}

/// An entry of the repository directory.
pub struct DirEntryInfo {
    pub name: String,
    pub is_dir: bool,
}

/// An entry found by walking a module's directory (the directory itself
/// excluded).
pub struct WalkItem {
    pub path: String,
    pub is_file: bool,
    pub is_dir: bool,
}

/// What is found at the target of a module's link.
pub struct LinkProbe {
    /// Something exists there (following symlinks).
    pub exists: bool,
    /// It is a symlink.
    pub is_symlink: bool,
}

/// A directory of the repository is a module when its name starts with `Dreamcoder`.
pub open spec fn is_module_entry(e: DirEntryInfo) -> bool {
    has_prefix(e.name@, "Dreamcoder"@) && e.is_dir
}

/// The names of the module directories among the entries, in order.
pub open spec fn module_names(es: Seq<DirEntryInfo>) -> Seq<Seq<char>>
    decreases es.len(),
{
    if es.len() == 0 {
        seq![]
    } else {
        let rest = module_names(es.drop_last());
        if is_module_entry(es.last()) {
            rest.push(es.last().name@)
        } else {
            rest
        }
    }
}

/// The links for the walked entries of a module at `module_dir`, each
/// linked at the same place under `home`. Only files and directories count.
pub open spec fn links_for(home: Seq<char>, module_dir: Seq<char>, items: Seq<WalkItem>) -> Seq<(Seq<char>, Seq<char>, bool)>
    decreases items.len(),
{
    if items.len() == 0 {
        seq![]
    } else {
        let rest = links_for(home, module_dir, items.drop_last());
        let it = items.last();
        if it.is_file || it.is_dir {
            rest.push((it.path@, join(home, relative(it.path@, module_dir).unwrap()), true))
        } else {
            rest
        }
    }
}

/// Every file or directory among the items lies under `module_dir`.
pub open spec fn items_under(module_dir: Seq<char>, items: Seq<WalkItem>) -> bool {
    forall|i: int| 0 <= i < items.len() && ((#[trigger] items[i]).is_file || items[i].is_dir)
        ==> relative(items[i].path@, module_dir) is Some
}

/// The views of a list of links.
pub open spec fn links_view(v: Seq<Symlink>) -> Seq<(Seq<char>, Seq<char>, bool)> {
    v.map_values(|l: Symlink| (l.source@, l.target@, l.backup_existing))
}

/// The targets that stand in the way: something that is not a symlink exists there.
pub open spec fn blocked_targets(ls: Seq<Symlink>, probes: Seq<LinkProbe>) -> Seq<Seq<char>>
    decreases ls.len(),
{
    if ls.len() == 0 || probes.len() == 0 {
        seq![]
    } else {
        let rest = blocked_targets(ls.drop_last(), probes.drop_last());
        let p = probes.last();
        if p.exists && !p.is_symlink {
            rest.push(ls.last().target@)
        } else {
            rest
        }
    }
}

/// Where a file in the way of a link is moved: next to it, named
/// `<name>.backup.<timestamp>`.
pub open spec fn module_backup_path(target: Seq<char>, timestamp: int) -> Seq<char> {
    let name = match file_name(target) {
        Some(n) => n,
        None => seq![],
    };
    with_file_name(target, name + ".backup."@ + signed_decimal(timestamp))
}

/// Finds, loads and orders the modules of the repository.
pub struct ModuleManager {
    root: String,
}

impl ModuleManager {
    /// The repository the manager looks in.
    pub closed spec fn root(&self) -> Seq<char> {
        self.root@
    }

    /// A manager for the configured repository.
    pub fn new(config: &Config) -> (r: Result<ModuleManager, DreamcoderError>)
        ensures
            r matches Ok(m) && m.root() == config.dotfiles_root@,
    {
        Ok(ModuleManager { root: config.dotfiles_root.clone() })
    }

    /// Where the module named `name` lives.
    pub fn module_dir(&self, name: &str) -> (r: String)
        ensures
            r@ == join(self.root(), name@),
    {
        join_path(self.root.as_str(), name)
    }

    /// The names of the module directories among the entries of the
    /// repository, in the order of the listing.
    pub fn module_candidates(entries: &Vec<DirEntryInfo>) -> (r: Vec<String>)
        ensures
            r.deep_view() == module_names(entries@),
    {
        let mut out: Vec<String> = Vec::new();
        let mut i: usize = 0;
        while i < entries.len()
            invariant
                i <= entries.len(),
                out.deep_view() == module_names(entries@.take(i as int)),
            decreases entries.len() - i,
        {
            let e = &entries[i];
            proof {
                let t = entries@.take(i + 1);
                assert(t.drop_last() =~= entries@.take(i as int));
                assert(t.last() == entries@[i as int]);
            }
            let ghost before = out.deep_view();
            if starts_with_str(e.name.as_str(), "Dreamcoder") && e.is_dir {
                out.push(e.name.clone());
                assert(out.deep_view() =~= before.push(e.name@));
            }
            i = i + 1;
        }
        assert(entries@.take(i as int) =~= entries@);
        out
    }

    /// The links of a module at `module_dir` whose walk found `items`,
    /// each linked at the same place under `home`.
    pub fn links_for_home(home: &str, module_dir: &str, items: &Vec<WalkItem>) -> (r: Result<Vec<Symlink>, DreamcoderError>)
        ensures
            items_under(module_dir@, items@) ==> (r matches Ok(ls) && links_view(ls@) == links_for(home@, module_dir@, items@)),
            !items_under(module_dir@, items@) ==> (r matches Err(e) && e matches DreamcoderError::Path(m) && m@ == "Failed to strip path prefix"@),
    {
        let mut out: Vec<Symlink> = Vec::new();
        let mut i: usize = 0;
        while i < items.len()
            invariant
                i <= items.len(),
                items_under(module_dir@, items@.take(i as int)),
                links_view(out@) == links_for(home@, module_dir@, items@.take(i as int)),
            decreases items.len() - i,
        {
            let it = &items[i];
            proof {
                let t = items@.take(i + 1);
                assert(t.drop_last() =~= items@.take(i as int));
                assert(t.last() == items@[i as int]);
            }
            if it.is_file || it.is_dir {
                match strip_prefix(it.path.as_str(), module_dir) {
                    Some(rel) => {
                        let ghost before = links_view(out@);
                        out.push(Symlink {
                            source: it.path.clone(),
                            target: join_path(home, rel.as_str()),
                            backup_existing: true,
                        });
                        assert(links_view(out@) =~= before.push((it.path@, join(home@, rel@), true)));
                    },
                    None => {
                        assert(!items_under(module_dir@, items@));
                        return Err(DreamcoderError::Path("Failed to strip path prefix".to_string()));
                    },
                }
            }
            proof {
                let t = items@.take(i + 1);
                assert forall|k: int| 0 <= k < t.len() && ((#[trigger] t[k]).is_file || t[k].is_dir)
                    implies relative(t[k].path@, module_dir@) is Some by {
                    if k < i {
                        assert(t[k] == items@.take(i as int)[k]);
                    }
                }
            }
            i = i + 1;
        }
        assert(items@.take(i as int) =~= items@);
        Ok(out)
    }

    /// The links of a module, linked under the current user's home
    /// directory; an error where there is none.
    pub fn scan_symlinks(&self, module_dir: &str, items: &Vec<WalkItem>) -> (r: Result<Vec<Symlink>, DreamcoderError>)
        ensures
            r matches Ok(ls) ==> exists|home: Seq<char>| links_view(ls@) == links_for(home, module_dir@, items@),
            r matches Err(e) ==> ((e matches DreamcoderError::Config(m) && m@ == "No home dir"@)
                || (!items_under(module_dir@, items@) && (e matches DreamcoderError::Path(m) && m@ == "Failed to strip path prefix"@))),
    {
        match home_dir() {
            Some(home) => Self::links_for_home(home.as_str(), module_dir, items),
            None => Err(DreamcoderError::Config("No home dir".to_string())),
        }
    }

    /// The module named `name` of the repository, given whether its
    /// directory exists and what walking it found; no module where it does
    /// not exist.
    pub fn load_module(&self, name: &str, exists: bool, items: &Vec<WalkItem>) -> (r: Result<Option<Module>, DreamcoderError>)
        ensures
            !exists ==> r matches Ok(None),
            r matches Ok(Some(m)) ==> {
                &&& m.name@ == name@
                &&& m.path@ == join(self.root(), name@)
                &&& m.description is None
                &&& m.dependencies@.len() == 0
                &&& m.pre_install_hook is None
                &&& m.post_install_hook is None
                &&& m.os_specific is None
                &&& exists|home: Seq<char>| links_view(m.symlinks@) == links_for(home, join(self.root(), name@), items@)
            },
            exists ==> !(r matches Ok(None)),
            r matches Err(e) ==> exists && ((e matches DreamcoderError::Config(m) && m@ == "No home dir"@)
                || (!items_under(join(self.root(), name@), items@) && (e matches DreamcoderError::Path(m)
                && m@ == "Failed to strip path prefix"@))),
    {
        if !exists {
            return Ok(None);
        }
        let path = self.module_dir(name);
        let symlinks = match self.scan_symlinks(path.as_str(), items) {
            Ok(ls) => ls,
            Err(e) => return Err(e),
        };
        Ok(Some(Module {
            name: name.to_string(),
            path,
            description: None,
            symlinks,
            dependencies: Vec::new(),
            pre_install_hook: None,
            post_install_hook: None,
            os_specific: None,
        }))
    }

    /// The loaded modules, ordered by name (modules of the same name keep
    /// their order).
    pub fn order_modules(modules: Vec<Module>) -> (r: Vec<Module>)
        ensures
            r@.to_multiset() == modules@.to_multiset(),
            sorted(r@),
            exists|from: Seq<int>| stable_from(r@, modules@, from),
    {
        stable_sort(modules)
    }

    /// The targets of the module's links that something other than a
    /// symlink occupies (`probes[i]` is what is found at the target of the
    /// `i`-th link), or `None` when there are none.
    pub fn check_conflicts(module: &Module, probes: &Vec<LinkProbe>) -> (r: Option<Vec<String>>)
        requires
            probes.len() == module.symlinks.len(),
        ensures
            blocked_targets(module.symlinks@, probes@).len() == 0 ==> r is None,
            blocked_targets(module.symlinks@, probes@).len() > 0 ==> (r matches Some(v) && v.deep_view() == blocked_targets(module.symlinks@, probes@)),
    {
        let mut out: Vec<String> = Vec::new();
        let mut i: usize = 0;
        while i < probes.len()
            invariant
                i <= probes.len(),
                probes.len() == module.symlinks.len(),
                out.deep_view() == blocked_targets(module.symlinks@.take(i as int), probes@.take(i as int)),
            decreases probes.len() - i,
        {
            proof {
                let ts = module.symlinks@.take(i + 1);
                let tp = probes@.take(i + 1);
                assert(ts.drop_last() =~= module.symlinks@.take(i as int));
                assert(tp.drop_last() =~= probes@.take(i as int));
                assert(ts.last() == module.symlinks@[i as int]);
                assert(tp.last() == probes@[i as int]);
            }
            let ghost before = out.deep_view();
            if probes[i].exists && !probes[i].is_symlink {
                out.push(module.symlinks[i].target.clone());
                assert(out.deep_view() =~= before.push(module.symlinks@[i as int].target@));
            }
            i = i + 1;
        }
        assert(module.symlinks@.take(i as int) =~= module.symlinks@);
        assert(probes@.take(i as int) =~= probes@);
        if out.len() == 0 {
            None
        } else {
            Some(out)
        }
    }

    /// Where a file in the way of a link is moved before linking.
    pub fn backup_path_for(target: &str, timestamp: i64) -> (r: String)
        ensures
            r@ == module_backup_path(target@, timestamp as int),
    {
        let name = match path_file_name(target) {
            Some(n) => n,
            None => String::new(),
        };
        let stamp = signed_decimal_string(timestamp);
        let with_suffix = concat(name.as_str(), ".backup.");
        let full = concat(with_suffix.as_str(), stamp.as_str());
        path_with_file_name(target, full.as_str())
    }
}

/// A step of installing one of a module's links.
pub enum LinkStep {
    /// Rename the file at `from` to `to`.
    MoveAside { from: String, to: String },
    /// Create the directory `dir` and its missing parents.
    MakeDirAll { dir: String },
    /// Remove the symlink at `path`.
    RemoveLink { path: String },
    /// Create a symlink at `target` that points to `source`.
    Link { source: String, target: String },
}

/// A step as plain values.
pub enum LinkStepView {
    MoveAside { from: Seq<char>, to: Seq<char> },
    MakeDirAll { dir: Seq<char> },
    RemoveLink { path: Seq<char> },
    Link { source: Seq<char>, target: Seq<char> },
}

impl View for LinkStep {
    type V = LinkStepView;

    open spec fn view(&self) -> LinkStepView {
        match self {
            LinkStep::MoveAside { from, to } => LinkStepView::MoveAside { from: from@, to: to@ },
            LinkStep::MakeDirAll { dir } => LinkStepView::MakeDirAll { dir: dir@ },
            LinkStep::RemoveLink { path } => LinkStepView::RemoveLink { path: path@ },
            LinkStep::Link { source, target } => LinkStepView::Link { source: source@, target: target@ },
        }
    }
}

/// The views of a list of steps.
pub open spec fn link_steps_view(v: Seq<LinkStep>) -> Seq<LinkStepView> {
    v.map_values(|s: LinkStep| s@)
}

/// A link's target needs moving aside: a file that is not a symlink is
/// there, and the link asks for backups.
pub open spec fn needs_backup(l: Symlink, p: LinkProbe) -> bool {
    p.exists && !p.is_symlink && l.backup_existing
}

/// The steps that install the link `l`, given what is at its target, a
/// file in the way being moved aside with the stamp `timestamp`: move it
/// aside, create the parent directory, remove an old symlink, link.
pub open spec fn link_plan(l: Symlink, p: LinkProbe, timestamp: int) -> Seq<LinkStepView> {
    let t = l.target@;
    let aside = if needs_backup(l, p) {
        seq![LinkStepView::MoveAside { from: t, to: module_backup_path(t, timestamp) }]
    } else {
        seq![]
    };
    let mk = match parent(t) {
        Some(d) => seq![LinkStepView::MakeDirAll { dir: d }],
        None => seq![],
    };
    let rm = if p.is_symlink {
        seq![LinkStepView::RemoveLink { path: t }]
    } else {
        seq![]
    };
    aside + mk + rm + seq![LinkStepView::Link { source: l.source@, target: t }]
}

/// The steps that install the links, in order, `timestamps[i]` stamping a
/// backup of the `i`-th target.
pub open spec fn install_plan(ls: Seq<Symlink>, ps: Seq<LinkProbe>, timestamps: Seq<i64>) -> Seq<LinkStepView>
    decreases ls.len(),
{
    if ls.len() == 0 || ps.len() == 0 || timestamps.len() == 0 {
        seq![]
    } else {
        install_plan(ls.drop_last(), ps.drop_last(), timestamps.drop_last()) + link_plan(
            ls.last(),
            ps.last(),
            timestamps.last() as int,
        )
    }
}

impl ModuleManager {
    /// Appends the steps that install the link `l` to `out`, given what is
    /// found at its target, a file in the way being stamped with `timestamp`.
    pub fn link_steps(l: &Symlink, probe: &LinkProbe, timestamp: i64, out: &mut Vec<LinkStep>)
        ensures
            link_steps_view(final(out)@) == link_steps_view(old(out)@) + link_plan(*l, *probe, timestamp as int),
    {
        let ghost start = link_steps_view(out@);
        let mut steps: Vec<LinkStep> = Vec::new();
        if probe.exists && !probe.is_symlink && l.backup_existing {
            steps.push(LinkStep::MoveAside {
                from: l.target.clone(),
                to: Self::backup_path_for(l.target.as_str(), timestamp),
            });
        }
        match parent_path(l.target.as_str()) {
            Some(d) => {
                steps.push(LinkStep::MakeDirAll { dir: d });
            },
            None => {},
        }
        if probe.is_symlink {
            steps.push(LinkStep::RemoveLink { path: l.target.clone() });
        }
        steps.push(LinkStep::Link { source: l.source.clone(), target: l.target.clone() });
        assert(link_steps_view(steps@) =~= link_plan(*l, *probe, timestamp as int));
        let ghost mid = out@;
        let ghost st = steps@;
        out.append(&mut steps);
        assert(link_steps_view(out@) =~= link_steps_view(mid) + link_steps_view(st));
    }
}

/// Installing a module's links one at a time: the steps of each link are
/// planned when its turn comes, from what is found at its target then (the
/// steps of earlier links may have changed it).
pub struct ModuleInstall {
    links: Vec<Symlink>,
    next: usize,
    probes: Ghost<Seq<LinkProbe>>,
    stamps: Ghost<Seq<i64>>,
}

impl ModuleInstall {
    /// The install is well formed: no more links planned than there are, and
    /// one probe and one stamp recorded for each link planned.
    pub closed spec fn wf(&self) -> bool {
        &&& self.next <= self.links.len()
        &&& self.probes@.len() == self.next
        &&& self.stamps@.len() == self.next
    }

    /// The links to install, in order.
    pub closed spec fn links(&self) -> Seq<Symlink> {
        self.links@
    }

    /// How many links were planned.
    pub closed spec fn done(&self) -> nat {
        self.next as nat
    }

    /// What was found at the target of each link planned.
    pub closed spec fn probes(&self) -> Seq<LinkProbe> {
        self.probes@
    }

    /// The stamp of a backup of each link planned.
    pub closed spec fn stamps(&self) -> Seq<i64> {
        self.stamps@
    }

    /// The steps planned so far, in order.
    pub open spec fn planned(&self) -> Seq<LinkStepView> {
        install_plan(self.links().take(self.done() as int), self.probes(), self.stamps())
    }

    /// An install of the links, none planned yet.
    pub fn new(links: Vec<Symlink>) -> (r: ModuleInstall)
        ensures
            r.wf(),
            r.links() == links@,
            r.done() == 0,
            r.probes().len() == 0,
            r.stamps().len() == 0,
    {
        ModuleInstall { links, next: 0, probes: Ghost(Seq::<LinkProbe>::empty()), stamps: Ghost(Seq::<i64>::empty()) }
    }

    /// The target of the next link to plan, if any is left.
    pub fn next_target(&self) -> (r: Option<String>)
        requires
            self.wf(),
        ensures
            match r {
                Some(t) => self.done() < self.links().len() && t@ == self.links()[self.done() as int].target@,
                None => self.done() == self.links().len(),
            },
    {
        if self.next < self.links.len() {
            Some(self.links[self.next].target.clone())
        } else {
            None
        }
    }

    /// Plans the next link, given what is found at its target now; a file
    /// in the way is stamped with the current time.
    pub fn next_steps(&mut self, probe: LinkProbe) -> (r: Vec<LinkStep>)
        requires
            old(self).wf(),
            old(self).done() < old(self).links().len(),
        ensures
            final(self).wf(),
            final(self).links() == old(self).links(),
            final(self).done() == old(self).done() + 1,
            final(self).probes() == old(self).probes().push(probe),
            final(self).stamps().len() == final(self).done(),
            final(self).stamps().drop_last() == old(self).stamps(),
            link_steps_view(r@) == link_plan(
                old(self).links()[old(self).done() as int],
                probe,
                final(self).stamps().last() as int,
            ),
            final(self).planned() == old(self).planned() + link_steps_view(r@),
    {
        let i = self.next;
        let l = &self.links[i];
        let stamp = if probe.exists && !probe.is_symlink && l.backup_existing {
            now_seconds()
        } else {
            0
        };
        let mut out: Vec<LinkStep> = Vec::new();
        ModuleManager::link_steps(l, &probe, stamp, &mut out);
        let ghost old_links = self.links@;
        let ghost old_probes = self.probes@;
        let ghost old_stamps = self.stamps@;
        proof {
            let ls = old_links.take(i + 1);
            assert(ls.drop_last() =~= old_links.take(i as int));
            assert(ls.last() == old_links[i as int]);
            assert(old_probes.push(probe).drop_last() =~= old_probes);
            assert(old_stamps.push(stamp).drop_last() =~= old_stamps);
            assert(link_steps_view(out@) =~= link_steps_view(Seq::<LinkStep>::empty()) + link_plan(old_links[i as int], probe, stamp as int));
        }
        self.probes = Ghost(self.probes@.push(probe));
        self.stamps = Ghost(self.stamps@.push(stamp));
        self.next = i + 1;
        out
    }
}

/// In `plan`, step `k` links `l`, and, when its target is a file in the way
/// to be backed up, an earlier step `j` moves that file aside with `timestamp`.
pub open spec fn links_after_backup(plan: Seq<LinkStepView>, l: Symlink, p: LinkProbe, timestamp: int, j: int, k: int) -> bool {
    &&& 0 <= j <= k < plan.len()
    &&& plan[k] == LinkStepView::Link { source: l.source@, target: l.target@ }
    &&& needs_backup(l, p) ==> j < k && plan[j] == LinkStepView::MoveAside {
        from: l.target@,
        to: module_backup_path(l.target@, timestamp),
    }
}

/// Installing a module makes every one of its links, and a file in the way
/// of a link that asks for backups is moved aside before the link is made.
pub proof fn law_install_links_every_symlink(ls: Seq<Symlink>, ps: Seq<LinkProbe>, timestamps: Seq<i64>, i: int)
    requires
        ps.len() == ls.len(),
        timestamps.len() == ls.len(),
        0 <= i < ls.len(),
    ensures
        exists|j: int, k: int| #[trigger] links_after_backup(install_plan(ls, ps, timestamps), ls[i], ps[i], timestamps[i] as int, j, k),
    decreases ls.len(),
{
    let n = ls.len() - 1;
    let pre = install_plan(ls.drop_last(), ps.drop_last(), timestamps.drop_last());
    let last = link_plan(ls.last(), ps.last(), timestamps.last() as int);
    let plan = install_plan(ls, ps, timestamps);
    assert(plan == pre + last);
    if i < n {
        law_install_links_every_symlink(ls.drop_last(), ps.drop_last(), timestamps.drop_last(), i);
        assert(ls.drop_last()[i] == ls[i] && ps.drop_last()[i] == ps[i] && timestamps.drop_last()[i] == timestamps[i]);
        let (j, k) = choose|j: int, k: int| #[trigger] links_after_backup(pre, ls[i], ps[i], timestamps[i] as int, j, k);
        assert(plan[j] == pre[j] && plan[k] == pre[k]);
        assert(links_after_backup(plan, ls[i], ps[i], timestamps[i] as int, j, k));
    } else {
        assert(ls.last() == ls[i] && ps.last() == ps[i] && timestamps.last() == timestamps[i]);
        let k = pre.len() + last.len() - 1;
        let j = pre.len() as int;
        assert(plan[k] == last[last.len() - 1]);
        assert(plan[j] == last[0]);
        assert(links_after_backup(plan, ls[i], ps[i], timestamps[i] as int, j, k));
    }
}

/// Once every link of a module install is planned, the plan makes each of
/// them, a file in the way of a link that asks for backups being moved
/// aside first.
pub proof fn law_finished_install_makes_every_link(m: ModuleInstall, i: int)
    requires
        m.wf(),
        m.done() == m.links().len(),
        0 <= i < m.links().len(),
    ensures
        exists|j: int, k: int| #[trigger] links_after_backup(m.planned(), m.links()[i], m.probes()[i], m.stamps()[i] as int, j, k),
{
    assert(m.links().take(m.done() as int) =~= m.links());
    assert(m.planned() == install_plan(m.links(), m.probes(), m.stamps()));
    law_install_links_every_symlink(m.links(), m.probes(), m.stamps(), i);
    let (j, k) = choose|j: int, k: int| #[trigger] links_after_backup(
        install_plan(m.links(), m.probes(), m.stamps()),
        m.links()[i],
        m.probes()[i],
        m.stamps()[i] as int,
        j,
        k,
    );
    assert(links_after_backup(m.planned(), m.links()[i], m.probes()[i], m.stamps()[i] as int, j, k));
}


/// The positions of the walked items that are files or directories.
pub open spec fn walked(items: Seq<WalkItem>) -> spec_fn(int) -> bool {
    |i: int| items[i].is_file || items[i].is_dir
}

/// The positions at which the probe found something that is not a symlink.
pub open spec fn occupied(probes: Seq<LinkProbe>) -> spec_fn(int) -> bool {
    |i: int| probes[i].exists && !probes[i].is_symlink
}

proof fn lemma_links_pick(home: Seq<char>, module_dir: Seq<char>, items: Seq<WalkItem>, keep: spec_fn(int) -> bool, m: int)
    requires
        0 <= m <= items.len(),
        forall|i: int| 0 <= i < items.len() ==> #[trigger] keep(i) == (items[i].is_file || items[i].is_dir),
    ensures
        exists|from: Seq<int>|
            #[trigger] picks(from, m, keep) && from.len() == links_for(home, module_dir, items.take(m)).len() && forall|k: int|
                0 <= k < from.len() ==> links_for(home, module_dir, items.take(m))[k] == (
                    items[from[k]].path@,
                    join(home, relative(items[from[k]].path@, module_dir).unwrap()),
                    true,
                ),
    decreases m,
{
    if m == 0 {
        lemma_picks_none(keep);
        let from = Seq::<int>::empty();
        assert(picks(from, m, keep));
    } else {
        lemma_links_pick(home, module_dir, items, keep, m - 1);
        let from = choose|from: Seq<int>|
            #[trigger] picks(from, m - 1, keep) && from.len() == links_for(home, module_dir, items.take(m - 1)).len() && forall|k: int|
                0 <= k < from.len() ==> links_for(home, module_dir, items.take(m - 1))[k] == (
                    items[from[k]].path@,
                    join(home, relative(items[from[k]].path@, module_dir).unwrap()),
                    true,
                );
        lemma_picks_next(from, m - 1, keep);
        let t = items.take(m);
        assert(t.drop_last() =~= items.take(m - 1));
        assert(t.last() == items[m - 1]);
        let prev = links_for(home, module_dir, items.take(m - 1));
        if keep(m - 1) {
            let f = from.push(m - 1);
            assert(links_for(home, module_dir, t) == prev.push((items[m - 1].path@, join(home, relative(items[m - 1].path@, module_dir).unwrap()), true)));
            assert(picks(f, m, keep));
            assert forall|k: int| 0 <= k < f.len() implies links_for(home, module_dir, t)[k] == (
                items[f[k]].path@,
                join(home, relative(items[f[k]].path@, module_dir).unwrap()),
                true,
            ) by {
                if k < from.len() {
                    assert(f[k] == from[k]);
                }
            }
        } else {
            assert(links_for(home, module_dir, t) == prev);
            assert(picks(from, m, keep));
        }
    }
}

/// Every file or directory that the walk of a module found gets one link,
/// in the order found, and nothing else does: the link goes from the item
/// to the home directory joined with the item's path relative to the module
/// directory, so that a nested file keeps its subdirectories.
pub proof fn law_links_keep_relative_paths(home: Seq<char>, module_dir: Seq<char>, items: Seq<WalkItem>)
    ensures
        exists|from: Seq<int>|
            #[trigger] picks(from, items.len() as int, walked(items)) && from.len()
                == links_for(home, module_dir, items).len() && forall|k: int|
                0 <= k < from.len() ==> links_for(home, module_dir, items)[k] == (
                    items[from[k]].path@,
                    join(home, relative(items[from[k]].path@, module_dir).unwrap()),
                    true,
                ),
{
    let keep = walked(items);
    lemma_links_pick(home, module_dir, items, keep, items.len() as int);
    assert(items.take(items.len() as int) =~= items);
}

proof fn lemma_blocked_pick(ls: Seq<Symlink>, probes: Seq<LinkProbe>, keep: spec_fn(int) -> bool, m: int)
    requires
        ls.len() == probes.len(),
        0 <= m <= ls.len(),
        forall|i: int| 0 <= i < probes.len() ==> #[trigger] keep(i) == (probes[i].exists && !probes[i].is_symlink),
    ensures
        exists|from: Seq<int>|
            #[trigger] picks(from, m, keep) && from.len() == blocked_targets(ls.take(m), probes.take(m)).len() && forall|k: int|
                0 <= k < from.len() ==> blocked_targets(ls.take(m), probes.take(m))[k] == ls[from[k]].target@,
    decreases m,
{
    if m == 0 {
        lemma_picks_none(keep);
        let from = Seq::<int>::empty();
        assert(picks(from, m, keep));
    } else {
        lemma_blocked_pick(ls, probes, keep, m - 1);
        let from = choose|from: Seq<int>|
            #[trigger] picks(from, m - 1, keep) && from.len() == blocked_targets(ls.take(m - 1), probes.take(m - 1)).len()
                && forall|k: int| 0 <= k < from.len() ==> blocked_targets(ls.take(m - 1), probes.take(m - 1))[k] == ls[from[k]].target@;
        lemma_picks_next(from, m - 1, keep);
        let tl = ls.take(m);
        let tp = probes.take(m);
        assert(tl.drop_last() =~= ls.take(m - 1));
        assert(tp.drop_last() =~= probes.take(m - 1));
        assert(tl.last() == ls[m - 1]);
        assert(tp.last() == probes[m - 1]);
        let prev = blocked_targets(ls.take(m - 1), probes.take(m - 1));
        if keep(m - 1) {
            let f = from.push(m - 1);
            assert(blocked_targets(tl, tp) == prev.push(ls[m - 1].target@));
            assert forall|k: int| 0 <= k < f.len() implies blocked_targets(tl, tp)[k] == ls[f[k]].target@ by {
                if k < from.len() {
                    assert(f[k] == from[k]);
                }
            }
        } else {
            assert(blocked_targets(tl, tp) == prev);
        }
    }
}

/// Every link whose target holds something that is not a symlink is
/// reported, in order, and no other: the reported targets are those of the
/// links at exactly the positions where the probe found such a thing.
pub proof fn law_conflicts_are_occupied_targets(ls: Seq<Symlink>, probes: Seq<LinkProbe>)
    requires
        ls.len() == probes.len(),
    ensures
        exists|from: Seq<int>|
            #[trigger] picks(from, ls.len() as int, occupied(probes)) && from.len()
                == blocked_targets(ls, probes).len() && forall|k: int|
                0 <= k < from.len() ==> blocked_targets(ls, probes)[k] == ls[from[k]].target@,
{
    let keep = occupied(probes);
    lemma_blocked_pick(ls, probes, keep, ls.len() as int);
    assert(ls.take(ls.len() as int) =~= ls);
    assert(probes.take(ls.len() as int) =~= probes);
}


/// The positions of the repository entries that are module directories.
pub open spec fn module_positions(es: Seq<DirEntryInfo>) -> spec_fn(int) -> bool {
    |i: int| has_prefix(es[i].name@, "Dreamcoder"@) && es[i].is_dir
}

proof fn lemma_module_names_pick(es: Seq<DirEntryInfo>, keep: spec_fn(int) -> bool, m: int)
    requires
        0 <= m <= es.len(),
        forall|i: int| 0 <= i < es.len() ==> #[trigger] keep(i) == (has_prefix(es[i].name@, "Dreamcoder"@) && es[i].is_dir),
    ensures
        exists|from: Seq<int>|
            #[trigger] picks(from, m, keep) && from.len() == module_names(es.take(m)).len() && forall|k: int|
                0 <= k < from.len() ==> module_names(es.take(m))[k] == es[from[k]].name@,
    decreases m,
{
    if m == 0 {
        lemma_picks_none(keep);
        let from = Seq::<int>::empty();
        assert(picks(from, m, keep));
    } else {
        lemma_module_names_pick(es, keep, m - 1);
        let from = choose|from: Seq<int>|
            #[trigger] picks(from, m - 1, keep) && from.len() == module_names(es.take(m - 1)).len() && forall|k: int|
                0 <= k < from.len() ==> module_names(es.take(m - 1))[k] == es[from[k]].name@;
        lemma_picks_next(from, m - 1, keep);
        let t = es.take(m);
        assert(t.drop_last() =~= es.take(m - 1));
        assert(t.last() == es[m - 1]);
        let prev = module_names(es.take(m - 1));
        if keep(m - 1) {
            let f = from.push(m - 1);
            assert(module_names(t) == prev.push(es[m - 1].name@));
            assert forall|k: int| 0 <= k < f.len() implies module_names(t)[k] == es[f[k]].name@ by {
                if k < from.len() {
                    assert(f[k] == from[k]);
                }
            }
        } else {
            assert(module_names(t) == prev);
        }
    }
}

/// The modules of a repository are exactly its directories whose names
/// start with `Dreamcoder`, each once, in the order listed.
pub proof fn law_modules_are_dreamcoder_dirs(es: Seq<DirEntryInfo>)
    ensures
        exists|from: Seq<int>|
            #[trigger] picks(from, es.len() as int, module_positions(es)) && from.len() == module_names(es).len() && forall|k: int|
                0 <= k < from.len() ==> module_names(es)[k] == es[from[k]].name@,
{
    lemma_module_names_pick(es, module_positions(es), es.len() as int);
    assert(es.take(es.len() as int) =~= es);
}

}
