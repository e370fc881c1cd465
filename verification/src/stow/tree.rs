//! The directory tree that packages are stowed into: which relative paths are
//! files, which packages provide each file, and where packages overlap.
use vstd::prelude::*;
use crate::paths::{components, comps_rec, emit, join, join_path, lead, path_components};

verus! {

/// A node of the tree: a directory, or a file with the packages that provide it.
pub struct TreeNode {
    pub name: String,
    pub path: String,
    pub is_dir: bool,
    pub children: Vec<TreeNode>,
    pub source_packages: Vec<String>,
}

/// What the tree records at a path: whether it is a directory, and the
/// packages that provide it.
pub type NodeInfo = (bool, Seq<Seq<char>>);

/// `node` has a child with the given name.
pub open spec fn has_child(node: TreeNode, name: Seq<char>) -> bool {
    exists|i: int| 0 <= i < node.children.len() && (#[trigger] node.children[i]).name@ == name
}

/// The node reached from `node` by following the names in `q`.
pub open spec fn lookup(node: TreeNode, q: Seq<Seq<char>>) -> Option<TreeNode>
    decreases q.len(),
{
    if q.len() == 0 {
        Some(node)
    } else if has_child(node, q[0]) {
        let i = choose|i: int| 0 <= i < node.children.len() && (#[trigger] node.children[i]).name@ == q[0];
        lookup(node.children[i], q.drop_first())
    } else {
        None
    }
}

/// What a node records.
pub open spec fn info(n: TreeNode) -> NodeInfo {
    (n.is_dir, n.source_packages.deep_view())
}

/// What the tree under `node` records at the relative path `q`.
pub open spec fn entry(node: TreeNode, q: Seq<Seq<char>>) -> Option<NodeInfo> {
    match lookup(node, q) {
        Some(n) => Some(info(n)),
        None => None,
    }
}

/// `ps` with `p` added at the end, unless it is there already.
pub open spec fn add_package(ps: Seq<Seq<char>>, p: Seq<char>) -> Seq<Seq<char>> {
    if ps.contains(p) {
        ps
    } else {
        ps.push(p)
    }
}

/// What is recorded at `q` once the file at `comps` is inserted for `pkg`,
/// given what was recorded there before: every missing proper prefix of
/// `comps` becomes an empty directory, and the file records `pkg` (a missing
/// file is created as a file).
pub open spec fn inserted_entry(
    before: Option<NodeInfo>,
    comps: Seq<Seq<char>>,
    pkg: Seq<char>,
    q: Seq<Seq<char>>,
) -> Option<NodeInfo> {
    if 0 < q.len() <= comps.len() && comps.take(q.len() as int) == q {
        if q.len() < comps.len() {
            match before {
                Some(x) => Some(x),
                None => Some((true, Seq::<Seq<char>>::empty())),
            }
        } else {
            match before {
                Some(x) => Some((x.0, add_package(x.1, pkg))),
                None => Some((false, seq![pkg])),
            }
        }
    } else {
        before
    }
}

/// The tree under `node` is well formed: children have distinct names and
/// paths joined from their parent's, no package is recorded twice.
pub open spec fn wf(node: TreeNode) -> bool
    decreases node,
{
    &&& forall|i: int, j: int|
        0 <= i < node.children.len() && 0 <= j < node.children.len() && i != j
            ==> (#[trigger] node.children[i]).name@ != (#[trigger] node.children[j]).name@
    &&& forall|i: int|
        0 <= i < node.children.len() ==> (#[trigger] node.children[i]).path@ == join(
            node.path@,
            node.children[i].name@,
        )
    &&& node.source_packages.deep_view().no_duplicates()
    &&& forall|i: int| 0 <= i < node.children.len() ==> wf(#[trigger] node.children[i])
}

/// What `f` gives for each file under `node`, in the order of the tree. A
/// file's own children are not visited.
pub open spec fn gather<X>(node: TreeNode, f: spec_fn(TreeNode) -> Seq<X>) -> Seq<X>
    decreases node,
{
    if !node.is_dir {
        f(node)
    } else {
        gather_list(node.children@, f)
    }
}

/// What `f` gives for each file under each of the nodes, in order.
pub open spec fn gather_list<X>(ns: Seq<TreeNode>, f: spec_fn(TreeNode) -> Seq<X>) -> Seq<X>
    decreases ns,
{
    if ns.len() == 0 {
        seq![]
    } else {
        gather_list(ns.subrange(0, ns.len() - 1), f) + gather(ns[ns.len() - 1], f)
    }
}

/// One `(path, package)` pair for each package that provides the file `n`.
pub open spec fn file_entries(n: TreeNode) -> Seq<(Seq<char>, Seq<char>)> {
    n.source_packages.deep_view().map_values(|p: Seq<char>| (n.path@, p))
}

/// The files under `node`, one `(path, package)` pair per package.
pub open spec fn files_of(node: TreeNode) -> Seq<(Seq<char>, Seq<char>)> {
    gather(node, |n: TreeNode| file_entries(n))
}

/// The files under each of the nodes.
pub open spec fn files_of_list(ns: Seq<TreeNode>) -> Seq<(Seq<char>, Seq<char>)> {
    gather_list(ns, |n: TreeNode| file_entries(n))
}

/// Appends the files under `node` to `files`.
fn collect_files(node: &TreeNode, files: &mut Vec<(String, String)>)
    ensures
        final(files).deep_view() == old(files).deep_view() + files_of(*node),
    decreases node,
{
    if !node.is_dir {
        let ghost start = files.deep_view();
        let mut k: usize = 0;
        while k < node.source_packages.len()
            invariant
                k <= node.source_packages.len(),
                !node.is_dir,
                files.deep_view() == start + files_of(*node).take(k as int),
            decreases node.source_packages.len() - k,
        {
            let ghost before = files.deep_view();
            files.push((node.path.clone(), node.source_packages[k].clone()));
            proof {
                assert(node.source_packages.deep_view()[k as int] == node.source_packages[k as int]@);
                assert(files_of(*node)[k as int] == (node.path@, node.source_packages[k as int]@));
                assert(files.deep_view() =~= before.push((node.path@, node.source_packages[k as int]@)));
                assert(files_of(*node).take(k + 1) =~= files_of(*node).take(k as int).push(
                    (node.path@, node.source_packages[k as int]@),
                ));
            }
            k = k + 1;
        }
        assert(files_of(*node).take(k as int) =~= files_of(*node));
    } else {
        let ghost start = files.deep_view();
        let mut k: usize = 0;
        while k < node.children.len()
            invariant
                k <= node.children.len(),
                node.is_dir,
                files.deep_view() == start + files_of_list(node.children@.subrange(0, k as int)),
            decreases node.children.len() - k,
        {
            collect_files(&node.children[k], files);
            proof {
                let next = node.children@.subrange(0, k + 1);
                assert(next.subrange(0, next.len() - 1) =~= node.children@.subrange(0, k as int));
                assert(next[next.len() - 1] == node.children@[k as int]);
            }
            k = k + 1;
        }
        assert(node.children@.subrange(0, k as int) =~= node.children@);
    }
}


/// A name that can stand between separators: not empty, with no `/` in it.
pub open spec fn plain_name(s: Seq<char>) -> bool {
    s.len() > 0 && !s.contains('/')
}

/// Every name of `q` is plain.
pub open spec fn plain_names(q: Seq<Seq<char>>) -> bool {
    forall|i: int| 0 <= i < q.len() ==> plain_name(#[trigger] q[i])
}

/// Every name under `node` is plain.
pub open spec fn plain_tree(node: TreeNode) -> bool
    decreases node,
{
    forall|i: int|
        0 <= i < node.children.len() ==> plain_name((#[trigger] node.children[i]).name@) && plain_tree(
            node.children[i],
        )
}

/// Children with distinct names.
pub open spec fn distinct_names(node: TreeNode) -> bool {
    forall|i: int, j: int|
        0 <= i < node.children.len() && 0 <= j < node.children.len() && i != j
            ==> (#[trigger] node.children[i]).name@ != (#[trigger] node.children[j]).name@
}

proof fn lemma_lookup_child(node: TreeNode, j: int, q: Seq<Seq<char>>)
    requires
        distinct_names(node),
        0 <= j < node.children.len(),
        q.len() > 0,
        node.children[j].name@ == q[0],
    ensures
        lookup(node, q) == lookup(node.children[j], q.drop_first()),
{
    assert(has_child(node, q[0]));
    let i = choose|i: int| 0 <= i < node.children.len() && (#[trigger] node.children[i]).name@ == q[0];
    assert(i == j);
}

proof fn lemma_lookup_missing(node: TreeNode, q: Seq<Seq<char>>)
    requires
        q.len() > 0,
        !has_child(node, q[0]),
    ensures
        lookup(node, q) is None,
{
}

proof fn lemma_leaf_entries(node: TreeNode, r: Seq<Seq<char>>)
    requires
        node.children.len() == 0,
        r.len() > 0,
    ensures
        entry(node, r) is None,
{
}

/// Shifting the inserted path by its first component.
proof fn lemma_inserted_shift(
    b: Option<NodeInfo>,
    cr: Seq<Seq<char>>,
    pkg: Seq<char>,
    q: Seq<Seq<char>>,
)
    requires
        cr.len() > 1,
        q.len() > 1,
        q[0] == cr[0],
    ensures
        inserted_entry(b, cr, pkg, q) == inserted_entry(b, cr.drop_first(), pkg, q.drop_first()),
{
    let r = q.drop_first();
    let cd = cr.drop_first();
    if r.len() <= cd.len() {
        if cd.take(r.len() as int) == r {
            assert(cr.take(q.len() as int) =~= seq![cr[0]] + cd.take(r.len() as int));
            assert(q =~= seq![q[0]] + r);
        } else {
            if cr.take(q.len() as int) == q {
                assert(cd.take(r.len() as int) =~= cr.take(q.len() as int).drop_first());
            }
        }
    }
}

/// A fresh node for `name` under `parent_path`.
fn fresh_node(parent_path: &String, name: &String, is_dir: bool, package: &String) -> (r: TreeNode)
    ensures
        r.name@ == name@,
        r.path@ == join(parent_path@, name@),
        r.is_dir == is_dir,
        r.children.len() == 0,
        r.source_packages.deep_view() == (if is_dir { Seq::<Seq<char>>::empty() } else { seq![package@] }),
        wf(r),
{
    let mut pkgs: Vec<String> = Vec::new();
    if !is_dir {
        pkgs.push(package.clone());
    }
    let r = TreeNode {
        name: name.clone(),
        path: join_path(parent_path.as_str(), name.as_str()),
        is_dir,
        children: Vec::new(),
        source_packages: pkgs,
    };
    assert(r.source_packages.deep_view() =~= (if is_dir { Seq::<Seq<char>>::empty() } else { seq![package@] }));
    r
}

/// Adds `package` to the packages of `node` unless it is there already.
fn add_package_to(node: &mut TreeNode, package: &String)
    requires
        wf(*old(node)),
    ensures
        final(node).name == old(node).name,
        final(node).path == old(node).path,
        final(node).is_dir == old(node).is_dir,
        final(node).children == old(node).children,
        final(node).source_packages.deep_view() == add_package(old(node).source_packages.deep_view(), package@),
        wf(*final(node)),
{
    let mut k: usize = 0;
    while k < node.source_packages.len()
        invariant
            k <= node.source_packages.len(),
            *node == *old(node),
            wf(*old(node)),
            forall|i: int| 0 <= i < k ==> node.source_packages.deep_view()[i] != package@,
        decreases node.source_packages.len() - k,
    {
        if node.source_packages[k] == *package {
            assert(node.source_packages.deep_view()[k as int] == package@);
            return;
        }
        k = k + 1;
    }
    let ghost before = node.source_packages.deep_view();
    assert(!before.contains(package@));
    node.source_packages.push(package.clone());
    assert(node.source_packages.deep_view() =~= before.push(package@));
}

/// Inserts the path `comps[index..]` under `node` for `package`.
fn insert_rec(node: &mut TreeNode, comps: &Vec<String>, index: usize, package: &String)
    requires
        wf(*old(node)),
        index < comps.len(),
    ensures
        final(node).name == old(node).name,
        final(node).path == old(node).path,
        final(node).is_dir == old(node).is_dir,
        final(node).source_packages == old(node).source_packages,
        wf(*final(node)),
        forall|q: Seq<Seq<char>>|
            q.len() > 0 ==> #[trigger] entry(*final(node), q) == inserted_entry(
                entry(*old(node), q),
                comps.deep_view().skip(index as int),
                package@,
                q,
            ),
        plain_tree(*old(node)) && plain_names(comps.deep_view().skip(index as int)) ==> plain_tree(*final(node)),
    decreases comps.len() - index,
{
    let ghost old_node = *node;
    let ghost cr = comps.deep_view().skip(index as int);
    let name = &comps[index];
    assert(cr[0] == name@);
    let is_last = index == comps.len() - 1;
    let mut j: usize = 0;
    while j < node.children.len() && node.children[j].name != *name
        invariant
            j <= node.children.len(),
            *node == old_node,
            forall|i: int| 0 <= i < j ==> (#[trigger] node.children[i]).name@ != name@,
        decreases node.children.len() - j,
    {
        j = j + 1;
    }
    let found = j < node.children.len();
    let ghost existed = found;
    if !found {
        let child = fresh_node(&node.path, name, !is_last, package);
        node.children.push(child);
    }
    let ghost mid = *node;
    assert(distinct_names(mid));
    assert(mid.children[j as int].name@ == name@);
    assert(wf(mid.children[j as int]));
    if is_last {
        add_package_to(&mut node.children[j], package);
    } else {
        insert_rec(&mut node.children[j], comps, index + 1, package);
    }
    proof {
        let new_node = *node;
        assert(forall|k: int| 0 <= k < new_node.children.len() && k != j ==> new_node.children[k] == mid.children[k]);
        assert(new_node.children[j as int].name == mid.children[j as int].name);
        assert(distinct_names(new_node));
        assert(wf(new_node));
        if plain_tree(old_node) && plain_names(cr) {
            assert(plain_name(cr[0]));
            if existed {
                assert(mid.children[j as int] == old_node.children[j as int]);
            }
            assert(plain_tree(mid.children[j as int]));
            if !is_last {
                assert(comps.deep_view().skip(index + 1) =~= cr.drop_first());
                assert(plain_names(cr.drop_first()));
            }
            assert(plain_tree(new_node.children[j as int]));
            assert(forall|k: int| 0 <= k < new_node.children.len() && k != j ==> new_node.children[k] == old_node.children[k]);
            assert(plain_tree(new_node));
        }
        assert forall|q: Seq<Seq<char>>| q.len() > 0 implies #[trigger] entry(new_node, q) == inserted_entry(
            entry(old_node, q),
            cr,
            package@,
            q,
        ) by {
            let goal = inserted_entry(entry(old_node, q), cr, package@, q);
            if q[0] == name@ {
                lemma_lookup_child(new_node, j as int, q);
                let r = q.drop_first();
                let cn = new_node.children[j as int];
                let cm = mid.children[j as int];
                if existed {
                    lemma_lookup_child(old_node, j as int, q);
                    assert(old_node.children[j as int] == cm);
                } else {
                    assert(!has_child(old_node, q[0]));
                    lemma_lookup_missing(old_node, q);
                }
                if r.len() == 0 {
                    assert(cr.take(1) =~= q);
                    assert(entry(new_node, q) == Some(info(cn)));
                    assert(cr.len() == comps.len() - index);
                    if existed {
                        assert(entry(old_node, q) == Some(info(cm)));
                    } else if is_last {
                        assert(seq![package@][0] == package@);
                        assert(seq![package@].contains(package@));
                        assert(info(cn) == (false, seq![package@]));
                    } else {
                        assert(info(cn) == (true, Seq::<Seq<char>>::empty()));
                    }
                    assert(entry(new_node, q) == goal);
                } else {
                    assert(entry(new_node, q) == entry(cn, r));
                    if existed {
                        assert(entry(old_node, q) == entry(cm, r));
                    } else {
                        lemma_leaf_entries(cm, r);
                    }
                    if is_last {
                        assert(cn.children == cm.children);
                        assert(entry(cn, r) == entry(cm, r));
                        assert(q.len() > cr.len());
                        assert(entry(new_node, q) == goal);
                    } else {
                        assert(comps.deep_view().skip(index + 1) =~= cr.drop_first());
                        lemma_inserted_shift(entry(old_node, q), cr, package@, q);
                        assert(entry(new_node, q) == goal);
                    }
                }
            } else {
                if q.len() <= cr.len() {
                    assert(cr.take(q.len() as int)[0] == cr[0]);
                }
                assert(goal == entry(old_node, q));
                if has_child(old_node, q[0]) {
                    let i = choose|i: int| 0 <= i < old_node.children.len() && (#[trigger] old_node.children[i]).name@ == q[0];
                    lemma_lookup_child(old_node, i, q);
                    assert(new_node.children[i] == old_node.children[i]);
                    lemma_lookup_child(new_node, i, q);
                } else {
                    if has_child(new_node, q[0]) {
                        let i = choose|i: int| 0 <= i < new_node.children.len() && (#[trigger] new_node.children[i]).name@ == q[0];
                        assert(old_node.children[i] == new_node.children[i]);
                    }
                    lemma_lookup_missing(new_node, q);
                }
                assert(entry(new_node, q) == goal);
            }
        }
    }
}


/// `base` joined with each name of `q` in turn.
pub open spec fn joined(base: Seq<char>, q: Seq<Seq<char>>) -> Seq<char>
    decreases q.len(),
{
    if q.len() == 0 {
        base
    } else {
        joined(join(base, q[0]), q.drop_first())
    }
}

/// Each name of `q` behind a separator.
pub open spec fn slashed(q: Seq<Seq<char>>) -> Seq<char>
    decreases q.len(),
{
    if q.len() == 0 {
        seq![]
    } else {
        seq!['/'] + q[0] + slashed(q.drop_first())
    }
}

/// What `base` contributes in front of a relative name joined to it.
pub open spec fn join_prefix(base: Seq<char>) -> Seq<char> {
    if base.len() == 0 || base.last() == '/' {
        base
    } else {
        base + seq!['/']
    }
}

proof fn lemma_plain_first(a: Seq<char>)
    requires
        plain_name(a),
    ensures
        a[0] != '/',
        a.last() != '/',
{
    if a[0] == '/' {
        assert(a.contains('/'));
    }
    if a.last() == '/' {
        assert(a[a.len() - 1] == '/');
        assert(a.contains('/'));
    }
}

/// Plain names joined to a base that does not end in a separator.
proof fn lemma_joined_slashed(c: Seq<char>, q: Seq<Seq<char>>)
    requires
        c.len() > 0,
        c.last() != '/',
        plain_names(q),
    ensures
        joined(c, q) == c + slashed(q),
    decreases q.len(),
{
    if q.len() == 0 {
        assert(c + slashed(q) =~= c);
    } else {
        let a = q[0];
        assert(plain_name(q[0]));
        lemma_plain_first(a);
        let c2 = c + seq!['/'] + a;
        assert(join(c, a) == c2);
        assert(c2.last() == a.last());
        assert(plain_names(q.drop_first())) by {
            assert forall|i: int| 0 <= i < q.drop_first().len() implies plain_name(#[trigger] q.drop_first()[i]) by {
                assert(q.drop_first()[i] == q[i + 1]);
            }
        }
        lemma_joined_slashed(c2, q.drop_first());
        assert(c + slashed(q) =~= c2 + slashed(q.drop_first()));
    }
}

/// Plain names joined to any base.
proof fn lemma_joined_plain(b: Seq<char>, q: Seq<Seq<char>>)
    requires
        q.len() > 0,
        plain_names(q),
    ensures
        seq!['/'] + joined(b, q).skip(join_prefix(b).len() as int) == slashed(q),
        joined(b, q).len() >= join_prefix(b).len(),
        joined(b, q).take(join_prefix(b).len() as int) == join_prefix(b),
{
    let a = q[0];
    assert(plain_name(q[0]));
    lemma_plain_first(a);
    let c = join(b, a);
    assert(c =~= join_prefix(b) + a);
    assert(c.last() == a.last());
    assert(plain_names(q.drop_first())) by {
        assert forall|i: int| 0 <= i < q.drop_first().len() implies plain_name(#[trigger] q.drop_first()[i]) by {
            assert(q.drop_first()[i] == q[i + 1]);
        }
    }
    lemma_joined_slashed(c, q.drop_first());
    let j = joined(b, q);
    assert(j == join_prefix(b) + a + slashed(q.drop_first()));
    assert(j.skip(join_prefix(b).len() as int) =~= a + slashed(q.drop_first()));
    assert(seq!['/'] + j.skip(join_prefix(b).len() as int) =~= slashed(q));
    assert(j.take(join_prefix(b).len() as int) =~= join_prefix(b));
}

/// Plain names are read back from their slashed form.
proof fn lemma_slashed_injective(q1: Seq<Seq<char>>, q2: Seq<Seq<char>>)
    requires
        plain_names(q1),
        plain_names(q2),
        slashed(q1) == slashed(q2),
    ensures
        q1 == q2,
    decreases q1.len(),
{
    if q1.len() == 0 || q2.len() == 0 {
        if q1.len() != 0 {
            assert(slashed(q1).len() > 0);
        }
        if q2.len() != 0 {
            assert(slashed(q2).len() > 0);
        }
        assert(q1 =~= q2);
    } else {
        let s = slashed(q1);
        let a1 = q1[0];
        let a2 = q2[0];
        let r1 = slashed(q1.drop_first());
        let r2 = slashed(q2.drop_first());
        assert(plain_name(q1[0]));
        assert(plain_name(q2[0]));
        assert(s == seq!['/'] + a1 + r1);
        assert(s == seq!['/'] + a2 + r2);
        if q1.drop_first().len() > 0 {
            assert(r1[0] == '/');
        }
        if q2.drop_first().len() > 0 {
            assert(r2[0] == '/');
        }
        if a1.len() < a2.len() {
            let i: int = 1 + a1.len() as int;
            assert(s[i] == a2[a1.len() as int]);
            assert(a2.contains('/')) by {
                if r1.len() > 0 {
                    assert(s[i] == r1[0]);
                } else {
                    assert(s.len() == i);
                }
            }
        }
        if a2.len() < a1.len() {
            let i: int = 1 + a2.len() as int;
            assert(s[i] == a1[a2.len() as int]);
            assert(a1.contains('/')) by {
                if r2.len() > 0 {
                    assert(s[i] == r2[0]);
                } else {
                    assert(s.len() == i);
                }
            }
        }
        assert(a1.len() == a2.len());
        assert(a1 =~= s.subrange(1, 1 + a1.len() as int));
        assert(a2 =~= s.subrange(1, 1 + a2.len() as int));
        assert(r1 =~= s.skip(1 + a1.len() as int));
        assert(r2 =~= s.skip(1 + a2.len() as int));
        assert(plain_names(q1.drop_first())) by {
            assert forall|i: int| 0 <= i < q1.drop_first().len() implies plain_name(#[trigger] q1.drop_first()[i]) by {
                assert(q1.drop_first()[i] == q1[i + 1]);
            }
        }
        assert(plain_names(q2.drop_first())) by {
            assert forall|i: int| 0 <= i < q2.drop_first().len() implies plain_name(#[trigger] q2.drop_first()[i]) by {
                assert(q2.drop_first()[i] == q2[i + 1]);
            }
        }
        lemma_slashed_injective(q1.drop_first(), q2.drop_first());
        assert(q1 =~= seq![a1] + q1.drop_first());
        assert(q2 =~= seq![a2] + q2.drop_first());
    }
}

/// Distinct plain relative paths joined to one base give distinct paths.
proof fn lemma_joined_injective(b: Seq<char>, q1: Seq<Seq<char>>, q2: Seq<Seq<char>>)
    requires
        q1.len() > 0,
        q2.len() > 0,
        plain_names(q1),
        plain_names(q2),
        joined(b, q1) == joined(b, q2),
    ensures
        q1 == q2,
{
    lemma_joined_plain(b, q1);
    lemma_joined_plain(b, q2);
    lemma_slashed_injective(q1, q2);
}

/// The node reached by `q` under `node` is a directory.
pub open spec fn is_dir_at(node: TreeNode, q: Seq<Seq<char>>) -> bool {
    match lookup(node, q) {
        Some(m) => m.is_dir,
        None => false,
    }
}

/// Every proper prefix of `q` reaches a directory under `node`.
pub open spec fn visible(node: TreeNode, q: Seq<Seq<char>>) -> bool {
    forall|k: int| 0 <= k < q.len() ==> #[trigger] is_dir_at(node, q.take(k))
}

/// `q` reaches, through directories only, a file under `node` for which `f` gives `x`.
pub open spec fn found_at<X>(node: TreeNode, q: Seq<Seq<char>>, f: spec_fn(TreeNode) -> Seq<X>, x: X) -> bool {
    &&& visible(node, q)
    &&& match lookup(node, q) {
        Some(n) => !n.is_dir && f(n).contains(x),
        None => false,
    }
}

proof fn lemma_concat_contains<X>(a: Seq<X>, b: Seq<X>, x: X)
    ensures
        (a + b).contains(x) <==> a.contains(x) || b.contains(x),
{
    if (a + b).contains(x) {
        let i = choose|i: int| 0 <= i < (a + b).len() && (a + b)[i] == x;
        if i < a.len() {
            assert(a[i] == x);
        } else {
            assert(b[i - a.len()] == x);
        }
    }
    if a.contains(x) {
        let i = choose|i: int| 0 <= i < a.len() && a[i] == x;
        assert((a + b)[i] == x);
    }
    if b.contains(x) {
        let i = choose|i: int| 0 <= i < b.len() && b[i] == x;
        assert((a + b)[i + a.len()] == x);
    }
}

proof fn lemma_gather_list_contains<X>(ns: Seq<TreeNode>, f: spec_fn(TreeNode) -> Seq<X>, x: X)
    ensures
        gather_list(ns, f).contains(x) <==> exists|j: int| 0 <= j < ns.len() && #[trigger] gather(ns[j], f).contains(x),
    decreases ns.len(),
{
    if ns.len() > 0 {
        let pre = ns.subrange(0, ns.len() - 1);
        lemma_gather_list_contains(pre, f, x);
        lemma_concat_contains(gather_list(pre, f), gather(ns[ns.len() - 1], f), x);
        if exists|j: int| 0 <= j < pre.len() && #[trigger] gather(pre[j], f).contains(x) {
            let j = choose|j: int| 0 <= j < pre.len() && #[trigger] gather(pre[j], f).contains(x);
            assert(pre[j] == ns[j]);
        }
        if exists|j: int| 0 <= j < ns.len() && #[trigger] gather(ns[j], f).contains(x) {
            let j = choose|j: int| 0 <= j < ns.len() && #[trigger] gather(ns[j], f).contains(x);
            if j < ns.len() - 1 {
                assert(pre[j] == ns[j]);
            }
        }
    }
}

/// What `gather` collects is what `f` gives at the files reached through directories.
proof fn lemma_gather_found<X>(node: TreeNode, f: spec_fn(TreeNode) -> Seq<X>, x: X)
    requires
        wf(node),
    ensures
        gather(node, f).contains(x) <==> exists|q: Seq<Seq<char>>| #[trigger] found_at(node, q, f, x),
    decreases node,
{
    if !node.is_dir {
        if gather(node, f).contains(x) {
            let q = Seq::<Seq<char>>::empty();
            assert(found_at(node, q, f, x));
        }
        if exists|q: Seq<Seq<char>>| #[trigger] found_at(node, q, f, x) {
            let q = choose|q: Seq<Seq<char>>| #[trigger] found_at(node, q, f, x);
            if q.len() > 0 {
                assert(is_dir_at(node, q.take(0)));
                assert(q.take(0) =~= Seq::<Seq<char>>::empty());
            }
        }
    } else {
        lemma_gather_list_contains(node.children@, f, x);
        assert(distinct_names(node));
        if gather(node, f).contains(x) {
            let j = choose|j: int| 0 <= j < node.children@.len() && #[trigger] gather(node.children@[j], f).contains(x);
            let c = node.children@[j];
            assert(wf(node.children[j]));
            lemma_gather_found(c, f, x);
            let r = choose|r: Seq<Seq<char>>| #[trigger] found_at(c, r, f, x);
            let q = seq![c.name@] + r;
            assert(q.drop_first() =~= r);
            lemma_lookup_child(node, j, q);
            assert forall|k: int| 0 <= k < q.len() implies #[trigger] is_dir_at(node, q.take(k)) by {
                if k == 0 {
                    assert(q.take(0) =~= Seq::<Seq<char>>::empty());
                } else {
                    let qk = q.take(k);
                    assert(qk.drop_first() =~= r.take(k - 1));
                    assert(qk[0] == c.name@);
                    lemma_lookup_child(node, j, qk);
                    assert(is_dir_at(c, r.take(k - 1)));
                }
            }
            assert(found_at(node, q, f, x));
        }
        if exists|q: Seq<Seq<char>>| #[trigger] found_at(node, q, f, x) {
            let q = choose|q: Seq<Seq<char>>| #[trigger] found_at(node, q, f, x);
            if q.len() == 0 {
                assert(lookup(node, q) == Some(node));
            }
            assert(has_child(node, q[0]));
            let j = choose|i: int| 0 <= i < node.children.len() && (#[trigger] node.children[i]).name@ == q[0];
            let c = node.children[j];
            let r = q.drop_first();
            lemma_lookup_child(node, j, q);
            assert forall|k: int| 0 <= k < r.len() implies #[trigger] is_dir_at(c, r.take(k)) by {
                let qk = q.take(k + 1);
                assert(is_dir_at(node, qk));
                assert(qk.drop_first() =~= r.take(k));
                assert(qk[0] == q[0]);
                lemma_lookup_child(node, j, qk);
            }
            assert(found_at(c, r, f, x));
            assert(wf(node.children[j]));
            lemma_gather_found(c, f, x);
            assert(gather(node.children@[j], f).contains(x));
        }
    }
}

/// The node reached by `q` has the path joined from `node`'s path and `q`.
proof fn lemma_lookup_path(node: TreeNode, q: Seq<Seq<char>>)
    requires
        wf(node),
    ensures
        lookup(node, q) matches Some(n) ==> n.path@ == joined(node.path@, q),
    decreases q.len(),
{
    if q.len() > 0 && has_child(node, q[0]) {
        let i = choose|i: int| 0 <= i < node.children.len() && (#[trigger] node.children[i]).name@ == q[0];
        assert(wf(node.children[i]));
        lemma_lookup_path(node.children[i], q.drop_first());
    }
}

/// The components read from a segment with no separator in it are plain.
proof fn lemma_comps_plain(s: Seq<char>, cur: Seq<char>)
    requires
        !cur.contains('/'),
    ensures
        plain_names(comps_rec(s, cur)),
    decreases s.len(),
{
    if s.len() == 0 {
        assert(plain_names(emit(cur)));
    } else if s[0] == '/' {
        lemma_comps_plain(s.drop_first(), seq![]);
        let a = emit(cur);
        let b = comps_rec(s.drop_first(), seq![]);
        assert(plain_names(a));
        assert forall|i: int| 0 <= i < (a + b).len() implies plain_name(#[trigger] (a + b)[i]) by {
            if i >= a.len() {
                assert((a + b)[i] == b[i - a.len()]);
            }
        }
    } else {
        let next = cur.push(s[0]);
        assert(!next.contains('/')) by {
            if next.contains('/') {
                let i = choose|i: int| 0 <= i < next.len() && next[i] == '/';
                if i < cur.len() {
                    assert(cur[i] == '/');
                }
            }
        }
        lemma_comps_plain(s.drop_first(), next);
    }
}

/// The components of a path that does not start at the root are plain.
proof fn lemma_components_plain(s: Seq<char>)
    requires
        !(s.len() > 0 && s[0] == '/'),
    ensures
        plain_names(components(s)),
{
    lemma_comps_plain(s, seq![]);
    let a = lead(s);
    let b = comps_rec(s, seq![]);
    assert(plain_names(a)) by {
        if a.len() > 0 {
            assert(a[0] == seq!['.']);
            assert(!seq!['.'].contains('/')) by {
                if seq!['.'].contains('/') {
                    let i = choose|i: int| 0 <= i < seq!['.'].len() && seq!['.'][i] == '/';
                    assert(seq!['.'][i] == '.');
                }
            }
        }
    }
    assert forall|i: int| 0 <= i < (a + b).len() implies plain_name(#[trigger] (a + b)[i]) by {
        if i >= a.len() {
            assert((a + b)[i] == b[i - a.len()]);
        } else {
            assert((a + b)[i] == a[i]);
        }
    }
}

/// Any two entries of `s` at distinct places are related by `d`.
spec fn pairwise<X>(s: Seq<X>, d: spec_fn(X, X) -> bool) -> bool {
    forall|i: int, j: int| 0 <= i < s.len() && 0 <= j < s.len() && i != j ==> d(#[trigger] s[i], #[trigger] s[j])
}

/// The names on the way to a node of a plain tree are plain.
proof fn lemma_lookup_plain(node: TreeNode, q: Seq<Seq<char>>)
    requires
        plain_tree(node),
        lookup(node, q) is Some,
    ensures
        plain_names(q),
    decreases q.len(),
{
    if q.len() > 0 {
        let i = choose|i: int| 0 <= i < node.children.len() && (#[trigger] node.children[i]).name@ == q[0];
        assert(plain_name(node.children[i].name@));
        lemma_lookup_plain(node.children[i], q.drop_first());
        assert forall|k: int| 0 <= k < q.len() implies plain_name(#[trigger] q[k]) by {
            if k > 0 {
                assert(q[k] == q.drop_first()[k - 1]);
            }
        }
    }
}

/// What `gather` collects under a plain tree sits at a path joined from the
/// tree's own path and plain names.
proof fn lemma_key_of<X>(n: TreeNode, f: spec_fn(TreeNode) -> Seq<X>, k: spec_fn(X) -> Seq<char>, x: X)
    requires
        wf(n),
        plain_tree(n),
        gather(n, f).contains(x),
        forall|m: TreeNode, y: X| #[trigger] f(m).contains(y) ==> k(y) == m.path@,
    ensures
        exists|r: Seq<Seq<char>>| plain_names(r) && k(x) == #[trigger] joined(n.path@, r),
{
    lemma_gather_found(n, f, x);
    let r = choose|r: Seq<Seq<char>>| #[trigger] found_at(n, r, f, x);
    let m = lookup(n, r)->Some_0;
    assert(f(m).contains(x));
    lemma_lookup_path(n, r);
    lemma_lookup_plain(n, r);
    assert(plain_names(r) && k(x) == joined(n.path@, r));
}

/// Entries gathered under two siblings of a plain tree sit at distinct paths.
proof fn lemma_siblings_apart<X>(
    ns: Seq<TreeNode>,
    base: Seq<char>,
    f: spec_fn(TreeNode) -> Seq<X>,
    k: spec_fn(X) -> Seq<char>,
    l: int,
    m: int,
    x: X,
    y: X,
)
    requires
        0 <= l < ns.len(),
        0 <= m < ns.len(),
        l != m,
        ns[l].name@ != ns[m].name@,
        wf(ns[l]),
        wf(ns[m]),
        plain_tree(ns[l]),
        plain_tree(ns[m]),
        plain_name(ns[l].name@),
        plain_name(ns[m].name@),
        ns[l].path@ == join(base, ns[l].name@),
        ns[m].path@ == join(base, ns[m].name@),
        gather(ns[l], f).contains(x),
        gather(ns[m], f).contains(y),
        forall|n: TreeNode, z: X| #[trigger] f(n).contains(z) ==> k(z) == n.path@,
    ensures
        k(x) != k(y),
{
    lemma_key_of(ns[l], f, k, x);
    lemma_key_of(ns[m], f, k, y);
    let r1 = choose|r: Seq<Seq<char>>| plain_names(r) && k(x) == #[trigger] joined(ns[l].path@, r);
    let r2 = choose|r: Seq<Seq<char>>| plain_names(r) && k(y) == #[trigger] joined(ns[m].path@, r);
    let q1 = seq![ns[l].name@] + r1;
    let q2 = seq![ns[m].name@] + r2;
    assert(q1.drop_first() =~= r1);
    assert(q2.drop_first() =~= r2);
    assert(joined(base, q1) == joined(ns[l].path@, r1));
    assert(joined(base, q2) == joined(ns[m].path@, r2));
    assert(plain_names(q1)) by {
        assert forall|i: int| 0 <= i < q1.len() implies plain_name(#[trigger] q1[i]) by {
            if i > 0 {
                assert(q1[i] == r1[i - 1]);
            }
        }
    }
    assert(plain_names(q2)) by {
        assert forall|i: int| 0 <= i < q2.len() implies plain_name(#[trigger] q2[i]) by {
            if i > 0 {
                assert(q2[i] == r2[i - 1]);
            }
        }
    }
    if k(x) == k(y) {
        lemma_joined_injective(base, q1, q2);
        assert(q1[0] == q2[0]);
    }
}

/// What `gather` collects under siblings of a plain tree is pairwise related
/// by `d` where each sibling's own part is, given that `d` holds of entries at
/// distinct paths.
proof fn lemma_gather_list_pairwise<X>(
    ns: Seq<TreeNode>,
    base: Seq<char>,
    f: spec_fn(TreeNode) -> Seq<X>,
    k: spec_fn(X) -> Seq<char>,
    d: spec_fn(X, X) -> bool,
)
    requires
        forall|i: int, j: int|
            0 <= i < ns.len() && 0 <= j < ns.len() && i != j ==> (#[trigger] ns[i]).name@ != (#[trigger] ns[j]).name@,
        forall|i: int|
            0 <= i < ns.len() ==> {
                &&& wf(#[trigger] ns[i])
                &&& plain_tree(ns[i])
                &&& plain_name(ns[i].name@)
                &&& ns[i].path@ == join(base, ns[i].name@)
                &&& pairwise(gather(ns[i], f), d)
            },
        forall|n: TreeNode, z: X| #[trigger] f(n).contains(z) ==> k(z) == n.path@,
        forall|x: X, y: X| k(x) != k(y) ==> #[trigger] d(x, y),
    ensures
        pairwise(gather_list(ns, f), d),
    decreases ns.len(),
{
    if ns.len() > 0 {
        let last = ns.len() - 1;
        let pre = ns.subrange(0, last);
        lemma_gather_list_pairwise(pre, base, f, k, d);
        let a = gather_list(pre, f);
        let b = gather(ns[last], f);
        let s = a + b;
        assert(gather_list(ns, f) == s);
        assert forall|i: int, j: int| 0 <= i < s.len() && 0 <= j < s.len() && i != j implies d(
            #[trigger] s[i],
            #[trigger] s[j],
        ) by {
            if i < a.len() && j < a.len() {
                assert(d(a[i], a[j]));
            } else if i >= a.len() && j >= a.len() {
                assert(pairwise(gather(ns[last], f), d));
                assert(d(b[i - a.len()], b[j - a.len()]));
            } else {
                let (ia, jb) = if i < a.len() { (i, j) } else { (j, i) };
                let x = s[ia];
                let y = s[jb];
                assert(a[ia] == x);
                assert(a.contains(x));
                assert(b[jb - a.len()] == y);
                assert(b.contains(y));
                lemma_gather_list_contains(pre, f, x);
                let l = choose|l: int| 0 <= l < pre.len() && #[trigger] gather(pre[l], f).contains(x);
                assert(pre[l] == ns[l]);
                lemma_siblings_apart(ns, base, f, k, l, last, x, y);
                assert(d(x, y));
                assert(d(y, x));
            }
        }
    }
}

/// What `gather` collects under a plain tree is pairwise related by `d` where
/// each file's own part is, given that `d` holds of entries at distinct paths.
proof fn lemma_gather_pairwise<X>(
    node: TreeNode,
    f: spec_fn(TreeNode) -> Seq<X>,
    k: spec_fn(X) -> Seq<char>,
    d: spec_fn(X, X) -> bool,
)
    requires
        wf(node),
        plain_tree(node),
        forall|n: TreeNode| wf(n) ==> pairwise(#[trigger] f(n), d),
        forall|n: TreeNode, z: X| #[trigger] f(n).contains(z) ==> k(z) == n.path@,
        forall|x: X, y: X| k(x) != k(y) ==> #[trigger] d(x, y),
    ensures
        pairwise(gather(node, f), d),
    decreases node,
{
    if node.is_dir {
        let ns = node.children@;
        assert forall|i: int| 0 <= i < ns.len() implies pairwise(gather(#[trigger] ns[i], f), d) by {
            assert(wf(node.children[i]));
            assert(plain_tree(node.children[i]));
            lemma_gather_pairwise(node.children[i], f, k, d);
        }
        assert forall|i: int| 0 <= i < ns.len() implies {
            &&& wf(#[trigger] ns[i])
            &&& plain_tree(ns[i])
            &&& plain_name(ns[i].name@)
            &&& ns[i].path@ == join(node.path@, ns[i].name@)
            &&& pairwise(gather(ns[i], f), d)
        } by {
            assert(ns[i] == node.children[i]);
            assert(wf(node.children[i]));
        }
        assert(distinct_names(node));
        lemma_gather_list_pairwise(ns, node.path@, f, k, d);
    }
}

/// What is recorded is a directory.
pub open spec fn is_dir_entry(e: Option<NodeInfo>) -> bool {
    match e {
        Some(x) => x.0,
        None => false,
    }
}

/// A path provided by more than one package.
pub struct Overlap {
    pub path: String,
    pub packages: Vec<String>,
}

impl View for Overlap {
    type V = (Seq<char>, Seq<Seq<char>>);

    open spec fn view(&self) -> (Seq<char>, Seq<Seq<char>>) {
        (self.path@, self.packages.deep_view())
    }
}

/// The overlap at the file `n`, if more than one package provides it.
pub open spec fn overlap_entry(n: TreeNode) -> Seq<(Seq<char>, Seq<Seq<char>>)> {
    if n.source_packages.len() > 1 {
        seq![(n.path@, n.source_packages.deep_view())]
    } else {
        seq![]
    }
}

/// The files under `node` that more than one package provides, with those
/// packages, in the order of the tree.
pub open spec fn overlaps_of(node: TreeNode) -> Seq<(Seq<char>, Seq<Seq<char>>)> {
    gather(node, |n: TreeNode| overlap_entry(n))
}

/// The overlaps under each of the nodes.
pub open spec fn overlaps_of_list(ns: Seq<TreeNode>) -> Seq<(Seq<char>, Seq<Seq<char>>)> {
    gather_list(ns, |n: TreeNode| overlap_entry(n))
}

/// A copy of a list of strings.
fn clone_strings(v: &Vec<String>) -> (r: Vec<String>)
    ensures
        r.deep_view() == v.deep_view(),
{
    let r = v.clone();
    assert(r.deep_view() =~= v.deep_view());
    r
}

/// Appends the overlaps under `node` to `out`.
fn collect_overlaps(node: &TreeNode, out: &mut Vec<Overlap>)
    ensures
        final(out)@.map_values(|o: Overlap| o@) == old(out)@.map_values(|o: Overlap| o@) + overlaps_of(*node),
    decreases node,
{
    let ghost start = out@.map_values(|o: Overlap| o@);
    if !node.is_dir {
        if node.source_packages.len() > 1 {
            let o = Overlap { path: node.path.clone(), packages: clone_strings(&node.source_packages) };
            out.push(o);
            assert(out@.map_values(|o: Overlap| o@) =~= start + overlaps_of(*node));
        } else {
            assert(out@.map_values(|o: Overlap| o@) =~= start + overlaps_of(*node));
        }
    } else {
        let mut k: usize = 0;
        while k < node.children.len()
            invariant
                k <= node.children.len(),
                node.is_dir,
                out@.map_values(|o: Overlap| o@) == start + overlaps_of_list(node.children@.subrange(0, k as int)),
            decreases node.children.len() - k,
        {
            let ghost before = out@.map_values(|o: Overlap| o@);
            collect_overlaps(&node.children[k], out);
            proof {
                let next = node.children@.subrange(0, k + 1);
                assert(next.subrange(0, next.len() - 1) =~= node.children@.subrange(0, k as int));
                assert(next[next.len() - 1] == node.children@[k as int]);
                assert(out@.map_values(|o: Overlap| o@) =~= start + overlaps_of_list(next));
            }
            k = k + 1;
        }
        assert(node.children@.subrange(0, k as int) =~= node.children@);
    }
}

/// The tree of files that packages stow into a target directory.
pub struct StowTree {
    root: TreeNode,
}

impl StowTree {
    #[verifier::type_invariant]
    spec fn inv(self) -> bool {
        &&& wf(self.root)
        &&& self.root.is_dir
    }

    /// The target directory the tree is rooted at.
    pub closed spec fn root_path(&self) -> Seq<char> {
        self.root.path@
    }

    /// What the tree records at the path `q`, relative to the root.
    pub closed spec fn entry_at(&self, q: Seq<Seq<char>>) -> Option<NodeInfo> {
        entry(self.root, q)
    }

    /// The files of the tree, one `(path, package)` pair per package.
    pub closed spec fn files(&self) -> Seq<(Seq<char>, Seq<char>)> {
        files_of(self.root)
    }

    /// The files of the tree that more than one package provides.
    pub closed spec fn overlaps(&self) -> Seq<(Seq<char>, Seq<Seq<char>>)> {
        overlaps_of(self.root)
    }

    /// The tree is well formed: its root is a directory, sibling names are
    /// distinct, paths are joined from the parent's, no package is recorded twice.
    pub closed spec fn valid(&self) -> bool {
        &&& wf(self.root)
        &&& self.root.is_dir
    }

    /// Every name in the tree is plain: not empty and free of separators.
    pub closed spec fn names_plain(&self) -> bool {
        plain_tree(self.root)
    }

    /// Every proper prefix of `q` is a directory of the tree.
    pub open spec fn through_dirs(&self, q: Seq<Seq<char>>) -> bool {
        forall|k: int| 0 <= k < q.len() ==> #[trigger] is_dir_entry(self.entry_at(q.take(k)))
    }

    /// `package` provides the file at `path`, which `q` reaches through directories.
    pub open spec fn provides(&self, q: Seq<Seq<char>>, path: Seq<char>, package: Seq<char>) -> bool {
        &&& self.through_dirs(q)
        &&& self.entry_at(q) matches Some(e) && !e.0 && e.1.contains(package)
        &&& path == joined(self.root_path(), q)
    }

    /// More than one package, `packages`, provides the file at `path`, which
    /// `q` reaches through directories.
    pub open spec fn overlap_at(&self, q: Seq<Seq<char>>, path: Seq<char>, packages: Seq<Seq<char>>) -> bool {
        &&& self.through_dirs(q)
        &&& self.entry_at(q) == Some((false, packages))
        &&& packages.len() > 1
        &&& path == joined(self.root_path(), q)
    }

    /// An empty tree rooted at `root_path`.
    pub fn new(root_path: String) -> (r: Self)
        ensures
            r.valid(),
            r.root_path() == root_path@,
            forall|q: Seq<Seq<char>>| q.len() > 0 ==> #[trigger] r.entry_at(q) is None,
            r.files() == Seq::<(Seq<char>, Seq<char>)>::empty(),
            r.overlaps() == Seq::<(Seq<char>, Seq<Seq<char>>)>::empty(),
            r.names_plain(),
    {
        let root = TreeNode {
            name: String::new(),
            path: root_path,
            is_dir: true,
            children: Vec::new(),
            source_packages: Vec::new(),
        };
        proof {
            assert(root.source_packages.deep_view() =~= Seq::<Seq<char>>::empty());
            assert(root.children@ =~= Seq::<TreeNode>::empty());
        }
        StowTree { root }
    }

    /// Records that `package` provides the file at `relative_path`: every
    /// missing directory on the way is created, and the file records the
    /// package once.
    pub fn insert(&mut self, relative_path: &str, package: &str)
        ensures
            final(self).valid(),
            final(self).root_path() == old(self).root_path(),
            forall|q: Seq<Seq<char>>|
                q.len() > 0 ==> #[trigger] final(self).entry_at(q) == inserted_entry(
                    old(self).entry_at(q),
                    components(relative_path@),
                    package@,
                    q,
                ),
            old(self).names_plain() && !(relative_path@.len() > 0 && relative_path@[0] == '/')
                ==> final(self).names_plain(),
    {
        proof {
            use_type_invariant(&*self);
            if !(relative_path@.len() > 0 && relative_path@[0] == '/') {
                lemma_components_plain(relative_path@);
            }
        }
        let comps = path_components(relative_path);
        if comps.len() == 0 {
            assert forall|q: Seq<Seq<char>>| q.len() > 0 implies #[trigger] self.entry_at(q) == inserted_entry(
                self.entry_at(q),
                components(relative_path@),
                package@,
                q,
            ) by {}
            return;
        }
        let pkg = package.to_string();
        let mut root = TreeNode {
            name: String::new(),
            path: String::new(),
            is_dir: true,
            children: Vec::new(),
            source_packages: Vec::new(),
        };
        proof {
            assert(root.source_packages.deep_view() =~= Seq::<Seq<char>>::empty());
        }
        std::mem::swap(&mut root, &mut self.root);
        insert_rec(&mut root, &comps, 0, &pkg);
        assert(comps.deep_view().skip(0) =~= comps.deep_view());
        self.root = root;
    }

    /// The files of the tree.
    pub fn get_files(&self) -> (r: Vec<(String, String)>)
        ensures
            r.deep_view() == self.files(),
    {
        let mut files: Vec<(String, String)> = Vec::new();
        collect_files(&self.root, &mut files);
        assert(files.deep_view() =~= self.files());
        files
    }

    /// The files that more than one package provides.
    pub fn detect_overlaps(&self) -> (r: Vec<Overlap>)
        ensures
            r@.map_values(|o: Overlap| o@) == self.overlaps(),
    {
        let mut out: Vec<Overlap> = Vec::new();
        collect_overlaps(&self.root, &mut out);
        assert(out@.map_values(|o: Overlap| o@) =~= self.overlaps());
        out
    }
}


/// Relates what a tree reports as files to what it records: the file
/// reached by `q` is a file of the tree.
proof fn lemma_found_provides(t: StowTree, q: Seq<Seq<char>>)
    requires
        t.valid(),
    ensures
        visible(t.root, q) <==> t.through_dirs(q),
        lookup(t.root, q) matches Some(n) ==> n.path@ == joined(t.root_path(), q),
{
    lemma_lookup_path(t.root, q);
    if visible(t.root, q) {
        assert forall|k: int| 0 <= k < q.len() implies #[trigger] is_dir_entry(t.entry_at(q.take(k))) by {
            assert(is_dir_at(t.root, q.take(k)));
        }
    }
    if t.through_dirs(q) {
        assert forall|k: int| 0 <= k < q.len() implies #[trigger] is_dir_at(t.root, q.take(k)) by {
            assert(is_dir_entry(t.entry_at(q.take(k))));
        }
    }
}

/// `get_files` reports `(path, package)` exactly when `package` provides the
/// file at `path`, reached from the root through directories.
pub proof fn law_files_are_provided(t: StowTree, path: Seq<char>, package: Seq<char>)
    requires
        t.valid(),
    ensures
        t.files().contains((path, package)) <==> exists|q: Seq<Seq<char>>| #[trigger] t.provides(q, path, package),
{
    let f = |n: TreeNode| file_entries(n);
    let x = (path, package);
    lemma_gather_found(t.root, f, x);
    assert(t.files() == gather(t.root, f));
    if t.files().contains(x) {
        let q = choose|q: Seq<Seq<char>>| #[trigger] found_at(t.root, q, f, x);
        lemma_found_provides(t, q);
        let n = lookup(t.root, q)->Some_0;
        let fe = file_entries(n);
        let i = choose|i: int| 0 <= i < fe.len() && fe[i] == x;
        assert(n.source_packages.deep_view()[i] == package);
        assert(t.provides(q, path, package));
    }
    if exists|q: Seq<Seq<char>>| #[trigger] t.provides(q, path, package) {
        let q = choose|q: Seq<Seq<char>>| #[trigger] t.provides(q, path, package);
        lemma_found_provides(t, q);
        let n = lookup(t.root, q)->Some_0;
        let i = choose|i: int| 0 <= i < n.source_packages.deep_view().len() && n.source_packages.deep_view()[i] == package;
        assert(file_entries(n)[i] == x);
        assert(found_at(t.root, q, f, x));
    }
}

/// `detect_overlaps` reports `(path, packages)` exactly when more than one
/// package, `packages`, provides the file at `path`, reached from the root
/// through directories.
pub proof fn law_overlaps_are_shared_files(t: StowTree, path: Seq<char>, packages: Seq<Seq<char>>)
    requires
        t.valid(),
    ensures
        t.overlaps().contains((path, packages)) <==> exists|q: Seq<Seq<char>>| #[trigger] t.overlap_at(q, path, packages),
{
    let f = |n: TreeNode| overlap_entry(n);
    let x = (path, packages);
    lemma_gather_found(t.root, f, x);
    assert(t.overlaps() == gather(t.root, f));
    if t.overlaps().contains(x) {
        let q = choose|q: Seq<Seq<char>>| #[trigger] found_at(t.root, q, f, x);
        lemma_found_provides(t, q);
        let n = lookup(t.root, q)->Some_0;
        assert(f(n)[0] == x);
        assert(t.overlap_at(q, path, packages));
    }
    if exists|q: Seq<Seq<char>>| #[trigger] t.overlap_at(q, path, packages) {
        let q = choose|q: Seq<Seq<char>>| #[trigger] t.overlap_at(q, path, packages);
        lemma_found_provides(t, q);
        let n = lookup(t.root, q)->Some_0;
        assert(f(n)[0] == x);
        assert(found_at(t.root, q, f, x));
    }
}


/// Once `package` is inserted at `relative`, `get_files` reports it at that
/// path, unless a file of the tree lay on the way or a directory stood at
/// the path itself.
pub proof fn law_inserted_file_is_reported(
    before: StowTree,
    after: StowTree,
    relative: Seq<char>,
    package: Seq<char>,
)
    requires
        before.valid(),
        after.valid(),
        after.root_path() == before.root_path(),
        forall|q: Seq<Seq<char>>|
            q.len() > 0 ==> #[trigger] after.entry_at(q) == inserted_entry(
                before.entry_at(q),
                components(relative),
                package,
                q,
            ),
        components(relative).len() > 0,
        forall|k: int|
            0 < k < components(relative).len() ==> #[trigger] before.entry_at(components(relative).take(k)) is None
                || is_dir_entry(before.entry_at(components(relative).take(k))),
        !is_dir_entry(before.entry_at(components(relative))),
    ensures
        after.files().contains((joined(before.root_path(), components(relative)), package)),
{
    let c = components(relative);
    let path = joined(before.root_path(), c);
    assert forall|k: int| 0 <= k < c.len() implies #[trigger] is_dir_entry(after.entry_at(c.take(k))) by {
        if k == 0 {
            assert(c.take(0) =~= Seq::<Seq<char>>::empty());
            assert(lookup(after.root, c.take(0)) == Some(after.root));
        } else {
            assert(c.take(k).len() == k);
            assert(c.take(c.take(k).len() as int) == c.take(k));
            assert(after.entry_at(c.take(k)) == inserted_entry(before.entry_at(c.take(k)), c, package, c.take(k)));
        }
    }
    assert(c.take(c.len() as int) =~= c);
    assert(after.entry_at(c) == inserted_entry(before.entry_at(c), c, package, c));
    match before.entry_at(c) {
        Some(x) => {
            if !x.1.contains(package) {
                assert(add_package(x.1, package)[x.1.len() as int] == package);
            }
        },
        None => {
            assert(seq![package][0] == package);
        },
    }
    assert(after.provides(c, path, package));
    law_files_are_provided(after, path, package);
}


/// In a tree whose names are all plain, as inserting paths that do not start
/// at the root keeps them, `get_files` lists each `(path, package)` pair once
/// and `detect_overlaps` reports each path once.
pub proof fn law_reports_are_unique(t: StowTree)
    requires
        t.valid(),
        t.names_plain(),
    ensures
        t.files().no_duplicates(),
        forall|i: int, j: int|
            0 <= i < t.overlaps().len() && 0 <= j < t.overlaps().len() && i != j
                ==> (#[trigger] t.overlaps()[i]).0 != (#[trigger] t.overlaps()[j]).0,
{
    let k = |x: (Seq<char>, Seq<char>)| x.0;
    let f = |n: TreeNode| file_entries(n);
    let d = |x: (Seq<char>, Seq<char>), y: (Seq<char>, Seq<char>)| x != y;
    assert forall|n: TreeNode| wf(n) implies pairwise(#[trigger] f(n), d) by {
        let ps = n.source_packages.deep_view();
        assert forall|i: int, j: int| 0 <= i < f(n).len() && 0 <= j < f(n).len() && i != j implies d(
            #[trigger] f(n)[i],
            #[trigger] f(n)[j],
        ) by {
            assert(f(n)[i].1 == ps[i]);
            assert(f(n)[j].1 == ps[j]);
        }
    }
    assert forall|n: TreeNode, z: (Seq<char>, Seq<char>)| #[trigger] f(n).contains(z) implies k(z) == n.path@ by {
        let i = choose|i: int| 0 <= i < f(n).len() && #[trigger] f(n)[i] == z;
    }
    assert forall|x: (Seq<char>, Seq<char>), y: (Seq<char>, Seq<char>)| k(x) != k(y) implies #[trigger] d(x, y) by {}
    lemma_gather_pairwise(t.root, f, k, d);
    assert(t.files() == gather(t.root, f));
    assert forall|i: int, j: int| 0 <= i < t.files().len() && 0 <= j < t.files().len() && i != j implies t.files()[i]
        != t.files()[j] by {
        assert(d(gather(t.root, f)[i], gather(t.root, f)[j]));
    }

    let ko = |x: (Seq<char>, Seq<Seq<char>>)| x.0;
    let fo = |n: TreeNode| overlap_entry(n);
    let dd = |x: (Seq<char>, Seq<Seq<char>>), y: (Seq<char>, Seq<Seq<char>>)| x.0 != y.0;
    assert forall|n: TreeNode| wf(n) implies pairwise(#[trigger] fo(n), dd) by {}
    assert forall|n: TreeNode, z: (Seq<char>, Seq<Seq<char>>)| #[trigger] fo(n).contains(z) implies ko(z) == n.path@ by {
        let i = choose|i: int| 0 <= i < fo(n).len() && #[trigger] fo(n)[i] == z;
    }
    assert forall|x: (Seq<char>, Seq<Seq<char>>), y: (Seq<char>, Seq<Seq<char>>)| ko(x) != ko(y) implies #[trigger] dd(x, y) by {}
    lemma_gather_pairwise(t.root, fo, ko, dd);
    assert(t.overlaps() == gather(t.root, fo));
    assert forall|i: int, j: int|
        0 <= i < t.overlaps().len() && 0 <= j < t.overlaps().len() && i != j implies (#[trigger] t.overlaps()[i]).0
        != (#[trigger] t.overlaps()[j]).0 by {
        assert(dd(gather(t.root, fo)[i], gather(t.root, fo)[j]));
    }
}


/// Inserting a file keeps every file the tree reported before: each
/// `(path, package)` pair that `get_files` gave is still given.
pub proof fn law_insert_keeps_files(
    before: StowTree,
    after: StowTree,
    relative: Seq<char>,
    package: Seq<char>,
    path: Seq<char>,
    provider: Seq<char>,
)
    requires
        before.valid(),
        after.valid(),
        after.root_path() == before.root_path(),
        forall|q: Seq<Seq<char>>|
            q.len() > 0 ==> #[trigger] after.entry_at(q) == inserted_entry(
                before.entry_at(q),
                components(relative),
                package,
                q,
            ),
        before.files().contains((path, provider)),
    ensures
        after.files().contains((path, provider)),
{
    let c = components(relative);
    law_files_are_provided(before, path, provider);
    let q = choose|q: Seq<Seq<char>>| #[trigger] before.provides(q, path, provider);
    assert forall|k: int| 0 <= k < q.len() implies #[trigger] is_dir_entry(after.entry_at(q.take(k))) by {
        assert(is_dir_entry(before.entry_at(q.take(k))));
        if k == 0 {
            assert(lookup(after.root, q.take(k)) == Some(after.root));
        } else {
            assert(q.take(k).len() > 0);
            assert(after.entry_at(q.take(k)) == inserted_entry(before.entry_at(q.take(k)), c, package, q.take(k)));
        }
    }
    if q.len() == 0 {
        assert(lookup(before.root, q) == Some(before.root));
    }
    assert(after.entry_at(q) == inserted_entry(before.entry_at(q), c, package, q));
    let e = before.entry_at(q)->Some_0;
    if e.1 != add_package(e.1, package) {
        let i = choose|i: int| 0 <= i < e.1.len() && e.1[i] == provider;
        assert(add_package(e.1, package)[i] == provider);
    }
    assert(after.provides(q, path, provider));
    law_files_are_provided(after, path, provider);
}


/// What the tree reaches by `q`, it reaches by each prefix of `q`.
proof fn lemma_lookup_prefix(node: TreeNode, q: Seq<Seq<char>>, k: int)
    requires
        lookup(node, q) is Some,
        0 <= k <= q.len(),
    ensures
        lookup(node, q.take(k)) is Some,
    decreases q.len(),
{
    if k == 0 {
        assert(q.take(k) =~= Seq::<Seq<char>>::empty());
    } else {
        let i = choose|i: int| 0 <= i < node.children.len() && (#[trigger] node.children[i]).name@ == q[0];
        let r = q.take(k);
        assert(r[0] == q[0]);
        assert(r.drop_first() =~= q.drop_first().take(k - 1));
        lemma_lookup_prefix(node.children[i], q.drop_first(), k - 1);
    }
}

/// Where the tree after an insert records something through directories,
/// the tree before did too, unless it is the inserted file itself.
proof fn lemma_insert_dirs_before(
    before: StowTree,
    after: StowTree,
    c: Seq<Seq<char>>,
    package: Seq<char>,
    q: Seq<Seq<char>>,
)
    requires
        before.valid(),
        after.valid(),
        forall|r: Seq<Seq<char>>|
            r.len() > 0 ==> #[trigger] after.entry_at(r) == inserted_entry(before.entry_at(r), c, package, r),
        after.through_dirs(q),
        before.entry_at(q) is Some,
    ensures
        before.through_dirs(q),
{
    assert forall|k: int| 0 <= k < q.len() implies #[trigger] is_dir_entry(before.entry_at(q.take(k))) by {
        let r = q.take(k);
        if k == 0 {
            assert(lookup(before.root, r) == Some(before.root));
        } else {
            assert(is_dir_entry(after.entry_at(r)));
            assert(after.entry_at(r) == inserted_entry(before.entry_at(r), c, package, r));
            lemma_lookup_prefix(before.root, q, k);
        }
    }
}

/// Inserting a file adds no file but the inserted one: every `(path,
/// package)` pair that `get_files` gives afterwards it gave before, or it is
/// the inserted path with the inserted package.
pub proof fn law_insert_adds_only_the_file(
    before: StowTree,
    after: StowTree,
    relative: Seq<char>,
    package: Seq<char>,
    path: Seq<char>,
    provider: Seq<char>,
)
    requires
        before.valid(),
        after.valid(),
        after.root_path() == before.root_path(),
        forall|q: Seq<Seq<char>>|
            q.len() > 0 ==> #[trigger] after.entry_at(q) == inserted_entry(
                before.entry_at(q),
                components(relative),
                package,
                q,
            ),
        after.files().contains((path, provider)),
    ensures
        before.files().contains((path, provider)) || (path == joined(before.root_path(), components(relative))
            && provider == package),
{
    let c = components(relative);
    law_files_are_provided(after, path, provider);
    let q = choose|q: Seq<Seq<char>>| #[trigger] after.provides(q, path, provider);
    if q.len() == 0 {
        assert(lookup(after.root, q) == Some(after.root));
        assert(false);
    }
    let e = after.entry_at(q)->Some_0;
    assert(after.entry_at(q) == inserted_entry(before.entry_at(q), c, package, q));
    if q == c && !(before.entry_at(q) is Some && before.entry_at(q)->Some_0.1.contains(provider)) {
        match before.entry_at(q) {
            Some(x) => {
                if provider != package {
                    assert(x.1.push(package).contains(provider));
                    let i = choose|i: int| 0 <= i < x.1.push(package).len() && x.1.push(package)[i] == provider;
                    assert(i < x.1.len());
                    assert(x.1[i] == provider);
                }
            },
            None => {
                assert(seq![package].contains(provider));
                let i = choose|i: int| 0 <= i < seq![package].len() && seq![package][i] == provider;
                assert(seq![package][i] == package);
            },
        }
    } else {
        assert(!e.0 && e.1.contains(provider));
        if q != c {
            if 0 < q.len() <= c.len() && c.take(q.len() as int) == q {
                assert(q.len() < c.len()) by {
                    if q.len() == c.len() {
                        assert(c.take(q.len() as int) =~= c);
                    }
                }
                assert(before.entry_at(q) is Some);
            } else {
                assert(before.entry_at(q) == after.entry_at(q));
            }
        }
        assert(before.entry_at(q) is Some);
        let x = before.entry_at(q)->Some_0;
        if q == c {
            assert(x.1.contains(provider));
            assert(!x.0);
        } else {
            assert(before.entry_at(q) == after.entry_at(q));
        }
        lemma_insert_dirs_before(before, after, c, package, q);
        assert(before.provides(q, path, provider));
        law_files_are_provided(before, path, provider);
    }
}

/// Inserting a file at a place the tree leaves open (nothing but
/// directories on the way, no directory at the place) adds exactly that
/// file: the pairs `get_files` gives afterwards are those it gave before and
/// the inserted path with the inserted package.
pub proof fn law_insert_adds_exactly_the_file(
    before: StowTree,
    after: StowTree,
    relative: Seq<char>,
    package: Seq<char>,
)
    requires
        before.valid(),
        after.valid(),
        after.root_path() == before.root_path(),
        forall|q: Seq<Seq<char>>|
            q.len() > 0 ==> #[trigger] after.entry_at(q) == inserted_entry(
                before.entry_at(q),
                components(relative),
                package,
                q,
            ),
        components(relative).len() > 0,
        forall|k: int|
            0 < k < components(relative).len() ==> #[trigger] before.entry_at(components(relative).take(k)) is None
                || is_dir_entry(before.entry_at(components(relative).take(k))),
        !is_dir_entry(before.entry_at(components(relative))),
    ensures
        forall|x: (Seq<char>, Seq<char>)|
            #[trigger] after.files().contains(x) <==> before.files().contains(x) || x == (joined(
                before.root_path(),
                components(relative),
            ), package),
{
    law_inserted_file_is_reported(before, after, relative, package);
    assert forall|x: (Seq<char>, Seq<char>)|
        #[trigger] after.files().contains(x) <==> before.files().contains(x) || x == (joined(
            before.root_path(),
            components(relative),
        ), package) by {
        if after.files().contains(x) {
            law_insert_adds_only_the_file(before, after, relative, package, x.0, x.1);
        }
        if before.files().contains(x) {
            law_insert_keeps_files(before, after, relative, package, x.0, x.1);
        }
    }
}


/// The paths, as components, and packages of a series of inserts.
pub open spec fn insertions(rels: Seq<Seq<char>>, pkgs: Seq<Seq<char>>) -> Seq<(Seq<Seq<char>>, Seq<char>)> {
    Seq::new(rels.len(), |i: int| (components(rels[i]), pkgs[i]))
}

/// `q` is a proper, non-empty prefix of `c`: it lies on the way to `c`.
pub open spec fn proper_prefix(q: Seq<Seq<char>>, c: Seq<Seq<char>>) -> bool {
    0 < q.len() < c.len() && c.take(q.len() as int) == q
}

/// No inserted path lies on the way to another.
pub open spec fn prefix_free(ins: Seq<(Seq<Seq<char>>, Seq<char>)>) -> bool {
    forall|a: int, b: int|
        0 <= a < ins.len() && 0 <= b < ins.len() ==> !proper_prefix((#[trigger] ins[a]).0, (#[trigger] ins[b]).0)
}

/// The packages inserted at `c`, each once, in the order they came.
pub open spec fn packages_at(ins: Seq<(Seq<Seq<char>>, Seq<char>)>, c: Seq<Seq<char>>) -> Seq<Seq<char>>
    decreases ins.len(),
{
    if ins.len() == 0 {
        seq![]
    } else {
        let acc = packages_at(ins.drop_last(), c);
        if ins.last().0 == c {
            add_package(acc, ins.last().1)
        } else {
            acc
        }
    }
}

/// What a series of inserts into an empty tree records at `q`: a file with
/// its packages where a path was inserted, a directory on the way to one.
spec fn series_entry(ins: Seq<(Seq<Seq<char>>, Seq<char>)>, q: Seq<Seq<char>>) -> Option<NodeInfo> {
    if exists|j: int| 0 <= j < ins.len() && (#[trigger] ins[j]).0 == q {
        Some((false, packages_at(ins, q)))
    } else if exists|j: int| 0 <= j < ins.len() && proper_prefix(q, (#[trigger] ins[j]).0) {
        Some((true, Seq::<Seq<char>>::empty()))
    } else {
        None
    }
}

proof fn lemma_packages_at(ins: Seq<(Seq<Seq<char>>, Seq<char>)>, c: Seq<Seq<char>>)
    ensures
        forall|k: Seq<char>|
            #[trigger] packages_at(ins, c).contains(k) <==> exists|j: int| 0 <= j < ins.len() && #[trigger] ins[j] == (c, k),
        packages_at(ins, c).no_duplicates(),
    decreases ins.len(),
{
    if ins.len() > 0 {
        let pre = ins.drop_last();
        lemma_packages_at(pre, c);
        let acc = packages_at(pre, c);
        let x = ins.last();
        assert forall|k: Seq<char>|
            #[trigger] packages_at(ins, c).contains(k) <==> exists|j: int| 0 <= j < ins.len() && #[trigger] ins[j] == (c, k) by {
            if packages_at(ins, c).contains(k) {
                if acc.contains(k) {
                    let j = choose|j: int| 0 <= j < pre.len() && #[trigger] pre[j] == (c, k);
                    assert(ins[j] == pre[j]);
                } else {
                    assert(x.0 == c);
                    assert(!acc.contains(x.1));
                    let i = choose|i: int| 0 <= i < acc.push(x.1).len() && acc.push(x.1)[i] == k;
                    assert(i == acc.len());
                    assert(ins[ins.len() - 1] == (c, k));
                }
            }
            if exists|j: int| 0 <= j < ins.len() && #[trigger] ins[j] == (c, k) {
                let j = choose|j: int| 0 <= j < ins.len() && #[trigger] ins[j] == (c, k);
                if j < ins.len() - 1 {
                    assert(pre[j] == ins[j]);
                    assert(acc.contains(k));
                    if x.0 == c && !acc.contains(x.1) {
                        let i = choose|i: int| 0 <= i < acc.len() && acc[i] == k;
                        assert(acc.push(x.1)[i] == k);
                    }
                } else {
                    if !acc.contains(k) {
                        assert(acc.push(k)[acc.len() as int] == k);
                    }
                }
            }
        }
        if x.0 == c && !acc.contains(x.1) {
            assert forall|a: int, b: int| 0 <= a < b < acc.push(x.1).len() implies acc.push(x.1)[a] != acc.push(x.1)[b] by {
                if b == acc.len() {
                    assert(acc[a] == acc.push(x.1)[a]);
                }
            }
        }
    }
}

proof fn lemma_packages_none(ins: Seq<(Seq<Seq<char>>, Seq<char>)>, c: Seq<Seq<char>>)
    requires
        !exists|j: int| 0 <= j < ins.len() && (#[trigger] ins[j]).0 == c,
    ensures
        packages_at(ins, c) == Seq::<Seq<char>>::empty(),
    decreases ins.len(),
{
    if ins.len() > 0 {
        let pre = ins.drop_last();
        assert forall|j: int| 0 <= j < pre.len() implies (#[trigger] pre[j]).0 != c by {
            assert(pre[j] == ins[j]);
        }
        lemma_packages_none(pre, c);
        assert(ins[ins.len() - 1].0 != c);
    }
}

/// One more insert changes what the series records as `inserted_entry` says.
proof fn lemma_series_step(pre: Seq<(Seq<Seq<char>>, Seq<char>)>, c: Seq<Seq<char>>, k: Seq<char>, q: Seq<Seq<char>>)
    requires
        q.len() > 0,
        prefix_free(pre.push((c, k))),
    ensures
        inserted_entry(series_entry(pre, q), c, k, q) == series_entry(pre.push((c, k)), q),
{
    let s = pre.push((c, k));
    let n = pre.len() as int;
    assert(s.drop_last() =~= pre);
    assert(s[n] == (c, k));
    let eq_pre = exists|j: int| 0 <= j < pre.len() && (#[trigger] pre[j]).0 == q;
    let pp_pre = exists|j: int| 0 <= j < pre.len() && proper_prefix(q, (#[trigger] pre[j]).0);
    let eq_s = exists|j: int| 0 <= j < s.len() && (#[trigger] s[j]).0 == q;
    let pp_s = exists|j: int| 0 <= j < s.len() && proper_prefix(q, (#[trigger] s[j]).0);
    if eq_pre {
        let j = choose|j: int| 0 <= j < pre.len() && (#[trigger] pre[j]).0 == q;
        assert(s[j] == pre[j]);
    }
    if pp_pre {
        let j = choose|j: int| 0 <= j < pre.len() && proper_prefix(q, (#[trigger] pre[j]).0);
        assert(s[j] == pre[j]);
    }
    if eq_s {
        let j = choose|j: int| 0 <= j < s.len() && (#[trigger] s[j]).0 == q;
        if j < n {
            assert(s[j] == pre[j]);
        }
    }
    if pp_s {
        let j = choose|j: int| 0 <= j < s.len() && proper_prefix(q, (#[trigger] s[j]).0);
        if j < n {
            assert(s[j] == pre[j]);
        }
    }
    assert(eq_s <==> eq_pre || c == q);
    assert(pp_s <==> pp_pre || proper_prefix(q, c));
    let hit = 0 < q.len() <= c.len() && c.take(q.len() as int) == q;
    if q == c {
        assert(c.take(q.len() as int) =~= c);
        if eq_pre {
        } else {
            if pp_pre {
                let j = choose|j: int| 0 <= j < pre.len() && proper_prefix(q, (#[trigger] pre[j]).0);
                assert(s[j] == pre[j]);
                assert(!proper_prefix(s[n].0, s[j].0));
            }
            lemma_packages_none(pre, q);
            assert(!Seq::<Seq<char>>::empty().contains(k));
            assert(Seq::<Seq<char>>::empty().push(k) =~= seq![k]);
        }
    } else if hit {
        assert(q.len() < c.len()) by {
            if q.len() == c.len() {
                assert(c.take(q.len() as int) =~= c);
            }
        }
        assert(proper_prefix(q, c));
        if eq_pre {
            let j = choose|j: int| 0 <= j < pre.len() && (#[trigger] pre[j]).0 == q;
            assert(s[j] == pre[j]);
            assert(!proper_prefix(s[j].0, s[n].0));
        }
        assert(!eq_s);
    } else {
        assert(!proper_prefix(q, c));
        if eq_s {
            assert(packages_at(s, q) == packages_at(pre, q));
        }
    }
}

/// What each tree of a series of inserts into an empty tree records.
proof fn lemma_series_entries(trees: Seq<StowTree>, ins: Seq<(Seq<Seq<char>>, Seq<char>)>, i: int)
    requires
        trees.len() == ins.len() + 1,
        0 <= i < trees.len(),
        forall|q: Seq<Seq<char>>| q.len() > 0 ==> #[trigger] trees[0].entry_at(q) is None,
        forall|m: int, q: Seq<Seq<char>>|
            0 < m < trees.len() && q.len() > 0 ==> #[trigger] trees[m].entry_at(q) == inserted_entry(
                trees[m - 1].entry_at(q),
                ins[m - 1].0,
                ins[m - 1].1,
                q,
            ),
        prefix_free(ins),
    ensures
        forall|q: Seq<Seq<char>>| q.len() > 0 ==> #[trigger] trees[i].entry_at(q) == series_entry(ins.take(i), q),
    decreases i,
{
    if i > 0 {
        lemma_series_entries(trees, ins, i - 1);
        let pre = ins.take(i - 1);
        assert(ins.take(i) =~= pre.push(ins[i - 1]));
        assert forall|a: int, b: int| 0 <= a < ins.take(i).len() && 0 <= b < ins.take(i).len() implies !proper_prefix(
            (#[trigger] ins.take(i)[a]).0,
            (#[trigger] ins.take(i)[b]).0,
        ) by {
            assert(ins.take(i)[a] == ins[a]);
            assert(ins.take(i)[b] == ins[b]);
        }
        assert forall|q: Seq<Seq<char>>| q.len() > 0 implies #[trigger] trees[i].entry_at(q) == series_entry(ins.take(i), q) by {
            assert(trees[i].entry_at(q) == inserted_entry(trees[i - 1].entry_at(q), ins[i - 1].0, ins[i - 1].1, q));
            lemma_series_step(pre, ins[i - 1].0, ins[i - 1].1, q);
        }
    } else {
        assert forall|q: Seq<Seq<char>>| q.len() > 0 implies #[trigger] trees[i].entry_at(q) == series_entry(ins.take(i), q) by {
            assert(ins.take(0).len() == 0);
        }
    }
}


/// In a tree that records what a prefix-free series of inserts records,
/// every inserted path is reached through directories.
proof fn lemma_series_dirs(t: StowTree, ins: Seq<(Seq<Seq<char>>, Seq<char>)>, j: int)
    requires
        t.valid(),
        forall|q: Seq<Seq<char>>| q.len() > 0 ==> #[trigger] t.entry_at(q) == series_entry(ins, q),
        prefix_free(ins),
        0 <= j < ins.len(),
    ensures
        t.through_dirs(ins[j].0),
{
    let q = ins[j].0;
    assert forall|k: int| 0 <= k < q.len() implies #[trigger] is_dir_entry(t.entry_at(q.take(k))) by {
        let r = q.take(k);
        if k == 0 {
            assert(lookup(t.root, r) == Some(t.root));
        } else {
            assert(proper_prefix(r, q));
            if exists|l: int| 0 <= l < ins.len() && (#[trigger] ins[l]).0 == r {
                let l = choose|l: int| 0 <= l < ins.len() && (#[trigger] ins[l]).0 == r;
                assert(!proper_prefix(ins[l].0, ins[j].0));
            }
            assert(t.entry_at(r) == series_entry(ins, r));
        }
    }
}

/// After a series of inserts into an empty tree, none of whose paths lies on
/// the way to another, `get_files` gives exactly the inserted paths with
/// their packages, and `detect_overlaps` exactly the paths that two or more
/// packages were inserted at, with those packages, each once.
pub proof fn law_series_of_inserts(trees: Seq<StowTree>, rels: Seq<Seq<char>>, pkgs: Seq<Seq<char>>)
    requires
        trees.len() == rels.len() + 1,
        pkgs.len() == rels.len(),
        forall|m: int| 0 <= m < trees.len() ==> (#[trigger] trees[m]).valid(),
        forall|q: Seq<Seq<char>>| q.len() > 0 ==> #[trigger] trees[0].entry_at(q) is None,
        forall|m: int, q: Seq<Seq<char>>|
            0 < m < trees.len() && q.len() > 0 ==> #[trigger] trees[m].entry_at(q) == inserted_entry(
                trees[m - 1].entry_at(q),
                components(rels[m - 1]),
                pkgs[m - 1],
                q,
            ),
        forall|j: int| 0 <= j < rels.len() ==> components(#[trigger] rels[j]).len() > 0,
        prefix_free(insertions(rels, pkgs)),
    ensures
        forall|x: (Seq<char>, Seq<char>)|
            #[trigger] trees.last().files().contains(x) <==> exists|j: int|
                0 <= j < rels.len() && x == (joined(trees.last().root_path(), components(#[trigger] rels[j])), pkgs[j]),
        forall|path: Seq<char>, ps: Seq<Seq<char>>|
            #[trigger] trees.last().overlaps().contains((path, ps)) <==> exists|j: int|
                0 <= j < rels.len() && path == joined(trees.last().root_path(), components(#[trigger] rels[j])) && ps
                    == packages_at(insertions(rels, pkgs), components(rels[j])) && ps.len() > 1,
        forall|c: Seq<Seq<char>>, k: Seq<char>|
            #[trigger] packages_at(insertions(rels, pkgs), c).contains(k) <==> exists|j: int|
                0 <= j < rels.len() && components(#[trigger] rels[j]) == c && pkgs[j] == k,
        forall|c: Seq<Seq<char>>| #[trigger] packages_at(insertions(rels, pkgs), c).no_duplicates(),
{
    let ins = insertions(rels, pkgs);
    let n = rels.len() as int;
    let t = trees.last();
    let root = t.root_path();
    assert forall|m: int, q: Seq<Seq<char>>| 0 < m < trees.len() && q.len() > 0 implies #[trigger] trees[m].entry_at(q)
        == inserted_entry(trees[m - 1].entry_at(q), ins[m - 1].0, ins[m - 1].1, q) by {
        assert(ins[m - 1] == (components(rels[m - 1]), pkgs[m - 1]));
    }
    lemma_series_entries(trees, ins, n);
    assert(ins.take(n) =~= ins);
    assert(trees[n] == t);
    assert(t.valid());
    assert forall|q: Seq<Seq<char>>| q.len() > 0 implies #[trigger] t.entry_at(q) == series_entry(ins, q) by {
        assert(trees[n].entry_at(q) == series_entry(ins.take(n), q));
    }
    assert forall|c: Seq<Seq<char>>, k: Seq<char>|
        #[trigger] packages_at(ins, c).contains(k) <==> exists|j: int|
            0 <= j < rels.len() && components(#[trigger] rels[j]) == c && pkgs[j] == k by {
        lemma_packages_at(ins, c);
        if packages_at(ins, c).contains(k) {
            let j = choose|j: int| 0 <= j < ins.len() && #[trigger] ins[j] == (c, k);
            assert(components(rels[j]) == c && pkgs[j] == k);
        }
        if exists|j: int| 0 <= j < rels.len() && components(#[trigger] rels[j]) == c && pkgs[j] == k {
            let j = choose|j: int| 0 <= j < rels.len() && components(#[trigger] rels[j]) == c && pkgs[j] == k;
            assert(ins[j] == (c, k));
        }
    }
    assert forall|c: Seq<Seq<char>>| #[trigger] packages_at(ins, c).no_duplicates() by {
        lemma_packages_at(ins, c);
    }
    assert forall|x: (Seq<char>, Seq<char>)|
        #[trigger] t.files().contains(x) <==> exists|j: int|
            0 <= j < rels.len() && x == (joined(root, components(#[trigger] rels[j])), pkgs[j]) by {
        law_files_are_provided(t, x.0, x.1);
        if t.files().contains(x) {
            let q = choose|q: Seq<Seq<char>>| #[trigger] t.provides(q, x.0, x.1);
            if q.len() == 0 {
                assert(lookup(t.root, q) == Some(t.root));
            }
            assert(t.entry_at(q) == series_entry(ins, q));
            assert(exists|j: int| 0 <= j < ins.len() && (#[trigger] ins[j]).0 == q);
            assert(packages_at(ins, q).contains(x.1));
            let j = choose|j: int| 0 <= j < rels.len() && components(#[trigger] rels[j]) == q && pkgs[j] == x.1;
            assert(x == (joined(root, components(rels[j])), pkgs[j]));
        }
        if exists|j: int| 0 <= j < rels.len() && x == (joined(root, components(#[trigger] rels[j])), pkgs[j]) {
            let j = choose|j: int| 0 <= j < rels.len() && x == (joined(root, components(#[trigger] rels[j])), pkgs[j]);
            let q = components(rels[j]);
            assert(ins[j].0 == q);
            lemma_series_dirs(t, ins, j);
            assert(t.entry_at(q) == series_entry(ins, q));
            assert(packages_at(ins, q).contains(x.1));
            assert(t.provides(q, x.0, x.1));
        }
    }
    assert forall|path: Seq<char>, ps: Seq<Seq<char>>|
        #[trigger] t.overlaps().contains((path, ps)) <==> exists|j: int|
            0 <= j < rels.len() && path == joined(root, components(#[trigger] rels[j])) && ps == packages_at(ins, components(rels[j]))
                && ps.len() > 1 by {
        law_overlaps_are_shared_files(t, path, ps);
        if t.overlaps().contains((path, ps)) {
            let q = choose|q: Seq<Seq<char>>| #[trigger] t.overlap_at(q, path, ps);
            if q.len() == 0 {
                assert(lookup(t.root, q) == Some(t.root));
            }
            assert(t.entry_at(q) == series_entry(ins, q));
            assert(exists|j: int| 0 <= j < ins.len() && (#[trigger] ins[j]).0 == q);
            let j = choose|j: int| 0 <= j < ins.len() && (#[trigger] ins[j]).0 == q;
            assert(components(rels[j]) == q);
        }
        if exists|j: int|
            0 <= j < rels.len() && path == joined(root, components(#[trigger] rels[j])) && ps == packages_at(ins, components(rels[j]))
                && ps.len() > 1 {
            let j = choose|j: int|
                0 <= j < rels.len() && path == joined(root, components(#[trigger] rels[j])) && ps == packages_at(ins, components(rels[j]))
                    && ps.len() > 1;
            let q = components(rels[j]);
            assert(ins[j].0 == q);
            lemma_series_dirs(t, ins, j);
            assert(t.entry_at(q) == series_entry(ins, q));
            assert(t.overlap_at(q, path, ps));
        }
    }
}


/// After a series of inserts into an empty tree of distinct paths that do
/// not start at the root, none on the way to another, `get_files` gives one
/// pair per insert, each once, and `detect_overlaps` gives nothing.
pub proof fn law_series_of_distinct_inserts(trees: Seq<StowTree>, rels: Seq<Seq<char>>, pkgs: Seq<Seq<char>>)
    requires
        trees.len() == rels.len() + 1,
        pkgs.len() == rels.len(),
        forall|m: int| 0 <= m < trees.len() ==> (#[trigger] trees[m]).valid(),
        forall|q: Seq<Seq<char>>| q.len() > 0 ==> #[trigger] trees[0].entry_at(q) is None,
        forall|m: int, q: Seq<Seq<char>>|
            0 < m < trees.len() && q.len() > 0 ==> #[trigger] trees[m].entry_at(q) == inserted_entry(
                trees[m - 1].entry_at(q),
                components(rels[m - 1]),
                pkgs[m - 1],
                q,
            ),
        forall|j: int| 0 <= j < rels.len() ==> components(#[trigger] rels[j]).len() > 0,
        prefix_free(insertions(rels, pkgs)),
        trees.last().names_plain(),
        forall|j: int| 0 <= j < rels.len() ==> !((#[trigger] rels[j]).len() > 0 && rels[j][0] == '/'),
        forall|i: int, j: int|
            0 <= i < rels.len() && 0 <= j < rels.len() && i != j ==> components(#[trigger] rels[i]) != components(
                #[trigger] rels[j],
            ),
    ensures
        trees.last().files().no_duplicates(),
        trees.last().files().len() == rels.len(),
        trees.last().overlaps().len() == 0,
{
    let t = trees.last();
    let root = t.root_path();
    let n = rels.len() as int;
    let ins = insertions(rels, pkgs);
    law_series_of_inserts(trees, rels, pkgs);
    assert(t.valid()) by {
        assert(trees[trees.len() - 1] == t);
    }
    law_reports_are_unique(t);
    let pairs = Seq::new(rels.len(), |j: int| (joined(root, components(rels[j])), pkgs[j]));
    assert forall|a: int, b: int| 0 <= a < pairs.len() && 0 <= b < pairs.len() && a != b implies pairs[a] != pairs[b] by {
        lemma_components_plain(rels[a]);
        lemma_components_plain(rels[b]);
        if pairs[a] == pairs[b] {
            lemma_joined_injective(root, components(rels[a]), components(rels[b]));
        }
    }
    assert(pairs.no_duplicates());
    assert forall|x: (Seq<char>, Seq<char>)| t.files().contains(x) <==> pairs.contains(x) by {
        if t.files().contains(x) {
            let j = choose|j: int| 0 <= j < rels.len() && x == (joined(root, components(#[trigger] rels[j])), pkgs[j]);
            assert(pairs[j] == x);
        }
        if pairs.contains(x) {
            let j = choose|j: int| 0 <= j < pairs.len() && pairs[j] == x;
            assert(x == (joined(root, components(rels[j])), pkgs[j]));
        }
    }
    assert(t.files().to_set() =~= pairs.to_set());
    t.files().unique_seq_to_set();
    pairs.unique_seq_to_set();
    if t.overlaps().len() > 0 {
        let o = t.overlaps()[0];
        assert(t.overlaps().contains((o.0, o.1)));
        let j = choose|j: int|
            0 <= j < rels.len() && o.0 == joined(root, components(#[trigger] rels[j])) && o.1 == packages_at(ins, components(rels[j]))
                && o.1.len() > 1;
        let c = components(rels[j]);
        let ps = packages_at(ins, c);
        assert(ps.contains(ps[0]));
        assert(ps.contains(ps[1]));
        let l0 = choose|l: int| 0 <= l < rels.len() && components(#[trigger] rels[l]) == c && pkgs[l] == ps[0];
        let l1 = choose|l: int| 0 <= l < rels.len() && components(#[trigger] rels[l]) == c && pkgs[l] == ps[1];
        assert(l0 == j && l1 == j);
        assert(ps.no_duplicates());
        assert(false);
    }
}

}
