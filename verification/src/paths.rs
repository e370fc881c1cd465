//! Paths as text, with the component semantics of a Unix path: repeated
//! separators and `.` components are ignored (a leading `.` is kept), a
//! leading `/` is the root component, and two paths are equal when their
//! components are.
use vstd::prelude::*;
use crate::text::{chars_of, concat, single, string_of};

verus! {

/// A component made of `seg`, unless the segment is empty or `.`.
pub open spec fn emit(seg: Seq<char>) -> Seq<Seq<char>> {
    if seg.len() == 0 || seg == seq!['.'] {
        seq![]
    } else {
        seq![seg]
    }
}

/// The normal components of `s`, `cur` being the part of a segment read so far.
pub open spec fn comps_rec(s: Seq<char>, cur: Seq<char>) -> Seq<Seq<char>>
    decreases s.len(),
{
    if s.len() == 0 {
        emit(cur)
    } else if s[0] == '/' {
        emit(cur) + comps_rec(s.drop_first(), seq![])
    } else {
        comps_rec(s.drop_first(), cur.push(s[0]))
    }
}

/// The component that a path starts with, if any: the root `/`, or a leading `.`.
pub open spec fn lead(s: Seq<char>) -> Seq<Seq<char>> {
    if s.len() > 0 && s[0] == '/' {
        seq![seq!['/']]
    } else if s.len() > 0 && s[0] == '.' && (s.len() == 1 || s[1] == '/') {
        seq![seq!['.']]
    } else {
        seq![]
    }
}

/// The components of the path `s`.
pub open spec fn components(s: Seq<char>) -> Seq<Seq<char>> {
    lead(s) + comps_rec(s, seq![])
}

/// `base` joined with `name`: an absolute `name` replaces `base`; otherwise a
/// separator is put between them where `base` is not empty and does not end in one.
pub open spec fn join(base: Seq<char>, name: Seq<char>) -> Seq<char> {
    if name.len() > 0 && name[0] == '/' {
        name
    } else if base.len() == 0 || base.last() == '/' {
        base + name
    } else {
        base + seq!['/'] + name
    }
}

/// The path written with the given components.
pub open spec fn render(cs: Seq<Seq<char>>) -> Seq<char>
    decreases cs.len(),
{
    if cs.len() == 0 {
        seq![]
    } else {
        join(render(cs.drop_last()), cs.last())
    }
}

/// `p` lies under `base`: the components of `base` begin those of `p`.
pub open spec fn starts_with(p: Seq<char>, base: Seq<char>) -> bool {
    let cp = components(p);
    let cb = components(base);
    cb.len() <= cp.len() && cp.take(cb.len() as int) == cb
}

/// The two paths have the same components.
pub open spec fn same_path(a: Seq<char>, b: Seq<char>) -> bool {
    components(a) == components(b)
}

/// The parent of `s`: its components but the last, unless it has none or only the root.
pub open spec fn parent(s: Seq<char>) -> Option<Seq<char>> {
    let cs = components(s);
    if cs.len() == 0 || (cs.len() == 1 && cs[0] == seq!['/']) {
        None
    } else {
        Some(render(cs.drop_last()))
    }
}

proof fn lemma_comps_rec_step(s: Seq<char>, i: int, cur: Seq<char>)
    requires
        0 <= i < s.len(),
    ensures
        s[i] == '/' ==> comps_rec(s.skip(i), cur) == emit(cur) + comps_rec(s.skip(i + 1), seq![]),
        s[i] != '/' ==> comps_rec(s.skip(i), cur) == comps_rec(s.skip(i + 1), cur.push(s[i])),
{
    assert(s.skip(i).drop_first() =~= s.skip(i + 1));
    assert(s.skip(i)[0] == s[i]);
}

/// The components of a path.
pub fn path_components(s: &str) -> (r: Vec<String>)
    ensures
        r.deep_view() == components(s@),
{
    let cs = chars_of(s);
    let mut out: Vec<String> = Vec::new();
    let n = cs.len();
    if n > 0 && cs[0] == '/' {
        out.push(single('/'));
    } else if n > 0 && cs[0] == '.' && (n == 1 || cs[1] == '/') {
        out.push(single('.'));
    }
    proof {
        if n > 0 && cs@[0] == '/' {
            assert(out.deep_view() =~= seq![seq!['/']]);
        } else if n > 0 && cs@[0] == '.' && (n == 1 || cs@[1] == '/') {
            assert(out.deep_view() =~= seq![seq!['.']]);
        }
    }
    assert(out.deep_view() =~= lead(s@));
    let mut cur: Vec<char> = Vec::new();
    let mut i: usize = 0;
    assert(cs@.skip(0) =~= cs@);
    while i < n
        invariant
            n == cs@.len(),
            cs@ == s@,
            i <= n,
            out.deep_view() + comps_rec(cs@.skip(i as int), cur@) == components(s@),
        decreases n - i,
    {
        let ghost before = out.deep_view();
        let ghost old_cur = cur@;
        proof {
            lemma_comps_rec_step(cs@, i as int, cur@);
        }
        if cs[i] == '/' {
            if cur.len() > 0 && !(cur.len() == 1 && cur[0] == '.') {
                out.push(string_of(cur.as_slice()));
                assert(emit(old_cur) =~= seq![old_cur]);
            } else {
                if cur.len() == 1 {
                    assert(old_cur =~= seq!['.']);
                }
                assert(emit(old_cur) =~= Seq::<Seq<char>>::empty());
            }
            assert(out.deep_view() =~= before + emit(old_cur));
            cur = Vec::new();
            assert(out.deep_view() + comps_rec(cs@.skip(i + 1), cur@) =~= before + (emit(old_cur)
                + comps_rec(cs@.skip(i + 1), seq![])));
        } else {
            cur.push(cs[i]);
        }
        i = i + 1;
    }
    proof {
        let ghost last = cur@;
        assert(cs@.skip(n as int) =~= Seq::<char>::empty());
        if cur.len() > 0 && !(cur.len() == 1 && cur[0] == '.') {
            assert(emit(last) =~= seq![last]);
        } else {
            if cur.len() == 1 {
                assert(last =~= seq!['.']);
            }
            assert(emit(last) =~= Seq::<Seq<char>>::empty());
        }
    }
    if cur.len() > 0 && !(cur.len() == 1 && cur[0] == '.') {
        out.push(string_of(cur.as_slice()));
    }
    out
}


/// `base` joined with `name`.
pub fn join_path(base: &str, name: &str) -> (r: String)
    ensures
        r@ == join(base@, name@),
{
    let b = chars_of(base);
    let n = chars_of(name);
    if n.len() > 0 && n[0] == '/' {
        return string_of(n.as_slice());
    }
    let mut out = string_of(b.as_slice());
    if !(b.len() == 0 || b[b.len() - 1] == '/') {
        out.append("/");
        proof {
            reveal_strlit("/");
        }
    }
    out.append(name);
    out
}

/// Equality of two lists of components.
fn same_components(a: &Vec<String>, b: &Vec<String>) -> (r: bool)
    ensures
        r == (a.deep_view() == b.deep_view()),
{
    if a.len() != b.len() {
        proof {
            assert(a.deep_view().len() != b.deep_view().len());
        }
        return false;
    }
    let mut i: usize = 0;
    while i < a.len()
        invariant
            a.len() == b.len(),
            i <= a.len(),
            forall|j: int| 0 <= j < i ==> a.deep_view()[j] == b.deep_view()[j],
        decreases a.len() - i,
    {
        if a[i] != b[i] {
            assert(a.deep_view()[i as int] != b.deep_view()[i as int]);
            return false;
        }
        i = i + 1;
    }
    assert(a.deep_view() =~= b.deep_view());
    true
}

/// Whether `p` lies under `base`, component by component.
pub fn path_starts_with(p: &str, base: &str) -> (r: bool)
    ensures
        r == starts_with(p@, base@),
{
    let cp = path_components(p);
    let cb = path_components(base);
    if cb.len() > cp.len() {
        return false;
    }
    let mut i: usize = 0;
    while i < cb.len()
        invariant
            cb.len() <= cp.len(),
            i <= cb.len(),
            cp.deep_view() == components(p@),
            cb.deep_view() == components(base@),
            forall|j: int| 0 <= j < i ==> cp.deep_view()[j] == cb.deep_view()[j],
        decreases cb.len() - i,
    {
        if cp[i] != cb[i] {
            assert(cp.deep_view().take(cb.len() as int)[i as int] != cb.deep_view()[i as int]);
            return false;
        }
        i = i + 1;
    }
    assert(cp.deep_view().take(cb.len() as int) =~= cb.deep_view());
    true
}

/// Whether the two paths have the same components.
pub fn path_eq(a: &str, b: &str) -> (r: bool)
    ensures
        r == same_path(a@, b@),
{
    let ca = path_components(a);
    let cb = path_components(b);
    same_components(&ca, &cb)
}

/// The path written with the first `k` of the given components.
fn render_prefix(cs: &Vec<String>, k: usize) -> (r: String)
    requires
        k <= cs.len(),
    ensures
        r@ == render(cs.deep_view().take(k as int)),
{
    let mut out = String::new();
    let mut i: usize = 0;
    while i < k
        invariant
            k <= cs.len(),
            i <= k,
            out@ == render(cs.deep_view().take(i as int)),
        decreases k - i,
    {
        let next = join_path(out.as_str(), cs[i].as_str());
        proof {
            let t = cs.deep_view().take(i + 1);
            assert(t.drop_last() =~= cs.deep_view().take(i as int));
            assert(t.last() == cs[i as int]@);
        }
        out = next;
        i = i + 1;
    }
    out
}

/// The parent of a path, as `Path::parent` gives it for the same components.
pub fn parent_path(s: &str) -> (r: Option<String>)
    ensures
        r matches Some(x) ==> parent(s@) == Some(x@),
        r is None <==> parent(s@) is None,
{
    let cs = path_components(s);
    if cs.len() == 0 {
        return None;
    }
    if cs.len() == 1 && cs[0] == single('/') {
        return None;
    }
    proof {
        assert(cs.deep_view().drop_last() =~= cs.deep_view().take(cs.len() - 1));
    }
    Some(render_prefix(&cs, cs.len() - 1))
}


/// How `{:?}` writes the path `s` (quoted, with special characters escaped).
pub uninterp spec fn path_debug(s: Seq<char>) -> Seq<char>;

/// `<Path as Debug>::fmt`, through `format!("{:?}", ..)`: the result is
/// `path_debug` of the path's text, which depends on nothing else.
#[verifier::external_body]
pub(crate) fn debug_path(s: &str) -> (r: String)
    ensures
        r@ == path_debug(s@),
{
    format!("{:?}", std::path::Path::new(s))
}

/// The part of `p` below `base`, if `p` lies under `base`.
pub open spec fn relative(p: Seq<char>, base: Seq<char>) -> Option<Seq<char>> {
    if starts_with(p, base) {
        Some(render(components(p).skip(components(base).len() as int)))
    } else {
        None
    }
}

/// `Path::strip_prefix`: the part of `p` below `base`.
pub fn strip_prefix(p: &str, base: &str) -> (r: Option<String>)
    ensures
        r matches Some(x) ==> relative(p@, base@) == Some(x@),
        r is None <==> relative(p@, base@) is None,
{
    if !path_starts_with(p, base) {
        return None;
    }
    let cp = path_components(p);
    let cb = path_components(base);
    let mut out = String::new();
    let mut i: usize = cb.len();
    let ghost rest = cp.deep_view().skip(cb.len() as int);
    assert(rest.take(0) =~= Seq::<Seq<char>>::empty());
    while i < cp.len()
        invariant
            cb.len() <= i <= cp.len(),
            rest == cp.deep_view().skip(cb.len() as int),
            out@ == render(rest.take(i - cb.len())),
        decreases cp.len() - i,
    {
        let next = join_path(out.as_str(), cp[i].as_str());
        proof {
            let t = rest.take(i + 1 - cb.len());
            assert(t.drop_last() =~= rest.take(i - cb.len()));
            assert(t.last() == cp[i as int]@);
        }
        out = next;
        i = i + 1;
    }
    assert(rest.take(cp.len() - cb.len()) =~= rest);
    Some(out)
}


/// The last component of `s`, unless there is none or it is the root, `.` or `..`.
pub open spec fn file_name(s: Seq<char>) -> Option<Seq<char>> {
    let cs = components(s);
    if cs.len() == 0 || cs.last() == seq!['/'] || cs.last() == seq!['.'] || cs.last() == seq!['.', '.'] {
        None
    } else {
        Some(cs.last())
    }
}

/// `s` with its file name replaced by `name` (or `name` added where it has none).
pub open spec fn with_file_name(s: Seq<char>, name: Seq<char>) -> Seq<char> {
    if file_name(s) is Some {
        join(render(components(s).drop_last()), name)
    } else {
        join(s, name)
    }
}

/// `Path::file_name`: the last component of a path, if it is a name.
pub fn path_file_name(s: &str) -> (r: Option<String>)
    ensures
        r matches Some(x) ==> file_name(s@) == Some(x@),
        r is None <==> file_name(s@) is None,
{
    let cs = path_components(s);
    if cs.len() == 0 {
        return None;
    }
    let last = &cs[cs.len() - 1];
    let dotdot = concat(".", ".");
    proof {
        reveal_strlit(".");
        assert(dotdot@ =~= seq!['.', '.']);
        assert(cs.deep_view().last() == last@);
    }
    if *last == single('/') || *last == single('.') || *last == dotdot {
        return None;
    }
    Some(last.clone())
}

/// `PathBuf::set_file_name`: the path with its file name replaced.
pub fn path_with_file_name(s: &str, name: &str) -> (r: String)
    ensures
        r@ == with_file_name(s@, name@),
{
    match path_file_name(s) {
        Some(_) => {
            let cs = path_components(s);
            let base = render_prefix(&cs, cs.len() - 1);
            proof {
                assert(cs.deep_view().take(cs.len() - 1) =~= cs.deep_view().drop_last());
            }
            join_path(base.as_str(), name)
        },
        None => join_path(s, name),
    }
}


proof fn lemma_comps_rec_split(x: Seq<char>, y: Seq<char>, cur: Seq<char>)
    ensures
        comps_rec(x + seq!['/'] + y, cur) == comps_rec(x, cur) + comps_rec(y, seq![]),
    decreases x.len(),
{
    let s = x + seq!['/'] + y;
    if x.len() == 0 {
        assert(s.drop_first() =~= y);
        assert(s[0] == '/');
    } else {
        let x1 = x.drop_first();
        assert(s.drop_first() =~= x1 + seq!['/'] + y);
        assert(s[0] == x[0]);
        if x[0] == '/' {
            lemma_comps_rec_split(x1, y, seq![]);
            assert(comps_rec(s, cur) =~= comps_rec(x, cur) + comps_rec(y, seq![]));
        } else {
            lemma_comps_rec_split(x1, y, cur.push(x[0]));
        }
    }
}

proof fn lemma_comps_rec_segment(n: Seq<char>, cur: Seq<char>)
    requires
        !n.contains('/'),
    ensures
        comps_rec(n, cur) == emit(cur + n),
    decreases n.len(),
{
    if n.len() == 0 {
        assert(cur + n =~= cur);
    } else {
        assert(n[0] != '/') by {
            if n[0] == '/' {
                assert(n.contains('/'));
            }
        }
        let n1 = n.drop_first();
        assert(!n1.contains('/')) by {
            if n1.contains('/') {
                let i = choose|i: int| 0 <= i < n1.len() && n1[i] == '/';
                assert(n[i + 1] == '/');
            }
        }
        lemma_comps_rec_segment(n1, cur.push(n[0]));
        assert(cur.push(n[0]) + n1 =~= cur + n);
    }
}

/// Joining a name with no separator in it, other than `.` and `..`, adds
/// exactly that name as the last component.
pub proof fn lemma_components_join(dir: Seq<char>, n: Seq<char>)
    requires
        n.len() > 0,
        !n.contains('/'),
        n != seq!['.'],
        n != seq!['.', '.'],
    ensures
        components(join(dir, n)) == components(dir).push(n),
        file_name(join(dir, n)) == Some(n),
{
    assert(n[0] != '/') by {
        if n[0] == '/' {
            assert(n.contains('/'));
        }
    }
    lemma_comps_rec_segment(n, seq![]);
    assert(seq![] + n =~= n);
    assert(emit(n) == seq![n]);
    let j = join(dir, n);
    if dir.len() == 0 {
        assert(j =~= n);
        if n.len() > 1 {
            assert(n[1] != '/') by {
                if n[1] == '/' {
                    assert(n.contains('/'));
                }
            }
        } else if n[0] == '.' {
            assert(n =~= seq!['.']);
        }
        assert(lead(n) == Seq::<Seq<char>>::empty());
        assert(components(dir) =~= Seq::<Seq<char>>::empty());
        assert(components(j) =~= components(dir).push(n));
    } else if dir.last() == '/' {
        let x = dir.drop_last();
        assert(dir =~= x + seq!['/'] + Seq::<char>::empty());
        assert(j =~= x + seq!['/'] + n);
        lemma_comps_rec_split(x, n, seq![]);
        lemma_comps_rec_split(x, Seq::<char>::empty(), seq![]);
        assert(emit(Seq::<char>::empty()) =~= Seq::<Seq<char>>::empty());
        assert(comps_rec(dir, seq![]) =~= comps_rec(x, seq![]));
        assert(j[0] == dir[0]);
        if dir.len() > 1 {
            assert(j[1] == dir[1]);
        }
        assert(lead(j) == lead(dir));
        assert(components(j) =~= components(dir).push(n));
    } else {
        assert(j =~= dir + seq!['/'] + n);
        lemma_comps_rec_split(dir, n, seq![]);
        assert(j[0] == dir[0]);
        if dir.len() > 1 {
            assert(j[1] == dir[1]);
        } else {
            assert(j[1] == '/');
        }
        assert(lead(j) == lead(dir));
        assert(components(j) =~= components(dir).push(n));
    }
    assert(components(j).last() == n);
    assert(n != seq!['/']) by {
        if n == seq!['/'] {
            assert(n[0] == '/');
        }
    }
}

}
