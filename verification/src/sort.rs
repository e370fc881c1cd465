//! Stable sorting by a strict order, and the order of strings.
use vstd::prelude::*;
use crate::text::chars_of;

verus! {

broadcast use vstd::seq_lib::group_to_multiset_ensures;

/// A strict order on the values of a type.
pub trait Ordered: Sized {
    /// `self` comes strictly before `other`.
    spec fn before(self, other: Self) -> bool;

    proof fn before_asymmetric(a: Self, b: Self)
        requires
            a.before(b),
        ensures
            !b.before(a),
    ;

    proof fn before_transitive(a: Self, b: Self, c: Self)
        requires
            a.before(b),
            b.before(c),
        ensures
            a.before(c),
    ;

    /// What comes before `b` comes before anything that `b` does not come after.
    proof fn before_weak(a: Self, b: Self, c: Self)
        requires
            a.before(b),
            !c.before(b),
        ensures
            a.before(c),
    ;

    /// Whether `self` comes strictly before `other`.
    fn comes_before(&self, other: &Self) -> (r: bool)
        ensures
            r == self.before(*other),
    ;
}

/// No value of `s` comes before one at a smaller index.
pub open spec fn sorted<T: Ordered>(s: Seq<T>) -> bool {
    forall|i: int, j: int| 0 <= i < j < s.len() ==> !(#[trigger] s[j]).before(#[trigger] s[i])
}

/// Values that neither comes before the other keep their relative order:
/// sorting `v` into `r` was stable. Stated over the positions in `v` that each
/// value of `r` came from.
pub open spec fn stable_from<T: Ordered>(r: Seq<T>, v: Seq<T>, from: Seq<int>) -> bool {
    &&& from.len() == r.len()
    &&& forall|i: int| 0 <= i < r.len() ==> 0 <= #[trigger] from[i] < v.len() && r[i] == v[from[i]]
    &&& forall|i: int, j: int| 0 <= i < j < r.len() ==> #[trigger] from[i] != #[trigger] from[j]
    &&& forall|i: int, j: int|
        0 <= i < j < r.len() && !r[i].before(r[j]) && !r[j].before(r[i]) ==> #[trigger] from[i] < #[trigger] from[j]
}

/// Sorts `v` by the order of its type, keeping values that neither comes
/// before the other in their original order.
pub fn stable_sort<T: Ordered>(v: Vec<T>) -> (r: Vec<T>)
    ensures
        r@.to_multiset() == v@.to_multiset(),
        sorted(r@),
        exists|from: Seq<int>| stable_from(r@, v@, from),
{
    let ghost orig = v@;
    let mut rest = v;
    let mut out: Vec<T> = Vec::new();
    let ghost mut from: Seq<int> = seq![];
    let ghost mut i: int = 0;
    while rest.len() > 0
        invariant
            0 <= i <= orig.len(),
            rest@ == orig.skip(i),
            out@.to_multiset() == orig.take(i).to_multiset(),
            sorted(out@),
            stable_from(out@, orig, from),
            forall|k: int| 0 <= k < from.len() ==> #[trigger] from[k] < i,
        decreases rest.len(),
    {
        let x = rest.remove(0);
        proof {
            assert(x == orig[i]);
            assert(orig.take(i + 1) =~= orig.take(i).push(orig[i]));
            assert(rest@ =~= orig.skip(i + 1));
        }
        let mut k: usize = 0;
        while k < out.len() && !x.comes_before(&out[k])
            invariant
                k <= out.len(),
                forall|m: int| 0 <= m < k ==> !x.before(#[trigger] out@[m]),
            decreases out.len() - k,
        {
            k = k + 1;
        }
        let ghost before_ins = out@;
        proof {
            assert(k < out.len() ==> x.before(out@[k as int]));
        }
        out.insert(k, x);
        proof {
            let s = out@;
            assert(s =~= before_ins.insert(k as int, x));
            assert forall|a: int, b: int| 0 <= a < b < s.len() implies !(#[trigger] s[b]).before(#[trigger] s[a]) by {
                if b < k {
                    assert(s[a] == before_ins[a] && s[b] == before_ins[b]);
                } else if b == k {
                    assert(s[a] == before_ins[a]);
                } else if a == k {
                    assert(s[b] == before_ins[b - 1]);
                    if b - 1 == k {
                        T::before_asymmetric(x, before_ins[k as int]);
                    } else {
                        if s[b].before(x) {
                            T::before_transitive(s[b], x, before_ins[k as int]);
                        }
                    }
                } else if a < k {
                    assert(s[a] == before_ins[a] && s[b] == before_ins[b - 1]);
                } else {
                    assert(s[a] == before_ins[a - 1] && s[b] == before_ins[b - 1]);
                }
            }
            let nf = from.insert(k as int, i);
            assert forall|a: int| 0 <= a < s.len() implies 0 <= #[trigger] nf[a] < orig.len() && s[a] == orig[nf[a]] by {
                if a < k {
                    assert(nf[a] == from[a]);
                } else if a > k {
                    assert(nf[a] == from[a - 1]);
                }
            }
            assert forall|a: int, b: int| 0 <= a < b < s.len() implies #[trigger] nf[a] != #[trigger] nf[b] by {
                if a < k && b > k {
                    assert(nf[a] == from[a] && nf[b] == from[b - 1]);
                } else if a < k && b < k {
                    assert(nf[a] == from[a] && nf[b] == from[b]);
                } else if a > k && b > k {
                    assert(nf[a] == from[a - 1] && nf[b] == from[b - 1]);
                } else if a == k {
                    assert(nf[b] == from[b - 1]);
                } else {
                    assert(nf[a] == from[a]);
                }
            }
            assert forall|a: int, b: int|
                0 <= a < b < s.len() && !s[a].before(s[b]) && !s[b].before(s[a]) implies #[trigger] nf[a] < #[trigger] nf[b] by {
                if a < k && b > k {
                    assert(nf[a] == from[a] && nf[b] == from[b - 1]);
                    assert(s[a] == before_ins[a] && s[b] == before_ins[b - 1]);
                } else if a < k && b < k {
                    assert(nf[a] == from[a] && nf[b] == from[b]);
                    assert(s[a] == before_ins[a] && s[b] == before_ins[b]);
                } else if a > k && b > k {
                    assert(nf[a] == from[a - 1] && nf[b] == from[b - 1]);
                    assert(s[a] == before_ins[a - 1] && s[b] == before_ins[b - 1]);
                } else if a == k {
                    assert(nf[b] == from[b - 1]);
                    assert(s[b] == before_ins[b - 1]);
                    assert(x.before(before_ins[k as int]));
                    if b - 1 > k {
                        assert(!before_ins[b - 1].before(before_ins[k as int]));
                        T::before_weak(x, before_ins[k as int], before_ins[b - 1]);
                    }
                } else {
                    assert(nf[a] == from[a]);
                }
            }
            from = nf;
            i = i + 1;
        }
    }
    proof {
        assert(orig.take(i) =~= orig);
    }
    out
}


/// `a` comes before `b` in the order of strings: at the first place they
/// differ, `a` has the smaller character, or `a` is a proper prefix of `b`.
pub open spec fn lex_before(a: Seq<char>, b: Seq<char>) -> bool
    decreases a.len(),
{
    if a.len() == 0 {
        b.len() > 0
    } else if b.len() == 0 {
        false
    } else if a[0] != b[0] {
        a[0] < b[0]
    } else {
        lex_before(a.drop_first(), b.drop_first())
    }
}

pub proof fn lemma_lex_asymmetric(a: Seq<char>, b: Seq<char>)
    requires
        lex_before(a, b),
    ensures
        !lex_before(b, a),
    decreases a.len(),
{
    if a.len() > 0 && b.len() > 0 && a[0] == b[0] {
        lemma_lex_asymmetric(a.drop_first(), b.drop_first());
    }
}

pub proof fn lemma_lex_transitive(a: Seq<char>, b: Seq<char>, c: Seq<char>)
    requires
        lex_before(a, b),
        lex_before(b, c),
    ensures
        lex_before(a, c),
    decreases a.len(),
{
    if a.len() > 0 && b.len() > 0 && c.len() > 0 && a[0] == b[0] && b[0] == c[0] {
        lemma_lex_transitive(a.drop_first(), b.drop_first(), c.drop_first());
    }
}

/// Two strings that neither comes before the other are equal.
pub proof fn lemma_lex_total(a: Seq<char>, b: Seq<char>)
    requires
        !lex_before(a, b),
        !lex_before(b, a),
    ensures
        a == b,
    decreases a.len(),
{
    if a.len() > 0 && b.len() > 0 {
        if a[0] == b[0] {
            lemma_lex_total(a.drop_first(), b.drop_first());
            assert(a =~= seq![a[0]] + a.drop_first());
            assert(b =~= seq![b[0]] + b.drop_first());
        } else {
        }
    } else {
        assert(a.len() == 0 && b.len() == 0);
        assert(a =~= b);
    }
}

pub proof fn lemma_lex_weak(a: Seq<char>, b: Seq<char>, c: Seq<char>)
    requires
        lex_before(a, b),
        !lex_before(c, b),
    ensures
        lex_before(a, c),
{
    if lex_before(b, c) {
        lemma_lex_transitive(a, b, c);
    } else {
        lemma_lex_total(b, c);
    }
}

/// Whether `a` comes before `b` in the order of strings.
pub fn str_before(a: &str, b: &str) -> (r: bool)
    ensures
        r == lex_before(a@, b@),
{
    let x = chars_of(a);
    let y = chars_of(b);
    let mut i: usize = 0;
    assert(x@.skip(0) =~= x@);
    assert(y@.skip(0) =~= y@);
    while i < x.len() && i < y.len() && x[i] == y[i]
        invariant
            i <= x.len(),
            i <= y.len(),
            lex_before(a@, b@) == lex_before(x@.skip(i as int), y@.skip(i as int)),
        decreases x.len() - i,
    {
        proof {
            let xs = x@.skip(i as int);
            let ys = y@.skip(i as int);
            assert(xs.drop_first() =~= x@.skip(i + 1));
            assert(ys.drop_first() =~= y@.skip(i + 1));
        }
        i = i + 1;
    }
    proof {
        let xs = x@.skip(i as int);
        let ys = y@.skip(i as int);
        if i < x.len() && i < y.len() {
            assert(xs[0] == x@[i as int] && ys[0] == y@[i as int]);
        }
    }
    if i == x.len() {
        i < y.len()
    } else if i == y.len() {
        false
    } else {
        x[i] < y[i]
    }
}

impl Ordered for String {
    open spec fn before(self, other: Self) -> bool {
        lex_before(self@, other@)
    }

    proof fn before_asymmetric(a: Self, b: Self) {
        lemma_lex_asymmetric(a@, b@);
    }

    proof fn before_transitive(a: Self, b: Self, c: Self) {
        lemma_lex_transitive(a@, b@, c@);
    }

    proof fn before_weak(a: Self, b: Self, c: Self) {
        lemma_lex_weak(a@, b@, c@);
    }

    fn comes_before(&self, other: &Self) -> (r: bool) {
        str_before(self.as_str(), other.as_str())
    }
}


/// Sequences with the same elements keep the same elements under a map.
pub proof fn lemma_map_multiset<A, B>(a: Seq<A>, b: Seq<A>, f: spec_fn(A) -> B)
    requires
        a.to_multiset() == b.to_multiset(),
    ensures
        a.map_values(f).to_multiset() == b.map_values(f).to_multiset(),
    decreases a.len(),
{
    broadcast use vstd::multiset::group_multiset_axioms;
    vstd::seq_lib::to_multiset_len(a);
    vstd::seq_lib::to_multiset_len(b);
    if a.len() == 0 {
        assert(b.len() == 0);
        assert(a.map_values(f) =~= Seq::<B>::empty());
        assert(b.map_values(f) =~= Seq::<B>::empty());
    } else {
        let x = a.last();
        let ad = a.drop_last();
        assert(a =~= ad.push(x));
        assert(a.to_multiset().count(x) > 0);
        assert(b.to_multiset().count(x) > 0);
        assert(b.contains(x));
        let j = choose|j: int| 0 <= j < b.len() && b[j] == x;
        let br = b.remove(j);
        assert(br.to_multiset() =~= ad.to_multiset());
        lemma_map_multiset(ad, br, f);
        assert(a.map_values(f) =~= ad.map_values(f).push(f(x)));
        assert(b =~= br.insert(j, x));
        assert(b.map_values(f) =~= br.map_values(f).insert(j, f(x)));
    }
}

}
