//! Which positions of a sequence a selection keeps, in order.
use vstd::prelude::*;

verus! {

/// `from` lists, in increasing order, exactly the positions below `n` at
/// which `keep` holds.
pub open spec fn picks(from: Seq<int>, n: int, keep: spec_fn(int) -> bool) -> bool {
    &&& forall|k: int| 0 <= k < from.len() ==> 0 <= #[trigger] from[k] < n && keep(from[k])
    &&& forall|k: int, l: int| 0 <= k < l < from.len() ==> #[trigger] from[k] < #[trigger] from[l]
    &&& forall|i: int| 0 <= i < n && #[trigger] keep(i) ==> exists|k: int| 0 <= k < from.len() && #[trigger] from[k] == i
}

/// No position below zero is kept.
pub proof fn lemma_picks_none(keep: spec_fn(int) -> bool)
    ensures
        picks(Seq::<int>::empty(), 0, keep),
{
}

/// One more position: it is added where `keep` holds.
pub proof fn lemma_picks_next(from: Seq<int>, n: int, keep: spec_fn(int) -> bool)
    requires
        picks(from, n, keep),
        0 <= n,
    ensures
        keep(n) ==> picks(from.push(n), n + 1, keep),
        !keep(n) ==> picks(from, n + 1, keep),
{
    if keep(n) {
        let f = from.push(n);
        assert forall|i: int| 0 <= i < n + 1 && #[trigger] keep(i) implies exists|k: int| 0 <= k < f.len() && #[trigger] f[k] == i by {
            if i == n {
                assert(f[from.len() as int] == n);
            } else {
                let k = choose|k: int| 0 <= k < from.len() && #[trigger] from[k] == i;
                assert(f[k] == i);
            }
        }
        assert forall|k: int, l: int| 0 <= k < l < f.len() implies #[trigger] f[k] < #[trigger] f[l] by {
            if l == from.len() {
                assert(f[k] == from[k]);
            } else {
                assert(f[k] == from[k] && f[l] == from[l]);
            }
        }
        assert forall|k: int| 0 <= k < f.len() implies 0 <= #[trigger] f[k] < n + 1 && keep(f[k]) by {
            if k < from.len() {
                assert(f[k] == from[k]);
            }
        }
    } else {
        assert forall|i: int| 0 <= i < n + 1 && #[trigger] keep(i) implies exists|k: int| 0 <= k < from.len() && #[trigger] from[k] == i by {
            assert(i != n);
        }
    }
}

}
