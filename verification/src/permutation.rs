//! Lists that hold the same entries in another order.

use vstd::prelude::*;
use vstd::seq_lib::*;

verus! {

/// Lists that hold the same entries, each as often, still do so after one
/// function is applied to every entry.
pub proof fn lemma_map_multiset<A, B>(x: Seq<A>, y: Seq<A>, f: spec_fn(A) -> B)
    requires
        x.to_multiset() == y.to_multiset(),
    ensures
        x.map_values(f).to_multiset() == y.map_values(f).to_multiset(),
    decreases x.len(),
{
    broadcast use vstd::multiset::group_multiset_axioms;
    broadcast use group_to_multiset_ensures;

    to_multiset_len(x);
    to_multiset_len(y);
    if x.len() == 0 {
        assert(x.map_values(f) =~= y.map_values(f));
    } else {
        let a = x[0];
        assert(x.contains(a));
        assert(y.to_multiset().count(a) > 0);
        assert(y.contains(a));
        let i = choose|i: int| 0 <= i < y.len() && y[i] == a;
        let x1 = x.remove(0);
        let y1 = y.remove(i);
        to_multiset_remove(x, 0);
        to_multiset_remove(y, i);
        lemma_map_multiset(x1, y1, f);
        assert(x.map_values(f) =~= x1.map_values(f).insert(0, f(a)));
        assert(y.map_values(f) =~= y1.map_values(f).insert(i, f(a)));
        to_multiset_insert(x1.map_values(f), 0, f(a));
        to_multiset_insert(y1.map_values(f), i, f(a));
    }
}

} // verus!
