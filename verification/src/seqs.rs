use vstd::prelude::*;

use vstd::multiset::Multiset;
use vstd::seq_lib::group_to_multiset_ensures;

verus! {

/// An empty sequence holds no elements as a multiset either.
pub proof fn lemma_to_multiset_empty<A>(s: Seq<A>)
    requires
        s.len() == 0,
    ensures
        s.to_multiset() == Multiset::<A>::empty(),
{
    broadcast use group_to_multiset_ensures;
    broadcast use vstd::multiset::group_multiset_axioms;

    assert forall|a: A| s.to_multiset().count(a) == 0 by {
        assert(!s.contains(a));
    }
    assert(s.to_multiset() =~= Multiset::<A>::empty());
}

/// Mapping a function over two sequences that hold the same elements (as a
/// multiset) yields sequences that again hold the same elements.
pub proof fn lemma_map_preserves_multiset<A, B>(s1: Seq<A>, s2: Seq<A>, f: spec_fn(A) -> B)
    requires
        s1.to_multiset() == s2.to_multiset(),
    ensures
        s1.map_values(f).to_multiset() == s2.map_values(f).to_multiset(),
    decreases s1.len(),
{
    broadcast use group_to_multiset_ensures;

    assert(s1.len() == s1.to_multiset().len());
    assert(s2.len() == s2.to_multiset().len());
    if s1.len() == 0 {
        assert(s1 =~= s2);
    } else {
        let a = s1.last();
        let n1 = s1.len() - 1;
        assert(s1[n1] == a);
        assert(s1.to_multiset().count(a) > 0);
        assert(s2.to_multiset().count(a) > 0);
        let j = choose|j: int| 0 <= j < s2.len() && s2[j] == a;
        assert(s1.remove(n1).to_multiset() == s1.to_multiset().remove(a));
        assert(s2.remove(j).to_multiset() == s2.to_multiset().remove(a));
        assert(s1.remove(n1) =~= s1.drop_last());
        lemma_map_preserves_multiset(s1.drop_last(), s2.remove(j), f);
        let m1 = s1.map_values(f);
        let m2 = s2.map_values(f);
        assert(m1 =~= s1.drop_last().map_values(f).push(f(a)));
        assert(m1.to_multiset() == s1.drop_last().map_values(f).to_multiset().insert(f(a)));
        assert(s2.remove(j).map_values(f) =~= m2.remove(j));
        assert(m2.remove(j).to_multiset() == m2.to_multiset().remove(m2[j]));
        assert(m2[j] == f(a));
        assert(m2.to_multiset().count(f(a)) > 0) by {
            assert(m2.contains(m2[j]));
        }
        assert(m2.to_multiset() =~= m2.to_multiset().remove(f(a)).insert(f(a)));
        assert(m1.to_multiset() == m2.to_multiset());
    }
}

} // verus!
