//! Sorting by a total preorder on keys.

use vstd::prelude::*;

verus! {

/// Values ordered by a key under a total preorder.
pub trait KeyOrder: Sized {
    /// `self`'s key is at most `other`'s.
    spec fn key_le(self, other: Self) -> bool;

    proof fn lemma_key_le_total(a: Self, b: Self)
        ensures
            a.key_le(b) || b.key_le(a),
    ;

    proof fn lemma_key_le_transitive(a: Self, b: Self, c: Self)
        requires
            a.key_le(b),
            b.key_le(c),
        ensures
            a.key_le(c),
    ;

    fn le(&self, other: &Self) -> (r: bool)
        ensures
            r == self.key_le(*other),
    ;
}

/// `s` is in ascending order of keys.
pub open spec fn sorted_by_key<T: KeyOrder>(s: Seq<T>) -> bool {
    forall|i: int, j: int| 0 <= i < j < s.len() ==> s[i].key_le(s[j])
}

/// Two sequences that hold the same elements still do after `f` is applied
/// to each.
pub proof fn lemma_to_multiset_map_values<A, B>(s1: Seq<A>, s2: Seq<A>, f: spec_fn(A) -> B)
    requires
        s1.to_multiset() == s2.to_multiset(),
    ensures
        s1.map_values(f).to_multiset() == s2.map_values(f).to_multiset(),
    decreases s1.len(),
{
    broadcast use vstd::seq_lib::group_to_multiset_ensures;
    broadcast use vstd::multiset::group_multiset_axioms;

    if s1.len() == 0 {
        assert(s2.to_multiset().len() == 0);
        assert(s2.len() == 0);
        assert(s1.map_values(f) =~= s2.map_values(f));
    } else {
        let x = s1.last();
        let t1 = s1.drop_last();
        assert(s1 =~= t1.push(x));
        vstd::seq_lib::to_multiset_build(t1, x);
        assert(s2.to_multiset().count(x) > 0);
        assert(s2.contains(x));
        let i = choose|i: int| 0 <= i < s2.len() && s2[i] == x;
        let t2 = s2.remove(i);
        vstd::seq_lib::to_multiset_remove(s2, i);
        assert(t1.to_multiset() =~= t2.to_multiset());
        lemma_to_multiset_map_values(t1, t2, f);
        assert(s1.map_values(f) =~= t1.map_values(f).push(f(x)));
        vstd::seq_lib::to_multiset_build(t1.map_values(f), f(x));
        assert(t2.map_values(f) =~= s2.map_values(f).remove(i));
        vstd::seq_lib::to_multiset_remove(s2.map_values(f), i);
        assert(s2.map_values(f).to_multiset().count(f(x)) > 0) by {
            assert(s2.map_values(f)[i] == f(x));
        }
        assert(s1.map_values(f).to_multiset() =~= s2.map_values(f).to_multiset());
    }
}

/// The elements of `v`, in ascending order of keys.
pub fn sort_by_key<T: KeyOrder>(v: Vec<T>) -> (r: Vec<T>)
    ensures
        r@.to_multiset() == v@.to_multiset(),
        r@.len() == v@.len(),
        sorted_by_key(r@),
{
    broadcast use vstd::seq_lib::group_to_multiset_ensures;

    let mut rest = v;
    let mut sorted: Vec<T> = Vec::new();
    while rest.len() > 0
        invariant
            rest@.to_multiset().add(sorted@.to_multiset()) == v@.to_multiset(),
            rest@.len() + sorted@.len() == v@.len(),
            sorted_by_key(sorted@),
        decreases rest@.len(),
    {
        let ghost before = rest@;
        let x = rest.pop().unwrap();
        assert(before =~= rest@.push(x));
        let mut p: usize = 0;
        while p < sorted.len() && sorted[p].le(&x)
            invariant
                p <= sorted@.len(),
                forall|i: int| 0 <= i < p ==> sorted@[i].key_le(x),
            decreases sorted@.len() - p,
        {
            p = p + 1;
        }
        let ghost old_sorted = sorted@;
        proof {
            if p < old_sorted.len() {
                T::lemma_key_le_total(old_sorted[p as int], x);
                assert(x.key_le(old_sorted[p as int]));
            }
        }
        sorted.insert(p, x);
        proof {
            vstd::seq_lib::to_multiset_insert(old_sorted, p as int, x);
            vstd::seq_lib::to_multiset_build(rest@, x);
            assert(rest@.to_multiset().add(sorted@.to_multiset()) =~= before.to_multiset().add(
                old_sorted.to_multiset(),
            ));
            assert forall|i: int, j: int| 0 <= i < j < sorted@.len() implies sorted@[i].key_le(
                sorted@[j],
            ) by {
                if j == p {
                } else if i == p {
                    if j - 1 > p {
                        T::lemma_key_le_transitive(x, old_sorted[p as int], old_sorted[j - 1]);
                    }
                } else if i < p && j > p {
                    assert(sorted@[i] == old_sorted[i]);
                    assert(sorted@[j] == old_sorted[j - 1]);
                } else if j < p {
                    assert(sorted@[i] == old_sorted[i]);
                    assert(sorted@[j] == old_sorted[j]);
                } else {
                    assert(sorted@[i] == old_sorted[i - 1]);
                    assert(sorted@[j] == old_sorted[j - 1]);
                }
            }
        }
    }
    proof {
        assert(rest@ =~= Seq::<T>::empty());
    }
    sorted
}

} // verus!
