//! The store keeps its entries in a vector of key-value pairs whose keys are
//! pairwise distinct. This module gives that representation its mathematical
//! reading -- a finite `Map` from key to value -- and the lemmas relating the
//! vector operations to the map operations.

use vstd::prelude::*;

verus! {

/// The keys of the pair sequence are pairwise distinct.
pub open spec fn unique_keys<V>(ps: Seq<(Seq<char>, V)>) -> bool {
    forall|i: int, j: int| 0 <= i < j < ps.len() ==> ps[i].0 != ps[j].0
}

/// Some pair of the sequence carries the key `k`.
pub open spec fn has_key<V>(ps: Seq<(Seq<char>, V)>, k: Seq<char>) -> bool {
    exists|i: int| 0 <= i < ps.len() && ps[i].0 == k
}

/// The mapping read off the pair sequence, later pairs shadowing earlier
/// ones (with distinct keys nothing is shadowed).
pub open spec fn pairs_map<V>(ps: Seq<(Seq<char>, V)>) -> Map<Seq<char>, V>
    decreases ps.len(),
{
    if ps.len() == 0 {
        Map::empty()
    } else {
        pairs_map(ps.drop_last()).insert(ps.last().0, ps.last().1)
    }
}

/// The views of a vector of owned pairs, key and value both by `View`.
pub open spec fn str_pairs<T: View>(vs: Seq<(String, T)>) -> Seq<(Seq<char>, T::V)> {
    vs.map(|i: int, p: (String, T)| (p.0@, p.1@))
}

pub proof fn lemma_pairs_map_domain<V>(ps: Seq<(Seq<char>, V)>)
    ensures
        forall|k: Seq<char>| #[trigger] pairs_map(ps).contains_key(k) <==> has_key(ps, k),
    decreases ps.len(),
{
    if ps.len() > 0 {
        lemma_pairs_map_domain(ps.drop_last());
        assert forall|k: Seq<char>| #[trigger] pairs_map(ps).contains_key(k) implies has_key(
            ps,
            k,
        ) by {
            if k == ps.last().0 {
                assert(ps[ps.len() - 1].0 == k);
            } else {
                assert(pairs_map(ps.drop_last()).contains_key(k));
                assert(has_key(ps.drop_last(), k));
                let i = choose|i: int| 0 <= i < ps.drop_last().len() && ps.drop_last()[i].0 == k;
                assert(ps.drop_last()[i] == ps[i]);
                assert(ps[i].0 == k);
            }
        }
        assert forall|k: Seq<char>| has_key(ps, k) implies #[trigger] pairs_map(
            ps,
        ).contains_key(k) by {
            let i = choose|i: int| 0 <= i < ps.len() && ps[i].0 == k;
            if i < ps.len() - 1 {
                assert(ps.drop_last()[i] == ps[i]);
                assert(has_key(ps.drop_last(), k));
                assert(pairs_map(ps.drop_last()).contains_key(k));
            } else {
                assert(ps.last().0 == k);
            }
        }
    }
}

pub proof fn lemma_pairs_map_index<V>(ps: Seq<(Seq<char>, V)>, i: int)
    requires
        unique_keys(ps),
        0 <= i < ps.len(),
    ensures
        pairs_map(ps).contains_key(ps[i].0),
        pairs_map(ps)[ps[i].0] == ps[i].1,
    decreases ps.len(),
{
    lemma_pairs_map_domain(ps);
    if i == ps.len() - 1 {
    } else {
        assert(ps[i].0 != ps.last().0);
        assert(ps.drop_last()[i] == ps[i]);
        lemma_pairs_map_index(ps.drop_last(), i);
    }
}

pub proof fn lemma_pairs_map_len<V>(ps: Seq<(Seq<char>, V)>)
    requires
        unique_keys(ps),
    ensures
        pairs_map(ps).dom().finite(),
        pairs_map(ps).len() == ps.len(),
    decreases ps.len(),
{
    if ps.len() > 0 {
        lemma_pairs_map_len(ps.drop_last());
        lemma_pairs_map_domain(ps.drop_last());
        assert(!has_key(ps.drop_last(), ps.last().0)) by {
            if has_key(ps.drop_last(), ps.last().0) {
                let i = choose|i: int|
                    0 <= i < ps.drop_last().len() && ps.drop_last()[i].0 == ps.last().0;
                assert(ps[i].0 == ps[ps.len() - 1].0);
            }
        }
    }
}

pub proof fn lemma_pairs_map_remove<V>(ps: Seq<(Seq<char>, V)>, i: int)
    requires
        unique_keys(ps),
        0 <= i < ps.len(),
    ensures
        unique_keys(ps.remove(i)),
        pairs_map(ps.remove(i)) == pairs_map(ps).remove(ps[i].0),
    decreases ps.len(),
{
    let qs = ps.remove(i);
    assert(unique_keys(qs)) by {
        assert(forall|j: int| 0 <= j < i ==> qs[j] == ps[j]);
        assert(forall|j: int| i <= j < qs.len() ==> qs[j] == ps[j + 1]);
    }
    lemma_pairs_map_domain(ps.drop_last());
    if i == ps.len() - 1 {
        assert(qs =~= ps.drop_last());
        assert(!pairs_map(ps.drop_last()).contains_key(ps.last().0)) by {
            if has_key(ps.drop_last(), ps.last().0) {
                let j = choose|j: int|
                    0 <= j < ps.drop_last().len() && ps.drop_last()[j].0 == ps.last().0;
                assert(ps[j].0 == ps[ps.len() - 1].0);
            }
        }
        assert(pairs_map(qs) =~= pairs_map(ps).remove(ps[i].0));
    } else {
        assert(qs.drop_last() =~= ps.drop_last().remove(i));
        assert(qs.last() == ps.last());
        assert(ps.drop_last()[i] == ps[i]);
        lemma_pairs_map_remove(ps.drop_last(), i);
        assert(ps[i].0 != ps.last().0);
        assert(pairs_map(qs) =~= pairs_map(ps).remove(ps[i].0));
    }
}

/// Returns the position of the pair that carries the key `k`, if any.
pub(crate) fn find_key<T>(vs: &Vec<(String, T)>, k: &String) -> (r: Option<usize>)
    ensures
        match r {
            Some(i) => 0 <= i < vs@.len() && vs@[i as int].0@ == k@,
            None => forall|j: int| 0 <= j < vs@.len() ==> vs@[j].0@ != k@,
        },
{
    let mut i: usize = 0;
    while i < vs.len()
        invariant
            0 <= i <= vs@.len(),
            forall|j: int| 0 <= j < i ==> vs@[j].0@ != k@,
        decreases vs@.len() - i,
    {
        if vs[i].0 == *k {
            return Some(i);
        }
        i = i + 1;
    }
    None
}

} // verus!
