//! A small association map from session identifiers to values, with unique
//! keys.  Every cache of the store is one of these; its view is a
//! mathematical `Map` from character sequences.

use vstd::prelude::*;
use crate::text::str_eq;

verus! {

/// An association map keyed by strings.
pub struct AList<V> {
    pub pairs: Vec<(String, V)>,
}

/// The map a pair sequence denotes, later pairs shadowing earlier ones.
pub open spec fn pairs_map<V>(ps: Seq<(String, V)>) -> Map<Seq<char>, V>
    decreases ps.len(),
{
    if ps.len() == 0 {
        Map::empty()
    } else {
        pairs_map(ps.drop_last()).insert(ps.last().0@, ps.last().1)
    }
}

/// Every key of the map comes from some pair, and the other way round.
pub proof fn lemma_pairs_map_contains<V>(ps: Seq<(String, V)>, x: Seq<char>)
    ensures
        pairs_map(ps).contains_key(x) <==> exists|i: int|
            0 <= i < ps.len() && #[trigger] (ps[i].0@) == x,
    decreases ps.len(),
{
    if ps.len() > 0 {
        lemma_pairs_map_contains(ps.drop_last(), x);
        if ps.last().0@ == x {
            assert(ps[ps.len() - 1].0@ == x);
        } else {
            if pairs_map(ps).contains_key(x) {
                let i = choose|i: int|
                    0 <= i < ps.drop_last().len() && #[trigger] (ps.drop_last()[i].0@) == x;
                assert(ps[i].0@ == x);
            }
            if exists|i: int| 0 <= i < ps.len() && #[trigger] (ps[i].0@) == x {
                let i = choose|i: int| 0 <= i < ps.len() && #[trigger] (ps[i].0@) == x;
                assert(ps.drop_last()[i].0@ == x);
            }
        }
    }
}

/// Unique keys, as a predicate on the raw pairs.
pub open spec fn pairs_unique<V>(ps: Seq<(String, V)>) -> bool {
    forall|a: int, b: int| 0 <= a < b < ps.len() ==> (#[trigger] ps[a].0@) != (#[trigger] ps[b].0@)
}

/// With unique keys, the map sends each pair's key to that pair's value.
pub proof fn lemma_pairs_map_index<V>(ps: Seq<(String, V)>, i: int)
    requires
        0 <= i < ps.len(),
        pairs_unique(ps),
    ensures
        pairs_map(ps).contains_key(ps[i].0@),
        pairs_map(ps)[ps[i].0@] == ps[i].1,
    decreases ps.len(),
{
    if i == ps.len() - 1 {
    } else {
        assert(pairs_unique(ps.drop_last())) by {
            assert(forall|a: int, b: int|
                0 <= a < b < ps.drop_last().len() ==> (#[trigger] ps.drop_last()[a].0@) == ps[a].0@
                    && (#[trigger] ps.drop_last()[b].0@) == ps[b].0@);
        }
        lemma_pairs_map_index(ps.drop_last(), i);
        assert(ps[i].0@ != ps.last().0@);
    }
}

/// Replacing the pair whose key is `k` updates the map at `k`.
proof fn lemma_pairs_map_update<V>(ps: Seq<(String, V)>, i: int, k: String, v: V)
    requires
        0 <= i < ps.len(),
        pairs_unique(ps),
        ps[i].0@ == k@,
    ensures
        pairs_map(ps.update(i, (k, v))) =~= pairs_map(ps).insert(k@, v),
    decreases ps.len(),
{
    let ps2 = ps.update(i, (k, v));
    if i == ps.len() - 1 {
        assert(ps2.drop_last() =~= ps.drop_last());
        assert(ps2.last() == (k, v));
    } else {
        assert(ps2.drop_last() =~= ps.drop_last().update(i, (k, v)));
        assert(ps2.last() == ps.last());
        assert(pairs_unique(ps.drop_last())) by {
            assert(forall|a: int, b: int|
                0 <= a < b < ps.drop_last().len() ==> (#[trigger] ps.drop_last()[a].0@) == ps[a].0@
                    && (#[trigger] ps.drop_last()[b].0@) == ps[b].0@);
        }
        assert(ps.drop_last()[i] == ps[i]);
        lemma_pairs_map_update(ps.drop_last(), i, k, v);
        assert(ps.last().0@ != k@);
    }
}

/// Removing the pair whose key is `k` removes `k` from the map.
proof fn lemma_pairs_map_remove<V>(ps: Seq<(String, V)>, i: int)
    requires
        0 <= i < ps.len(),
        pairs_unique(ps),
    ensures
        pairs_map(ps.remove(i)) =~= pairs_map(ps).remove(ps[i].0@),
    decreases ps.len(),
{
    let k = ps[i].0@;
    let ps2 = ps.remove(i);
    assert(pairs_unique(ps.drop_last())) by {
        assert(forall|a: int, b: int|
            0 <= a < b < ps.drop_last().len() ==> (#[trigger] ps.drop_last()[a].0@) == ps[a].0@ && (
            #[trigger] ps.drop_last()[b].0@) == ps[b].0@);
    }
    if i == ps.len() - 1 {
        assert(ps2 =~= ps.drop_last());
        lemma_pairs_map_contains(ps.drop_last(), k);
        assert(!pairs_map(ps.drop_last()).contains_key(k));
    } else {
        assert(ps2.drop_last() =~= ps.drop_last().remove(i));
        assert(ps2.last() == ps.last());
        assert(ps.drop_last()[i] == ps[i]);
        lemma_pairs_map_remove(ps.drop_last(), i);
        assert(ps.last().0@ != k);
    }
}

impl<V> AList<V> {
    /// Keys occur at most once.
    pub open spec fn wf(&self) -> bool {
        pairs_unique(self.pairs@)
    }

    /// The map this list denotes.
    pub open spec fn view(&self) -> Map<Seq<char>, V> {
        pairs_map(self.pairs@)
    }

    /// An empty map.
    pub fn new() -> (r: Self)
        ensures
            r.wf(),
            r@ == Map::<Seq<char>, V>::empty(),
    {
        AList { pairs: Vec::new() }
    }

    /// The position of the binding of `k`, if any.
    fn find(&self, k: &String) -> (r: Option<usize>)
        ensures
            r matches Some(i) ==> i < self.pairs@.len() && self.pairs@[i as int].0@ == k@,
            r is None ==> forall|j: int| 0 <= j < self.pairs@.len() ==> (#[trigger] self.pairs@[j].0@)
                != k@,
    {
        let mut i: usize = 0;
        while i < self.pairs.len()
            invariant
                i <= self.pairs@.len(),
                forall|j: int| 0 <= j < i ==> (#[trigger] self.pairs@[j].0@) != k@,
            decreases self.pairs@.len() - i,
        {
            if str_eq(self.pairs[i].0.as_str(), k.as_str()) {
                return Option::Some(i);
            }
            i = i + 1;
        }
        Option::None
    }

    /// Whether `k` is bound.
    pub fn contains(&self, k: &String) -> (r: bool)
        ensures
            r == self@.contains_key(k@),
    {
        proof {
            lemma_pairs_map_contains(self.pairs@, k@);
        }
        self.find(k).is_some()
    }

    /// Look `k` up.
    pub fn get(&self, k: &String) -> (r: Option<&V>)
        requires
            self.wf(),
        ensures
            r is Some <==> self@.contains_key(k@),
            r matches Some(v) ==> self@.contains_key(k@) && self@[k@] == *v,
    {
        proof {
            lemma_pairs_map_contains(self.pairs@, k@);
        }
        match self.find(k) {
            Option::Some(i) => {
                proof {
                    lemma_pairs_map_index(self.pairs@, i as int);
                }
                Option::Some(&self.pairs[i].1)
            },
            Option::None => Option::None,
        }
    }

    /// Bind `k` to `v`, replacing any earlier binding.
    pub fn insert(&mut self, k: String, v: V)
        requires
            old(self).wf(),
        ensures
            final(self).wf(),
            final(self)@ == old(self)@.insert(k@, v),
    {
        let ghost ps = self.pairs@;
        match self.find(&k) {
            Option::Some(i) => {
                proof {
                    lemma_pairs_map_update(ps, i as int, k, v);
                }
                self.pairs[i] = (k, v);
                proof {
                    assert(self.wf()) by {
                        assert(forall|j: int|
                            0 <= j < self.pairs@.len() ==> (#[trigger] self.pairs@[j].0@) == ps[j].0@);
                    }
                }
            },
            Option::None => {
                proof {
                    lemma_pairs_map_contains(ps, k@);
                }
                self.pairs.push((k, v));
                proof {
                    assert(self.pairs@.drop_last() =~= ps);
                }
            },
        }
    }

    /// Drop any binding of `k`.
    pub fn remove(&mut self, k: &String)
        requires
            old(self).wf(),
        ensures
            final(self).wf(),
            final(self)@ == old(self)@.remove(k@),
    {
        let ghost ps = self.pairs@;
        match self.find(k) {
            Option::Some(i) => {
                proof {
                    lemma_pairs_map_remove(ps, i as int);
                }
                let _dropped = self.pairs.remove(i);
                proof {
                    assert(self.pairs@ =~= ps.remove(i as int));
                    assert(self.wf()) by {
                        assert(forall|j: int|
                            0 <= j < self.pairs@.len() ==> (#[trigger] self.pairs@[j].0@) == (
                            if j < i { ps[j].0@ } else { ps[j + 1].0@ }));
                    }
                }
            },
            Option::None => {
                proof {
                    lemma_pairs_map_contains(ps, k@);
                    assert(pairs_map(ps).remove(k@) =~= pairs_map(ps));
                }
            },
        }
    }
}

} // verus!
