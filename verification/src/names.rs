//! A map from names to values, kept as a list of entries.
//!
//! The entry that comes last for a name gives its value, as each `insert`
//! into a `HashMap` replaces the value before it.

use vstd::prelude::*;

verus! {

/// The map that the entries `es` stand for: each entry inserts its value
/// under its name, in order.
pub open spec fn map_of<V>(es: Seq<(String, V)>) -> Map<Seq<char>, V>
    decreases es.len(),
{
    if es.len() == 0 {
        Map::empty()
    } else {
        map_of(es.drop_last()).insert(es.last().0@, es.last().1)
    }
}

/// `i` is the last entry of `es` that holds the name `k`.
pub open spec fn is_last_of<V>(es: Seq<(String, V)>, i: int, k: Seq<char>) -> bool {
    &&& 0 <= i < es.len()
    &&& es[i].0@ == k
    &&& forall|j: int| i < j < es.len() ==> es[j].0@ != k
}

pub proof fn lemma_map_of_dom<V>(es: Seq<(String, V)>, k: Seq<char>)
    ensures
        map_of(es).dom().contains(k) <==> exists|i: int| 0 <= i < es.len() && es[i].0@ == k,
    decreases es.len(),
{
    if es.len() > 0 {
        lemma_map_of_dom(es.drop_last(), k);
        if map_of(es).dom().contains(k) && es.last().0@ != k {
            let i = choose|i: int| 0 <= i < es.drop_last().len() && es.drop_last()[i].0@ == k;
            assert(es[i].0@ == k);
        }
        if exists|i: int| 0 <= i < es.len() && es[i].0@ == k {
            let i = choose|i: int| 0 <= i < es.len() && es[i].0@ == k;
            if i < es.len() - 1 {
                assert(es.drop_last()[i].0@ == k);
            }
        }
    }
}

pub proof fn lemma_map_of_last<V>(es: Seq<(String, V)>, i: int, k: Seq<char>)
    requires
        is_last_of(es, i, k),
    ensures
        map_of(es).dom().contains(k),
        map_of(es)[k] == es[i].1,
    decreases es.len(),
{
    if i < es.len() - 1 {
        assert(is_last_of(es.drop_last(), i, k));
        lemma_map_of_last(es.drop_last(), i, k);
    }
}

pub proof fn lemma_map_of_update<V>(es: Seq<(String, V)>, i: int, e: (String, V))
    requires
        is_last_of(es, i, e.0@),
    ensures
        map_of(es.update(i, e)) == map_of(es).insert(e.0@, e.1),
    decreases es.len(),
{
    let us = es.update(i, e);
    if i == es.len() - 1 {
        assert(us.drop_last() =~= es.drop_last());
    } else {
        assert(us.drop_last() =~= es.drop_last().update(i, e));
        assert(is_last_of(es.drop_last(), i, e.0@));
        lemma_map_of_update(es.drop_last(), i, e);
        assert(map_of(us) =~= map_of(es).insert(e.0@, e.1));
    }
}

pub proof fn lemma_map_of_push<V>(es: Seq<(String, V)>, e: (String, V))
    ensures
        map_of(es.push(e)) == map_of(es).insert(e.0@, e.1),
{
    assert(es.push(e).drop_last() =~= es);
}

/// Names mapped to values.
pub struct NameMap<V> {
    entries: Vec<(String, V)>,
}

impl<V> NameMap<V> {
    pub closed spec fn entries(&self) -> Seq<(String, V)> {
        self.entries@
    }

    /// What the map holds.
    pub open spec fn map(&self) -> Map<Seq<char>, V> {
        map_of(self.entries())
    }

    pub fn new() -> (m: NameMap<V>)
        ensures
            m.map() == Map::<Seq<char>, V>::empty(),
    {
        NameMap { entries: Vec::new() }
    }

    /// The index of the last entry for `k`, if any.
    fn find(&self, k: &String) -> (r: Option<usize>)
        ensures
            match r {
                Some(i) => is_last_of(self.entries(), i as int, k@),
                None => forall|j: int| 0 <= j < self.entries().len() ==> self.entries()[j].0@ != k@,
            },
    {
        let mut i = self.entries.len();
        while i > 0
            invariant
                i <= self.entries@.len(),
                forall|j: int| i <= j < self.entries@.len() ==> self.entries@[j].0@ != k@,
            decreases i,
        {
            i = i - 1;
            if self.entries[i].0 == *k {
                return Some(i);
            }
        }
        None
    }

    pub fn contains_key(&self, k: &String) -> (r: bool)
        ensures
            r == self.map().dom().contains(k@),
    {
        proof {
            lemma_map_of_dom(self.entries(), k@);
        }
        match self.find(k) {
            Some(i) => true,
            None => false,
        }
    }

    pub fn get(&self, k: &String) -> (r: Option<&V>)
        ensures
            match r {
                Some(v) => self.map().dom().contains(k@) && *v == self.map()[k@],
                None => !self.map().dom().contains(k@),
            },
    {
        proof {
            lemma_map_of_dom(self.entries(), k@);
        }
        match self.find(k) {
            Some(i) => {
                proof {
                    lemma_map_of_last(self.entries(), i as int, k@);
                }
                Some(&self.entries[i].1)
            },
            None => None,
        }
    }

    pub fn insert(&mut self, k: String, v: V)
        ensures
            final(self).map() == old(self).map().insert(k@, v),
    {
        match self.find(&k) {
            Some(i) => {
                proof {
                    lemma_map_of_update(self.entries(), i as int, (k, v));
                }
                self.entries.set(i, (k, v));
            },
            None => {
                proof {
                    lemma_map_of_push(self.entries(), (k, v));
                }
                self.entries.push((k, v));
            },
        }
    }

    /// The names that the map holds.
    pub fn keys(&self) -> (r: Vec<String>)
        ensures
            forall|k: Seq<char>|
                self.map().dom().contains(k) <==> exists|i: int| 0 <= i < r@.len() && #[trigger] r@[i]@ == k,
    {
        let mut r: Vec<String> = Vec::new();
        let mut i: usize = 0;
        while i < self.entries.len()
            invariant
                i <= self.entries@.len(),
                r@.len() == i,
                forall|j: int| 0 <= j < i ==> #[trigger] r@[j]@ == self.entries@[j].0@,
            decreases self.entries@.len() - i,
        {
            r.push(self.entries[i].0.clone());
            i = i + 1;
        }
        proof {
            assert forall|k: Seq<char>|
                self.map().dom().contains(k) <==> exists|i: int| 0 <= i < r@.len() && #[trigger] r@[i]@ == k by {
                lemma_map_of_dom(self.entries(), k);
                if exists|i: int| 0 <= i < r@.len() && #[trigger] r@[i]@ == k {
                    let i = choose|i: int| 0 <= i < r@.len() && #[trigger] r@[i]@ == k;
                    assert(self.entries()[i].0@ == k);
                }
                if self.map().dom().contains(k) {
                    let i = choose|i: int| 0 <= i < self.entries().len() && self.entries()[i].0@ == k;
                    assert(r@[i]@ == k);
                }
            }
        }
        r
    }
}

} // verus!
