//! A scope: names bound to values, each name at most once.
use vstd::prelude::*;
use crate::interpreter::model::{assign, lookup};

verus! {

/// A scope of bindings, kept as a list in which no name occurs twice.
pub struct Scope<T> {
    pub entries: Vec<(String, T)>,
}

/// No name occurs twice among the entries.
pub open spec fn distinct_names<T>(e: Seq<(String, T)>) -> bool {
    forall|i: int, j: int| 0 <= i < j < e.len() ==> e[i].0@ != e[j].0@
}

/// The bindings of a list of entries, as a map.
pub open spec fn entries_map<T: View>(e: Seq<(String, T)>) -> Map<Seq<char>, T::V>
    decreases e.len(),
{
    if e.len() == 0 {
        Map::empty()
    } else {
        entries_map(e.drop_last()).insert(e.last().0@, e.last().1@)
    }
}

pub proof fn lemma_entries_map<T: View>(e: Seq<(String, T)>)
    requires
        distinct_names(e),
    ensures
        forall|k: Seq<char>| #[trigger] entries_map(e).contains_key(k) <==> exists|i: int| 0 <= i < e.len() && e[i].0@ == k,
        forall|i: int| 0 <= i < e.len() ==> #[trigger] entries_map(e)[e[i].0@] == e[i].1@,
    decreases e.len(),
{
    if e.len() > 0 {
        let p = e.drop_last();
        let n = e.len() - 1;
        assert(p.len() == n);
        assert(forall|i: int| 0 <= i < n ==> p[i] == e[i]);
        assert(distinct_names(p));
        lemma_entries_map(p);
        let last = e[n];
        assert(entries_map(e) == entries_map(p).insert(last.0@, last.1@));
        assert forall|k: Seq<char>| #[trigger] entries_map(e).contains_key(k) implies exists|i: int| 0 <= i < e.len() && e[i].0@ == k by {
            if k == last.0@ {
                assert(e[n].0@ == k);
            } else {
                assert(entries_map(p).contains_key(k));
                let i = choose|i: int| 0 <= i < p.len() && p[i].0@ == k;
                assert(e[i].0@ == k);
            }
        }
        assert forall|k: Seq<char>| (exists|i: int| 0 <= i < e.len() && e[i].0@ == k) implies #[trigger] entries_map(e).contains_key(k) by {
            let i = choose|i: int| 0 <= i < e.len() && e[i].0@ == k;
            if i < n {
                assert(p[i].0@ == k);
                assert(entries_map(p).contains_key(k));
            }
        }
        assert forall|i: int| 0 <= i < e.len() implies #[trigger] entries_map(e)[e[i].0@] == e[i].1@ by {
            if i < n {
                assert(e[i].0@ != last.0@);
                assert(entries_map(p)[p[i].0@] == p[i].1@);
            }
        }
    }
}

/// Replacing the value of an entry rebinds its name.
pub proof fn lemma_entries_update<T: View>(e: Seq<(String, T)>, i: int, v: T)
    requires
        distinct_names(e),
        0 <= i < e.len(),
    ensures
        distinct_names(e.update(i, (e[i].0, v))),
        entries_map(e.update(i, (e[i].0, v))) == entries_map(e).insert(e[i].0@, v@),
{
    let e2 = e.update(i, (e[i].0, v));
    lemma_entries_map(e);
    lemma_entries_map(e2);
    assert(entries_map(e2) =~= entries_map(e).insert(e[i].0@, v@)) by {
        assert forall|k: Seq<char>| entries_map(e2).contains_key(k) <==> entries_map(e).insert(e[i].0@, v@).contains_key(k) by {
            if entries_map(e2).contains_key(k) {
                let j = choose|j: int| 0 <= j < e2.len() && e2[j].0@ == k;
                assert(e[j].0@ == k);
            }
            if entries_map(e).contains_key(k) {
                let j = choose|j: int| 0 <= j < e.len() && e[j].0@ == k;
                assert(e2[j].0@ == k);
            }
            if k == e[i].0@ {
                assert(e2[i].0@ == k);
            }
        }
        assert forall|k: Seq<char>| #[trigger] entries_map(e2).contains_key(k) implies entries_map(e2)[k] == entries_map(e).insert(e[i].0@, v@)[k] by {
            let j = choose|j: int| 0 <= j < e2.len() && e2[j].0@ == k;
            assert(entries_map(e2)[e2[j].0@] == e2[j].1@);
            if j != i {
                assert(entries_map(e)[e[j].0@] == e[j].1@);
            }
        }
    }
}

impl<T: View> View for Scope<T> {
    type V = Map<Seq<char>, T::V>;

    open spec fn view(&self) -> Map<Seq<char>, T::V> {
        entries_map(self.entries@)
    }
}

impl<T: View> Scope<T> {
    /// No name occurs twice.
    pub open spec fn wf(&self) -> bool {
        distinct_names(self.entries@)
    }

    /// An empty scope.
    pub fn new() -> (r: Self)
        ensures
            r.wf(),
            r@ == Map::<Seq<char>, T::V>::empty(),
    {
        Scope { entries: Vec::new() }
    }

    /// The position of the entry for `k`, if there is one.
    pub fn find(&self, k: &String) -> (r: Option<usize>)
        requires
            self.wf(),
        ensures
            match r {
                Some(i) => i < self.entries@.len() && self.entries@[i as int].0@ == k@ && self@.contains_key(k@)
                    && self@[k@] == self.entries@[i as int].1@,
                None => !self@.contains_key(k@),
            },
    {
        proof {
            lemma_entries_map(self.entries@);
        }
        let mut i: usize = 0;
        while i < self.entries.len()
            invariant
                i <= self.entries@.len(),
                self.wf(),
                forall|j: int| 0 <= j < i ==> self.entries@[j].0@ != k@,
            decreases self.entries@.len() - i,
        {
            if self.entries[i].0 == *k {
                proof {
                    lemma_entries_map(self.entries@);
                }
                return Some(i);
            }
            i += 1;
        }
        proof {
            lemma_entries_map(self.entries@);
        }
        None
    }

    /// The value bound to `k`, if any.
    pub fn get(&self, k: &String) -> (r: Option<&T>)
        requires
            self.wf(),
        ensures
            match r {
                Some(v) => self@.contains_key(k@) && self@[k@] == v@,
                None => !self@.contains_key(k@),
            },
    {
        match self.find(k) {
            Some(i) => Some(&self.entries[i].1),
            None => None,
        }
    }

    /// Binds `k` to `v`, in place of any earlier binding of `k`.
    pub fn insert(&mut self, k: String, v: T)
        requires
            old(self).wf(),
        ensures
            final(self).wf(),
            final(self)@ == old(self)@.insert(k@, v@),
    {
        proof {
            lemma_entries_map(self.entries@);
        }
        match self.find(&k) {
            Some(i) => {
                proof {
                    lemma_entries_update(self.entries@, i as int, v);
                }
                let ghost e = self.entries@;
                let name = self.entries[i].0.clone();
                self.entries.set(i, (name, v));
                assert(self.entries@ == e.update(i as int, (e[i as int].0, v)));
            },
            None => {
                let ghost e = self.entries@;
                self.entries.push((k, v));
                assert(self.entries@.drop_last() == e);
                assert(distinct_names(self.entries@)) by {
                    assert forall|a: int, b: int| 0 <= a < b < self.entries@.len() implies self.entries@[a].0@
                        != self.entries@[b].0@ by {
                        if b == e.len() {
                            assert(entries_map(e).contains_key(e[a].0@));
                        }
                    }
                }
            },
        }
    }
}

/// The innermost position, below `n`, of a scope that binds `k`.
pub open spec fn innermost<V>(scopes: Seq<Map<Seq<char>, V>>, k: Seq<char>, n: int) -> Option<int>
    decreases n,
{
    if n <= 0 || n > scopes.len() {
        None
    } else if scopes[n - 1].contains_key(k) {
        Some(n - 1)
    } else {
        innermost(scopes, k, n - 1)
    }
}

pub proof fn lemma_lookup_innermost<V>(scopes: Seq<Map<Seq<char>, V>>, k: Seq<char>)
    ensures
        match innermost(scopes, k, scopes.len() as int) {
            Some(i) => 0 <= i < scopes.len() && scopes[i].contains_key(k) && lookup(scopes, k) == Some(scopes[i][k])
                && assign(scopes, k, scopes[i][k]) == scopes && forall|v: V| #[trigger] assign(scopes, k, v) == scopes.update(i, scopes[i].insert(k, v)),
            None => lookup(scopes, k) is None && forall|v: V| #[trigger] assign(scopes, k, v) == scopes,
        },
    decreases scopes.len(),
{
    if scopes.len() > 0 {
        let p = scopes.drop_last();
        lemma_lookup_innermost(p, k);
        assert forall|n: int| 0 <= n <= p.len() implies innermost(scopes, k, n) == innermost(p, k, n) by {
            lemma_innermost_prefix(scopes, k, n);
        }
        if scopes.last().contains_key(k) {
            assert forall|v: V| #[trigger] assign(scopes, k, v) == scopes.update(scopes.len() - 1, scopes[scopes.len() - 1].insert(k, v)) by {
                assert(assign(scopes, k, v) =~= scopes.update(scopes.len() - 1, scopes[scopes.len() - 1].insert(k, v)));
            }
            assert(scopes.last().insert(k, scopes.last()[k]) =~= scopes.last());
            assert(p.push(scopes.last()) =~= scopes);
        } else {
            match innermost(p, k, p.len() as int) {
                Some(i) => {
                    assert forall|v: V| #[trigger] assign(scopes, k, v) == scopes.update(i, scopes[i].insert(k, v)) by {
                        assert(assign(p, k, v) == p.update(i, p[i].insert(k, v)));
                        assert(assign(scopes, k, v) =~= scopes.update(i, scopes[i].insert(k, v)));
                    }
                    assert(assign(p, k, p[i][k]) == p);
                    assert(p.push(scopes.last()) =~= scopes);
                },
                None => {
                    assert forall|v: V| #[trigger] assign(scopes, k, v) == scopes by {
                        assert(assign(p, k, v) == p);
                        assert(p.push(scopes.last()) =~= scopes);
                    }
                },
            }
        }
    }
}

proof fn lemma_innermost_prefix<V>(scopes: Seq<Map<Seq<char>, V>>, k: Seq<char>, n: int)
    requires
        scopes.len() > 0,
        0 <= n <= scopes.len() - 1,
    ensures
        innermost(scopes, k, n) == innermost(scopes.drop_last(), k, n),
    decreases n,
{
    if n > 0 {
        lemma_innermost_prefix(scopes, k, n - 1);
    }
}

} // verus!
