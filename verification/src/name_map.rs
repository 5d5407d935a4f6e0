//! A name-keyed mapping kept sorted by key: the building block of the
//! symbol table. Within one mapping names are unique, and inserting an
//! entry under an existing name overwrites the earlier one (last write
//! wins).

use vstd::prelude::*;

use crate::text::{lex_lt, str_lt, lemma_lex_irreflexive, lemma_lex_connected, lemma_lex_transitive, find_idx, lemma_find_idx};

verus! {

/// An ordered-by-name association from names to values of one entity kind.
pub struct NameMap<V> {
    entries: Vec<(String, V)>,
}

impl<V> NameMap<V> {
    /// The keys, in storage order.
    pub closed spec fn keys(&self) -> Seq<Seq<char>> {
        Seq::new(self.entries@.len(), |i: int| self.entries@[i].0@)
    }

    /// The values, in storage order.
    pub closed spec fn vals(&self) -> Seq<V> {
        Seq::new(self.entries@.len(), |i: int| self.entries@[i].1)
    }

    /// There are as many values as keys.
    pub proof fn lemma_len(&self)
        ensures
            self.vals().len() == self.keys().len(),
    {
    }

    /// Keys strictly ascend in lexicographic order, so they are unique.
    pub open spec fn wf(&self) -> bool {
        forall|i: int, j: int| 0 <= i < j < self.keys().len() ==> lex_lt(self.keys()[i], self.keys()[j])
    }

    /// The association as a mathematical map.
    pub open spec fn as_map(&self) -> Map<Seq<char>, V> {
        Map::new(
            |k: Seq<char>| self.keys().contains(k),
            |k: Seq<char>| self.vals()[find_idx(self.keys(), k)],
        )
    }

    pub open spec fn spec_len(&self) -> nat {
        self.keys().len()
    }

    /// Key uniqueness: under `wf`, each index holds a distinct key, and
    /// each stored value is the one `as_map` associates with its key.
    pub proof fn lemma_entries_in_map(&self)
        requires
            self.wf(),
        ensures
            forall|i: int, j: int|
                0 <= i < self.keys().len() && 0 <= j < self.keys().len() && i != j
                    ==> self.keys()[i] != self.keys()[j],
            forall|i: int|
                0 <= i < self.keys().len()
                    ==> self.as_map().contains_key(#[trigger] self.keys()[i])
                        && self.as_map()[self.keys()[i]] == self.vals()[i],
    {
        assert forall|i: int, j: int|
            0 <= i < self.keys().len() && 0 <= j < self.keys().len() && i != j
            implies self.keys()[i] != self.keys()[j] by {
            if i < j {
                lemma_lex_irreflexive(self.keys()[i]);
            } else {
                lemma_lex_irreflexive(self.keys()[j]);
            }
        }
        assert forall|i: int| 0 <= i < self.keys().len()
            implies self.as_map().contains_key(#[trigger] self.keys()[i])
                && self.as_map()[self.keys()[i]] == self.vals()[i] by {
            assert(self.keys().contains(self.keys()[i]));
            lemma_find_idx(self.keys(), self.keys()[i]);
            let f = find_idx(self.keys(), self.keys()[i]);
            assert(self.keys()[f] == self.keys()[i]);
            if f != i {
                if f < i {
                    lemma_lex_irreflexive(self.keys()[f]);
                } else {
                    lemma_lex_irreflexive(self.keys()[i]);
                }
            }
        }
    }

    pub fn blank() -> (r: NameMap<V>)
        ensures
            r.wf(),
            r.as_map() =~= Map::<Seq<char>, V>::empty(),
            r.spec_len() == 0,
    {
        let r = NameMap { entries: Vec::new() };
        proof {
            assert forall|k: Seq<char>| !r.keys().contains(k) by {}
        }
        r
    }

    pub fn len(&self) -> (n: usize)
        ensures
            n == self.spec_len(),
    {
        self.entries.len()
    }

    /// Borrows the entry at a storage index, in ascending name order.
    pub fn entry_at(&self, i: usize) -> (r: &(String, V))
        requires
            i < self.spec_len(),
        ensures
            r.0@ == self.keys()[i as int],
            r.1 == self.vals()[i as int],
    {
        &self.entries[i]
    }

    /// Looks a name up; `None` exactly when the name is absent.
    pub fn get(&self, name: &String) -> (r: Option<&V>)
        requires
            self.wf(),
        ensures
            match r {
                Some(v) => self.as_map().contains_key(name@) && *v == self.as_map()[name@],
                None => !self.as_map().contains_key(name@),
            },
    {
        let n = self.entries.len();
        let mut i: usize = 0;
        while i < n
            invariant
                self.wf(),
                i <= n,
                n == self.spec_len(),
                forall|j: int| 0 <= j < i ==> self.keys()[j] != name@,
            decreases n - i,
        {
            if self.entries[i].0 == *name {
                proof {
                    self.lemma_entries_in_map();
                    assert(self.keys()[i as int] == name@);
                }
                return Some(&self.entries[i].1);
            }
            i = i + 1;
        }
        proof {
            assert forall|j: int| 0 <= j < self.keys().len() implies self.keys()[j] != name@ by {}
            if self.keys().contains(name@) {
                let j = choose|j: int| 0 <= j < self.keys().len() && self.keys()[j] == name@;
                assert(false);
            }
        }
        None
    }

    /// Inserts a value under a name. A later insertion with a duplicate
    /// name overwrites the earlier one; the mapping stays sorted.
    pub fn insert(&mut self, name: String, val: V)
        requires
            old(self).wf(),
        ensures
            final(self).wf(),
            final(self).as_map() =~= old(self).as_map().insert(name@, val),
            final(self).spec_len() == old(self).spec_len()
                + (if old(self).as_map().contains_key(name@) { 0int } else { 1int }),
    {
        proof {
            old(self).lemma_entries_in_map();
        }
        let n = self.entries.len();
        let mut i: usize = 0;
        loop
            invariant
                *self == *old(self),
                i <= n,
                n == self.spec_len(),
                forall|j: int| 0 <= j < i ==> lex_lt(self.keys()[j], name@),
            ensures
                *self == *old(self),
                i <= n,
                forall|j: int| 0 <= j < i ==> lex_lt(self.keys()[j], name@),
                i < n ==> !lex_lt(self.keys()[i as int], name@),
            decreases n - i,
        {
            if i == n {
                break;
            }
            if !str_lt(self.entries[i].0.as_str(), name.as_str()) {
                break;
            }
            i = i + 1;
        }
        // Here every key before `i` is strictly below `name`, and if `i`
        // is in range then the key at `i` is not below `name`.
        let ghost oldkeys = old(self).keys();
        proof {
            lemma_lex_irreflexive(name@);
        }
        if i < n && self.entries[i].0 == name {
            // Same name: overwrite in place.
            self.entries.remove(i);
            self.entries.insert(i, (name, val));
            proof {
                assert(self.keys() =~= oldkeys);
                assert(self.vals() =~= old(self).vals().update(i as int, val));
                self.lemma_entries_in_map();
                old(self).lemma_entries_in_map();
                assert(oldkeys[i as int] == name@);
                assert(oldkeys.contains(name@));
                assert forall|k: Seq<char>| self.as_map().contains_key(k)
                    implies self.as_map()[k] == old(self).as_map().insert(name@, val)[k] by {
                    lemma_find_idx(oldkeys, k);
                    let f = find_idx(oldkeys, k);
                    if k == name@ {
                        if f != i {
                            if f < i {
                                lemma_lex_irreflexive(oldkeys[f]);
                            } else {
                                lemma_lex_irreflexive(name@);
                            }
                        }
                        assert(f == i);
                    } else {
                        assert(f != i);
                    }
                }
            }
        } else {
            proof {
                if i < n {
                    // The scan stopped early: the key at `i` is not below
                    // `name` and differs from it, so `name` is below it.
                    lemma_lex_connected(oldkeys[i as int], name@);
                    assert(lex_lt(name@, oldkeys[i as int]));
                }
                if oldkeys.contains(name@) {
                    let j = choose|j: int| 0 <= j < oldkeys.len() && oldkeys[j] == name@;
                    if j < i {
                        lemma_lex_irreflexive(name@);
                    } else if j == i {
                    } else {
                        lemma_lex_transitive(name@, oldkeys[i as int], oldkeys[j]);
                        lemma_lex_irreflexive(name@);
                    }
                    assert(false);
                }
            }
            self.entries.insert(i, (name, val));
            proof {
                assert(self.keys() =~= oldkeys.insert(i as int, name@));
                assert(self.vals() =~= old(self).vals().insert(i as int, val));
                assert forall|p: int, q: int| 0 <= p < q < self.keys().len()
                    implies lex_lt(self.keys()[p], self.keys()[q]) by {
                    let kp = self.keys()[p];
                    let kq = self.keys()[q];
                    if p < i && q < i {
                    } else if p < i && q == i {
                    } else if p < i && q > i {
                        assert(kq == oldkeys[q - 1]);
                        if q - 1 == i as int {
                            assert(lex_lt(name@, kq));
                            lemma_lex_transitive(kp, name@, kq);
                        }
                    } else if p == i {
                        assert(kp == name@);
                        assert(kq == oldkeys[q - 1]);
                        if q - 1 > i as int {
                            lemma_lex_transitive(name@, oldkeys[i as int], oldkeys[q - 1]);
                        }
                    } else {
                        assert(kp == oldkeys[p - 1] && kq == oldkeys[q - 1]);
                    }
                }
                self.lemma_entries_in_map();
                assert forall|k: Seq<char>| self.as_map().contains_key(k)
                    implies old(self).as_map().insert(name@, val).contains_key(k)
                        && self.as_map()[k] == old(self).as_map().insert(name@, val)[k] by {
                    lemma_find_idx(self.keys(), k);
                    let f = find_idx(self.keys(), k);
                    assert(self.keys()[f] == k);
                    if f == i {
                        assert(k == name@);
                    } else if f < i {
                        assert(k == oldkeys[f]);
                        assert(oldkeys.contains(k));
                        lemma_find_idx(oldkeys, k);
                        old(self).lemma_entries_in_map();
                        assert(self.as_map()[k] == self.vals()[f]);
                        assert(self.vals()[f] == old(self).vals()[f]);
                        if k == name@ {
                            lemma_lex_irreflexive(name@);
                        }
                        assert(old(self).as_map()[k] == old(self).vals()[find_idx(oldkeys, k)]);
                        let g = find_idx(oldkeys, k);
                        if g != f {
                            old(self).lemma_entries_in_map();
                            assert(oldkeys[g] == k);
                        }
                    } else {
                        assert(k == oldkeys[f - 1]);
                        assert(oldkeys.contains(k));
                        lemma_find_idx(oldkeys, k);
                        old(self).lemma_entries_in_map();
                        if k == name@ {
                            lemma_lex_irreflexive(name@);
                        }
                        let g = find_idx(oldkeys, k);
                        if g != f - 1 {
                            assert(oldkeys[g] == k);
                        }
                        assert(self.as_map()[k] == self.vals()[f]);
                        assert(self.vals()[f] == old(self).vals()[f - 1]);
                    }
                }
                assert forall|k: Seq<char>| old(self).as_map().insert(name@, val).contains_key(k)
                    implies self.as_map().contains_key(k) by {
                    if k == name@ {
                        assert(self.keys()[i as int] == name@);
                        assert(self.keys().contains(name@));
                    } else {
                        lemma_find_idx(oldkeys, k);
                        let g = find_idx(oldkeys, k);
                        if g < i {
                            assert(self.keys()[g] == k);
                        } else {
                            assert(self.keys()[g + 1] == k);
                        }
                        assert(self.keys().contains(k));
                    }
                }
            }
        }
    }
}

} // verus!
