//! A read-mostly key-value table: a vector of entries strictly sorted by an
//! `i64` key. It backs the reference tables (buff names, skill-effect tags,
//! temp-attr definitions, skill-level map, recount table), which are built
//! once at startup and then only read. Its view is a `Map<i64, V>`; the
//! entry sequence is also exposed so tables can be walked in key order.

use vstd::prelude::*;

verus! {

/// Entries strictly sorted by key.
pub open spec fn entries_sorted<V>(s: Seq<(i64, V)>) -> bool {
    forall|i: int, j: int| 0 <= i < j < s.len() ==> (#[trigger] s[i]).0 < (#[trigger] s[j]).0
}

/// Whether some entry carries `key`.
pub open spec fn entries_has_key<V>(s: Seq<(i64, V)>, key: i64) -> bool {
    exists|i: int| 0 <= i < s.len() && (#[trigger] s[i]).0 == key
}

/// The index of the entry carrying `key`.
pub open spec fn entries_key_index<V>(s: Seq<(i64, V)>, key: i64) -> int {
    choose|i: int| 0 <= i < s.len() && (#[trigger] s[i]).0 == key
}

/// The map the entries denote.
pub open spec fn entries_map<V>(s: Seq<(i64, V)>) -> Map<i64, V> {
    Map::new(|k: i64| entries_has_key(s, k), |k: i64| s[entries_key_index(s, k)].1)
}

/// A table of values keyed by `i64`, kept sorted by key.
pub struct KvMap<V> {
    entries: Vec<(i64, V)>,
}

impl<V> View for KvMap<V> {
    type V = Map<i64, V>;

    closed spec fn view(&self) -> Map<i64, V> {
        entries_map(self.entries@)
    }
}

impl<V> KvMap<V> {
    /// The entries in ascending key order.
    pub closed spec fn entries_view(&self) -> Seq<(i64, V)> {
        self.entries@
    }

    /// The entries are strictly sorted, so keys are unique.
    pub closed spec fn wf(&self) -> bool {
        entries_sorted(self.entries@)
    }

    /// The entry sequence denotes exactly the map view.
    pub proof fn lemma_entries_view(&self)
        ensures
            self@ == entries_map(self.entries_view()),
            forall|i: int|
                0 <= i < self.entries_view().len() ==> self@.contains_key(
                    (#[trigger] self.entries_view()[i]).0,
                ),
    {
        assert forall|i: int| 0 <= i < self.entries_view().len() implies self@.contains_key(
            (#[trigger] self.entries_view()[i]).0,
        ) by {
            assert(entries_has_key(self.entries@, self.entries_view()[i].0));
        }
    }

    /// An empty table.
    pub fn new() -> (r: Self)
        ensures
            r.wf(),
            r@ == Map::<i64, V>::empty(),
            r.entries_view() == Seq::<(i64, V)>::empty(),
    {
        let r = KvMap { entries: Vec::new() };
        proof {
            assert(r@ =~= Map::<i64, V>::empty());
            assert(r.entries_view() =~= Seq::<(i64, V)>::empty());
        }
        r
    }

    /// How many keys the table holds.
    pub fn len(&self) -> (r: usize)
        ensures
            r == self.entries_view().len(),
    {
        self.entries.len()
    }

    /// The entry at position `i` in key order.
    pub fn entry_at(&self, i: usize) -> (r: &(i64, V))
        requires
            i < self.entries_view().len(),
        ensures
            *r == self.entries_view()[i as int],
    {
        &self.entries[i]
    }

    fn find_index(&self, key: i64) -> (r: Option<usize>)
        ensures
            match r {
                Some(i) => i < self.entries_view().len() && self.entries_view()[i as int].0 == key,
                None => !entries_has_key(self.entries_view(), key),
            },
    {
        let mut i: usize = 0;
        while i < self.entries.len()
            invariant
                i <= self.entries@.len(),
                forall|j: int| 0 <= j < i ==> (#[trigger] self.entries@[j]).0 != key,
            decreases self.entries@.len() - i,
        {
            if self.entries[i].0 == key {
                return Some(i);
            }
            i = i + 1;
        }
        None
    }

    proof fn lemma_key_index_is(&self, key: i64, i: int)
        requires
            self.wf(),
            0 <= i < self.entries_view().len(),
            self.entries_view()[i].0 == key,
        ensures
            entries_has_key(self.entries_view(), key),
            entries_key_index(self.entries_view(), key) == i,
            self@.contains_key(key),
            self@[key] == self.entries_view()[i].1,
    {
        assert(entries_has_key(self.entries@, key));
        let j = entries_key_index(self.entries@, key);
        if j < i {
            assert(self.entries@[j].0 < self.entries@[i].0);
        } else if j > i {
            assert(self.entries@[i].0 < self.entries@[j].0);
        }
    }

    /// A well-formed table's entries are strictly sorted by key.
    pub proof fn lemma_sorted(&self)
        requires
            self.wf(),
        ensures
            entries_sorted(self.entries_view()),
    {
    }

    /// The entry at `i` is what the map view stores under its key.
    pub proof fn lemma_entry_is(&self, i: int)
        requires
            self.wf(),
            0 <= i < self.entries_view().len(),
        ensures
            self@.contains_key(self.entries_view()[i].0),
            self@[self.entries_view()[i].0] == self.entries_view()[i].1,
    {
        self.lemma_key_index_is(self.entries_view()[i].0, i);
    }

    /// The value stored under `key`, if any.
    pub fn get(&self, key: i64) -> (r: Option<&V>)
        requires
            self.wf(),
        ensures
            match r {
                Some(v) => self@.contains_key(key) && *v == self@[key],
                None => !self@.contains_key(key),
            },
    {
        match self.find_index(key) {
            Some(i) => {
                proof {
                    self.lemma_key_index_is(key, i as int);
                }
                Some(&self.entries[i].1)
            },
            None => {
                proof {
                    assert(!self@.contains_key(key));
                }
                None
            },
        }
    }

    /// Whether `key` is present.
    pub fn contains(&self, key: i64) -> (r: bool)
        requires
            self.wf(),
        ensures
            r == self@.contains_key(key),
    {
        match self.find_index(key) {
            Some(i) => {
                proof {
                    self.lemma_key_index_is(key, i as int);
                }
                true
            },
            None => false,
        }
    }

    /// Stores `value` under `key`, replacing any earlier value.
    pub fn insert(&mut self, key: i64, value: V)
        requires
            old(self).wf(),
        ensures
            final(self).wf(),
            final(self)@ == old(self)@.insert(key, value),
            entries_has_key(old(self).entries_view(), key) ==> final(self).entries_view()
                == old(self).entries_view().update(
                entries_key_index(old(self).entries_view(), key),
                (key, value),
            ),
            !entries_has_key(old(self).entries_view(), key) ==> exists|p: int|
                0 <= p <= old(self).entries_view().len() && final(self).entries_view() == old(
                    self,
                ).entries_view().insert(p, (key, value)),
    {
        let ghost s0 = self.entries@;
        match self.find_index(key) {
            Some(i) => {
                proof {
                    self.lemma_key_index_is(key, i as int);
                }
                self.entries.remove(i);
                self.entries.insert(i, (key, value));
                proof {
                    assert(self.entries@ =~= s0.update(i as int, (key, value)));
                    assert forall|a: int, b: int|
                        0 <= a < b < self.entries@.len() implies (#[trigger] self.entries@[a]).0 < (
                    #[trigger] self.entries@[b]).0 by {
                        assert(s0[a].0 < s0[b].0);
                    }
                    assert forall|k: i64| #[trigger]
                        entries_has_key(self.entries@, k) == entries_has_key(s0, k) by {
                        if entries_has_key(s0, k) {
                            let j = entries_key_index(s0, k);
                            assert(self.entries@[j].0 == k);
                        }
                        if entries_has_key(self.entries@, k) {
                            let j = entries_key_index(self.entries@, k);
                            assert(s0[j].0 == k);
                        }
                    }
                    assert forall|k: i64|
                        entries_has_key(self.entries@, k) implies (#[trigger] entries_map(
                        self.entries@,
                    )[k]) == old(self)@.insert(key, value)[k] by {
                        let j = entries_key_index(self.entries@, k);
                        self.lemma_key_index_is(k, j);
                        if k == key {
                        } else {
                            assert(s0[j].0 == k);
                            old(self).lemma_key_index_is(k, j);
                        }
                    }
                    assert(self@ =~= old(self)@.insert(key, value));
                }
            },
            None => {
                let p = self.find_insert_pos(key);
                self.entries.insert(p, (key, value));
                proof {
                    assert(self.entries@ =~= s0.insert(p as int, (key, value)));
                    assert forall|a: int, b: int|
                        0 <= a < b < self.entries@.len() implies (#[trigger] self.entries@[a]).0 < (
                    #[trigger] self.entries@[b]).0 by {
                        let s = self.entries@;
                        if a < p {
                            assert(s[a] == s0[a]);
                        } else if a > p {
                            assert(s[a] == s0[a - 1]);
                        }
                        if b < p {
                            assert(s[b] == s0[b]);
                        } else if b > p {
                            assert(s[b] == s0[b - 1]);
                        }
                        if a == p && b > p {
                            assert(s0[b - 1].0 != key);
                        }
                        if b == p && a < p {
                            assert(s0[a].0 != key);
                        }
                    }
                    assert forall|k: i64|
                        entries_has_key(self.entries@, k) implies (#[trigger] entries_map(
                        self.entries@,
                    )[k]) == old(self)@.insert(key, value)[k] && old(self)@.insert(
                        key,
                        value,
                    ).contains_key(k) by {
                        let j = entries_key_index(self.entries@, k);
                        self.lemma_key_index_is(k, j);
                        if k == key {
                        } else {
                            let oj = if j < p {
                                j
                            } else {
                                j - 1
                            };
                            assert(s0[oj].0 == k);
                            old(self).lemma_key_index_is(k, oj);
                        }
                    }
                    assert forall|k: i64|
                        old(self)@.insert(key, value).contains_key(k) implies entries_has_key(
                        self.entries@,
                        k,
                    ) by {
                        if k == key {
                            assert(self.entries@[p as int].0 == key);
                        } else {
                            let oj = entries_key_index(s0, k);
                            old(self).lemma_key_index_is(k, oj);
                            let j = if oj < p {
                                oj
                            } else {
                                oj + 1
                            };
                            assert(self.entries@[j].0 == k);
                        }
                    }
                    assert(self@ =~= old(self)@.insert(key, value));
                }
            },
        }
    }

    fn find_insert_pos(&self, key: i64) -> (p: usize)
        requires
            self.wf(),
        ensures
            p <= self.entries_view().len(),
            forall|j: int| 0 <= j < p ==> (#[trigger] self.entries_view()[j]).0 < key,
            forall|j: int|
                p <= j < self.entries_view().len() ==> (#[trigger] self.entries_view()[j]).0 >= key,
    {
        let mut p: usize = 0;
        while p < self.entries.len()
            invariant
                entries_sorted(self.entries@),
                p <= self.entries@.len(),
                forall|j: int| 0 <= j < p ==> (#[trigger] self.entries@[j]).0 < key,
            decreases self.entries@.len() - p,
        {
            if self.entries[p].0 >= key {
                proof {
                    assert forall|j: int|
                        p <= j < self.entries@.len() implies (#[trigger] self.entries@[j]).0
                        >= key by {
                        if j > p {
                            assert(self.entries@[p as int].0 < self.entries@[j].0);
                        }
                    }
                }
                return p;
            }
            p = p + 1;
        }
        p
    }
}

} // verus!
