//! A small map from string keys to values, kept as a list of entries in the
//! order they were first inserted. No key occurs twice.

use vstd::prelude::*;

verus! {

/// Values keyed by string, each key at most once.
pub struct Registry<T> {
    entries: Vec<(String, T)>,
}

impl<T: View> View for Registry<T> {
    type V = Map<Seq<char>, T::V>;

    closed spec fn view(&self) -> Map<Seq<char>, T::V> {
        Map::new(
            |k: Seq<char>| self.holds(k),
            |k: Seq<char>| self.entries@[self.slot(k)].1@,
        )
    }
}

impl<T: View> Registry<T> {
    /// Whether some entry has key `k`.
    pub closed spec fn holds(&self, k: Seq<char>) -> bool {
        exists|i: int| 0 <= i < self.entries@.len() && #[trigger] self.entries@[i].0@ == k
    }

    /// The entry with key `k`, when there is one.
    pub closed spec fn slot(&self, k: Seq<char>) -> int {
        choose|i: int| 0 <= i < self.entries@.len() && #[trigger] self.entries@[i].0@ == k
    }

    /// Key of the entry at position `i`, in insertion order.
    pub closed spec fn key_at(&self, i: int) -> Seq<char> {
        self.entries@[i].0@
    }

    /// Number of entries.
    pub closed spec fn size(&self) -> nat {
        self.entries@.len()
    }

    /// No key occurs twice.
    pub closed spec fn wf(&self) -> bool {
        forall|i: int, j: int|
            0 <= i < j < self.entries@.len() ==> #[trigger] self.entries@[i].0@ != #[trigger] self.entries@[j].0@
    }

    /// The keys at positions `0..size()` are exactly the keys of the map.
    pub proof fn lemma_keys(&self)
        requires
            self.wf(),
        ensures
            forall|i: int| 0 <= i < self.size() ==> #[trigger] self@.contains_key(self.key_at(i)),
            forall|k: Seq<char>|
                #[trigger] self@.contains_key(k) ==> exists|i: int|
                    0 <= i < self.size() && #[trigger] self.key_at(i) == k,
    {
        assert forall|i: int| 0 <= i < self.size() implies #[trigger] self@.contains_key(self.key_at(i)) by {
            assert(self.entries@[i].0@ == self.key_at(i));
        }
        assert forall|k: Seq<char>| #[trigger] self@.contains_key(k) implies exists|i: int|
            0 <= i < self.size() && #[trigger] self.key_at(i) == k by {
            let i = self.slot(k);
            assert(self.key_at(i) == k);
        }
    }

    /// An empty registry.
    pub fn new() -> (r: Self)
        ensures
            r.wf(),
            r@ == Map::<Seq<char>, T::V>::empty(),
            r.size() == 0,
    {
        let r = Registry { entries: Vec::new() };
        assert(r@ =~= Map::<Seq<char>, T::V>::empty());
        r
    }

    /// Number of entries.
    pub fn len(&self) -> (n: usize)
        ensures
            n == self.size(),
    {
        self.entries.len()
    }

    /// Key and value of the entry at position `i`.
    pub fn entry(&self, i: usize) -> (e: (&String, &T))
        requires
            self.wf(),
            i < self.size(),
        ensures
            e.0@ == self.key_at(i as int),
            self@.contains_key(e.0@),
            self@[e.0@] == e.1@,
    {
        let ghost k = self.entries@[i as int].0@;
        assert(self.holds(k));
        assert(self.slot(k) == i);
        (&self.entries[i].0, &self.entries[i].1)
    }

    /// Position of the entry with key `key`.
    fn position(&self, key: &str) -> (r: Option<usize>)
        requires
            self.wf(),
        ensures
            match r {
                Some(i) => i < self.size() && self.entries@[i as int].0@ == key@ && self.slot(key@)
                    == i,
                None => !self.holds(key@),
            },
    {
        let target = <String as vstd::string::StringExecFns>::from_str(key);
        let mut i: usize = 0;
        while i < self.entries.len()
            invariant
                self.wf(),
                target@ == key@,
                i <= self.entries@.len(),
                forall|m: int| 0 <= m < i ==> self.entries@[m].0@ != key@,
            decreases self.entries.len() - i,
        {
            if self.entries[i].0 == target {
                assert(self.entries@[i as int].0@ == key@);
                assert(self.holds(key@));
                proof {
                    let j = self.slot(key@);
                    if j < i as int {
                        assert(self.entries@[j].0@ != self.entries@[i as int].0@);
                    }
                    if j > i as int {
                        assert(self.entries@[i as int].0@ != self.entries@[j].0@);
                    }
                    assert(j == i as int);
                }
                return Some(i);
            }
            i = i + 1;
        }
        None
    }

    /// The value stored under `key`.
    pub fn get(&self, key: &str) -> (r: Option<&T>)
        requires
            self.wf(),
        ensures
            match r {
                Some(v) => self@.contains_key(key@) && self@[key@] == v@,
                None => !self@.contains_key(key@),
            },
    {
        match self.position(key) {
            Some(i) => Some(&self.entries[i].1),
            None => None,
        }
    }

    /// Stores `value` under `key`, replacing what was there.
    pub fn insert(&mut self, key: String, value: T)
        requires
            old(self).wf(),
        ensures
            final(self).wf(),
            final(self)@ == old(self)@.insert(key@, value@),
    {
        let ghost k = key@;
        let ghost v = value@;
        let ghost before = *self;
        match self.position(key.as_str()) {
            Some(i) => {
                self.entries.set(i, (key, value));
                assert forall|q: Seq<char>| self.holds(q) == before.holds(q) by {
                    if before.holds(q) {
                        let j = before.slot(q);
                        if j != i {
                            assert(self.entries@[j].0@ == q);
                        } else {
                            assert(self.entries@[i as int].0@ == q);
                        }
                    }
                    if self.holds(q) {
                        let j = self.slot(q);
                        if j != i {
                            assert(before.entries@[j].0@ == q);
                        } else {
                            assert(before.entries@[i as int].0@ == q);
                        }
                    }
                }
                assert forall|q: Seq<char>| self.holds(q) implies self.slot(q) == before.slot(q) by {
                    let a = self.slot(q);
                    let b = before.slot(q);
                    if a != i as int {
                        assert(before.entries@[a].0@ == q);
                    } else {
                        assert(before.entries@[i as int].0@ == q);
                    }
                    if a != b {
                        if a < b {
                            assert(before.entries@[a].0@ != before.entries@[b].0@);
                        } else {
                            assert(before.entries@[b].0@ != before.entries@[a].0@);
                        }
                    }
                }
                assert forall|q: Seq<char>| #[trigger] self@.contains_key(q) implies self@[q]
                    == before@.insert(k, v)[q] by {
                    if q == k {
                        assert(self.slot(q) == i as int);
                    } else {
                        assert(before.holds(q));
                        assert(before.entries@[before.slot(q)].0@ == q);
                        assert(before.slot(q) != i as int);
                    }
                }
                assert(before.holds(k));
                assert forall|q: Seq<char>| #[trigger] self@.contains_key(q) == before@.insert(k, v).contains_key(q) by {
                    assert(self.holds(q) == before.holds(q));
                }
                assert(self@.dom() =~= before@.insert(k, v).dom());
                assert(self@ =~= before@.insert(k, v));
            },
            None => {
                self.entries.push((key, value));
                let ghost n = before.entries@.len() as int;
                assert(self.entries@[n].0@ == k);
                assert(self.holds(k));
                assert forall|q: Seq<char>| q != k implies self.holds(q) == before.holds(q) by {
                    if before.holds(q) {
                        let j = before.slot(q);
                        assert(self.entries@[j].0@ == q);
                    }
                    if self.holds(q) {
                        let j = self.slot(q);
                        assert(j != n);
                        assert(before.entries@[j].0@ == q);
                    }
                }
                assert forall|q: Seq<char>| self.holds(q) implies self.slot(q) == (if q == k {
                    n
                } else {
                    before.slot(q)
                }) by {
                    let a = self.slot(q);
                    if q == k {
                        if a != n {
                            assert(before.entries@[a].0@ == k);
                            assert(before.holds(k));
                        }
                    } else {
                        let b = before.slot(q);
                        assert(a != n);
                        assert(before.entries@[a].0@ == q);
                        if a != b {
                            if a < b {
                                assert(before.entries@[a].0@ != before.entries@[b].0@);
                            } else {
                                assert(before.entries@[b].0@ != before.entries@[a].0@);
                            }
                        }
                    }
                }
                assert(self@ =~= before@.insert(k, v));
            },
        }
    }

    /// Drops the entry under `key`, if there is one, and returns its value.
    pub fn remove(&mut self, key: &str) -> (r: Option<T>)
        requires
            old(self).wf(),
        ensures
            final(self).wf(),
            final(self)@ == old(self)@.remove(key@),
            match r {
                Some(v) => old(self)@.contains_key(key@) && old(self)@[key@] == v@,
                None => !old(self)@.contains_key(key@),
            },
    {
        let ghost before = *self;
        match self.position(key) {
            None => {
                assert(self@ =~= before@.remove(key@));
                None
            },
            Some(i) => {
                let (_, v) = self.entries.remove(i);
                let ghost ii = i as int;
                assert forall|a: int, b: int|
                    0 <= a < b < self.entries@.len() implies #[trigger] self.entries@[a].0@
                    != #[trigger] self.entries@[b].0@ by {
                    let a0 = if a < ii {
                        a
                    } else {
                        a + 1
                    };
                    let b0 = if b < ii {
                        b
                    } else {
                        b + 1
                    };
                    assert(self.entries@[a] == before.entries@[a0]);
                    assert(self.entries@[b] == before.entries@[b0]);
                    assert(before.entries@[a0].0@ != before.entries@[b0].0@);
                }
                assert forall|q: Seq<char>| q != key@ implies self.holds(q) == before.holds(q) by {
                    if before.holds(q) {
                        let j = before.slot(q);
                        assert(j != ii);
                        if j < ii {
                            assert(self.entries@[j].0@ == q);
                        } else {
                            assert(self.entries@[j - 1].0@ == q);
                        }
                    }
                    if self.holds(q) {
                        let j = self.slot(q);
                        if j < ii {
                            assert(before.entries@[j].0@ == q);
                        } else {
                            assert(before.entries@[j + 1].0@ == q);
                        }
                    }
                }
                assert(!self.holds(key@)) by {
                    if self.holds(key@) {
                        let j = self.slot(key@);
                        if j < ii {
                            assert(before.entries@[j].0@ == key@);
                            assert(before.entries@[j].0@ != before.entries@[ii].0@);
                        } else {
                            assert(before.entries@[j + 1].0@ == key@);
                            assert(before.entries@[ii].0@ != before.entries@[j + 1].0@);
                        }
                    }
                }
                assert forall|q: Seq<char>| self.holds(q) implies self.entries@[self.slot(q)].1
                    == before.entries@[before.slot(q)].1 by {
                    let a = self.slot(q);
                    let a0 = if a < ii {
                        a
                    } else {
                        a + 1
                    };
                    assert(self.entries@[a] == before.entries@[a0]);
                    let b = before.slot(q);
                    if a0 != b {
                        if a0 < b {
                            assert(before.entries@[a0].0@ != before.entries@[b].0@);
                        } else {
                            assert(before.entries@[b].0@ != before.entries@[a0].0@);
                        }
                    }
                }
                assert(self@ =~= before@.remove(key@));
                Some(v)
            },
        }
    }
}

} // verus!
