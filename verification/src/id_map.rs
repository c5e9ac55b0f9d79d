//! A small map from string ids to values.
use vstd::prelude::*;
use vstd::string::*;

use crate::text;

verus! {

/// A map from ids to values, for the handful of servers a person has.
pub struct IdMap<V> {
    ids: Vec<String>,
    values: Vec<V>,
}

impl<V> IdMap<V> {
    /// Every id has one value, and no id occurs twice.
    pub closed spec fn wf(self) -> bool {
        &&& self.ids@.len() == self.values@.len()
        &&& forall|i: int, j: int|
            0 <= i < j < self.ids@.len() ==> self.ids@[i]@ != self.ids@[j]@
    }

    closed spec fn at(self, id: Seq<char>, i: int) -> bool {
        0 <= i < self.ids@.len() && self.ids@[i]@ == id
    }

    /// A map with nothing in it.
    pub fn new() -> (m: IdMap<V>)
        ensures
            m.wf(),
            m@ == Map::<Seq<char>, V>::empty(),
    {
        let m = IdMap { ids: Vec::new(), values: Vec::new() };
        assert(m@ =~= Map::<Seq<char>, V>::empty());
        m
    }

    fn position(&self, id: &str) -> (r: Option<usize>)
        requires
            self.wf(),
        ensures
            match r {
                Some(i) => self.at(id@, i as int),
                None => forall|i: int| !self.at(id@, i),
            },
    {
        let n: usize = self.ids.len();
        let mut i: usize = 0;
        while i < n
            invariant
                0 <= i <= n,
                n == self.ids@.len(),
                forall|j: int| 0 <= j < i ==> !self.at(id@, j),
            decreases n - i,
        {
            if text::same(self.ids[i].as_str(), id) {
                return Some(i);
            }
            i = i + 1;
        }
        None
    }

    proof fn lemma_at(self, id: Seq<char>, i: int)
        requires
            self.wf(),
            self.at(id, i),
        ensures
            self@.contains_key(id),
            self@[id] == self.values@[i],
    {
        let j = choose|j: int| self.at(id, j);
        if i < j {
            assert(self.ids@[i]@ != self.ids@[j]@);
        } else if j < i {
            assert(self.ids@[j]@ != self.ids@[i]@);
        }
    }

    /// The value of `id`.
    pub fn get(&self, id: &str) -> (r: Option<&V>)
        requires
            self.wf(),
        ensures
            match r {
                Some(v) => self@.contains_key(id@) && *v == self@[id@],
                None => !self@.contains_key(id@),
            },
    {
        match self.position(id) {
            Some(i) => {
                proof {
                    self.lemma_at(id@, i as int);
                }
                Some(&self.values[i])
            },
            None => None,
        }
    }

    /// Gives `id` a value, in place of the one it had.
    pub fn insert(&mut self, id: String, value: V)
        requires
            old(self).wf(),
        ensures
            final(self).wf(),
            final(self)@ == old(self)@.insert(id@, value),
    {
        let ghost before = *self;
        let ghost key = id@;
        match self.position(id.as_str()) {
            Some(i) => {
                self.values.set(i, value);
                proof {
                    self.lemma_at(key, i as int);
                    assert forall|k: Seq<char>| #[trigger] self@.contains_key(k) <==> before@.insert(
                        key,
                        value,
                    ).contains_key(k) by {
                        if self@.contains_key(k) {
                            let j = choose|j: int| self.at(k, j);
                            assert(before.at(k, j));
                        }
                        if before@.contains_key(k) {
                            let j = choose|j: int| before.at(k, j);
                            assert(self.at(k, j));
                        }
                    }
                    assert forall|k: Seq<char>| self@.contains_key(k) implies #[trigger] self@[k]
                        == before@.insert(key, value)[k] by {
                        let j = choose|j: int| self.at(k, j);
                        self.lemma_at(k, j);
                        assert(before.at(k, j));
                        before.lemma_at(k, j);
                    }
                }
            },
            None => {
                self.ids.push(id);
                self.values.push(value);
                proof {
                    let last = before.ids@.len() as int;
                    assert(self.wf()) by {
                        assert forall|i: int, j: int| 0 <= i < j < self.ids@.len() implies self.ids@[i]@
                            != self.ids@[j]@ by {
                            assert(!before.at(key, i));
                        }
                    }
                    assert(self.at(key, last));
                    self.lemma_at(key, last);
                    assert forall|k: Seq<char>| #[trigger] self@.contains_key(k) <==> before@.insert(
                        key,
                        value,
                    ).contains_key(k) by {
                        if self@.contains_key(k) && k != key {
                            let j = choose|j: int| self.at(k, j);
                            assert(before.at(k, j));
                        }
                        if before@.contains_key(k) {
                            let j = choose|j: int| before.at(k, j);
                            assert(self.at(k, j));
                        }
                    }
                    assert forall|k: Seq<char>| self@.contains_key(k) implies #[trigger] self@[k]
                        == before@.insert(key, value)[k] by {
                        if k != key {
                            let j = choose|j: int| self.at(k, j);
                            self.lemma_at(k, j);
                            assert(before.at(k, j));
                            before.lemma_at(k, j);
                        }
                    }
                }
            },
        }
        assert(self@ =~= before@.insert(key, value));
    }

    /// Takes `id` out.
    pub fn remove(&mut self, id: &str)
        requires
            old(self).wf(),
        ensures
            final(self).wf(),
            final(self)@ == old(self)@.remove(id@),
    {
        let ghost before = *self;
        match self.position(id) {
            Some(i) => {
                self.ids.remove(i);
                self.values.remove(i);
                proof {
                    assert forall|k: Seq<char>| #[trigger] self@.contains_key(k) <==> before@.remove(
                        id@,
                    ).contains_key(k) by {
                        if self@.contains_key(k) {
                            let j = choose|j: int| self.at(k, j);
                            let m = if j < i {
                                j
                            } else {
                                j + 1
                            };
                            assert(before.at(k, m));
                            assert(before.at(id@, i as int));
                        }
                        if before@.contains_key(k) && k != id@ {
                            let j = choose|j: int| before.at(k, j);
                            let m = if j < i {
                                j
                            } else {
                                j - 1
                            };
                            assert(self.at(k, m));
                        }
                    }
                    assert forall|k: Seq<char>| self@.contains_key(k) implies #[trigger] self@[k]
                        == before@.remove(id@)[k] by {
                        let j = choose|j: int| self.at(k, j);
                        self.lemma_at(k, j);
                        let m = if j < i {
                            j
                        } else {
                            j + 1
                        };
                        assert(before.at(k, m));
                        before.lemma_at(k, m);
                    }
                }
            },
            None => {
                assert(!before@.contains_key(id@));
            },
        }
        assert(self@ =~= before@.remove(id@));
    }
}

impl<V> View for IdMap<V> {
    type V = Map<Seq<char>, V>;

    closed spec fn view(&self) -> Map<Seq<char>, V> {
        Map::new(
            |id: Seq<char>| exists|i: int| self.at(id, i),
            |id: Seq<char>| self.values@[choose|i: int| self.at(id, i)],
        )
    }
}

} // verus!
