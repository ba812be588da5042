//! A small map from text keys to values, kept as a list of distinct keys.
use vstd::prelude::*;

verus! {

/// Values by text key; each key at most once.
#[derive(Debug)]
pub struct Keyed<V> {
    entries: Vec<(String, V)>,
}

impl<V> Keyed<V> {
    /// Every key is held once.
    pub closed spec fn wf(&self) -> bool {
        forall|i: int, j: int|
            0 <= i < j < self.entries@.len() ==> self.entries@[i].0@ != self.entries@[j].0@
    }

    /// Whether `k` is held at index `i`.
    closed spec fn at(&self, i: int, k: Seq<char>) -> bool {
        0 <= i < self.entries@.len() && self.entries@[i].0@ == k
    }

    /// What is held, by key.
    pub closed spec fn map(&self) -> Map<Seq<char>, V> {
        Map::new(
            |k: Seq<char>| exists|i: int| self.at(i, k),
            |k: Seq<char>| self.entries@[choose|i: int| self.at(i, k)].1,
        )
    }

    /// Nothing held.
    pub fn new() -> (r: Self)
        ensures
            r.wf(),
            r.map() == Map::<Seq<char>, V>::empty(),
    {
        let r = Keyed { entries: Vec::new() };
        assert(r.map() =~= Map::<Seq<char>, V>::empty());
        r
    }

    fn position(&self, key: &str) -> (r: Option<usize>)
        ensures
            match r {
                Some(i) => self.at(i as int, key@),
                None => forall|i: int| !self.at(i, key@),
            },
    {
        let mut i: usize = 0;
        while i < self.entries.len()
            invariant
                i <= self.entries@.len(),
                forall|j: int| 0 <= j < i ==> !self.at(j, key@),
            decreases self.entries@.len() - i,
        {
            if crate::text::same(self.entries[i].0.as_str(), key) {
                return Some(i);
            }
            i = i + 1;
        }
        None
    }

    proof fn lemma_found(&self, i: int, k: Seq<char>)
        requires
            self.wf(),
            self.at(i, k),
        ensures
            self.map().contains_key(k),
            self.map()[k] == self.entries@[i].1,
    {
        let j = choose|j: int| self.at(j, k);
        assert(self.at(j, k));
        assert(j == i);
    }

    /// The value held for `key`.
    pub fn get(&self, key: &str) -> (r: Option<&V>)
        requires
            self.wf(),
        ensures
            match r {
                Some(v) => self.map().contains_key(key@) && *v == self.map()[key@],
                None => !self.map().contains_key(key@),
            },
    {
        match self.position(key) {
            Some(i) => {
                proof {
                    self.lemma_found(i as int, key@);
                }
                Some(&self.entries[i].1)
            },
            None => None,
        }
    }

    /// Hold `value` for `key`, replacing what was held.
    pub fn insert(&mut self, key: &str, value: V)
        requires
            old(self).wf(),
        ensures
            final(self).wf(),
            final(self).map() == old(self).map().insert(key@, value),
    {
        let _ = self.remove(key);
        let ghost before = *self;
        self.entries.push((key.to_owned(), value));
        let ghost n = before.entries@.len() as int;
        assert(self.at(n, key@));
        assert(!before.map().contains_key(key@));
        assert forall|i: int, j: int| 0 <= i < j < self.entries@.len() implies self.entries@[i].0@ != self.entries@[j].0@ by {
            if j == n && self.entries@[i].0@ == key@ {
                assert(before.at(i, key@));
            }
        }
        assert forall|k: Seq<char>| #[trigger] self.map().contains_key(k) == before.map().insert(key@, value).contains_key(k) by {
            if k != key@ && self.map().contains_key(k) {
                let i = choose|i: int| self.at(i, k);
                assert(before.at(i, k));
            }
            if k != key@ && before.map().contains_key(k) {
                let i = choose|i: int| before.at(i, k);
                assert(self.at(i, k));
            }
        }
        assert forall|k: Seq<char>| #[trigger] self.map().contains_key(k) implies self.map()[k] == before.map().insert(key@, value)[k] by {
            if k == key@ {
                self.lemma_found(n, k);
            } else {
                let i = choose|i: int| self.at(i, k);
                assert(before.at(i, k));
                self.lemma_found(i, k);
                before.lemma_found(i, k);
            }
        }
        assert(self.map() =~= old(self).map().insert(key@, value));
    }

    /// Take what is held for `key`, holding nothing for it after.
    pub fn remove(&mut self, key: &str) -> (r: Option<V>)
        requires
            old(self).wf(),
        ensures
            final(self).wf(),
            final(self).map() == old(self).map().remove(key@),
            r == (if old(self).map().contains_key(key@) {
                Some(old(self).map()[key@])
            } else {
                None::<V>
            }),
    {
        match self.position(key) {
            None => {
                assert(!self.map().contains_key(key@));
                assert(self.map() =~= self.map().remove(key@));
                None
            },
            Some(i) => {
                let ghost before = *self;
                proof {
                    before.lemma_found(i as int, key@);
                }
                let (_, value) = self.entries.remove(i);
                assert forall|k: Seq<char>| #[trigger] self.map().contains_key(k) == before.map().remove(key@).contains_key(k) by {
                    if self.map().contains_key(k) {
                        let j = choose|j: int| self.at(j, k);
                        if j < i {
                            assert(before.at(j, k));
                        } else {
                            assert(before.at(j + 1, k));
                        }
                    }
                    if k != key@ && before.map().contains_key(k) {
                        let j = choose|j: int| before.at(j, k);
                        if j < i {
                            assert(self.at(j, k));
                        } else {
                            assert(j != i);
                            assert(self.at(j - 1, k));
                        }
                    }
                }
                assert forall|k: Seq<char>| #[trigger] self.map().contains_key(k) implies self.map()[k] == before.map().remove(key@)[k] by {
                    let j = choose|j: int| self.at(j, k);
                    self.lemma_found(j, k);
                    if j < i {
                        before.lemma_found(j, k);
                    } else {
                        before.lemma_found(j + 1, k);
                    }
                }
                assert(self.map() =~= before.map().remove(key@));
                Some(value)
            },
        }
    }
}

/// Mapping the values of a map commutes with holding a new value.
pub proof fn lemma_map_values_insert<V, W>(m: Map<Seq<char>, V>, k: Seq<char>, v: V, f: spec_fn(V) -> W)
    ensures
        m.insert(k, v).map_values(f) == m.map_values(f).insert(k, f(v)),
{
    assert(m.insert(k, v).map_values(f) =~= m.map_values(f).insert(k, f(v)));
}

/// Mapping the values of a map commutes with dropping a key.
pub proof fn lemma_map_values_remove<V, W>(m: Map<Seq<char>, V>, k: Seq<char>, f: spec_fn(V) -> W)
    ensures
        m.remove(k).map_values(f) == m.map_values(f).remove(k),
{
    assert(m.remove(k).map_values(f) =~= m.map_values(f).remove(k));
}

} // verus!
