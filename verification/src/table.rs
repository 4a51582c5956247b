//! A map from texts to values, kept as a list of pairs under distinct keys.

use vstd::prelude::*;

use crate::text::{text_eq, Text};

verus! {

/// A map from texts to values.
#[derive(Debug)]
pub struct TextMap<V> {
    entries: Vec<(String, V)>,
}

/// The pair at `i` stands under `key`.
pub closed spec fn keyed_at<V>(s: Seq<(String, V)>, i: int, key: Text) -> bool {
    0 <= i < s.len() && s[i].0@ == key
}

/// No two pairs share a key.
spec fn distinct_keys<V>(s: Seq<(String, V)>) -> bool {
    forall|i: int, j: int| 0 <= i < j < s.len() ==> (#[trigger] s[i]).0@ != (#[trigger] s[j]).0@
}

impl<V> View for TextMap<V> {
    type V = Map<Text, V>;

    closed spec fn view(&self) -> Map<Text, V> {
        Map::new(
            |key: Text| exists|i: int| #[trigger] keyed_at(self.entries@, i, key),
            |key: Text| self.entries@[choose|i: int| #[trigger] keyed_at(self.entries@, i, key)].1,
        )
    }
}

impl<V> TextMap<V> {
    /// The keys are distinct.
    pub closed spec fn wf(&self) -> bool {
        distinct_keys(self.entries@)
    }

    /// The keys in the order in which they were first put in.
    pub closed spec fn keys(&self) -> Seq<Text> {
        self.entries@.map_values(|e: (String, V)| e.0@)
    }

    proof fn at(&self, i: int)
        requires
            self.wf(),
            0 <= i < self.entries@.len(),
        ensures
            self@.contains_key(self.entries@[i].0@),
            self@[self.entries@[i].0@] == self.entries@[i].1,
    {
        let key = self.entries@[i].0@;
        assert(keyed_at(self.entries@, i, key));
        let c = choose|j: int| #[trigger] keyed_at(self.entries@, j, key);
        if c < i {
            assert(self.entries@[c].0@ != self.entries@[i].0@);
        } else if i < c {
            assert(self.entries@[i].0@ != self.entries@[c].0@);
        }
    }

    proof fn place(&self, key: Text) -> (i: int)
        requires
            self.wf(),
            self@.contains_key(key),
        ensures
            0 <= i < self.entries@.len(),
            self.entries@[i].0@ == key,
            self@[key] == self.entries@[i].1,
    {
        let c = choose|j: int| #[trigger] keyed_at(self.entries@, j, key);
        self.at(c);
        c
    }

    /// The keys are those of the map, each once.
    pub proof fn keys_are_the_domain(&self)
        requires
            self.wf(),
        ensures
            self.keys().no_duplicates(),
            forall|key: Text| self.keys().contains(key) <==> #[trigger] self@.contains_key(key),
            self@.dom().finite(),
            self@.len() == self.keys().len(),
    {
        let keys = self.keys();
        assert forall|i: int, j: int| 0 <= i < keys.len() && 0 <= j < keys.len() && i != j implies keys[i] != keys[j] by {
            if i < j {
                assert(self.entries@[i].0@ != self.entries@[j].0@);
            } else {
                assert(self.entries@[j].0@ != self.entries@[i].0@);
            }
        }
        assert forall|key: Text| keys.contains(key) <==> #[trigger] self@.contains_key(key) by {
            if keys.contains(key) {
                let i = choose|i: int| 0 <= i < keys.len() && keys[i] == key;
                self.at(i);
            }
            if self@.contains_key(key) {
                let i = self.place(key);
                assert(keys[i] == key);
            }
        }
        keys.unique_seq_to_set();
        assert(keys.to_set() =~= self@.dom());
    }

    /// A map without entries.
    pub fn new() -> (r: Self)
        ensures
            r.wf(),
            r@ == Map::<Text, V>::empty(),
            r.keys() == Seq::<Text>::empty(),
    {
        let r = TextMap { entries: Vec::new() };
        proof {
            assert(r@ =~= Map::<Text, V>::empty()) by {
                assert forall|key: Text| !r@.contains_key(key) by {
                    if r@.contains_key(key) {
                        let i = r.place(key);
                    }
                }
            }
            assert(r.keys() =~= Seq::<Text>::empty());
        }
        r
    }

    /// How many entries there are.
    pub fn len(&self) -> (n: usize)
        requires
            self.wf(),
        ensures
            n == self.keys().len(),
            n == self@.len(),
            n == 0 <==> self@ == Map::<Text, V>::empty(),
    {
        proof {
            self.keys_are_the_domain();
            if self.entries@.len() == 0 {
                assert(self@ =~= Map::<Text, V>::empty()) by {
                    assert forall|key: Text| !self@.contains_key(key) by {
                        if self@.contains_key(key) {
                            let i = self.place(key);
                        }
                    }
                }
            } else {
                self.at(0);
            }
        }
        self.entries.len()
    }

    fn position(&self, key: &str) -> (r: Option<usize>)
        requires
            self.wf(),
        ensures
            match r {
                Some(i) => i < self.entries@.len() && self.entries@[i as int].0@ == key@ && self@.contains_key(key@)
                    && self@[key@] == self.entries@[i as int].1,
                None => !self@.contains_key(key@),
            },
    {
        let mut i: usize = 0;
        while i < self.entries.len()
            invariant
                i <= self.entries@.len(),
                self.wf(),
                forall|k: int| 0 <= k < i ==> (#[trigger] self.entries@[k]).0@ != key@,
            decreases self.entries@.len() - i,
        {
            if text_eq(self.entries[i].0.as_str(), key) {
                proof {
                    self.at(i as int);
                }
                return Some(i);
            }
            i = i + 1;
        }
        proof {
            if self@.contains_key(key@) {
                let k = self.place(key@);
            }
        }
        None
    }

    /// The value under `key`.
    pub fn get(&self, key: &str) -> (r: Option<&V>)
        requires
            self.wf(),
        ensures
            match r {
                Some(v) => self@.contains_key(key@) && *v == self@[key@],
                None => !self@.contains_key(key@),
            },
    {
        match self.position(key) {
            Some(i) => Some(&self.entries[i].1),
            None => None,
        }
    }

    /// The `i`th key, in the order in which the keys were first put in.
    pub fn key_at(&self, i: usize) -> (r: &String)
        requires
            self.wf(),
            i < self.keys().len(),
        ensures
            r@ == self.keys()[i as int],
            self@.contains_key(r@),
    {
        proof {
            self.at(i as int);
        }
        &self.entries[i].0
    }

    /// The value under the `i`th key.
    pub fn value_at(&self, i: usize) -> (r: &V)
        requires
            self.wf(),
            i < self.keys().len(),
        ensures
            *r == self@[self.keys()[i as int]],
    {
        proof {
            self.at(i as int);
        }
        &self.entries[i].1
    }

    /// Puts `value` under `key`, in place of what stood there.
    pub fn insert(&mut self, key: &str, value: V)
        requires
            old(self).wf(),
        ensures
            final(self).wf(),
            final(self)@ == old(self)@.insert(key@, value),
            final(self).keys() == if old(self)@.contains_key(key@) {
                old(self).keys()
            } else {
                old(self).keys().push(key@)
            },
    {
        let ghost before = *self;
        match self.position(key) {
            Some(i) => {
                let name = self.entries[i].0.clone();
                self.entries.set(i, (name, value));
                proof {
                    assert(self.wf()) by {
                        assert forall|a: int, b: int| 0 <= a < b < self.entries@.len() implies (#[trigger] self.entries@[a]).0@
                            != (#[trigger] self.entries@[b]).0@ by {
                            assert(before.entries@[a].0@ != before.entries@[b].0@);
                        }
                    }
                    assert(self.keys() =~= before.keys());
                    self.same_as_insert(before, key@, value, i as int);
                }
            },
            None => {
                self.entries.push((key.to_owned(), value));
                proof {
                    assert(self.wf()) by {
                        assert forall|a: int, b: int| 0 <= a < b < self.entries@.len() implies (#[trigger] self.entries@[a]).0@
                            != (#[trigger] self.entries@[b]).0@ by {
                            if b < before.entries@.len() {
                                assert(before.entries@[a].0@ != before.entries@[b].0@);
                            } else {
                                before.at(a);
                            }
                        }
                    }
                    assert(self.keys() =~= before.keys().push(key@));
                    self.same_as_insert(before, key@, value, before.entries@.len() as int);
                }
            },
        }
    }

    proof fn same_as_insert(&self, before: Self, key: Text, value: V, p: int)
        requires
            self.wf(),
            before.wf(),
            0 <= p < self.entries@.len(),
            self.entries@[p].0@ == key,
            self.entries@[p].1 == value,
            before.entries@.len() <= self.entries@.len() <= before.entries@.len() + 1,
            p < before.entries@.len() ==> before.entries@[p].0@ == key && self.entries@.len() == before.entries@.len(),
            p >= before.entries@.len() ==> self.entries@.len() == p + 1 && p == before.entries@.len(),
            forall|i: int| 0 <= i < before.entries@.len() && i != p ==> self.entries@[i] == #[trigger] before.entries@[i],
        ensures
            self@ == before@.insert(key, value),
    {
        assert forall|k: Text|
            #![trigger self@.contains_key(k)]
            #![trigger self@[k]]
            self@.contains_key(k) == before@.insert(key, value).contains_key(k) && (self@.contains_key(k) ==> self@[k]
                == before@.insert(key, value)[k]) by {
            self.at(p);
            if self@.contains_key(k) && k != key {
                let i = self.place(k);
                assert(i != p);
                assert(self.entries@[i] == before.entries@[i]);
                before.at(i);
            }
            if before@.contains_key(k) && k != key {
                let i = before.place(k);
                assert(i != p);
                assert(self.entries@[i] == before.entries@[i]);
                self.at(i);
            }
        }
        assert(self@ =~= before@.insert(key, value));
    }
}

} // verus!
