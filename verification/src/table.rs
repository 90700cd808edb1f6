//! A table of values under texts, whose entries can be walked.

use vstd::hash_map::StringHashMap;
use vstd::prelude::*;
use vstd::string::*;

verus! {

/// Values under texts. No text stands twice.
pub struct Table<V> {
    index: StringHashMap<usize>,
    entries: Vec<(String, V)>,
}

/// Values under texts, seen through their views.
pub open spec fn seen<V: View>(values: Map<Seq<char>, V>) -> Map<Seq<char>, V::V> {
    values.map_values(|value: V| value@)
}

impl<V> View for Table<V> {
    type V = Map<Seq<char>, V>;

    closed spec fn view(&self) -> Map<Seq<char>, V> {
        Map::new(
            |key: Seq<char>| self.index@.contains_key(key),
            |key: Seq<char>| self.entries@[self.index@[key] as int].1,
        )
    }
}

impl<V> Table<V> {
    /// The texts, in the order in which the entries are walked.
    pub closed spec fn keys(&self) -> Seq<Seq<char>> {
        Seq::new(self.entries@.len(), |i: int| self.entries@[i].0@)
    }

    /// Whether the walk meets each entry once.
    pub open spec fn walked(&self) -> bool {
        &&& forall|i: int|
            0 <= i < self.keys().len() ==> self@.contains_key(#[trigger] self.keys()[i])
        &&& forall|key: Seq<char>| #[trigger]
            self@.contains_key(key) ==> exists|i: int|
                0 <= i < self.keys().len() && #[trigger] self.keys()[i] == key
        &&& forall|i: int, j: int|
            0 <= i < j < self.keys().len() ==> #[trigger] self.keys()[i] != #[trigger] self.keys()[j]
    }

    #[verifier::type_invariant]
    spec fn indexed(self) -> bool {
        &&& forall|key: Seq<char>| #[trigger]
            self.index@.contains_key(key) ==> self.index@[key] < self.entries@.len()
                && self.entries@[self.index@[key] as int].0@ == key
        &&& forall|i: int|
            0 <= i < self.entries@.len() ==> self.index@.contains_key(
                (#[trigger] self.entries@[i]).0@,
            ) && self.index@[self.entries@[i].0@] == i
    }

    /// A table without entries.
    pub fn new() -> (r: Table<V>)
        ensures
            r@ == Map::<Seq<char>, V>::empty(),
            r.keys().len() == 0,
    {
        let index = StringHashMap::new();
        let entries: Vec<(String, V)> = Vec::new();
        let r = Table { index, entries };
        assert(r@ =~= Map::<Seq<char>, V>::empty());
        r
    }

    /// How many entries there are.
    pub fn len(&self) -> (r: usize)
        ensures
            r == self.keys().len(),
            self.walked(),
    {
        proof {
            use_type_invariant(self);
            assert forall|key: Seq<char>| #[trigger] self@.contains_key(key) implies exists|i: int|
                0 <= i < self.keys().len() && #[trigger] self.keys()[i] == key by {
                let i = self.index@[key] as int;
                assert(self.keys()[i] == key);
            }
        }
        self.entries.len()
    }

    /// The text of an entry.
    pub fn key_at(&self, i: usize) -> (r: &str)
        requires
            i < self.keys().len(),
        ensures
            r@ == self.keys()[i as int],
    {
        self.entries[i].0.as_str()
    }

    /// The value of an entry.
    pub fn value_at(&self, i: usize) -> (r: &V)
        requires
            i < self.keys().len(),
        ensures
            *r == self@[self.keys()[i as int]],
    {
        proof {
            use_type_invariant(self);
            let entry = self.entries@[i as int];
            assert(self.index@[entry.0@] == i);
        }
        &self.entries[i].1
    }

    /// Whether there is a value under a text.
    pub fn contains(&self, key: &str) -> (r: bool)
        ensures
            r == self@.contains_key(key@),
    {
        self.index.contains_key(key)
    }

    /// The value under a text.
    pub fn get(&self, key: &str) -> (r: Option<&V>)
        ensures
            match r {
                Some(value) => self@.contains_key(key@) && *value == self@[key@],
                None => !self@.contains_key(key@),
            },
    {
        proof {
            use_type_invariant(self);
        }
        match self.index.get(key) {
            Some(i) => Some(&self.entries[*i].1),
            None => None,
        }
    }

    /// Puts a value under a text, in place of one that was there. The entries
    /// keep their order; a new one comes last.
    pub fn insert(&mut self, key: String, value: V)
        ensures
            final(self)@ == old(self)@.insert(key@, value),
            final(self).keys() == if old(self)@.contains_key(key@) {
                old(self).keys()
            } else {
                old(self).keys().push(key@)
            },
    {
        let mut table = Table::new();
        std::mem::swap(self, &mut table);
        let done = table.inserted(key, value);
        *self = done;
    }

    /// Takes a text and its value out. The order of the others may change.
    pub fn remove(&mut self, key: &str) -> (r: Option<V>)
        ensures
            final(self)@ == old(self)@.remove(key@),
            r == if old(self)@.contains_key(key@) {
                Some(old(self)@[key@])
            } else {
                None
            },
    {
        let mut table = Table::new();
        std::mem::swap(self, &mut table);
        let (done, taken) = table.removed(key);
        *self = done;
        taken
    }

    fn inserted(self, key: String, value: V) -> (r: Table<V>)
        ensures
            r@ == self@.insert(key@, value),
            r.keys() == if self@.contains_key(key@) {
                self.keys()
            } else {
                self.keys().push(key@)
            },
    {
        proof {
            use_type_invariant(&self);
        }
        let ghost before = self@;
        let ghost before_keys = self.keys();
        let ghost name = key@;
        let Table { index, entries } = self;
        let mut index = index;
        let mut entries = entries;
        let position: Option<usize> = match index.get(key.as_str()) {
            Some(i) => Some(*i),
            None => None,
        };
        match position {
            Some(i) => {
                entries.set(i, (key, value));
                let r = Table { index, entries };
                assert(r@ =~= before.insert(name, value));
                assert(r.keys() =~= before_keys);
                r
            },
            None => {
                index.insert(key.clone(), entries.len());
                entries.push((key, value));
                let r = Table { index, entries };
                assert(r@ =~= before.insert(name, value));
                assert(r.keys() =~= before_keys.push(name));
                r
            },
        }
    }

    fn removed(self, key: &str) -> (r: (Table<V>, Option<V>))
        ensures
            r.0@ == self@.remove(key@),
            r.1 == if self@.contains_key(key@) {
                Some(self@[key@])
            } else {
                None
            },
    {
        proof {
            use_type_invariant(&self);
        }
        let ghost before = self@;
        let Table { index, entries } = self;
        let mut index = index;
        let mut entries = entries;
        let ghost old_index = index@;
        let ghost old_entries = entries@;
        let position: Option<usize> = match index.get(key) {
            Some(i) => Some(*i),
            None => None,
        };
        match position {
            Some(i) => {
                let last: usize = entries.len() - 1;
                index.remove(key);
                let moved = entries[last].0.clone();
                if i < last {
                    index.insert(moved, i);
                }
                let taken = entries.swap_remove(i);
                proof {
                    assert forall|other: Seq<char>| #[trigger] index@.contains_key(other) implies {
                        &&& index@[other] < entries@.len()
                        &&& entries@[index@[other] as int].0@ == other
                    } by {
                        assert(old_index.contains_key(other));
                        assert(old_entries[old_index[other] as int].0@ == other);
                    }
                    assert forall|j: int| 0 <= j < entries@.len() implies {
                        &&& index@.contains_key((#[trigger] entries@[j]).0@)
                        &&& index@[entries@[j].0@] == j
                    } by {
                        if j == i {
                            assert(entries@[j] == old_entries[last as int]);
                            assert(old_index[old_entries[last as int].0@] == last);
                        } else {
                            assert(entries@[j] == old_entries[j]);
                            assert(old_index[old_entries[j].0@] == j);
                        }
                    }
                }
                let r = Table { index, entries };
                assert(r@ =~= before.remove(key@)) by {
                    assert forall|other: Seq<char>| r@.contains_key(other)
                        == before.remove(key@).contains_key(other) by {
                        if other == old_entries[last as int].0@ {
                            assert(old_index[old_entries[last as int].0@] == last);
                        }
                    }
                    assert forall|other: Seq<char>| r@.contains_key(other) implies r@[other]
                        == before.remove(key@)[other] by {
                        let at = old_index[other] as int;
                        assert(old_entries[at].0@ == other);
                        if at == last {
                            assert(entries@[i as int] == old_entries[last as int]);
                        } else {
                            assert(entries@[at] == old_entries[at]);
                        }
                    }
                }
                (r, Some(taken.1))
            },
            None => {
                let r = Table { index, entries };
                assert(r@ =~= before);
                assert(before.remove(key@) =~= before);
                (r, None)
            },
        }
    }
}

impl Clone for Table<String> {
    fn clone(&self) -> (r: Self)
        ensures
            r@ == self@,
            r.keys() == self.keys(),
    {
        let n: usize = self.len();
        let mut out: Table<String> = Table::new();
        let mut i: usize = 0;
        assert(out.keys() =~= self.keys().take(0));
        while i < n
            invariant
                i <= n,
                n == self.keys().len(),
                self.walked(),
                out.keys() == self.keys().take(i as int),
                forall|key: Seq<char>| #[trigger]
                    out@.contains_key(key) <==> exists|j: int|
                        0 <= j < i && #[trigger] self.keys()[j] == key,
                forall|key: Seq<char>| #[trigger] out@.contains_key(key) ==> out@[key] == self@[key],
            decreases n - i,
        {
            let ghost before = out@;
            let ghost name = self.keys()[i as int];
            out.insert(self.key_at(i).to_owned(), self.value_at(i).clone());
            proof {
                assert(self.keys().take(i + 1) =~= self.keys().take(i as int).push(name));
                assert forall|key: Seq<char>| #[trigger] out@.contains_key(key) <==> exists|j: int|
                    0 <= j < i + 1 && #[trigger] self.keys()[j] == key by {
                    if key == name {
                        assert(self.keys()[i as int] == key);
                    } else if before.contains_key(key) {
                        let j = choose|j: int| 0 <= j < i && #[trigger] self.keys()[j] == key;
                        assert(self.keys()[j] == key);
                    }
                }
            }
            i = i + 1;
        }
        assert(self.keys().take(n as int) =~= self.keys());
        assert(out@ =~= self@);
        out
    }
}

} // verus!
