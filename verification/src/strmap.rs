//! An ordered map keyed by strings: the library's string-keyed collection.
//!
//! Entries are kept sorted by key (character order, which is the order of `str`'s
//! `Ord`), so iterating by index visits keys in ascending order, as a `BTreeMap` would.
use vstd::prelude::*;

use crate::text::{char_seq_lt, chars_of, compare_chars, lemma_lt_irreflexive, lemma_lt_total, lemma_lt_transitive};

verus! {

/// A map from strings to values whose keys are kept in ascending order.
#[derive(Debug, PartialEq, Eq)]
pub struct StrMap<V> {
    entries: Vec<(String, V)>,
}

impl<V> StrMap<V> {
    /// The keys, in ascending order.
    pub closed spec fn key_seq(self) -> Seq<Seq<char>> {
        Seq::new(self.entries@.len(), |i: int| self.entries@[i].0@)
    }

    /// The values, in the order of their keys.
    pub closed spec fn value_seq(self) -> Seq<V> {
        Seq::new(self.entries@.len(), |i: int| self.entries@[i].1)
    }

    /// The position of `k` among the keys, when it is one of them.
    closed spec fn index_of_key(self, k: Seq<char>) -> int {
        choose|i: int| 0 <= i < self.entries@.len() && self.key_seq()[i] == k
    }

    /// Keys are strictly ascending (hence distinct).
    #[verifier::type_invariant]
    pub closed spec fn wf(self) -> bool {
        forall|i: int, j: int|
            0 <= i < j < self.entries@.len() ==> char_seq_lt(
                #[trigger] self.entries@[i].0@,
                #[trigger] self.entries@[j].0@,
            )
    }

    /// Facts that hold of every map: the key order, and how the map relates to the
    /// key and value sequences.
    pub proof fn lemma_layout(self)
        requires
            self.wf(),
        ensures
            self.key_seq().len() == self.value_seq().len(),
            forall|i: int, j: int|
                0 <= i < j < self.key_seq().len() ==> char_seq_lt(
                    #[trigger] self.key_seq()[i],
                    #[trigger] self.key_seq()[j],
                ),
            forall|i: int|
                0 <= i < self.key_seq().len() ==> #[trigger] self@.contains_key(self.key_seq()[i])
                    && self@[self.key_seq()[i]] == self.value_seq()[i],
            forall|k: Seq<char>|
                #[trigger] self@.contains_key(k) ==> exists|i: int|
                    0 <= i < self.key_seq().len() && self.key_seq()[i] == k,
            self@.dom().finite(),
            self@.dom().len() == self.key_seq().len(),
    {
        assert forall|i: int| 0 <= i < self.key_seq().len() implies #[trigger] self@.contains_key(
            self.key_seq()[i],
        ) && self@[self.key_seq()[i]] == self.value_seq()[i] by {
            self.lemma_index(i);
        }
        self.lemma_dom_len();
    }

    proof fn lemma_index(self, i: int)
        requires
            self.wf(),
            0 <= i < self.entries@.len(),
        ensures
            self@.contains_key(self.entries@[i].0@),
            self@[self.entries@[i].0@] == self.entries@[i].1,
    {
        let k = self.entries@[i].0@;
        assert(self.key_seq()[i] == k);
        let j = self.index_of_key(k);
        if j != i {
            if j < i {
                assert(char_seq_lt(self.entries@[j].0@, self.entries@[i].0@));
            } else {
                assert(char_seq_lt(self.entries@[i].0@, self.entries@[j].0@));
            }
            lemma_lt_irreflexive(k);
        }
        assert(self.value_seq()[j] == self.entries@[j].1);
        assert(self@.contains_key(k));
        assert(self@[k] == self.value_seq()[j]);
    }

    proof fn lemma_dom_len(self)
        requires
            self.wf(),
        ensures
            self@.dom().finite(),
            self@.dom().len() == self.key_seq().len(),
        decreases self.entries@.len(),
    {
        let ks = self.key_seq();
        assert(self@.dom() =~= ks.to_set());
        assert(ks.no_duplicates()) by {
            assert forall|i: int, j: int| 0 <= i < ks.len() && 0 <= j < ks.len() && i != j implies ks[i]
                != ks[j] by {
                if i < j {
                    assert(char_seq_lt(self.entries@[i].0@, self.entries@[j].0@));
                } else {
                    assert(char_seq_lt(self.entries@[j].0@, self.entries@[i].0@));
                }
                lemma_lt_irreflexive(ks[i]);
            }
        }
        ks.unique_seq_to_set();
    }

    /// An empty map.
    pub fn new() -> (m: Self)
        ensures
            m@ == Map::<Seq<char>, V>::empty(),
            m.key_seq().len() == 0,
    {
        let m = StrMap { entries: Vec::new() };
        assert(m@ =~= Map::<Seq<char>, V>::empty());
        m
    }

    /// The number of entries.
    pub fn len(&self) -> (n: usize)
        ensures
            n == self.key_seq().len(),
            n == self@.dom().len(),
    {
        proof {
            use_type_invariant(self);
            self.lemma_dom_len();
        }
        self.entries.len()
    }

    /// Whether the map holds no entry.
    pub fn is_empty(&self) -> (b: bool)
        ensures
            b == (self@.dom().len() == 0),
            b == (self@ == Map::<Seq<char>, V>::empty()),
    {
        proof {
            use_type_invariant(self);
            self.lemma_dom_len();
            if self.entries@.len() > 0 {
                self.lemma_index(0);
            } else {
                assert(self@ =~= Map::<Seq<char>, V>::empty());
            }
        }
        self.entries.len() == 0
    }

    /// The `i`-th entry in key order.
    pub fn get_index(&self, i: usize) -> (r: (&String, &V))
        requires
            i < self.key_seq().len(),
        ensures
            r.0@ == self.key_seq()[i as int],
            *r.1 == self.value_seq()[i as int],
            self@.contains_key(r.0@),
            self@[r.0@] == *r.1,
    {
        proof {
            use_type_invariant(self);
            self.lemma_index(i as int);
        }
        let e = &self.entries[i];
        (&e.0, &e.1)
    }

    /// Position of the first entry whose key is not below `key`.
    fn lower_bound(&self, key: &[char]) -> (i: usize)
        ensures
            i <= self.entries@.len(),
            forall|j: int| 0 <= j < i ==> char_seq_lt(#[trigger] self.entries@[j].0@, key@),
            i < self.entries@.len() ==> !char_seq_lt(self.entries@[i as int].0@, key@),
    {
        proof {
            use_type_invariant(self);
        }
        let mut i: usize = 0;
        while i < self.entries.len()
            invariant
                i <= self.entries@.len(),
                forall|j: int| 0 <= j < i ==> char_seq_lt(#[trigger] self.entries@[j].0@, key@),
            decreases self.entries@.len() - i,
        {
            let k = chars_of(self.entries[i].0.as_str());
            if compare_chars(k.as_slice(), key) >= 0 {
                return i;
            }
            i = i + 1;
        }
        i
    }

    proof fn lemma_absent(self, key: Seq<char>, i: int)
        requires
            self.wf(),
            0 <= i <= self.entries@.len(),
            forall|j: int| 0 <= j < i ==> char_seq_lt(#[trigger] self.entries@[j].0@, key),
            i < self.entries@.len() ==> self.entries@[i].0@ != key && !char_seq_lt(
                self.entries@[i].0@,
                key,
            ),
        ensures
            !self@.contains_key(key),
    {
        if self@.contains_key(key) {
            let j = choose|j: int| 0 <= j < self.entries@.len() && self.key_seq()[j] == key;
            if j < i {
                lemma_lt_irreflexive(key);
                assert(char_seq_lt(self.entries@[j].0@, key));
            } else if j > i {
                lemma_lt_total(self.entries@[i].0@, key);
                assert(char_seq_lt(self.entries@[i].0@, self.entries@[j].0@));
                assert(char_seq_lt(key, self.entries@[i].0@));
                lemma_lt_total(key, self.entries@[i].0@);
            } else {
                assert(self.key_seq()[j] == self.entries@[i].0@);
            }
        }
    }

    /// Where `key` is in the map, if it is.
    fn find(&self, key: &str) -> (r: Option<usize>)
        ensures
            match r {
                Some(i) => i < self.entries@.len() && self.entries@[i as int].0@ == key@,
                None => !self@.contains_key(key@),
            },
    {
        proof {
            use_type_invariant(self);
        }
        let kc = chars_of(key);
        let i = self.lower_bound(kc.as_slice());
        if i < self.entries.len() {
            let k = chars_of(self.entries[i].0.as_str());
            if compare_chars(k.as_slice(), kc.as_slice()) == 0 {
                return Some(i);
            }
        }
        proof {
            self.lemma_absent(key@, i as int);
        }
        None
    }

    /// Whether `key` has an entry.
    pub fn contains_key(&self, key: &str) -> (b: bool)
        ensures
            b == self@.contains_key(key@),
    {
        proof {
            use_type_invariant(self);
        }
        match self.find(key) {
            Some(i) => {
                proof {
                    self.lemma_index(i as int);
                }
                true
            },
            None => false,
        }
    }

    /// The value stored under `key`, if any.
    pub fn get(&self, key: &str) -> (r: Option<&V>)
        ensures
            match r {
                Some(v) => self@.contains_key(key@) && self@[key@] == *v,
                None => !self@.contains_key(key@),
            },
    {
        proof {
            use_type_invariant(self);
        }
        match self.find(key) {
            Some(i) => {
                proof {
                    self.lemma_index(i as int);
                }
                Some(&self.entries[i].1)
            },
            None => None,
        }
    }

    /// Stores `value` under `key`, returning the value it replaces, if any.
    pub fn insert(&mut self, key: String, value: V) -> (old_value: Option<V>)
        ensures
            final(self)@ == old(self)@.insert(key@, value),
            match old_value {
                Some(v) => old(self)@.contains_key(key@) && old(self)@[key@] == v,
                None => !old(self)@.contains_key(key@),
            },
    {
        proof {
            use_type_invariant(&*self);
        }
        let ghost pre = *self;
        let kc = chars_of(key.as_str());
        let i = self.lower_bound(kc.as_slice());
        let mut same = false;
        if i < self.entries.len() {
            let k = chars_of(self.entries[i].0.as_str());
            same = compare_chars(k.as_slice(), kc.as_slice()) == 0;
        }
        if same {
            proof {
                pre.lemma_index(i as int);
            }
            let mut entries: Vec<(String, V)> = Vec::new();
            std::mem::swap(&mut entries, &mut self.entries);
            let (_, old_v) = entries.remove(i);
            entries.insert(i, (key, value));
            proof {
                assert forall|a: int, b: int| 0 <= a < b < entries@.len() implies char_seq_lt(
                    #[trigger] entries@[a].0@,
                    #[trigger] entries@[b].0@,
                ) by {
                    assert(pre.entries@[a].0@ == entries@[a].0@);
                    assert(pre.entries@[b].0@ == entries@[b].0@);
                }
            }
            self.entries = entries;
            proof {
                self.lemma_after_update(pre, key@, value, i as int, false);
            }
            Some(old_v)
        } else {
            proof {
                pre.lemma_absent(key@, i as int);
            }
            let mut entries: Vec<(String, V)> = Vec::new();
            std::mem::swap(&mut entries, &mut self.entries);
            entries.insert(i, (key, value));
            proof {
                assert forall|a: int, b: int| 0 <= a < b < entries@.len() implies char_seq_lt(
                    #[trigger] entries@[a].0@,
                    #[trigger] entries@[b].0@,
                ) by {
                    let ia = i as int;
                    if b < ia {
                        assert(entries@[a] == pre.entries@[a]);
                        assert(entries@[b] == pre.entries@[b]);
                    } else if b == ia {
                        assert(entries@[a] == pre.entries@[a]);
                    } else if a == ia {
                        assert(entries@[b] == pre.entries@[b - 1]);
                        if b - 1 > ia {
                            assert(char_seq_lt(pre.entries@[ia].0@, pre.entries@[b - 1].0@));
                        }
                        lemma_lt_total(pre.entries@[ia].0@, key@);
                        if b - 1 > ia {
                            lemma_lt_transitive(key@, pre.entries@[ia].0@, pre.entries@[b - 1].0@);
                        }
                    } else if a < ia {
                        assert(entries@[a] == pre.entries@[a]);
                        assert(entries@[b] == pre.entries@[b - 1]);
                        assert(char_seq_lt(pre.entries@[a].0@, key@));
                        lemma_lt_total(pre.entries@[ia].0@, key@);
                        assert(char_seq_lt(key@, pre.entries@[ia].0@));
                        lemma_lt_transitive(pre.entries@[a].0@, key@, pre.entries@[ia].0@);
                        if b - 1 > ia {
                            assert(char_seq_lt(pre.entries@[ia].0@, pre.entries@[b - 1].0@));
                            lemma_lt_transitive(
                                pre.entries@[a].0@,
                                pre.entries@[ia].0@,
                                pre.entries@[b - 1].0@,
                            );
                        }
                    } else {
                        assert(entries@[a] == pre.entries@[a - 1]);
                        assert(entries@[b] == pre.entries@[b - 1]);
                    }
                }
            }
            self.entries = entries;
            proof {
                self.lemma_after_update(pre, key@, value, i as int, true);
            }
            None
        }
    }

    proof fn lemma_after_update(self, pre: Self, key: Seq<char>, value: V, i: int, inserted: bool)
        requires
            self.wf(),
            pre.wf(),
            0 <= i < self.entries@.len(),
            self.entries@[i].0@ == key,
            self.entries@[i].1 == value,
            inserted ==> self.entries@.len() == pre.entries@.len() + 1,
            inserted ==> forall|j: int| 0 <= j < i ==> self.entries@[j] == pre.entries@[j],
            inserted ==> forall|j: int|
                i < j < self.entries@.len() ==> self.entries@[j] == pre.entries@[j - 1],
            !inserted ==> self.entries@.len() == pre.entries@.len(),
            !inserted ==> forall|j: int|
                0 <= j < self.entries@.len() && j != i ==> self.entries@[j] == pre.entries@[j],
            !inserted ==> pre.entries@[i].0@ == key,
        ensures
            self@ == pre@.insert(key, value),
    {
        let target = pre@.insert(key, value);
        assert forall|k: Seq<char>| #[trigger] self@.contains_key(k) <==> target.contains_key(k) by {
            if self@.contains_key(k) {
                let j = choose|j: int| 0 <= j < self.entries@.len() && self.key_seq()[j] == k;
                if j != i {
                    let pj = if inserted && j > i {
                        j - 1
                    } else {
                        j
                    };
                    assert(pre.key_seq()[pj] == k);
                }
            }
            if target.contains_key(k) && k != key {
                let j = choose|j: int| 0 <= j < pre.entries@.len() && pre.key_seq()[j] == k;
                let sj = if inserted && j >= i {
                    j + 1
                } else {
                    j
                };
                assert(self.key_seq()[sj] == k);
            }
            if k == key {
                assert(self.key_seq()[i] == k);
            }
        }
        assert forall|k: Seq<char>| #[trigger] self@.contains_key(k) implies self@[k] == target[k] by {
            let j = choose|j: int| 0 <= j < self.entries@.len() && self.key_seq()[j] == k;
            self.lemma_index(j);
            if j != i {
                let pj = if inserted && j > i {
                    j - 1
                } else {
                    j
                };
                pre.lemma_index(pj);
                if k == key {
                    self.lemma_index(i);
                }
            } else {
                self.lemma_index(i);
            }
        }
        assert(self@ =~= target);
    }

    /// Removes the entry for `key`, returning its value, if there was one.
    pub fn remove(&mut self, key: &str) -> (removed: Option<V>)
        ensures
            final(self)@ == old(self)@.remove(key@),
            removed is None ==> *final(self) == *old(self),
            match removed {
                Some(v) => old(self)@.contains_key(key@) && old(self)@[key@] == v,
                None => !old(self)@.contains_key(key@),
            },
    {
        proof {
            use_type_invariant(&*self);
        }
        let ghost pre = *self;
        match self.find(key) {
            Some(i) => {
                proof {
                    pre.lemma_index(i as int);
                }
                let mut entries: Vec<(String, V)> = Vec::new();
                std::mem::swap(&mut entries, &mut self.entries);
                let (_, v) = entries.remove(i);
                proof {
                    assert forall|a: int, b: int|
                        0 <= a < b < entries@.len() implies char_seq_lt(
                        #[trigger] entries@[a].0@,
                        #[trigger] entries@[b].0@,
                    ) by {
                        let pa = if a >= i {
                            a + 1
                        } else {
                            a
                        };
                        let pb = if b >= i {
                            b + 1
                        } else {
                            b
                        };
                        assert(entries@[a] == pre.entries@[pa]);
                        assert(entries@[b] == pre.entries@[pb]);
                    }
                }
                self.entries = entries;
                proof {
                    let target = pre@.remove(key@);
                    assert forall|k: Seq<char>| #[trigger] self@.contains_key(k) <==> target.contains_key(
                        k,
                    ) by {
                        if self@.contains_key(k) {
                            let j = choose|j: int|
                                0 <= j < self.entries@.len() && self.key_seq()[j] == k;
                            let pj = if j >= i {
                                j + 1
                            } else {
                                j
                            };
                            assert(pre.key_seq()[pj] == k);
                            if k == key@ {
                                assert(char_seq_lt(pre.entries@[i as int].0@, pre.entries@[pj].0@)
                                    || char_seq_lt(pre.entries@[pj].0@, pre.entries@[i as int].0@));
                                lemma_lt_irreflexive(k);
                            }
                        }
                        if target.contains_key(k) {
                            let j = choose|j: int|
                                0 <= j < pre.entries@.len() && pre.key_seq()[j] == k;
                            assert(j != i);
                            let sj = if j > i {
                                j - 1
                            } else {
                                j
                            };
                            assert(self.key_seq()[sj] == k);
                        }
                    }
                    assert forall|k: Seq<char>| #[trigger] self@.contains_key(k) implies self@[k]
                        == target[k] by {
                        let j = choose|j: int| 0 <= j < self.entries@.len() && self.key_seq()[j] == k;
                        self.lemma_index(j);
                        let pj = if j >= i {
                            j + 1
                        } else {
                            j
                        };
                        pre.lemma_index(pj);
                    }
                    assert(self@ =~= target);
                }
                Some(v)
            },
            None => {
                proof {
                    assert(pre@.remove(key@) =~= pre@);
                }
                None
            },
        }
    }
}

impl<V> View for StrMap<V> {
    type V = Map<Seq<char>, V>;

    closed spec fn view(&self) -> Map<Seq<char>, V> {
        Map::new(
            |k: Seq<char>| exists|i: int| 0 <= i < self.entries@.len() && self.key_seq()[i] == k,
            |k: Seq<char>|
                self.value_seq()[self.index_of_key(k)],
        )
    }
}

impl<V: Copy> StrMap<V> {
    /// A copy of the map, entry for entry.
    pub fn duplicate(&self) -> (m: Self)
        ensures
            m@ == self@,
    {
        proof {
            use_type_invariant(self);
        }
        let mut entries: Vec<(String, V)> = Vec::new();
        let mut i: usize = 0;
        while i < self.entries.len()
            invariant
                i <= self.entries@.len(),
                entries@.len() == i,
                forall|j: int| 0 <= j < i ==> #[trigger] entries@[j] == self.entries@[j],
            decreases self.entries@.len() - i,
        {
            let e = &self.entries[i];
            entries.push((e.0.clone(), e.1));
            i = i + 1;
        }
        let m = StrMap { entries };
        proof {
            assert(m.entries@ =~= self.entries@);
        }
        m
    }
}

} // verus!
