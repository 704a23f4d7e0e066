//! A map from strings to values that keeps its keys in ascending order, as a
//! `BTreeMap<String, V>` does: the same lookups, the same iteration order.
use vstd::prelude::*;
use crate::order::{
    chars_le, lex_le, lex_lt, lemma_lex_antisymmetric, lemma_lex_total, lemma_lex_transitive,
    seq_has, strictly_sorted,
};
use crate::text::{chars_eq, chars_of};

verus! {

pub struct StrMap<V> {
    entries: Vec<(String, V)>,
}

impl<V> StrMap<V> {
    /// The keys, in ascending order.
    pub closed spec fn keys(&self) -> Seq<Seq<char>> {
        self.entries@.map_values(|e: (String, V)| e.0@)
    }

    /// The values, in the order of their keys.
    pub closed spec fn values(&self) -> Seq<V> {
        self.entries@.map_values(|e: (String, V)| e.1)
    }

    #[verifier::type_invariant]
    closed spec fn wf(&self) -> bool {
        strictly_sorted(self.keys())
    }

    /// The value stored under `key`, if any.
    pub open spec fn lookup(&self, key: Seq<char>) -> Option<V> {
        if seq_has(self.keys(), key) {
            Some(self.values()[choose|i: int| 0 <= i < self.keys().len() && self.keys()[i] == key])
        } else {
            None
        }
    }

    /// The keys are in strictly ascending order.
    pub fn keys_sorted(&self)
        ensures
            strictly_sorted(self.keys()),
    {
        proof {
            use_type_invariant(self);
        }
    }

    /// The value at a key's index is what `lookup` gives for that key.
    pub proof fn lemma_lookup_index(&self, i: int)
        requires
            strictly_sorted(self.keys()),
            0 <= i < self.keys().len(),
        ensures
            self.lookup(self.keys()[i]) == Some(self.values()[i]),
    {
        let key = self.keys()[i];
        assert(seq_has(self.keys(), key));
        let j = choose|j: int| 0 <= j < self.keys().len() && self.keys()[j] == key;
        if j != i {
            if j < i {
                assert(lex_lt(self.keys()[j], self.keys()[i]));
            } else {
                assert(lex_lt(self.keys()[i], self.keys()[j]));
            }
        }
    }

    pub fn new() -> (m: Self)
        ensures
            m.keys() == Seq::<Seq<char>>::empty(),
            m.values() == Seq::<V>::empty(),
    {
        let m = StrMap { entries: Vec::new() };
        proof {
            assert(m.keys() =~= Seq::<Seq<char>>::empty());
            assert(m.values() =~= Seq::<V>::empty());
        }
        m
    }

    pub fn len(&self) -> (r: usize)
        ensures
            r == self.keys().len(),
            r == self.values().len(),
    {
        self.entries.len()
    }

    pub fn key(&self, i: usize) -> (r: &String)
        requires
            i < self.keys().len(),
        ensures
            r@ == self.keys()[i as int],
    {
        &self.entries[i].0
    }

    pub fn value(&self, i: usize) -> (r: &V)
        requires
            i < self.keys().len(),
        ensures
            *r == self.values()[i as int],
    {
        &self.entries[i].1
    }

    /// The index of `key`, or `None` when it is absent.
    pub fn find(&self, key: &str) -> (r: Option<usize>)
        ensures
            match r {
                Some(i) => i < self.keys().len() && self.keys()[i as int] == key@,
                None => !seq_has(self.keys(), key@),
            },
    {
        let k = chars_of(key);
        let mut i: usize = 0;
        while i < self.entries.len()
            invariant
                i <= self.keys().len(),
                self.keys().len() == self.entries@.len(),
                k@ == key@,
                forall|j: int| 0 <= j < i ==> self.keys()[j] != key@,
            decreases self.keys().len() - i,
        {
            let c = chars_of(self.entries[i].0.as_str());
            proof {
                assert(self.keys()[i as int] == c@);
            }
            if chars_eq(c.as_slice(), k.as_slice()) {
                return Some(i);
            }
            i = i + 1;
        }
        None
    }

    pub fn contains_key(&self, key: &str) -> (r: bool)
        ensures
            r == seq_has(self.keys(), key@),
    {
        self.find(key).is_some()
    }

    /// The value stored under `key`.
    pub fn get(&self, key: &str) -> (r: Option<&V>)
        ensures
            match r {
                Some(v) => self.lookup(key@) == Some(*v),
                None => self.lookup(key@) is None,
            },
    {
        proof {
            use_type_invariant(self);
        }
        match self.find(key) {
            Some(i) => {
                proof {
                    self.lemma_lookup_index(i as int);
                }
                Some(&self.entries[i].1)
            },
            None => None,
        }
    }

    /// Stores `value` under `key`: the value of an existing key is replaced,
    /// a new key takes its place in the order.
    pub fn insert(&mut self, key: String, value: V)
        ensures
            forall|x: Seq<char>| seq_has(final(self).keys(), x) <==> (seq_has(old(self).keys(), x) || x == key@),
            final(self).lookup(key@) == Some(value),
            forall|x: Seq<char>| x != key@ ==> #[trigger] final(self).lookup(x) == old(self).lookup(x),
    {
        proof {
            use_type_invariant(&*self);
        }
        let kc = chars_of(key.as_str());
        let ghost o = self.keys();
        let ghost ov = self.values();
        let mut pos: usize = 0;
        let mut found = false;
        let mut stop = false;
        while pos < self.entries.len() && !stop
            invariant
                pos <= self.entries@.len(),
                o == self.keys(),
                o.len() == self.entries@.len(),
                kc@ == key@,
                strictly_sorted(o),
                forall|i: int| 0 <= i < pos ==> lex_lt(#[trigger] o[i], key@),
                found ==> stop && pos < o.len() && o[pos as int] == key@,
                stop && !found ==> pos < o.len() && !lex_le(o[pos as int], key@),
            decreases self.entries@.len() - pos + (if stop { 0int } else { 1int }),
        {
            let yc = chars_of(self.entries[pos].0.as_str());
            proof {
                assert(o[pos as int] == yc@);
            }
            if chars_eq(yc.as_slice(), kc.as_slice()) {
                found = true;
                stop = true;
            } else if !chars_le(yc.as_slice(), kc.as_slice()) {
                stop = true;
            } else {
                pos = pos + 1;
            }
        }
        if found {
            let ghost before = self.entries@;
            let mut entries = Vec::new();
            std::mem::swap(&mut entries, &mut self.entries);
            entries.set(pos, (key, value));
            proof {
                assert(entries@.map_values(|e: (String, V)| e.0@) =~= o);
            }
            self.entries = entries;
            proof {
                assert(self.keys() =~= o);
                assert(self.values() =~= ov.update(pos as int, value));
                self.lemma_lookup_index(pos as int);
                assert forall|x: Seq<char>| x != key@ implies #[trigger] self.lookup(x) == old(self).lookup(x) by {
                    if seq_has(o, x) {
                        let i = choose|i: int| 0 <= i < o.len() && o[i] == x;
                        self.lemma_lookup_index(i);
                        old(self).lemma_lookup_index(i);
                    }
                }
            }
        } else {
            proof {
                if pos < o.len() {
                    lemma_lex_total(o[pos as int], key@);
                    assert forall|j: int| pos <= j < o.len() implies lex_lt(key@, #[trigger] o[j]) by {
                        if j > pos {
                            assert(lex_lt(o[pos as int], o[j]));
                            lemma_lex_transitive(key@, o[pos as int], o[j]);
                            if key@ == o[j] {
                                lemma_lex_antisymmetric(o[pos as int], o[j]);
                            }
                        }
                    }
                }
            }
            let mut entries = Vec::new();
            std::mem::swap(&mut entries, &mut self.entries);
            entries.insert(pos, (key, value));
            proof {
                let n = entries@.map_values(|e: (String, V)| e.0@);
                assert(n =~= o.insert(pos as int, key@));
                assert forall|i: int, j: int| 0 <= i < j < n.len() implies lex_lt(#[trigger] n[i], #[trigger] n[j]) by {
                    if j < pos {
                    } else if j == pos {
                    } else if i < pos {
                        assert(n[j] == o[j - 1]);
                        if j - 1 != pos as int {
                            assert(lex_lt(key@, o[j - 1]));
                        }
                        lemma_lex_transitive(o[i], key@, o[j - 1]);
                        if o[i] == o[j - 1] {
                            lemma_lex_antisymmetric(o[i], key@);
                        }
                    } else if i == pos {
                        assert(n[j] == o[j - 1]);
                    } else {
                        assert(n[i] == o[i - 1] && n[j] == o[j - 1]);
                    }
                }
            }
            self.entries = entries;
            proof {
                let n = self.keys();
                assert(n =~= o.insert(pos as int, key@));
                assert(self.values() =~= ov.insert(pos as int, value));
                assert(n[pos as int] == key@);
                self.lemma_lookup_index(pos as int);
                assert forall|x: Seq<char>| seq_has(n, x) <==> (seq_has(o, x) || x == key@) by {
                    if seq_has(n, x) {
                        let i = choose|i: int| 0 <= i < n.len() && n[i] == x;
                        if i < pos {
                            assert(o[i] == x);
                        } else if i > pos {
                            assert(o[i - 1] == x);
                        }
                    }
                    if seq_has(o, x) {
                        let i = choose|i: int| 0 <= i < o.len() && o[i] == x;
                        if i < pos {
                            assert(n[i] == x);
                        } else {
                            assert(n[i + 1] == x);
                        }
                    }
                }
                assert forall|x: Seq<char>| x != key@ implies #[trigger] self.lookup(x) == old(self).lookup(x) by {
                    if seq_has(o, x) {
                        let i = choose|i: int| 0 <= i < o.len() && o[i] == x;
                        old(self).lemma_lookup_index(i);
                        if i < pos {
                            assert(n[i] == x);
                            self.lemma_lookup_index(i);
                        } else {
                            assert(n[i + 1] == x);
                            self.lemma_lookup_index(i + 1);
                        }
                    } else {
                        assert(!seq_has(n, x));
                    }
                }
            }
        }
    }
}

} // verus!
