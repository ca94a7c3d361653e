//! Lists kept by a string key, each key once, the keys in increasing order.
use vstd::prelude::*;
use crate::order::{lemma_seq_lt_order, seq_lt, str_lt};

verus! {

pub struct ListMap<T> {
    entries: Vec<(String, Vec<T>)>,
}

impl<T> ListMap<T> {
    #[verifier::type_invariant]
    closed spec fn wf(&self) -> bool {
        &&& forall|i: int, j: int|
            0 <= i < j < self.entries@.len() ==> seq_lt(#[trigger] self.entries@[i].0@, #[trigger] self.entries@[j].0@)
        &&& forall|i: int|
            0 <= i < self.entries@.len() ==> #[trigger] self.entries@[i].1@.len() > 0
    }

    proof fn lemma_distinct(&self)
        requires
            self.wf(),
        ensures
            forall|i: int, j: int|
                0 <= i < self.entries@.len() && 0 <= j < self.entries@.len() && i != j
                    ==> #[trigger] self.entries@[i].0@ != #[trigger] self.entries@[j].0@,
    {
        assert forall|i: int, j: int|
            0 <= i < self.entries@.len() && 0 <= j < self.entries@.len() && i != j
                implies #[trigger] self.entries@[i].0@ != #[trigger] self.entries@[j].0@ by {
            lemma_seq_lt_order(self.entries@[i].0@, self.entries@[j].0@, self.entries@[j].0@);
            lemma_seq_lt_order(self.entries@[j].0@, self.entries@[i].0@, self.entries@[i].0@);
        }
    }

    closed spec fn has(&self, k: Seq<char>) -> bool {
        exists|i: int| 0 <= i < self.entries@.len() && #[trigger] self.entries@[i].0@ == k
    }

    /// The list kept for `k`; empty if there is none.
    pub closed spec fn lookup(&self, k: Seq<char>) -> Seq<T> {
        if self.has(k) {
            let i = choose|i: int| 0 <= i < self.entries@.len() && #[trigger] self.entries@[i].0@ == k;
            self.entries@[i].1@
        } else {
            seq![]
        }
    }

    /// The key of the `i`-th list.
    pub closed spec fn key_at(&self, i: int) -> Seq<char> {
        self.entries@[i].0@
    }

    pub closed spec fn count(&self) -> nat {
        self.entries@.len()
    }

    proof fn lemma_lookup_at(&self, i: int)
        requires
            self.wf(),
            0 <= i < self.entries@.len(),
        ensures
            self.lookup(self.entries@[i].0@) == self.entries@[i].1@,
    {
        let k = self.entries@[i].0@;
        assert(self.has(k));
        self.lemma_distinct();
        let j = choose|j: int| 0 <= j < self.entries@.len() && #[trigger] self.entries@[j].0@ == k;
        assert(j == i);
    }

    pub fn new() -> (m: Self)
        ensures
            forall|k: Seq<char>| #[trigger] m.lookup(k) == Seq::<T>::empty(),
            m.count() == 0,
            m@ == Map::<Seq<char>, Seq<T>>::empty(),
    {
        let m = ListMap { entries: Vec::new() };
        proof {
            assert(m@ =~= Map::<Seq<char>, Seq<T>>::empty());
        }
        m
    }

    /// Appends `value` to the list kept for `key`; a new key takes its place in
    /// the order of keys.
    pub fn extend_at(&mut self, key: String, value: T)
        ensures
            forall|k: Seq<char>| #[trigger] final(self).lookup(k) == if k == key@ {
                old(self).lookup(k).push(value)
            } else {
                old(self).lookup(k)
            },
            final(self)@ == old(self)@.insert(key@, old(self).lookup(key@).push(value)),
            final(self).count() == old(self).count() + if old(self)@.contains_key(key@) {
                0int
            } else {
                1int
            },
    {
        proof {
            use_type_invariant(&*self);
            self.lemma_distinct();
        }
        let mut i: usize = 0;
        while i < self.entries.len() && str_lt(self.entries[i].0.as_str(), key.as_str())
            invariant
                0 <= i <= self.entries@.len(),
                self.entries@ == old(self).entries@,
                forall|j: int| 0 <= j < i ==> seq_lt(#[trigger] self.entries@[j].0@, key@),
            decreases self.entries@.len() - i,
        {
            i = i + 1;
        }
        let ghost old_entries = self.entries@;
        let ghost v = value;
        let ghost k0 = key@;
        if i < self.entries.len() && self.entries[i].0 == key {
            proof {
                old(self).lemma_lookup_at(i as int);
            }
            let mut entries: Vec<(String, Vec<T>)> = Vec::new();
            std::mem::swap(&mut entries, &mut self.entries);
            let (k, mut list) = entries.remove(i);
            list.push(value);
            entries.insert(i, (k, list));
            proof {
                assert(entries@ =~= old_entries.update(i as int, (old_entries[i as int].0, list)));
            }
            self.entries = entries;
            proof {
                self.lemma_distinct();
                assert forall|k: Seq<char>| #[trigger] self.lookup(k) == if k == k0 {
                    old(self).lookup(k).push(v)
                } else {
                    old(self).lookup(k)
                } by {
                    if k == k0 {
                        self.lemma_lookup_at(i as int);
                    } else if self.has(k) {
                        let j = choose|j: int| 0 <= j < self.entries@.len() && #[trigger] self.entries@[j].0@ == k;
                        self.lemma_lookup_at(j);
                        old(self).lemma_lookup_at(j);
                    } else if old(self).has(k) {
                        let j = choose|j: int| 0 <= j < old(self).entries@.len() && #[trigger] old(self).entries@[j].0@ == k;
                        assert(self.entries@[j].0@ == k);
                    }
                }
                assert(old(self)@.contains_key(k0));
                assert(self@ =~= old(self)@.insert(k0, old(self).lookup(k0).push(v)));
            }
        } else {
            proof {
                assert forall|j: int| 0 <= j < old_entries.len() implies #[trigger] old_entries[j].0@ != k0 by {
                    if j < i {
                        lemma_seq_lt_order(old_entries[j].0@, k0, k0);
                    } else {
                        lemma_seq_lt_order(old_entries[i as int].0@, k0, old_entries[j].0@);
                        lemma_seq_lt_order(k0, old_entries[i as int].0@, old_entries[j].0@);
                    }
                }
                assert(!old(self).has(k0));
            }
            let mut list: Vec<T> = Vec::new();
            list.push(value);
            let mut entries: Vec<(String, Vec<T>)> = Vec::new();
            std::mem::swap(&mut entries, &mut self.entries);
            entries.insert(i, (key, list));
            proof {
                assert forall|a: int, b: int| 0 <= a < b < entries@.len() implies seq_lt(
                    #[trigger] entries@[a].0@,
                    #[trigger] entries@[b].0@,
                ) by {
                    if b < i {
                        assert(entries@[a] == old_entries[a] && entries@[b] == old_entries[b]);
                    } else if b == i {
                        assert(entries@[a] == old_entries[a]);
                    } else if a == i {
                        assert(entries@[b] == old_entries[b - 1]);
                        lemma_seq_lt_order(old_entries[i as int].0@, k0, old_entries[b - 1].0@);
                        lemma_seq_lt_order(k0, old_entries[i as int].0@, old_entries[b - 1].0@);
                    } else if a < i {
                        assert(entries@[a] == old_entries[a] && entries@[b] == old_entries[b - 1]);
                    } else {
                        assert(entries@[a] == old_entries[a - 1] && entries@[b] == old_entries[b - 1]);
                    }
                }
                assert forall|a: int| 0 <= a < entries@.len() implies #[trigger] entries@[a].1@.len() > 0 by {
                    if a < i {
                        assert(entries@[a] == old_entries[a]);
                    } else if a > i {
                        assert(entries@[a] == old_entries[a - 1]);
                    }
                }
            }
            self.entries = entries;
            proof {
                self.lemma_distinct();
                assert forall|k: Seq<char>| #[trigger] self.lookup(k) == if k == k0 {
                    old(self).lookup(k).push(v)
                } else {
                    old(self).lookup(k)
                } by {
                    if k == k0 {
                        self.lemma_lookup_at(i as int);
                        assert(Seq::<T>::empty().push(v) =~= seq![v]);
                    } else if old(self).has(k) {
                        let j = choose|j: int| 0 <= j < old(self).entries@.len() && #[trigger] old(self).entries@[j].0@ == k;
                        old(self).lemma_lookup_at(j);
                        if j < i {
                            assert(self.entries@[j] == old_entries[j]);
                            self.lemma_lookup_at(j);
                        } else {
                            assert(self.entries@[j + 1] == old_entries[j]);
                            self.lemma_lookup_at(j + 1);
                        }
                    } else if self.has(k) {
                        let j = choose|j: int| 0 <= j < self.entries@.len() && #[trigger] self.entries@[j].0@ == k;
                        if j < i {
                            assert(old_entries[j] == self.entries@[j]);
                        } else {
                            assert(old_entries[j - 1] == self.entries@[j]);
                        }
                    }
                }
                assert(!old(self)@.contains_key(k0));
                assert(self@ =~= old(self)@.insert(k0, old(self).lookup(k0).push(v)));
            }
        }
    }

    /// The number of keys.  The keys with a list are `key_at(0)`, ...,
    /// `key_at(n - 1)`, each once.
    pub fn len(&self) -> (n: usize)
        ensures
            n == self.count(),
            forall|k: Seq<char>| #[trigger] self.lookup(k).len() > 0 <==> exists|i: int| 0 <= i < self.count() && #[trigger] self.key_at(i) == k,
            forall|i: int, j: int| 0 <= i < j < self.count() ==> #[trigger] self.key_at(i) != #[trigger] self.key_at(j),
            forall|i: int, j: int| 0 <= i < j < self.count() ==> seq_lt(#[trigger] self.key_at(i), #[trigger] self.key_at(j)),
    {
        proof {
            use_type_invariant(self);
            self.lemma_distinct();
            assert forall|k: Seq<char>| #[trigger] self.lookup(k).len() > 0 <==> exists|i: int| 0 <= i < self.count() && #[trigger] self.key_at(i) == k by {
                if self.has(k) {
                    let j = choose|j: int| 0 <= j < self.entries@.len() && #[trigger] self.entries@[j].0@ == k;
                    self.lemma_lookup_at(j);
                    assert(self.key_at(j) == k);
                }
                if exists|i: int| 0 <= i < self.count() && #[trigger] self.key_at(i) == k {
                    let i = choose|i: int| 0 <= i < self.count() && #[trigger] self.key_at(i) == k;
                    self.lemma_lookup_at(i);
                }
            }
        }
        self.entries.len()
    }

    /// The `i`-th key and its list.
    pub fn entry(&self, i: usize) -> (e: (&String, &Vec<T>))
        requires
            i < self.count(),
        ensures
            e.0@ == self.key_at(i as int),
            e.1@ == self.lookup(e.0@),
            e.1@.len() > 0,
    {
        proof {
            use_type_invariant(self);
            self.lemma_lookup_at(i as int);
        }
        (&self.entries[i].0, &self.entries[i].1)
    }
}

impl<T> View for ListMap<T> {
    type V = Map<Seq<char>, Seq<T>>;

    /// The keys with a list, and their lists.
    closed spec fn view(&self) -> Map<Seq<char>, Seq<T>> {
        Map::new(|k: Seq<char>| self.lookup(k).len() > 0, |k: Seq<char>| self.lookup(k))
    }
}

} // verus!
