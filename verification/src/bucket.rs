//! A bucket: the ordered chain of key-value pairs that share one slot of
//! the table. Collisions are resolved by a linear scan with key equality.
use vstd::prelude::*;

verus! {

/// One slot's chain. A well-formed chain holds at most one pair per key.
/// A brand-new key is placed at the front; overwriting an existing key
/// keeps its position.
pub(crate) struct Bucket<V> {
    pub(crate) chain: Vec<(u64, V)>,
}

/// Two distinct positions of a well-formed chain hold distinct keys.
pub(crate) proof fn lemma_wf_distinct<V>(b: Bucket<V>, j1: int, j2: int)
    requires
        b.wf(),
        0 <= j1 < j2 < b.entries().len(),
    ensures
        b.entries()[j1].0 != b.entries()[j2].0,
{
}

impl<V> Bucket<V> {
    /// The chain as a sequence of pairs, front first.
    pub(crate) open spec fn entries(self) -> Seq<(u64, V)> {
        self.chain@
    }

    /// At most one pair per distinct key.
    pub(crate) open spec fn wf(self) -> bool {
        forall|j1: int, j2: int|
            0 <= j1 < j2 < self.entries().len() ==> (#[trigger] self.entries()[j1]).0 != (#[trigger] self.entries()[j2]).0
    }

    pub(crate) open spec fn has_key(self, k: u64) -> bool {
        exists|j: int| 0 <= j < self.entries().len() && (#[trigger] self.entries()[j]).0 == k
    }

    /// The position of `k` in the chain; unique when the chain is well formed.
    pub(crate) open spec fn key_index(self, k: u64) -> int {
        choose|j: int| 0 <= j < self.entries().len() && (#[trigger] self.entries()[j]).0 == k
    }

    pub(crate) open spec fn value_of(self, k: u64) -> V {
        self.entries()[self.key_index(k)].1
    }

    pub(crate) fn empty() -> (r: Bucket<V>)
        ensures
            r.entries() =~= Seq::<(u64, V)>::empty(),
    {
        Bucket { chain: Vec::new() }
    }

    /// Overwrites the value in place when the key is present, and otherwise
    /// places the new pair at the front of the chain. Reports whether the
    /// key is new to this chain.
    pub(crate) fn insert(&mut self, key: u64, value: V) -> (fresh: bool)
        requires
            old(self).wf(),
        ensures
            fresh == !old(self).has_key(key),
            final(self).wf(),
            old(self).has_key(key) ==> final(self).entries() =~= old(self).entries().update(
                old(self).key_index(key),
                (key, value),
            ),
            !old(self).has_key(key) ==> final(self).entries() =~= seq![(key, value)] + old(self).entries(),
            final(self).has_key(key),
    {
        let n = self.chain.len();
        let mut i: usize = 0;
        while i < n
            invariant
                old(self).wf(),
                n == self.chain@.len(),
                i <= n,
                self.chain@ == old(self).chain@,
                forall|j: int| 0 <= j < i ==> (#[trigger] self.chain@[j]).0 != key,
            decreases n - i,
        {
            if self.chain[i].0 == key {
                proof {
                    assert(old(self).entries()[i as int].0 == key);
                    assert(old(self).has_key(key));
                    assert(old(self).key_index(key) == i) by {
                        let ki = old(self).key_index(key);
                        assert(0 <= ki < old(self).entries().len() && old(self).entries()[ki].0
                            == key);
                        if ki < i {
                            assert(self.chain@[ki].0 != key);
                        } else if i < ki {
                            lemma_wf_distinct(*old(self), i as int, ki);
                        }
                    };
                }
                self.chain.set(i, (key, value));
                proof {
                    assert(self.entries() =~= old(self).entries().update(i as int, (key, value)));
                    assert forall|j1: int, j2: int|
                        0 <= j1 < j2 < self.entries().len() implies (#[trigger] self.entries()[j1]).0 != (
                    #[trigger] self.entries()[j2]).0 by {
                        lemma_wf_distinct(*old(self), j1, j2);
                        assert(self.entries()[j1].0 == old(self).entries()[j1].0);
                        assert(self.entries()[j2].0 == old(self).entries()[j2].0);
                    };
                    assert(self.entries()[i as int].0 == key);
                }
                return false;
            }
            i += 1;
        }
        proof {
            assert(!old(self).has_key(key));
        }
        self.chain.insert(0, (key, value));
        proof {
            assert(self.entries() =~= seq![(key, value)] + old(self).entries());
            assert forall|j1: int, j2: int|
                0 <= j1 < j2 < self.entries().len() implies (#[trigger] self.entries()[j1]).0 != (
            #[trigger] self.entries()[j2]).0 by {
                if j1 == 0 {
                    assert(self.entries()[j2] == old(self).entries()[j2 - 1]);
                } else {
                    lemma_wf_distinct(*old(self), j1 - 1, j2 - 1);
                    assert(self.entries()[j1] == old(self).entries()[j1 - 1]);
                    assert(self.entries()[j2] == old(self).entries()[j2 - 1]);
                }
            };
            assert(self.entries()[0].0 == key);
        }
        true
    }

    /// Returns a reference to the value stored for `key`, or nothing when
    /// the key is absent.
    pub(crate) fn get(&self, key: &u64) -> (r: Option<&V>)
        requires
            self.wf(),
        ensures
            match r {
                Some(v) => self.has_key(*key) && *v == self.value_of(*key),
                None => !self.has_key(*key),
            },
    {
        let n = self.chain.len();
        let mut i: usize = 0;
        while i < n
            invariant
                n == self.chain@.len(),
                i <= n,
                self.wf(),
                forall|j: int| 0 <= j < i ==> (#[trigger] self.chain@[j]).0 != *key,
            decreases n - i,
        {
            if self.chain[i].0 == *key {
                proof {
                    assert(self.entries()[i as int].0 == *key);
                    assert(self.has_key(*key));
                    assert(self.key_index(*key) == i) by {
                        let ki = self.key_index(*key);
                        assert(0 <= ki < self.entries().len() && self.entries()[ki].0 == *key);
                        if ki < i {
                            assert(self.chain@[ki].0 != *key);
                        } else if i < ki {
                            lemma_wf_distinct(*self, i as int, ki);
                        }
                    };
                }
                return Some(&self.chain[i].1);
            }
            i += 1;
        }
        None
    }

    /// Splices the pair for `key` out of the chain, preserving the relative
    /// order of every other pair; reports whether anything was removed.
    pub(crate) fn remove(&mut self, key: &u64) -> (r: bool)
        requires
            old(self).wf(),
        ensures
            final(self).wf(),
            r == old(self).has_key(*key),
            r ==> final(self).entries() =~= old(self).entries().remove(old(self).key_index(*key)),
            !r ==> final(self).entries() =~= old(self).entries(),
            !final(self).has_key(*key),
    {
        let n = self.chain.len();
        let mut i: usize = 0;
        while i < n
            invariant
                old(self).wf(),
                n == self.chain@.len(),
                i <= n,
                self.chain@ == old(self).chain@,
                forall|j: int| 0 <= j < i ==> (#[trigger] self.chain@[j]).0 != *key,
            decreases n - i,
        {
            if self.chain[i].0 == *key {
                proof {
                    assert(old(self).entries()[i as int].0 == *key);
                    assert(old(self).has_key(*key));
                    assert(old(self).key_index(*key) == i) by {
                        let ki = old(self).key_index(*key);
                        assert(0 <= ki < old(self).entries().len() && old(self).entries()[ki].0
                            == *key);
                        if ki < i {
                            assert(self.chain@[ki].0 != *key);
                        } else if i < ki {
                            lemma_wf_distinct(*old(self), i as int, ki);
                        }
                    };
                }
                self.chain.remove(i);
                proof {
                    assert(self.entries() =~= old(self).entries().remove(i as int));
                    assert forall|j1: int, j2: int|
                        0 <= j1 < j2 < self.entries().len() implies (#[trigger] self.entries()[j1]).0 != (
                    #[trigger] self.entries()[j2]).0 by {
                        let o1: int = if j1 < i { j1 } else { j1 + 1 };
                        let o2: int = if j2 < i { j2 } else { j2 + 1 };
                        lemma_wf_distinct(*old(self), o1, o2);
                        assert(self.entries()[j1] == old(self).entries()[o1]);
                        assert(self.entries()[j2] == old(self).entries()[o2]);
                    };
                    assert forall|j: int| 0 <= j < self.entries().len() implies (#[trigger] self.entries()[j]).0
                        != *key by {
                        let o: int = if j < i { j } else { j + 1 };
                        assert(self.entries()[j] == old(self).entries()[o]);
                        if o < i {
                            lemma_wf_distinct(*old(self), o, i as int);
                        } else if i < o {
                            lemma_wf_distinct(*old(self), i as int, o);
                        }
                    };
                }
                return true;
            }
            i += 1;
        }
        proof {
            assert forall|j1: int, j2: int|
                0 <= j1 < j2 < self.entries().len() implies (#[trigger] self.entries()[j1]).0 != (
            #[trigger] self.entries()[j2]).0 by {
                lemma_wf_distinct(*old(self), j1, j2);
            };
        }
        false
    }
}

} // verus!
