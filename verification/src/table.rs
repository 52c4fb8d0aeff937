//! The table: a prime-sized array of buckets, a key's slot computed from
//! its hash modulo the array length, and a grow-and-rehash that keeps the
//! load factor at or below the fixed threshold of 3/4.
use vstd::prelude::*;
use crate::bucket::Bucket;
use crate::model::{
    buckets_ok, distinct_keys, lemma_bucket_lookup, lemma_map_of_pairs_insert,
    lemma_map_of_pairs_len, lemma_map_of_pairs_membership, lemma_map_of_pairs_remove,
    lemma_map_of_pairs_update, lemma_map_of_pairs_value, lemma_pairs_of_all_empty,
    lemma_pairs_of_distinct, lemma_pairs_of_split, lemma_pairs_of_take_step, map_of_pairs,
    pairs_of, slot_of,
};
use crate::prime::{find_next_prime, lemma_max_bucket_count_prime, spec_is_prime, MAX_BUCKET_COUNT};

verus! {

/// The table starts with this many buckets: a small prime.
pub const START_BUCKET_COUNT: usize = 3;

/// Most entries the table accepts. Growth from any reachable size then
/// finds its next prime bucket count at or below `MAX_BUCKET_COUNT`, whose
/// primality the crate proves once; that is what makes the growth loop's
/// termination and the prime-size invariant provable.
pub const MAX_ELEMENTS: usize = 24576;

/// A hash map keyed by 64-bit integers: an array of bucket chains whose
/// length is always prime, plus the running count of stored pairs.
pub struct TrashMap<V> {
    buckets: Vec<Bucket<V>>,
    elements: usize,
}

impl<T> View for TrashMap<T> {
    type V = Map<u64, T>;

    /// The association the table stores.
    closed spec fn view(&self) -> Map<u64, T> {
        map_of_pairs(pairs_of(self.buckets@))
    }
}

impl<V> TrashMap<V> {
    /// The pairs in iteration order: bucket-array order and, within one
    /// bucket, chain order (most recently inserted new key first).
    pub closed spec fn iteration(self) -> Seq<(u64, V)> {
        pairs_of(self.buckets@)
    }

    /// The tracked element count.
    pub closed spec fn spec_len(self) -> nat {
        self.elements as nat
    }

    /// The current number of buckets.
    pub closed spec fn bucket_count(self) -> nat {
        self.buckets@.len()
    }

    /// The table's invariant: a prime number of buckets within the fixed
    /// bounds, every key in the slot its hash selects, chains free of
    /// duplicate keys, an exact element count, and a load factor of at
    /// most 3/4.
    pub closed spec fn inv(self) -> bool {
        let n = self.buckets@.len() as int;
        &&& 3 <= n <= MAX_BUCKET_COUNT
        &&& spec_is_prime(n)
        &&& buckets_ok(self.buckets@, n)
        &&& self.elements as int == pairs_of(self.buckets@).len()
        &&& 4 * (self.elements as int) <= 3 * n
    }

    fn make_buckets(count: usize) -> (r: Vec<Bucket<V>>)
        ensures
            r@.len() == count,
            forall|i: int| 0 <= i < count ==> (#[trigger] r@[i]).entries().len() == 0,
    {
        let mut buckets: Vec<Bucket<V>> = Vec::with_capacity(count);
        let mut k: usize = 0;
        while k < count
            invariant
                buckets@.len() == k,
                k <= count,
                forall|i: int| 0 <= i < k ==> (#[trigger] buckets@[i]).entries().len() == 0,
            decreases count - k,
        {
            buckets.push(Bucket::empty());
            k += 1;
        }
        buckets
    }

    /// A fresh, empty table with the starting prime bucket count.
    pub fn new() -> (r: TrashMap<V>)
        ensures
            r.inv(),
            r@ == Map::<u64, V>::empty(),
            r.iteration() == Seq::<(u64, V)>::empty(),
            r.spec_len() == 0,
    {
        let buckets = Self::make_buckets(START_BUCKET_COUNT);
        let r = TrashMap { buckets, elements: 0 };
        proof {
            lemma_pairs_of_all_empty(r.buckets@);
            assert(spec_is_prime(3)) by {
                assert forall|d: int| 2 <= d < 3 implies #[trigger] (3int % d) != 0 by {
                    assert(d == 2);
                };
            };
            assert(buckets_ok(r.buckets@, 3)) by {
                assert forall|i: int| 0 <= i < r.buckets@.len() implies (
                #[trigger] r.buckets@[i]).wf() by {
                    assert(r.buckets@[i].entries().len() == 0);
                };
            };
            assert(r@ =~= Map::<u64, V>::empty());
        }
        r
    }

    /// The slot for `key` in an array of `len` buckets: a fixed hash of the
    /// key, reduced modulo the bucket count.
    fn hash(len: usize, key: &u64) -> (h: u64)
        requires
            1 <= len,
        ensures
            h as int == slot_of(*key, len as int),
            (h as int) < len as int,
    {
        let k: u64 = *key;
        let a: u64 = k ^ (k << 13u64);
        let b: u64 = a ^ (a >> 7u64);
        let m: u64 = b ^ (b << 17u64);
        m % (len as u64)
    }

    /// The tracked count: O(1), not recomputed by scanning. It equals the
    /// number of distinct keys present.
    pub fn len(&self) -> (r: usize)
        requires
            self.inv(),
        ensures
            r == self@.len(),
            r == self.spec_len(),
    {
        proof {
            lemma_pairs_of_distinct(self.buckets@, self.buckets@.len() as int);
            lemma_map_of_pairs_len(pairs_of(self.buckets@));
        }
        self.elements
    }

    /// Places the pair in the bucket its key hashes to, and reports whether
    /// the key was new to the array.
    fn insert_into_buckets(buckets: &mut Vec<Bucket<V>>, key: u64, value: V) -> (fresh: bool)
        requires
            old(buckets)@.len() >= 1,
            buckets_ok(old(buckets)@, old(buckets)@.len() as int),
        ensures
            final(buckets)@.len() == old(buckets)@.len(),
            buckets_ok(final(buckets)@, old(buckets)@.len() as int),
            fresh == !map_of_pairs(pairs_of(old(buckets)@)).contains_key(key),
            map_of_pairs(pairs_of(final(buckets)@)) == map_of_pairs(
                pairs_of(old(buckets)@),
            ).insert(key, value),
            !fresh ==> (exists|f: int|
                0 <= f < pairs_of(old(buckets)@).len() && (#[trigger] pairs_of(old(buckets)@)[f]).0
                    == key && pairs_of(final(buckets)@) == pairs_of(old(buckets)@).update(
                    f,
                    (key, value),
                )),
            fresh ==> (exists|f: int|
                0 <= f <= pairs_of(old(buckets)@).len() && pairs_of(final(buckets)@) == pairs_of(
                    old(buckets)@,
                ).insert(f, (key, value))),
    {
        let len = buckets.len();
        let h = Self::hash(len, &key);
        let bucket = &mut buckets[h as usize];
        let fresh = bucket.insert(key, value);
        proof {
            let ob = old(buckets)@;
            let n = ob.len() as int;
            let hh = h as int;
            let nb = buckets@;
            let b0 = ob[hh];
            let b1 = nb[hh];
            assert(nb =~= ob.update(hh, b1));
            lemma_pairs_of_split(ob, hh);
            lemma_pairs_of_split(nb, hh);
            assert(nb.take(hh) =~= ob.take(hh));
            assert(nb.skip(hh + 1) =~= ob.skip(hh + 1));
            let pre = pairs_of(ob.take(hh));
            let post = pairs_of(ob.skip(hh + 1));
            assert(pairs_of(ob) =~= pre + b0.entries() + post);
            assert(pairs_of(nb) =~= pre + b1.entries() + post);
            lemma_bucket_lookup(ob, key);
            lemma_pairs_of_distinct(ob, n);
            if b0.has_key(key) {
                let ki = b0.key_index(key);
                assert(0 <= ki < b0.entries().len() && b0.entries()[ki].0 == key);
                let f = pre.len() + ki;
                assert(b1.entries() =~= b0.entries().update(ki, (key, value)));
                assert(pairs_of(ob)[f] == b0.entries()[ki]);
                assert(pairs_of(ob)[f].0 == key);
                assert(pairs_of(nb) =~= pairs_of(ob).update(f, (key, value)));
                lemma_map_of_pairs_update(pairs_of(ob), f, value);
            } else {
                let f = pre.len() as int;
                assert(b1.entries() =~= seq![(key, value)] + b0.entries());
                assert(pairs_of(nb) =~= pairs_of(ob).insert(f, (key, value)));
                lemma_map_of_pairs_membership(pairs_of(ob), key);
                assert forall|j: int|
                    0 <= j < pairs_of(ob).len() implies (#[trigger] pairs_of(ob)[j]).0 != key by {
                    if pairs_of(ob)[j].0 == key {
                        assert(map_of_pairs(pairs_of(ob)).contains_key(key));
                    }
                };
                lemma_map_of_pairs_insert(pairs_of(ob), f, key, value);
            }
            assert(buckets_ok(nb, n)) by {
                assert forall|i: int| 0 <= i < nb.len() implies (#[trigger] nb[i]).wf() by {
                    if i != hh {
                        assert(nb[i] == ob[i]);
                        assert(ob[i].wf());
                    }
                };
                assert forall|i: int, j: int|
                    0 <= i < nb.len() && 0 <= j < nb[i].entries().len() implies slot_of(
                    (#[trigger] nb[i].entries()[j]).0,
                    n,
                ) == i by {
                    if i != hh {
                        assert(nb[i] == ob[i]);
                        assert(slot_of(ob[i].entries()[j].0, n) == i);
                    } else {
                        if b0.has_key(key) {
                            let ki = b0.key_index(key);
                            if j == ki {
                                assert(b1.entries()[j].0 == key);
                            } else {
                                assert(b1.entries()[j].0 == b0.entries()[j].0);
                                assert(slot_of(b0.entries()[j].0, n) == hh);
                            }
                        } else {
                            if j == 0 {
                                assert(b1.entries()[j].0 == key);
                            } else {
                                assert(b1.entries()[j].0 == b0.entries()[j - 1].0);
                                assert(slot_of(b0.entries()[j - 1].0, n) == hh);
                            }
                        }
                    }
                };
            };
        }
        fresh
    }

    /// Inserts the pair, overwriting any pair with an equal key in place.
    /// A genuinely new key raises the count by one; an overwrite leaves the
    /// count and every pair's position unchanged. When the load factor
    /// passes 3/4, the table grows and rehashes within this call.
    pub fn insert(&mut self, key: u64, value: V)
        requires
            old(self).inv(),
            old(self)@.len() < MAX_ELEMENTS,
        ensures
            final(self).inv(),
            final(self)@ == old(self)@.insert(key, value),
            final(self)@.len() == old(self)@.len() + (if old(self)@.contains_key(key) {
                0int
            } else {
                1int
            }),
            final(self).spec_len() == final(self)@.len(),
            old(self)@.contains_key(key) ==> (exists|f: int|
                0 <= f < old(self).iteration().len() && (#[trigger] old(self).iteration()[f]).0
                    == key && final(self).iteration() == old(self).iteration().update(
                    f,
                    (key, value),
                )),
            !old(self)@.contains_key(key) ==> final(self).iteration().len() == old(
                self,
            ).iteration().len() + 1,
            !old(self)@.contains_key(key) && 4 * (old(self).spec_len() + 1) <= 3 * old(
                self,
            ).bucket_count() ==> (exists|f: int|
                0 <= f <= old(self).iteration().len() && final(self).iteration() == old(
                    self,
                ).iteration().insert(f, (key, value))),
    {
        proof {
            lemma_pairs_of_distinct(self.buckets@, self.buckets@.len() as int);
            lemma_map_of_pairs_len(pairs_of(self.buckets@));
        }
        let fresh = Self::insert_into_buckets(&mut self.buckets, key, value);
        if fresh {
            self.elements = self.elements + 1;
        }
        proof {
            lemma_pairs_of_distinct(self.buckets@, self.buckets@.len() as int);
            lemma_map_of_pairs_len(pairs_of(self.buckets@));
        }
        if 4 * self.elements > 3 * self.buckets.len() {
            self.grow();
        }
        proof {
            if old(self)@.contains_key(key) {
                let f = choose|f: int|
                    0 <= f < pairs_of(old(self).buckets@).len() && (#[trigger] pairs_of(
                        old(self).buckets@,
                    )[f]).0 == key && pairs_of(self.buckets@) == pairs_of(
                        old(self).buckets@,
                    ).update(f, (key, value));
                assert(0 <= f < old(self).iteration().len() && old(self).iteration()[f].0 == key
                    && self.iteration() == old(self).iteration().update(f, (key, value)));
            } else if 4 * (old(self).spec_len() + 1) <= 3 * old(self).bucket_count() {
                let f = choose|f: int|
                    0 <= f <= pairs_of(old(self).buckets@).len() && pairs_of(self.buckets@)
                        == pairs_of(old(self).buckets@).insert(f, (key, value));
                assert(0 <= f <= old(self).iteration().len() && self.iteration() == old(
                    self,
                ).iteration().insert(f, (key, value)));
            }
        }
    }

    /// Replaces the bucket array with a fresh one sized to the next prime
    /// at or above twice the old size plus one, moving every pair into the
    /// slot its key hashes to under the new size.
    fn grow(&mut self)
        requires
            3 <= old(self).buckets@.len() <= 32767,
            buckets_ok(old(self).buckets@, old(self).buckets@.len() as int),
            old(self).elements as int == pairs_of(old(self).buckets@).len(),
        ensures
            final(self).elements == old(self).elements,
            final(self)@ == old(self)@,
            buckets_ok(final(self).buckets@, final(self).buckets@.len() as int),
            spec_is_prime(final(self).buckets@.len() as int),
            2 * old(self).buckets@.len() + 1 <= final(self).buckets@.len() <= MAX_BUCKET_COUNT,
            final(self).elements as int == pairs_of(final(self).buckets@).len(),
    {
        let ghost orig_map = map_of_pairs(pairs_of(old(self).buckets@));
        let ghost orig_count = pairs_of(old(self).buckets@).len() as int;
        proof {
            lemma_max_bucket_count_prime();
            lemma_pairs_of_distinct(self.buckets@, self.buckets@.len() as int);
        }
        let new_size = find_next_prime(2 * self.buckets.len() + 1);
        proof {
            assert(new_size <= MAX_BUCKET_COUNT) by {
                if new_size > MAX_BUCKET_COUNT {
                    assert(!spec_is_prime(MAX_BUCKET_COUNT as int));
                }
            };
        }
        let mut new_buckets: Vec<Bucket<V>> = Self::make_buckets(new_size);
        proof {
            lemma_pairs_of_all_empty(new_buckets@);
            assert(buckets_ok(new_buckets@, new_size as int)) by {
                assert forall|i: int| 0 <= i < new_buckets@.len() implies (
                #[trigger] new_buckets@[i]).wf() by {
                    assert(new_buckets@[i].entries().len() == 0);
                };
            };
            assert(map_of_pairs(pairs_of(new_buckets@)).union_prefer_right(
                map_of_pairs(pairs_of(self.buckets@)),
            ) =~= orig_map);
        }
        while self.buckets.len() > 0
            invariant
                new_buckets@.len() == new_size,
                3 <= new_size <= MAX_BUCKET_COUNT,
                buckets_ok(new_buckets@, new_size as int),
                distinct_keys(pairs_of(self.buckets@)),
                forall|f1: int, f2: int|
                    0 <= f1 < pairs_of(new_buckets@).len() && 0 <= f2 < pairs_of(
                        self.buckets@,
                    ).len() ==> (#[trigger] pairs_of(new_buckets@)[f1]).0 != (#[trigger] pairs_of(
                        self.buckets@,
                    )[f2]).0,
                map_of_pairs(pairs_of(new_buckets@)).union_prefer_right(
                    map_of_pairs(pairs_of(self.buckets@)),
                ) == orig_map,
                pairs_of(new_buckets@).len() + pairs_of(self.buckets@).len() == orig_count,
                self.elements == old(self).elements,
            decreases self.buckets@.len(),
        {
            let ghost before = self.buckets@;
            let mut bucket = self.buckets.pop().unwrap();
            proof {
                assert(before.drop_last() =~= self.buckets@);
                assert(pairs_of(before) =~= pairs_of(self.buckets@) + bucket.entries());
            }
            while bucket.chain.len() > 0
                invariant
                    new_buckets@.len() == new_size,
                    3 <= new_size <= MAX_BUCKET_COUNT,
                    buckets_ok(new_buckets@, new_size as int),
                    distinct_keys(pairs_of(self.buckets@) + bucket.chain@),
                    forall|f1: int, f2: int|
                        0 <= f1 < pairs_of(new_buckets@).len() && 0 <= f2 < (pairs_of(
                            self.buckets@,
                        ) + bucket.chain@).len() ==> (#[trigger] pairs_of(new_buckets@)[f1]).0 != (
                        #[trigger] (pairs_of(self.buckets@) + bucket.chain@)[f2]).0,
                    map_of_pairs(pairs_of(new_buckets@)).union_prefer_right(
                        map_of_pairs(pairs_of(self.buckets@) + bucket.chain@),
                    ) == orig_map,
                    pairs_of(new_buckets@).len() + (pairs_of(self.buckets@)
                        + bucket.chain@).len() == orig_count,
                    self.elements == old(self).elements,
                decreases bucket.chain@.len(),
            {
                let ghost rem = pairs_of(self.buckets@) + bucket.chain@;
                let pair = bucket.chain.pop().unwrap();
                let ghost rem2 = pairs_of(self.buckets@) + bucket.chain@;
                proof {
                    assert(rem2 =~= rem.drop_last());
                    assert(rem.last() == pair);
                    assert(!map_of_pairs(pairs_of(new_buckets@)).contains_key(pair.0)) by {
                        lemma_map_of_pairs_membership(pairs_of(new_buckets@), pair.0);
                        if exists|f: int|
                            0 <= f < pairs_of(new_buckets@).len() && (#[trigger] pairs_of(
                                new_buckets@,
                            )[f]).0 == pair.0 {
                            let f = choose|f: int|
                                0 <= f < pairs_of(new_buckets@).len() && (#[trigger] pairs_of(
                                    new_buckets@,
                                )[f]).0 == pair.0;
                            assert(rem[rem.len() - 1].0 == pair.0);
                        }
                    };
                }
                let ghost np0 = pairs_of(new_buckets@);
                let ghost nm0 = map_of_pairs(np0);
                Self::insert_into_buckets(&mut new_buckets, pair.0, pair.1);
                proof {
                    let np1 = pairs_of(new_buckets@);
                    let f = choose|f: int|
                        0 <= f <= np0.len() && np1 == np0.insert(f, (pair.0, pair.1));
                    assert(np1.len() == np0.len() + 1);
                    // Keys of the grown new side: the old ones plus the moved key.
                    assert forall|f1: int, f2: int|
                        0 <= f1 < np1.len() && 0 <= f2 < rem2.len() implies (
                    #[trigger] np1[f1]).0 != (#[trigger] rem2[f2]).0 by {
                        assert(rem2[f2] == rem[f2]);
                        if f1 < f {
                            assert(np1[f1] == np0[f1]);
                        } else if f1 == f {
                            assert(np1[f1].0 == pair.0);
                            assert(rem[f2].0 != rem[rem.len() - 1].0);
                        } else {
                            assert(np1[f1] == np0[f1 - 1]);
                        }
                    };
                    assert(map_of_pairs(np1).union_prefer_right(map_of_pairs(rem2))
                        =~= orig_map) by {
                        assert(map_of_pairs(np1) == nm0.insert(pair.0, pair.1));
                        assert(map_of_pairs(rem) == map_of_pairs(rem2).insert(pair.0, pair.1));
                        assert(!map_of_pairs(rem2).contains_key(pair.0)) by {
                            lemma_map_of_pairs_membership(rem2, pair.0);
                            if exists|j: int|
                                0 <= j < rem2.len() && (#[trigger] rem2[j]).0 == pair.0 {
                                let j = choose|j: int|
                                    0 <= j < rem2.len() && (#[trigger] rem2[j]).0 == pair.0;
                                assert(rem[j].0 == rem[rem.len() - 1].0);
                            }
                        };
                        assert(!nm0.contains_key(pair.0));
                        assert forall|k: u64|
                            #![auto]
                            orig_map.contains_key(k) == map_of_pairs(np1).union_prefer_right(
                                map_of_pairs(rem2),
                            ).contains_key(k) && (orig_map.contains_key(k)
                                ==> orig_map[k] == map_of_pairs(np1).union_prefer_right(
                                map_of_pairs(rem2),
                            )[k]) by {
                            assert(nm0.union_prefer_right(map_of_pairs(rem)) == orig_map);
                        };
                    };
                    assert(distinct_keys(rem2));
                }
            }
            proof {
                assert(pairs_of(self.buckets@) + bucket.chain@ =~= pairs_of(self.buckets@));
            }
        }
        proof {
            assert(pairs_of(self.buckets@) =~= Seq::<(u64, V)>::empty());
            assert(map_of_pairs(pairs_of(self.buckets@)) =~= Map::<u64, V>::empty());
            assert(map_of_pairs(pairs_of(new_buckets@)).union_prefer_right(
                Map::<u64, V>::empty(),
            ) =~= map_of_pairs(pairs_of(new_buckets@)));
        }
        self.buckets = new_buckets;
    }

    /// Removes the pair for `key` from the slot its hash selects, keeping
    /// every other pair in place; true exactly when the key was present,
    /// in which case the count drops by one.
    pub fn remove(&mut self, key: &u64) -> (r: bool)
        requires
            old(self).inv(),
        ensures
            final(self).inv(),
            r == old(self)@.contains_key(*key),
            final(self)@ == old(self)@.remove(*key),
            final(self).spec_len() == final(self)@.len(),
            r ==> final(self)@.len() == old(self)@.len() - 1 && (exists|f: int|
                0 <= f < old(self).iteration().len() && (#[trigger] old(self).iteration()[f]).0
                    == *key && final(self).iteration() == old(self).iteration().remove(f)),
            !r ==> final(self)@ == old(self)@ && final(self).iteration() == old(self).iteration(),
    {
        let len = self.buckets.len();
        let h = Self::hash(len, key);
        proof {
            lemma_bucket_lookup(old(self).buckets@, *key);
            lemma_pairs_of_distinct(old(self).buckets@, old(self).buckets@.len() as int);
            lemma_map_of_pairs_len(pairs_of(old(self).buckets@));
        }
        let bucket = &mut self.buckets[h as usize];
        let removed = bucket.remove(key);
        proof {
            let ob = old(self).buckets@;
            let n = ob.len() as int;
            let hh = h as int;
            let nb = self.buckets@;
            let b0 = ob[hh];
            let b1 = nb[hh];
            assert(nb =~= ob.update(hh, b1));
            lemma_pairs_of_split(ob, hh);
            lemma_pairs_of_split(nb, hh);
            assert(nb.take(hh) =~= ob.take(hh));
            assert(nb.skip(hh + 1) =~= ob.skip(hh + 1));
            let pre = pairs_of(ob.take(hh));
            let post = pairs_of(ob.skip(hh + 1));
            assert(pairs_of(ob) =~= pre + b0.entries() + post);
            assert(pairs_of(nb) =~= pre + b1.entries() + post);
            if removed {
                let ki = b0.key_index(*key);
                assert(0 <= ki < b0.entries().len() && b0.entries()[ki].0 == *key);
                let f = pre.len() + ki;
                assert(b1.entries() =~= b0.entries().remove(ki));
                assert(pairs_of(ob)[f] == b0.entries()[ki]);
                assert(pairs_of(nb) =~= pairs_of(ob).remove(f));
                lemma_map_of_pairs_remove(pairs_of(ob), f);
                assert(0 <= f < old(self).iteration().len() && old(self).iteration()[f].0 == *key
                    && self.iteration() == old(self).iteration().remove(f));
            } else {
                assert(b1.entries() =~= b0.entries());
                assert(pairs_of(nb) =~= pairs_of(ob));
                assert(old(self)@.remove(*key) =~= old(self)@);
            }
            assert(buckets_ok(nb, n)) by {
                assert forall|i: int| 0 <= i < nb.len() implies (#[trigger] nb[i]).wf() by {
                    if i != hh {
                        assert(nb[i] == ob[i]);
                        assert(ob[i].wf());
                    }
                };
                assert forall|i: int, j: int|
                    0 <= i < nb.len() && 0 <= j < nb[i].entries().len() implies slot_of(
                    (#[trigger] nb[i].entries()[j]).0,
                    n,
                ) == i by {
                    if i != hh {
                        assert(nb[i] == ob[i]);
                        assert(slot_of(ob[i].entries()[j].0, n) == i);
                    } else {
                        if removed {
                            let ki = b0.key_index(*key);
                            let o: int = if j < ki {
                                j
                            } else {
                                j + 1
                            };
                            assert(b1.entries()[j] == b0.entries()[o]);
                            assert(slot_of(b0.entries()[o].0, n) == hh);
                        } else {
                            assert(b1.entries()[j] == b0.entries()[j]);
                            assert(slot_of(b0.entries()[j].0, n) == hh);
                        }
                    }
                };
            };
            lemma_pairs_of_distinct(nb, n);
            lemma_map_of_pairs_len(pairs_of(nb));
        }
        if removed {
            self.elements = self.elements - 1;
        }
        removed
    }

    /// Looks the key up in the slot its hash selects; absent means the key
    /// was never inserted or has since been removed.
    pub fn get(&self, key: &u64) -> (r: Option<&V>)
        requires
            self.inv(),
        ensures
            match r {
                Some(v) => self@.contains_key(*key) && *v == self@[*key],
                None => !self@.contains_key(*key),
            },
    {
        let len = self.buckets.len();
        let h = Self::hash(len, key);
        let bucket = &self.buckets[h as usize];
        let r = bucket.get(key);
        proof {
            lemma_bucket_lookup(self.buckets@, *key);
        }
        r
    }

    /// Every pair, in bucket-array order and, within each bucket, in chain
    /// order: the most recently inserted new key of a bucket comes first,
    /// and an overwritten key keeps its original position. A fresh call
    /// re-traverses from the first bucket.
    pub fn iter(&self) -> (r: Vec<(u64, &V)>)
        ensures
            r@.len() == self.iteration().len(),
            forall|f: int|
                0 <= f < r@.len() ==> (#[trigger] r@[f]).0 == self.iteration()[f].0 && *r@[f].1
                    == self.iteration()[f].1,
    {
        let mut out: Vec<(u64, &V)> = Vec::new();
        let n = self.buckets.len();
        let mut i: usize = 0;
        while i < n
            invariant
                n == self.buckets@.len(),
                i <= n,
                out@.len() == pairs_of(self.buckets@.take(i as int)).len(),
                forall|f: int|
                    0 <= f < out@.len() ==> (#[trigger] out@[f]).0 == pairs_of(
                        self.buckets@.take(i as int),
                    )[f].0 && *out@[f].1 == pairs_of(self.buckets@.take(i as int))[f].1,
            decreases n - i,
        {
            let ghost done = pairs_of(self.buckets@.take(i as int));
            let chain_len = self.buckets[i].chain.len();
            let mut j: usize = 0;
            while j < chain_len
                invariant
                    n == self.buckets@.len(),
                    i < n,
                    chain_len == self.buckets@[i as int].entries().len(),
                    j <= chain_len,
                    done == pairs_of(self.buckets@.take(i as int)),
                    out@.len() == done.len() + j,
                    forall|f: int|
                        0 <= f < done.len() ==> (#[trigger] out@[f]).0 == done[f].0 && *out@[f].1
                            == done[f].1,
                    forall|f: int|
                        done.len() <= f < out@.len() ==> (#[trigger] out@[f]).0 == self.buckets@[
                            i as int
                        ].entries()[f - done.len()].0 && *out@[f].1 == self.buckets@[
                            i as int
                        ].entries()[f - done.len()].1,
                decreases chain_len - j,
            {
                let p = &self.buckets[i].chain[j];
                out.push((p.0, &p.1));
                j += 1;
            }
            proof {
                lemma_pairs_of_take_step(self.buckets@, i as int);
            }
            i += 1;
        }
        proof {
            assert(self.buckets@.take(n as int) =~= self.buckets@);
        }
        out
    }
}

/// The count invariant: the tracked count equals the number of distinct
/// keys currently present, after any sequence of inserts and removes that
/// kept the table's invariant.
pub proof fn lemma_count_invariant<V>(t: TrashMap<V>)
    requires
        t.inv(),
    ensures
        t.spec_len() == t@.len(),
        t.iteration().len() == t@.len(),
{
    lemma_pairs_of_distinct(t.buckets@, t.buckets@.len() as int);
    lemma_map_of_pairs_len(pairs_of(t.buckets@));
}

/// Iteration presents exactly the stored association: one pair per entry,
/// no key twice, and each pair carrying the value the map holds for its key.
pub proof fn lemma_iteration_matches_view<V>(t: TrashMap<V>)
    requires
        t.inv(),
    ensures
        t.iteration().len() == t@.len(),
        distinct_keys(t.iteration()),
        forall|f: int|
            0 <= f < t.iteration().len() ==> t@.contains_key((#[trigger] t.iteration()[f]).0)
                && t@[t.iteration()[f].0] == t.iteration()[f].1,
{
    lemma_pairs_of_distinct(t.buckets@, t.buckets@.len() as int);
    lemma_map_of_pairs_len(pairs_of(t.buckets@));
    assert forall|f: int| 0 <= f < t.iteration().len() implies t@.contains_key(
        (#[trigger] t.iteration()[f]).0,
    ) && t@[t.iteration()[f].0] == t.iteration()[f].1 by {
        lemma_map_of_pairs_value(t.iteration(), f);
    };
}

/// The table's structural shape: the bucket count is always a prime within
/// the fixed bounds, and the load factor never exceeds 3/4 between
/// operations.
pub proof fn lemma_table_shape<V>(t: TrashMap<V>)
    requires
        t.inv(),
    ensures
        spec_is_prime(t.bucket_count() as int),
        3 <= t.bucket_count() <= MAX_BUCKET_COUNT,
        4 * t.spec_len() <= 3 * t.bucket_count(),
{
}

} // verus!
