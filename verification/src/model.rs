//! The mathematical model of the table: the flat sequence of pairs a
//! bucket array holds, the association it denotes, and how keys are
//! assigned to slots.
use vstd::prelude::*;
use crate::bucket::{Bucket, lemma_wf_distinct};

verus! {

/// The fixed hash of a key: a xorshift mix of its bits. Deterministic by
/// construction, and coherent with key equality since equal keys are the
/// same value.
pub(crate) open spec fn spec_hash(k: u64) -> u64 {
    let a = k ^ (k << 13);
    let b = a ^ (a >> 7);
    b ^ (b << 17)
}

/// The slot a key occupies in a bucket array of length `n`.
pub(crate) open spec fn slot_of(k: u64, n: int) -> int {
    (spec_hash(k) as int) % n
}

/// No two pairs of the sequence share a key.
pub open spec fn distinct_keys<V>(s: Seq<(u64, V)>) -> bool {
    forall|j1: int, j2: int|
        0 <= j1 < j2 < s.len() ==> (#[trigger] s[j1]).0 != (#[trigger] s[j2]).0
}

/// The association a sequence of pairs denotes; a later pair overrides an
/// earlier one with the same key.
pub open spec fn map_of_pairs<V>(s: Seq<(u64, V)>) -> Map<u64, V>
    decreases s.len(),
{
    if s.len() == 0 {
        Map::empty()
    } else {
        map_of_pairs(s.drop_last()).insert(s.last().0, s.last().1)
    }
}

/// Every pair of a bucket array, in bucket order and, within a bucket, in
/// chain order.
pub(crate) open spec fn pairs_of<V>(bs: Seq<Bucket<V>>) -> Seq<(u64, V)>
    decreases bs.len(),
{
    if bs.len() == 0 {
        Seq::empty()
    } else {
        pairs_of(bs.drop_last()) + bs.last().entries()
    }
}

/// Every chain is well formed and every key sits in the slot its hash
/// selects among `n` buckets.
pub(crate) open spec fn buckets_ok<V>(bs: Seq<Bucket<V>>, n: int) -> bool {
    &&& forall|i: int| 0 <= i < bs.len() ==> (#[trigger] bs[i]).wf()
    &&& forall|i: int, j: int|
        0 <= i < bs.len() && 0 <= j < bs[i].entries().len() ==> slot_of(
            (#[trigger] bs[i].entries()[j]).0,
            n,
        ) == i
}

/// A key is in the association exactly when some pair of the sequence
/// carries it.
pub proof fn lemma_map_of_pairs_membership<V>(s: Seq<(u64, V)>, k: u64)
    ensures
        map_of_pairs(s).contains_key(k) <==> (exists|j: int|
            0 <= j < s.len() && (#[trigger] s[j]).0 == k),
    decreases s.len(),
{
    if s.len() > 0 {
        lemma_map_of_pairs_membership(s.drop_last(), k);
        if s.last().0 == k {
            assert(s[s.len() - 1].0 == k);
        } else {
            if exists|j: int| 0 <= j < s.len() && (#[trigger] s[j]).0 == k {
                let j = choose|j: int| 0 <= j < s.len() && (#[trigger] s[j]).0 == k;
                assert(j < s.len() - 1);
                assert(s.drop_last()[j].0 == k);
            }
            if exists|j: int| 0 <= j < s.drop_last().len() && (#[trigger] s.drop_last()[j]).0
                == k {
                let j = choose|j: int|
                    0 <= j < s.drop_last().len() && (#[trigger] s.drop_last()[j]).0 == k;
                assert(s[j].0 == k);
            }
        }
    }
}

/// Under distinct keys, the pair at any position gives the association's
/// value for its key.
pub proof fn lemma_map_of_pairs_value<V>(s: Seq<(u64, V)>, j: int)
    requires
        distinct_keys(s),
        0 <= j < s.len(),
    ensures
        map_of_pairs(s).contains_key(s[j].0),
        map_of_pairs(s)[s[j].0] == s[j].1,
    decreases s.len(),
{
    if j == s.len() - 1 {
    } else {
        assert(s[j].0 != s.last().0) by {
            assert(s[j].0 != s[s.len() - 1].0);
        };
        assert(s.drop_last()[j] == s[j]);
        lemma_map_of_pairs_value(s.drop_last(), j);
    }
}

/// Under distinct keys, the association is finite and has exactly one
/// entry per pair.
pub proof fn lemma_map_of_pairs_len<V>(s: Seq<(u64, V)>)
    requires
        distinct_keys(s),
    ensures
        map_of_pairs(s).dom().finite(),
        map_of_pairs(s).len() == s.len(),
    decreases s.len(),
{
    if s.len() > 0 {
        lemma_map_of_pairs_len(s.drop_last());
        assert(!map_of_pairs(s.drop_last()).contains_key(s.last().0)) by {
            lemma_map_of_pairs_membership(s.drop_last(), s.last().0);
            if exists|j: int|
                0 <= j < s.drop_last().len() && (#[trigger] s.drop_last()[j]).0 == s.last().0 {
                let j = choose|j: int|
                    0 <= j < s.drop_last().len() && (#[trigger] s.drop_last()[j]).0 == s.last().0;
                assert(s[j].0 == s[s.len() - 1].0);
            }
        };
    }
}

/// The flat sequence splits around any one bucket.
pub(crate) proof fn lemma_pairs_of_split<V>(bs: Seq<Bucket<V>>, i: int)
    requires
        0 <= i < bs.len(),
    ensures
        pairs_of(bs) =~= pairs_of(bs.take(i)) + bs[i].entries() + pairs_of(bs.skip(i + 1)),
    decreases bs.len(),
{
    if i == bs.len() - 1 {
        assert(bs.take(i) =~= bs.drop_last());
        assert(bs.skip(i + 1) =~= Seq::<Bucket<V>>::empty());
        assert(pairs_of(bs.skip(i + 1)) =~= Seq::<(u64, V)>::empty());
    } else {
        lemma_pairs_of_split(bs.drop_last(), i);
        assert(bs.drop_last().take(i) =~= bs.take(i));
        assert(bs.drop_last()[i] == bs[i]);
        assert(bs.drop_last().skip(i + 1) =~= bs.skip(i + 1).drop_last());
        assert(bs.skip(i + 1).len() > 0);
        assert(bs.skip(i + 1).last() == bs.last());
        assert(pairs_of(bs.skip(i + 1)) =~= pairs_of(bs.skip(i + 1).drop_last()) + bs.skip(
            i + 1,
        ).last().entries());
    }
}

/// A key appears in the flat sequence exactly when some bucket's chain
/// carries it.
pub(crate) proof fn lemma_pairs_of_membership<V>(bs: Seq<Bucket<V>>, k: u64)
    ensures
        (exists|f: int| 0 <= f < pairs_of(bs).len() && (#[trigger] pairs_of(bs)[f]).0 == k)
            <==> (exists|i: int, j: int|
            0 <= i < bs.len() && 0 <= j < bs[i].entries().len() && (#[trigger] bs[i].entries()[j]).0
                == k),
    decreases bs.len(),
{
    if bs.len() > 0 {
        lemma_pairs_of_membership(bs.drop_last(), k);
        let dl = bs.drop_last();
        let pre = pairs_of(dl);
        if exists|f: int| 0 <= f < pairs_of(bs).len() && (#[trigger] pairs_of(bs)[f]).0 == k {
            let f = choose|f: int|
                0 <= f < pairs_of(bs).len() && (#[trigger] pairs_of(bs)[f]).0 == k;
            if f < pre.len() {
                assert(pre[f].0 == k);
                let (i, j): (int, int) = choose|i: int, j: int|
                    0 <= i < dl.len() && 0 <= j < dl[i].entries().len() && (#[trigger] dl[i].entries()[j]).0 == k;
                assert(bs[i].entries()[j].0 == k);
            } else {
                let j = f - pre.len();
                assert(bs[bs.len() - 1].entries()[j].0 == k);
            }
        }
        if exists|i: int, j: int|
            0 <= i < bs.len() && 0 <= j < bs[i].entries().len() && (#[trigger] bs[i].entries()[j]).0
                == k {
            let (i, j): (int, int) = choose|i: int, j: int|
                0 <= i < bs.len() && 0 <= j < bs[i].entries().len() && (#[trigger] bs[i].entries()[j]).0 == k;
            if i < bs.len() - 1 {
                assert(dl[i].entries()[j].0 == k);
                let f = choose|f: int| 0 <= f < pre.len() && (#[trigger] pre[f]).0 == k;
                assert(pairs_of(bs)[f].0 == k);
            } else {
                assert(pairs_of(bs)[pre.len() + j].0 == k);
            }
        }
    }
}

/// Every key of the flat sequence sits in a slot below the number of
/// buckets scanned so far.
pub(crate) proof fn lemma_pairs_of_key_slot<V>(bs: Seq<Bucket<V>>, n: int, f: int)
    requires
        buckets_ok(bs, n),
        0 <= f < pairs_of(bs).len(),
    ensures
        0 <= slot_of(pairs_of(bs)[f].0, n) < bs.len(),
    decreases bs.len(),
{
    if bs.len() > 0 {
        let dl = bs.drop_last();
        let pre = pairs_of(dl);
        assert(buckets_ok(dl, n)) by {
            assert forall|i: int| 0 <= i < dl.len() implies (#[trigger] dl[i]).wf() by {
                assert(bs[i].wf());
            };
            assert forall|i: int, j: int|
                0 <= i < dl.len() && 0 <= j < dl[i].entries().len() implies slot_of(
                (#[trigger] dl[i].entries()[j]).0,
                n,
            ) == i by {
                assert(bs[i].entries()[j].0 == dl[i].entries()[j].0);
            };
        };
        if f < pre.len() {
            lemma_pairs_of_key_slot(dl, n, f);
        } else {
            let j = f - pre.len();
            assert(bs[bs.len() - 1].entries()[j].0 == pairs_of(bs)[f].0);
            assert(slot_of(pairs_of(bs)[f].0, n) == bs.len() - 1);
        }
    }
}

/// Well-placed buckets with well-formed chains give a flat sequence with
/// no repeated key.
pub(crate) proof fn lemma_pairs_of_distinct<V>(bs: Seq<Bucket<V>>, n: int)
    requires
        buckets_ok(bs, n),
    ensures
        distinct_keys(pairs_of(bs)),
    decreases bs.len(),
{
    if bs.len() > 0 {
        let dl = bs.drop_last();
        let pre = pairs_of(dl);
        let last = bs.last();
        assert(buckets_ok(dl, n)) by {
            assert forall|i: int| 0 <= i < dl.len() implies (#[trigger] dl[i]).wf() by {
                assert(bs[i].wf());
            };
            assert forall|i: int, j: int|
                0 <= i < dl.len() && 0 <= j < dl[i].entries().len() implies slot_of(
                (#[trigger] dl[i].entries()[j]).0,
                n,
            ) == i by {
                assert(bs[i].entries()[j].0 == dl[i].entries()[j].0);
            };
        };
        lemma_pairs_of_distinct(dl, n);
        assert forall|j1: int, j2: int|
            0 <= j1 < j2 < pairs_of(bs).len() implies (#[trigger] pairs_of(bs)[j1]).0 != (
        #[trigger] pairs_of(bs)[j2]).0 by {
            if j2 < pre.len() {
                assert(pre[j1].0 != pre[j2].0);
            } else if j1 >= pre.len() {
                assert(bs[bs.len() - 1].wf());
                lemma_wf_distinct(last, j1 - pre.len(), j2 - pre.len());
                assert(pairs_of(bs)[j1] == last.entries()[j1 - pre.len()]);
                assert(pairs_of(bs)[j2] == last.entries()[j2 - pre.len()]);
            } else {
                lemma_pairs_of_key_slot(dl, n, j1);
                assert(pairs_of(bs)[j1] == pre[j1]);
                assert(pairs_of(bs)[j2] == last.entries()[j2 - pre.len()]);
                assert(slot_of(last.entries()[j2 - pre.len()].0, n) == bs.len() - 1);
            }
        };
    }
}

/// Lookup through the slot a key hashes to agrees with the association the
/// whole table denotes.
pub(crate) proof fn lemma_bucket_lookup<V>(bs: Seq<Bucket<V>>, k: u64)
    requires
        buckets_ok(bs, bs.len() as int),
        bs.len() >= 1,
    ensures
        map_of_pairs(pairs_of(bs)).contains_key(k) <==> bs[slot_of(k, bs.len() as int)].has_key(
            k,
        ),
        bs[slot_of(k, bs.len() as int)].has_key(k) ==> map_of_pairs(pairs_of(bs))[k] == bs[slot_of(
            k,
            bs.len() as int,
        )].value_of(k),
{
    let n = bs.len() as int;
    let h = slot_of(k, n);
    assert(0 <= h < n) by {
        assert(spec_hash(k) >= 0);
    };
    lemma_map_of_pairs_membership(pairs_of(bs), k);
    lemma_pairs_of_membership(bs, k);
    if map_of_pairs(pairs_of(bs)).contains_key(k) {
        let (i, j): (int, int) = choose|i: int, j: int|
            0 <= i < bs.len() && 0 <= j < bs[i].entries().len() && (#[trigger] bs[i].entries()[j]).0
                == k;
        assert(slot_of(bs[i].entries()[j].0, n) == i);
        assert(i == h);
        assert(bs[h].has_key(k));
    }
    if bs[h].has_key(k) {
        let j = choose|j: int|
            0 <= j < bs[h].entries().len() && (#[trigger] bs[h].entries()[j]).0 == k;
        assert(bs[h].entries()[j].0 == k);
        assert(map_of_pairs(pairs_of(bs)).contains_key(k));
        // The value: locate the pair in the flat sequence.
        lemma_pairs_of_split(bs, h);
        let off = pairs_of(bs.take(h)).len();
        let f = off + j;
        assert(pairs_of(bs)[f] == bs[h].entries()[j]);
        lemma_pairs_of_distinct(bs, n);
        lemma_map_of_pairs_value(pairs_of(bs), f);
        assert(bs[h].key_index(k) == j) by {
            let ki = bs[h].key_index(k);
            assert(0 <= ki < bs[h].entries().len() && bs[h].entries()[ki].0 == k);
            if ki < j {
                lemma_wf_distinct(bs[h], ki, j);
            } else if j < ki {
                lemma_wf_distinct(bs[h], j, ki);
            }
        };
    }
}

/// Overwriting the pair at one position updates the association at that
/// pair's key.
pub proof fn lemma_map_of_pairs_update<V>(s: Seq<(u64, V)>, f: int, v: V)
    requires
        distinct_keys(s),
        0 <= f < s.len(),
    ensures
        map_of_pairs(s.update(f, (s[f].0, v))) =~= map_of_pairs(s).insert(s[f].0, v),
    decreases s.len(),
{
    let t = s.update(f, (s[f].0, v));
    if f == s.len() - 1 {
        assert(t.drop_last() =~= s.drop_last());
    } else {
        assert(t.drop_last() =~= s.drop_last().update(f, (s[f].0, v)));
        assert(s.drop_last()[f] == s[f]);
        lemma_map_of_pairs_update(s.drop_last(), f, v);
        assert(t.last() == s.last());
        assert(s[f].0 != s.last().0) by {
            assert(s[f].0 != s[s.len() - 1].0);
        };
        assert(map_of_pairs(s.drop_last()).insert(s[f].0, v).insert(s.last().0, s.last().1)
            =~= map_of_pairs(s.drop_last()).insert(s.last().0, s.last().1).insert(s[f].0, v));
    }
}

/// Inserting a pair with a fresh key at any position adds exactly that
/// entry to the association.
pub proof fn lemma_map_of_pairs_insert<V>(s: Seq<(u64, V)>, f: int, k: u64, v: V)
    requires
        0 <= f <= s.len(),
        forall|j: int| 0 <= j < s.len() ==> (#[trigger] s[j]).0 != k,
    ensures
        map_of_pairs(s.insert(f, (k, v))) =~= map_of_pairs(s).insert(k, v),
    decreases s.len(),
{
    let t = s.insert(f, (k, v));
    if f == s.len() {
        assert(t.drop_last() =~= s);
        assert(t.last() == (k, v));
    } else {
        assert(t.len() == s.len() + 1);
        assert(t.last() == s.last());
        assert(t.drop_last() =~= s.drop_last().insert(f, (k, v)));
        assert(forall|j: int|
            0 <= j < s.drop_last().len() ==> (#[trigger] s.drop_last()[j]).0 != k);
        lemma_map_of_pairs_insert(s.drop_last(), f, k, v);
        assert(s.last().0 != k) by {
            assert(s[s.len() - 1].0 != k);
        };
        assert(map_of_pairs(s.drop_last()).insert(k, v).insert(s.last().0, s.last().1)
            =~= map_of_pairs(s.drop_last()).insert(s.last().0, s.last().1).insert(k, v));
    }
}

/// Removing the pair at one position removes exactly its key from the
/// association.
pub proof fn lemma_map_of_pairs_remove<V>(s: Seq<(u64, V)>, f: int)
    requires
        distinct_keys(s),
        0 <= f < s.len(),
    ensures
        map_of_pairs(s.remove(f)) =~= map_of_pairs(s).remove(s[f].0),
    decreases s.len(),
{
    let t = s.remove(f);
    if f == s.len() - 1 {
        assert(t =~= s.drop_last());
        assert(!map_of_pairs(s.drop_last()).contains_key(s[f].0)) by {
            lemma_map_of_pairs_membership(s.drop_last(), s[f].0);
            if exists|j: int|
                0 <= j < s.drop_last().len() && (#[trigger] s.drop_last()[j]).0 == s[f].0 {
                let j = choose|j: int|
                    0 <= j < s.drop_last().len() && (#[trigger] s.drop_last()[j]).0 == s[f].0;
                assert(s[j].0 == s[f].0);
            }
        };
        assert(map_of_pairs(s.drop_last()) =~= map_of_pairs(s.drop_last()).insert(
            s.last().0,
            s.last().1,
        ).remove(s[f].0));
    } else {
        assert(t.len() == s.len() - 1);
        assert(t.last() == s.last());
        assert(t.drop_last() =~= s.drop_last().remove(f));
        assert(s.drop_last()[f] == s[f]);
        lemma_map_of_pairs_remove(s.drop_last(), f);
        assert(s[f].0 != s.last().0) by {
            assert(s[f].0 != s[s.len() - 1].0);
        };
        assert(map_of_pairs(s.drop_last()).remove(s[f].0).insert(s.last().0, s.last().1)
            =~= map_of_pairs(s.drop_last()).insert(s.last().0, s.last().1).remove(s[f].0));
    }
}

/// Scanning one more bucket appends exactly its chain to the flat sequence.
pub(crate) proof fn lemma_pairs_of_take_step<V>(bs: Seq<Bucket<V>>, i: int)
    requires
        0 <= i < bs.len(),
    ensures
        pairs_of(bs.take(i + 1)) =~= pairs_of(bs.take(i)) + bs[i].entries(),
{
    assert(bs.take(i + 1).drop_last() =~= bs.take(i));
    assert(bs.take(i + 1).last() == bs[i]);
    assert(pairs_of(bs.take(i + 1)) =~= pairs_of(bs.take(i + 1).drop_last()) + bs.take(
        i + 1,
    ).last().entries());
}

/// A bucket array whose chains are all empty holds no pairs.
pub(crate) proof fn lemma_pairs_of_all_empty<V>(bs: Seq<Bucket<V>>)
    requires
        forall|i: int| 0 <= i < bs.len() ==> (#[trigger] bs[i]).entries().len() == 0,
    ensures
        pairs_of(bs) =~= Seq::<(u64, V)>::empty(),
    decreases bs.len(),
{
    if bs.len() > 0 {
        let dl = bs.drop_last();
        assert(forall|i: int| 0 <= i < dl.len() ==> (#[trigger] dl[i]).entries().len() == 0);
        lemma_pairs_of_all_empty(dl);
        assert(bs[bs.len() - 1].entries().len() == 0);
    }
}

} // verus!
