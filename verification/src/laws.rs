//! General properties of the map, stated over the mathematical view and
//! iteration order that the table's operation contracts speak of.
use vstd::prelude::*;
use crate::model::distinct_keys;

verus! {

/// The view reached by inserting a sequence of pairs in order, as
/// `TrashMap::insert`'s contract describes each step.
pub open spec fn insert_all<V>(m: Map<u64, V>, ps: Seq<(u64, V)>) -> Map<u64, V>
    decreases ps.len(),
{
    if ps.len() == 0 {
        m
    } else {
        insert_all(m, ps.drop_last()).insert(ps.last().0, ps.last().1)
    }
}

/// Round trip: after any sequence of inserts, the map holds, for each key,
/// the last value inserted for it — so with distinct keys, every key still
/// returns its own value, however many pairs were inserted.
pub proof fn lemma_round_trip<V>(m: Map<u64, V>, ps: Seq<(u64, V)>, i: int)
    requires
        0 <= i < ps.len(),
        forall|j: int| i < j < ps.len() ==> (#[trigger] ps[j]).0 != ps[i].0,
    ensures
        insert_all(m, ps).contains_key(ps[i].0),
        insert_all(m, ps)[ps[i].0] == ps[i].1,
    decreases ps.len(),
{
    if i == ps.len() - 1 {
    } else {
        assert(ps.drop_last()[i] == ps[i]);
        assert(forall|j: int|
            i < j < ps.drop_last().len() ==> (#[trigger] ps.drop_last()[j]).0 != ps.drop_last()[
                i
            ].0);
        lemma_round_trip(m, ps.drop_last(), i);
        assert(ps.last().0 != ps[i].0) by {
            assert(ps[ps.len() - 1].0 != ps[i].0);
        };
    }
}

/// Removal correctness: removing a present key makes it absent and shrinks
/// the map by exactly one entry, and removing it again changes nothing —
/// so a second `remove` on the table returns false with the count intact,
/// since the table's `remove` returns exactly whether the key was present.
pub proof fn lemma_remove_correct<V>(m: Map<u64, V>, k: u64)
    requires
        m.dom().finite(),
        m.contains_key(k),
    ensures
        !m.remove(k).contains_key(k),
        m.remove(k).len() == m.len() - 1,
        m.remove(k).remove(k) == m.remove(k),
{
    assert(m.remove(k).remove(k) =~= m.remove(k));
}

/// Idempotent overwrite, at the view: inserting the same key twice leaves
/// exactly one entry for it, holding the second value.
pub proof fn lemma_overwrite_view<V>(m: Map<u64, V>, k: u64, v1: V, v2: V)
    requires
        m.dom().finite(),
    ensures
        m.insert(k, v1).insert(k, v2) == m.insert(k, v2),
        m.insert(k, v2).len() == m.len() + (if m.contains_key(k) {
            0int
        } else {
            1int
        }),
{
    assert(m.insert(k, v1).insert(k, v2) =~= m.insert(k, v2));
}

/// Idempotent overwrite, at the iteration order: `TrashMap::insert`
/// overwrites an existing key in place, so a second overwrite lands on the
/// same position, and every other pair keeps its place and its value.
pub proof fn lemma_overwrite_keeps_positions<V>(s: Seq<(u64, V)>, f1: int, f2: int, v1: V, v2: V)
    requires
        distinct_keys(s),
        0 <= f1 < s.len(),
        0 <= f2 < s.len(),
        s.update(f1, (s[f1].0, v1))[f2].0 == s[f1].0,
    ensures
        f2 == f1,
        s.update(f1, (s[f1].0, v1)).update(f2, (s[f1].0, v2)) == s.update(f1, (s[f1].0, v2)),
        forall|g: int|
            0 <= g < s.len() && g != f1 ==> s.update(f1, (s[f1].0, v1)).update(
                f2,
                (s[f1].0, v2),
            )[g] == s[g],
{
    assert(f2 == f1) by {
        if f2 != f1 {
            assert(s.update(f1, (s[f1].0, v1))[f2] == s[f2]);
            if f2 < f1 {
                assert(s[f2].0 != s[f1].0);
            } else {
                assert(s[f1].0 != s[f2].0);
            }
        }
    };
    assert(s.update(f1, (s[f1].0, v1)).update(f2, (s[f1].0, v2)) =~= s.update(f1, (s[f1].0, v2)));
}

} // verus!
