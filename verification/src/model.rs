//! The mathematical model shared by the whole crate: a sequence of key-value
//! entries, folded into a `Map`, together with the lemmas that connect the
//! fold to membership, lookup, cardinality and the edits the containers make.

use vstd::prelude::*;

verus! {

/// Folds a sequence of entries into a map; a later entry wins over an earlier
/// one with the same key.
pub open spec fn kv_map<V>(s: Seq<(u64, V)>) -> Map<u64, V>
    decreases s.len(),
{
    if s.len() == 0 {
        Map::empty()
    } else {
        kv_map(s.drop_last()).insert(s.last().0, s.last().1)
    }
}

/// All keys of the sequence are pairwise distinct.
pub open spec fn keys_distinct<V>(s: Seq<(u64, V)>) -> bool {
    forall|i: int, j: int| 0 <= i < j < s.len() ==> s[i].0 != s[j].0
}

/// A key is in the folded map exactly when some entry carries it.
pub proof fn lemma_kv_map_dom<V>(s: Seq<(u64, V)>)
    ensures
        forall|k: u64|
            kv_map(s).dom().contains(k) <==> exists|i: int| 0 <= i < s.len() && s[i].0 == k,
    decreases s.len(),
{
    if s.len() > 0 {
        lemma_kv_map_dom(s.drop_last());
        assert forall|k: u64| kv_map(s).dom().contains(k) implies exists|i: int|
            0 <= i < s.len() && s[i].0 == k by {
            if k == s.last().0 {
                assert(s[s.len() - 1].0 == k);
            } else {
                assert(kv_map(s.drop_last()).dom().contains(k));
                let i = choose|i: int|
                    0 <= i < s.drop_last().len() && s.drop_last()[i].0 == k;
                assert(s.drop_last()[i].0 == k);
                assert(s[i].0 == k);
            }
        }
        assert forall|k: u64| (exists|i: int| 0 <= i < s.len() && s[i].0 == k) implies kv_map(
            s,
        ).dom().contains(k) by {
            let i = choose|i: int| 0 <= i < s.len() && s[i].0 == k;
            if i < s.len() - 1 {
                assert(s.drop_last()[i].0 == k);
                assert(exists|j: int| 0 <= j < s.drop_last().len() && s.drop_last()[j].0 == k);
                assert(kv_map(s.drop_last()).dom().contains(k));
            } else {
                assert(k == s.last().0);
            }
        }
    }
}

/// With distinct keys, each entry is reported by the folded map unchanged.
pub proof fn lemma_kv_map_index<V>(s: Seq<(u64, V)>, i: int)
    requires
        keys_distinct(s),
        0 <= i < s.len(),
    ensures
        kv_map(s).dom().contains(s[i].0),
        kv_map(s)[s[i].0] == s[i].1,
    decreases s.len(),
{
    if i == s.len() - 1 {
        lemma_kv_map_dom(s);
    } else {
        lemma_kv_map_index(s.drop_last(), i);
        assert(s.drop_last()[i] == s[i]);
    }
}

/// With distinct keys, the folded map has exactly one element per entry.
pub proof fn lemma_kv_map_len<V>(s: Seq<(u64, V)>)
    requires
        keys_distinct(s),
    ensures
        kv_map(s).dom().finite(),
        kv_map(s).dom().len() == s.len(),
    decreases s.len(),
{
    if s.len() > 0 {
        lemma_kv_map_len(s.drop_last());
        lemma_kv_map_dom(s.drop_last());
        assert(!kv_map(s.drop_last()).dom().contains(s.last().0));
    }
}

/// Appending a fresh entry inserts it into the folded map.
pub proof fn lemma_kv_map_push<V>(s: Seq<(u64, V)>, k: u64, v: V)
    ensures
        kv_map(s.push((k, v))) == kv_map(s).insert(k, v),
{
    assert(s.push((k, v)).drop_last() =~= s);
}

/// Folding a concatenation folds both halves; the right half wins.
pub proof fn lemma_kv_map_concat<V>(a: Seq<(u64, V)>, b: Seq<(u64, V)>)
    ensures
        kv_map(a + b) == kv_map(a).union_prefer_right(kv_map(b)),
    decreases b.len(),
{
    if b.len() == 0 {
        assert(a + b =~= a);
        assert(kv_map(a).union_prefer_right(kv_map(b)) =~= kv_map(a));
    } else {
        lemma_kv_map_concat(a, b.drop_last());
        assert((a + b).drop_last() =~= a + b.drop_last());
        assert((a + b).last() == b.last());
        assert(kv_map(a).union_prefer_right(kv_map(b.drop_last())).insert(b.last().0, b.last().1)
            =~= kv_map(a).union_prefer_right(kv_map(b.drop_last()).insert(b.last().0, b.last().1)));
    }
}

/// Removing the entry at `i` removes its key from the folded map.
pub proof fn lemma_kv_map_remove<V>(s: Seq<(u64, V)>, i: int)
    requires
        keys_distinct(s),
        0 <= i < s.len(),
    ensures
        kv_map(s.remove(i)) == kv_map(s).remove(s[i].0),
    decreases s.len(),
{
    lemma_kv_map_dom(s.drop_last());
    if i == s.len() - 1 {
        assert(s.remove(i) =~= s.drop_last());
        assert(!kv_map(s.drop_last()).dom().contains(s[i].0));
        assert(kv_map(s.drop_last()).remove(s[i].0) =~= kv_map(s.drop_last()));
    } else {
        lemma_kv_map_remove(s.drop_last(), i);
        assert(s.remove(i).drop_last() =~= s.drop_last().remove(i));
        assert(s.remove(i).last() == s.last());
        assert(kv_map(s.drop_last()).remove(s[i].0).insert(s.last().0, s.last().1) =~= kv_map(
            s.drop_last(),
        ).insert(s.last().0, s.last().1).remove(s[i].0).insert(s.last().0, s.last().1));
        assert(kv_map(s).remove(s[i].0).insert(s.last().0, s.last().1) =~= kv_map(s).remove(
            s[i].0,
        ));
    }
}

/// Overwriting the value at `i` re-inserts its key into the folded map.
pub proof fn lemma_kv_map_update<V>(s: Seq<(u64, V)>, i: int, v: V)
    requires
        keys_distinct(s),
        0 <= i < s.len(),
    ensures
        kv_map(s.update(i, (s[i].0, v))) == kv_map(s).insert(s[i].0, v),
    decreases s.len(),
{
    let k = s[i].0;
    if i == s.len() - 1 {
        assert(s.update(i, (k, v)).drop_last() =~= s.drop_last());
        assert(s.update(i, (k, v)).last() == (k, v));
    } else {
        lemma_kv_map_update(s.drop_last(), i, v);
        assert(s.update(i, (k, v)).drop_last() =~= s.drop_last().update(i, (k, v)));
        assert(s.update(i, (k, v)).last() == s.last());
        assert(s.drop_last()[i] == s[i]);
        assert(kv_map(s.drop_last()).insert(k, v).insert(s.last().0, s.last().1) =~= kv_map(
            s.drop_last(),
        ).insert(s.last().0, s.last().1).insert(k, v));
    }
}

} // verus!
