//! The map-level laws the container obeys, stated once over the abstract
//! maps that every operation's contract speaks of.

use vstd::prelude::*;

verus! {

/// A successful insert is visible to every later read of the same key, and
/// leaves every other key exactly as it was — reads of `k` keep answering
/// `v` until the next mutator for `k`.
pub proof fn lemma_read_after_write<V>(m: Map<u64, V>, k: u64, v: V)
    ensures
        m.insert(k, v).dom().contains(k),
        m.insert(k, v)[k] == v,
        forall|k2: u64|
            k2 != k ==> (#[trigger] m.insert(k, v).dom().contains(k2) == m.dom().contains(k2)),
        forall|k2: u64| k2 != k && m.dom().contains(k2) ==> #[trigger] m.insert(k, v)[k2] == m[k2],
        forall|k2: u64|
            k2 != k ==> (#[trigger] m.remove(k2).dom().contains(k) == m.dom().contains(k)),
        forall|k2: u64| k2 != k && m.dom().contains(k) ==> #[trigger] m.remove(k2)[k] == m[k],
{
}

/// At quiescence the entry count is the successful inserts minus the
/// successful removes: each fresh insert raises the count by one and each
/// hit remove lowers it by one.
pub proof fn lemma_len_tracks_mutations<V>(m: Map<u64, V>, k: u64, v: V)
    requires
        m.dom().finite(),
    ensures
        !m.dom().contains(k) ==> m.insert(k, v).dom().len() == m.dom().len() + 1,
        m.dom().contains(k) ==> m.insert(k, v).dom().len() == m.dom().len(),
        m.dom().contains(k) ==> m.remove(k).dom().len() == m.dom().len() - 1,
        !m.dom().contains(k) ==> m.remove(k).dom().len() == m.dom().len(),
{
    assert(m.insert(k, v).dom() =~= m.dom().insert(k));
    assert(m.remove(k).dom() =~= m.dom().remove(k));
    vstd::set::axiom_set_insert_len(m.dom(), k);
    vstd::set::axiom_set_remove_len(m.dom(), k);
}

/// A sweep whose filter can only answer `true` keeps everything: it reports
/// every entry as retained and none as removed.
pub proof fn lemma_retain_keeps_everything<V, F: Fn(&u64, &V) -> bool>(
    filter: F,
    pre: Map<u64, V>,
    post: Map<u64, V>,
    retained: usize,
    removed: usize,
)
    requires
        pre.dom().finite(),
        forall|kr: &u64, vr: &V, b: bool| #[trigger] call_ensures(filter, (kr, vr), b) ==> b,
        forall|k: u64|
            #[trigger] post.dom().contains(k) ==> pre.dom().contains(k) && post[k] == pre[k],
        forall|k: u64|
            #[trigger] pre.dom().contains(k) ==> (post.dom().contains(k) && call_ensures(
                filter,
                (&k, &pre[k]),
                true,
            )) || (!post.dom().contains(k) && call_ensures(filter, (&k, &pre[k]), false)),
        retained == post.dom().len(),
        removed == pre.dom().len() - post.dom().len(),
    ensures
        post == pre,
        retained == pre.dom().len(),
        removed == 0,
{
    assert forall|k: u64| #[trigger] pre.dom().contains(k) implies post.dom().contains(k) by {
        if !post.dom().contains(k) {
            assert(call_ensures(filter, (&k, &pre[k]), false));
        }
    }
    assert(post =~= pre);
}

} // verus!
