//! A cell: the unit of locking. A fixed-capacity bucket of `ARRAY_SIZE`
//! entries guarded by one partial-hash byte per slot (zero marks an empty
//! slot), an overflow chain used once every slot is occupied, and the
//! eight-byte lock word of `crate::lock`.
//!
//! A cell's abstract value is the map from the keys it holds to their values;
//! every operation's contract is stated against that map. Writers take the
//! exclusive lock for the duration of the edit; in this single-threaded
//! embedding a shared read leaves the word untouched.

use crate::hashing::partial_of;
use crate::lock;
use crate::model::{keys_distinct, kv_map};
use crate::model::{lemma_kv_map_concat, lemma_kv_map_dom, lemma_kv_map_index, lemma_kv_map_len};
use crate::model::{lemma_kv_map_remove, lemma_kv_map_update};
use vstd::prelude::*;

verus! {

/// The number of entry slots a single cell manages without its overflow
/// chain.
pub const ARRAY_SIZE: usize = 32;

/// Slot `i` of a partial-hash byte array holds an entry.
pub open spec fn slot_filled(p: Seq<u8>, i: int) -> bool {
    p[i] != 0
}

/// The key stored at slot `i`.
pub open spec fn slot_key<V>(s: Seq<Option<(u64, V)>>, i: int) -> u64 {
    s[i]->Some_0.0
}

/// The value stored at slot `i`.
pub open spec fn slot_val<V>(s: Seq<Option<(u64, V)>>, i: int) -> V {
    s[i]->Some_0.1
}

/// The map held by the slots before `n`.
pub open spec fn slots_map_of<V>(p: Seq<u8>, s: Seq<Option<(u64, V)>>, n: int) -> Map<u64, V>
    decreases n,
{
    if n <= 0 {
        Map::empty()
    } else if slot_filled(p, n - 1) {
        slots_map_of(p, s, n - 1).insert(slot_key(s, n - 1), slot_val(s, n - 1))
    } else {
        slots_map_of(p, s, n - 1)
    }
}

/// The number of filled slots before `n`.
pub open spec fn filled_count(p: Seq<u8>, n: int) -> int
    decreases n,
{
    if n <= 0 {
        0
    } else {
        filled_count(p, n - 1) + if slot_filled(p, n - 1) {
            1int
        } else {
            0int
        }
    }
}

/// Membership in the slot map is witnessed by a filled slot.
pub proof fn lemma_slots_map_dom<V>(p: Seq<u8>, s: Seq<Option<(u64, V)>>, n: int)
    ensures
        slots_map_of(p, s, n).dom().finite(),
        forall|k: u64|
            slots_map_of(p, s, n).dom().contains(k) <==> exists|i: int|
                0 <= i < n && slot_filled(p, i) && slot_key(s, i) == k,
    decreases n,
{
    if n > 0 {
        lemma_slots_map_dom(p, s, n - 1);
        assert forall|k: u64| slots_map_of(p, s, n).dom().contains(k) implies exists|i: int|
            0 <= i < n && slot_filled(p, i) && slot_key(s, i) == k by {
            if slot_filled(p, n - 1) && slot_key(s, n - 1) == k {
                assert(slot_filled(p, n - 1) && slot_key(s, n - 1) == k);
            } else {
                assert(slots_map_of(p, s, n - 1).dom().contains(k));
                let i = choose|i: int| 0 <= i < n - 1 && slot_filled(p, i) && slot_key(s, i) == k;
                assert(0 <= i < n && slot_filled(p, i) && slot_key(s, i) == k);
            }
        }
        assert forall|k: u64| (exists|i: int|
            0 <= i < n && slot_filled(p, i) && slot_key(s, i) == k) implies slots_map_of(
            p,
            s,
            n,
        ).dom().contains(k) by {
            let i = choose|i: int| 0 <= i < n && slot_filled(p, i) && slot_key(s, i) == k;
            if i < n - 1 {
                assert(slots_map_of(p, s, n - 1).dom().contains(k));
            }
        }
    }
}

/// With distinct slot keys, a lookup in the slot map reports the stored
/// value.
pub proof fn lemma_slots_map_at<V>(p: Seq<u8>, s: Seq<Option<(u64, V)>>, n: int, i: int)
    requires
        forall|a: int, b: int|
            0 <= a < b < n && #[trigger] slot_filled(p, a) && #[trigger] slot_filled(p, b)
                ==> slot_key(s, a) != slot_key(s, b),
        0 <= i < n,
        slot_filled(p, i),
    ensures
        slots_map_of(p, s, n).dom().contains(slot_key(s, i)),
        slots_map_of(p, s, n)[slot_key(s, i)] == slot_val(s, i),
    decreases n,
{
    if i < n - 1 {
        lemma_slots_map_at(p, s, n - 1, i);
    } else {
        lemma_slots_map_dom::<V>(p, s, n - 1);
    }
}

/// The slot map has exactly one element per filled slot.
pub proof fn lemma_slots_map_len<V>(p: Seq<u8>, s: Seq<Option<(u64, V)>>, n: int)
    requires
        forall|a: int, b: int|
            0 <= a < b < n && #[trigger] slot_filled(p, a) && #[trigger] slot_filled(p, b)
                ==> slot_key(s, a) != slot_key(s, b),
    ensures
        slots_map_of(p, s, n).dom().len() == filled_count(p, n),
    decreases n,
{
    if n > 0 {
        lemma_slots_map_len(p, s, n - 1);
        lemma_slots_map_dom::<V>(p, s, n - 1);
        if slot_filled(p, n - 1) {
            assert(!slots_map_of(p, s, n - 1).dom().contains(slot_key(s, n - 1)));
        }
    }
}

/// A prefix with no filled slot holds the empty map.
pub proof fn lemma_slots_map_empty<V>(p: Seq<u8>, s: Seq<Option<(u64, V)>>, n: int)
    requires
        forall|i: int| 0 <= i < n ==> !(#[trigger] slot_filled(p, i)),
    ensures
        slots_map_of(p, s, n) == Map::<u64, V>::empty(),
        filled_count(p, n) == 0,
    decreases n,
{
    if n > 0 {
        lemma_slots_map_empty::<V>(p, s, n - 1);
    }
}

/// Editing slot `j` leaves the count of the other slots alone.
pub proof fn lemma_filled_count_update(p: Seq<u8>, j: int, b2: u8, n: int)
    requires
        0 <= j < p.len(),
    ensures
        n <= j ==> filled_count(p.update(j, b2), n) == filled_count(p, n),
        j < n <= p.len() ==> filled_count(p.update(j, b2), n) == filled_count(p, n) + (if b2 != 0 {
            1int
        } else {
            0int
        }) - (if slot_filled(p, j) {
            1int
        } else {
            0int
        }),
    decreases n,
{
    if n > 0 {
        lemma_filled_count_update(p, j, b2, n - 1);
    }
}

/// Filling the empty slot `j` with a fresh key inserts it into the slot map.
pub proof fn lemma_slots_map_fill<V>(
    p: Seq<u8>,
    s: Seq<Option<(u64, V)>>,
    j: int,
    b2: u8,
    k: u64,
    v: V,
    n: int,
)
    requires
        0 <= j < p.len(),
        s.len() == p.len(),
        !slot_filled(p, j),
        b2 != 0,
        forall|i: int|
            0 <= i < p.len() && i != j && #[trigger] slot_filled(p, i) ==> slot_key(s, i) != k,
    ensures
        n <= j ==> slots_map_of(p.update(j, b2), s.update(j, Some((k, v))), n) == slots_map_of(
            p,
            s,
            n,
        ),
        j < n <= p.len() ==> slots_map_of(p.update(j, b2), s.update(j, Some((k, v))), n)
            == slots_map_of(p, s, n).insert(k, v),
    decreases n,
{
    let p2 = p.update(j, b2);
    let s2 = s.update(j, Some((k, v)));
    if n > 0 {
        lemma_slots_map_fill(p, s, j, b2, k, v, n - 1);
        if n - 1 == j {
            assert(slot_filled(p2, j) && slot_key(s2, j) == k && slot_val(s2, j) == v);
        } else if j < n - 1 && n <= p.len() {
            if slot_filled(p, n - 1) {
                assert(slot_key(s, n - 1) != k);
                assert(slots_map_of(p, s, n - 1).insert(k, v).insert(
                    slot_key(s, n - 1),
                    slot_val(s, n - 1),
                ) =~= slots_map_of(p, s, n).insert(k, v));
            }
        }
    }
}

/// Clearing slot `j` removes its key from the slot map.
pub proof fn lemma_slots_map_clear<V>(p: Seq<u8>, s: Seq<Option<(u64, V)>>, j: int, n: int)
    requires
        0 <= j < p.len(),
        s.len() == p.len(),
        slot_filled(p, j),
        forall|a: int, b: int|
            0 <= a < b < p.len() && #[trigger] slot_filled(p, a) && #[trigger] slot_filled(p, b)
                ==> slot_key(s, a) != slot_key(s, b),
    ensures
        n <= j ==> slots_map_of(p.update(j, 0u8), s.update(j, None), n) == slots_map_of(p, s, n),
        j < n <= p.len() ==> slots_map_of(p.update(j, 0u8), s.update(j, None), n) == slots_map_of(
            p,
            s,
            n,
        ).remove(slot_key(s, j)),
    decreases n,
{
    let k = slot_key(s, j);
    let p2 = p.update(j, 0u8);
    let s2 = s.update(j, None);
    if n > 0 {
        lemma_slots_map_clear(p, s, j, n - 1);
        if n - 1 == j {
            lemma_slots_map_dom::<V>(p, s, j);
            assert(!slots_map_of(p, s, j).dom().contains(k));
            assert(slots_map_of(p, s, n).remove(k) =~= slots_map_of(p, s, j));
        } else if j < n - 1 && n <= p.len() {
            if slot_filled(p, n - 1) {
                assert(slot_key(s, n - 1) != k);
                assert(slots_map_of(p, s, n - 1).remove(k).insert(
                    slot_key(s, n - 1),
                    slot_val(s, n - 1),
                ) =~= slots_map_of(p, s, n).remove(k));
            }
        }
    }
}

/// Overwriting the value of slot `j` re-inserts its key into the slot map.
pub proof fn lemma_slots_map_set_val<V>(p: Seq<u8>, s: Seq<Option<(u64, V)>>, j: int, v: V, n: int)
    requires
        0 <= j < p.len(),
        s.len() == p.len(),
        slot_filled(p, j),
        forall|a: int, b: int|
            0 <= a < b < p.len() && #[trigger] slot_filled(p, a) && #[trigger] slot_filled(p, b)
                ==> slot_key(s, a) != slot_key(s, b),
    ensures
        n <= j ==> slots_map_of(p, s.update(j, Some((slot_key(s, j), v))), n) == slots_map_of(
            p,
            s,
            n,
        ),
        j < n <= p.len() ==> slots_map_of(p, s.update(j, Some((slot_key(s, j), v))), n)
            == slots_map_of(p, s, n).insert(slot_key(s, j), v),
    decreases n,
{
    let k = slot_key(s, j);
    let s2 = s.update(j, Some((k, v)));
    if n > 0 {
        lemma_slots_map_set_val(p, s, j, v, n - 1);
        if n - 1 == j {
            assert(slots_map_of(p, s, n - 1).insert(k, v) =~= slots_map_of(p, s, n).insert(k, v));
        } else if j < n - 1 && n <= p.len() {
            if slot_filled(p, n - 1) {
                assert(slot_key(s, n - 1) != k);
                assert(slots_map_of(p, s, n - 1).insert(k, v).insert(
                    slot_key(s, n - 1),
                    slot_val(s, n - 1),
                ) =~= slots_map_of(p, s, n).insert(k, v));
            }
        }
    }
}

/// A fixed-capacity bucket plus overflow chain.
pub struct Cell<V> {
    /// The eight-byte read/write lock word; see `crate::lock`.
    state: u64,
    /// One partial-hash byte per slot; zero means the slot is empty.
    partials: Vec<u8>,
    /// The entry storage; slot `i` is occupied exactly when `partials[i]` is
    /// non-zero.
    slots: Vec<Option<(u64, V)>>,
    /// The overflow chain, used only when all slots are occupied.
    overflow: Vec<(u64, V)>,
    /// The number of entries: occupied slots plus overflow length.
    occupancy: usize,
}

impl<V> Cell<V> {
    /// Slot `i` holds an entry.
    pub closed spec fn occupied(self, i: int) -> bool {
        slot_filled(self.partials@, i)
    }

    /// The key stored in slot `i`.
    pub closed spec fn key_at(self, i: int) -> u64 {
        slot_key(self.slots@, i)
    }

    /// The value stored in slot `i`.
    pub closed spec fn val_at(self, i: int) -> V {
        slot_val(self.slots@, i)
    }

    /// The overflow chain, as a sequence of entries.
    pub closed spec fn overflow_seq(self) -> Seq<(u64, V)> {
        self.overflow@
    }

    /// The number of entries the cell holds.
    pub closed spec fn spec_occupancy(self) -> int {
        self.occupancy as int
    }

    /// The cell was migrated into a successor array and accepts no writers.
    pub closed spec fn is_killed(self) -> bool {
        lock::lock_killed(self.state)
    }

    /// Well-formedness: the storage shape, the slot/byte correspondence, the
    /// partial hashes, key distinctness, the occupancy count, and a quiescent
    /// lock word.
    pub closed spec fn wf(self) -> bool {
        &&& self.partials@.len() == ARRAY_SIZE
        &&& self.slots@.len() == ARRAY_SIZE
        &&& forall|i: int|
            0 <= i < ARRAY_SIZE ==> (#[trigger] self.occupied(i) <==> self.slots@[i] is Some)
        &&& forall|i: int|
            0 <= i < ARRAY_SIZE && #[trigger] self.occupied(i) ==> self.partials@[i] == partial_of(
                self.key_at(i),
            )
        &&& forall|i: int, j: int|
            0 <= i < j < ARRAY_SIZE && #[trigger] self.occupied(i) && #[trigger] self.occupied(j)
                ==> self.key_at(i) != self.key_at(j)
        &&& forall|i: int, l: int|
            0 <= i < ARRAY_SIZE && #[trigger] self.occupied(i) && 0 <= l
                < self.overflow@.len() ==> self.key_at(i) != (#[trigger] self.overflow@[l]).0
        &&& keys_distinct(self.overflow@)
        &&& self.occupancy == filled_count(self.partials@, ARRAY_SIZE as int)
            + self.overflow@.len()
        &&& lock::lock_readers(self.state) == 0
        &&& !lock::lock_exclusive(self.state)
        &&& !lock::lock_waiters(self.state)
        &&& (self.is_killed() ==> self.occupancy == 0)
    }

    /// A key lives in one of the slots.
    pub open spec fn in_slots(self, k: u64) -> bool {
        exists|i: int| 0 <= i < ARRAY_SIZE && self.occupied(i) && self.key_at(i) == k
    }

    /// A key lives in the overflow chain.
    pub open spec fn in_overflow(self, k: u64) -> bool {
        exists|l: int| 0 <= l < self.overflow_seq().len() && self.overflow_seq()[l].0 == k
    }
}

impl<V> View for Cell<V> {
    type V = Map<u64, V>;

    /// The map the cell holds: the slot entries together with the overflow
    /// chain.
    closed spec fn view(&self) -> Map<u64, V> {
        slots_map_of(self.partials@, self.slots@, ARRAY_SIZE as int).union_prefer_right(
            kv_map(self.overflow@),
        )
    }
}

impl<V> Cell<V> {
    /// Restates the distinctness clauses of `wf` over the raw slot
    /// sequences, in the shape the slot-map lemmas expect.
    proof fn lemma_wf_slots(self)
        requires
            self.wf(),
        ensures
            forall|a: int, b: int|
                0 <= a < b < ARRAY_SIZE && #[trigger] slot_filled(self.partials@, a)
                    && #[trigger] slot_filled(self.partials@, b) ==> slot_key(self.slots@, a)
                    != slot_key(self.slots@, b),
            forall|i: int, l: int|
                0 <= i < ARRAY_SIZE && #[trigger] slot_filled(self.partials@, i) && 0 <= l
                    < self.overflow@.len() ==> slot_key(self.slots@, i) != (
                #[trigger] self.overflow@[l]).0,
    {
        assert forall|a: int, b: int|
            0 <= a < b < ARRAY_SIZE && #[trigger] slot_filled(self.partials@, a)
                && #[trigger] slot_filled(self.partials@, b) implies slot_key(self.slots@, a)
            != slot_key(self.slots@, b) by {
            assert(self.occupied(a));
            assert(self.occupied(b));
        }
        assert forall|i: int, l: int|
            0 <= i < ARRAY_SIZE && #[trigger] slot_filled(self.partials@, i) && 0 <= l
                < self.overflow@.len() implies slot_key(self.slots@, i) != (
        #[trigger] self.overflow@[l]).0 by {
            assert(self.occupied(i));
        }
    }

    /// The full picture of a well-formed cell's map: membership, lookups,
    /// cardinality, and the disjointness of slots and overflow.
    pub proof fn lemma_view(self)
        requires
            self.wf(),
        ensures
            self@.dom().finite(),
            self@.dom().len() == self.spec_occupancy(),
            forall|k: u64| self@.dom().contains(k) <==> (self.in_slots(k) || self.in_overflow(k)),
            forall|i: int|
                0 <= i < ARRAY_SIZE && #[trigger] self.occupied(i) ==> self@.dom().contains(
                    self.key_at(i),
                ) && self@[self.key_at(i)] == self.val_at(i),
            forall|l: int|
                0 <= l < self.overflow_seq().len() ==> self@.dom().contains(
                    (#[trigger] self.overflow_seq()[l]).0,
                ) && self@[self.overflow_seq()[l].0] == self.overflow_seq()[l].1,
    {
        let n = ARRAY_SIZE as int;
        let p = self.partials@;
        let s = self.slots@;
        self.lemma_wf_slots();
        lemma_slots_map_dom::<V>(p, s, n);
        lemma_slots_map_len::<V>(p, s, n);
        lemma_kv_map_dom(self.overflow@);
        lemma_kv_map_len(self.overflow@);
        assert(self@.dom() =~= slots_map_of(p, s, n).dom() + kv_map(self.overflow@).dom());
        assert forall|k: u64| !(slots_map_of(p, s, n).dom().contains(k) && kv_map(
            self.overflow@,
        ).dom().contains(k)) by {
            if slots_map_of(p, s, n).dom().contains(k) && kv_map(self.overflow@).dom().contains(
                k,
            ) {
                let i = choose|i: int| 0 <= i < n && slot_filled(p, i) && slot_key(s, i) == k;
                let l = choose|l: int| 0 <= l < self.overflow@.len() && self.overflow@[l].0 == k;
                assert(slot_key(s, i) != self.overflow@[l].0);
            }
        }
        assert(slots_map_of(p, s, n).dom().disjoint(kv_map(self.overflow@).dom()));
        vstd::set_lib::lemma_set_disjoint_lens(
            slots_map_of(p, s, n).dom(),
            kv_map(self.overflow@).dom(),
        );
        assert forall|k: u64| self@.dom().contains(k) implies (self.in_slots(k)
            || self.in_overflow(k)) by {
            if slots_map_of(p, s, n).dom().contains(k) {
                let i = choose|i: int| 0 <= i < n && slot_filled(p, i) && slot_key(s, i) == k;
                assert(self.occupied(i) && self.key_at(i) == k);
            } else {
                let l = choose|l: int| 0 <= l < self.overflow@.len() && self.overflow@[l].0 == k;
                assert(0 <= l < self.overflow_seq().len() && self.overflow_seq()[l].0 == k);
            }
        }
        assert forall|k: u64| (self.in_slots(k) || self.in_overflow(k)) implies self@.dom(
        ).contains(k) by {
            if self.in_slots(k) {
                let i = choose|i: int| 0 <= i < ARRAY_SIZE && self.occupied(i) && self.key_at(i)
                    == k;
                assert(slot_filled(p, i) && slot_key(s, i) == k);
                assert(slots_map_of(p, s, n).dom().contains(k));
            } else {
                let l = choose|l: int|
                    0 <= l < self.overflow_seq().len() && self.overflow_seq()[l].0 == k;
                assert(self.overflow@[l].0 == k);
                assert(kv_map(self.overflow@).dom().contains(k));
            }
        }
        assert forall|i: int| 0 <= i < ARRAY_SIZE && #[trigger] self.occupied(i) implies self@.dom(
        ).contains(self.key_at(i)) && self@[self.key_at(i)] == self.val_at(i) by {
            lemma_slots_map_at::<V>(p, s, n, i);
            assert(!kv_map(self.overflow@).dom().contains(self.key_at(i)));
        }
        assert forall|l: int| 0 <= l < self.overflow_seq().len() implies self@.dom().contains(
            (#[trigger] self.overflow_seq()[l]).0,
        ) && self@[self.overflow_seq()[l].0] == self.overflow_seq()[l].1 by {
            lemma_kv_map_index(self.overflow@, l);
        }
    }

    /// An empty cell: no occupied slots, no overflow, a free lock word.
    pub fn new() -> (c: Cell<V>)
        ensures
            c.wf(),
            !c.is_killed(),
            c@ == Map::<u64, V>::empty(),
            c.spec_occupancy() == 0,
    {
        let mut partials: Vec<u8> = Vec::new();
        let mut slots: Vec<Option<(u64, V)>> = Vec::new();
        let mut i: usize = 0;
        while i < ARRAY_SIZE
            invariant
                i <= ARRAY_SIZE,
                partials@.len() == i,
                slots@.len() == i,
                forall|j: int| 0 <= j < i ==> partials@[j] == 0,
                forall|j: int| 0 <= j < i ==> slots@[j] is None,
            decreases ARRAY_SIZE - i,
        {
            partials.push(0);
            slots.push(None);
            i += 1;
        }
        let c = Cell { state: 0u64, partials, slots, overflow: Vec::new(), occupancy: 0 };
        proof {
            assert(lock::lock_readers(0u64) == 0 && !lock::lock_exclusive(0u64)
                && !lock::lock_waiters(0u64) && !lock::lock_killed(0u64)) by (bit_vector);
            lemma_slots_map_empty::<V>(c.partials@, c.slots@, ARRAY_SIZE as int);
            assert(c@ =~= Map::<u64, V>::empty());
        }
        c
    }

    /// Takes the exclusive lock; in this quiescent embedding the transition
    /// never contends.
    fn acquire_exclusive(&mut self)
        requires
            old(self).wf(),
            !old(self).is_killed(),
        ensures
            final(self).partials == old(self).partials,
            final(self).slots == old(self).slots,
            final(self).overflow == old(self).overflow,
            final(self).occupancy == old(self).occupancy,
            lock::lock_exclusive(final(self).state),
            lock::lock_readers(final(self).state) == 0,
            !lock::lock_killed(final(self).state),
            !lock::lock_waiters(final(self).state),
    {
        let r = lock::try_exclusive(self.state);
        match r {
            Some(w2) => {
                self.state = w2;
            },
            None => {
                proof {
                    assert(false);
                }
            },
        }
    }

    /// A key absent from the cell differs from the key of any occupied slot.
    proof fn lemma_fresh_slot(self, k: u64, x: int)
        requires
            self.wf(),
            !self@.dom().contains(k),
            0 <= x < ARRAY_SIZE,
            slot_filled(self.partials@, x),
        ensures
            self.key_at(x) != k,
            slot_key(self.slots@, x) != k,
    {
        self.lemma_view();
        assert(self.occupied(x));
        if self.key_at(x) == k {
            assert(self.in_slots(k));
        }
    }

    /// A key absent from the cell differs from the key of any overflow link.
    proof fn lemma_fresh_overflow(self, k: u64, l: int)
        requires
            self.wf(),
            !self@.dom().contains(k),
            0 <= l < self.overflow@.len(),
        ensures
            self.overflow@[l].0 != k,
    {
        self.lemma_view();
        if self.overflow@[l].0 == k {
            assert(self.overflow_seq()[l].0 == k);
            assert(self.in_overflow(k));
        }
    }

    /// Re-establishes well-formedness after an edit that touched at most one
    /// slot and rebuilt the overflow chain with distinct keys disjoint from
    /// the untouched slots.
    proof fn lemma_wf_after_edit(pre: Cell<V>, post: Cell<V>, j: int)
        requires
            pre.wf(),
            -1 <= j < ARRAY_SIZE,
            post.partials@.len() == ARRAY_SIZE,
            post.slots@.len() == ARRAY_SIZE,
            forall|x: int|
                0 <= x < ARRAY_SIZE && x != j ==> post.partials@[x] == pre.partials@[x]
                    && post.slots@[x] == pre.slots@[x],
            j >= 0 ==> (slot_filled(post.partials@, j) <==> post.slots@[j] is Some),
            j >= 0 && slot_filled(post.partials@, j) ==> post.partials@[j] == partial_of(
                slot_key(post.slots@, j),
            ),
            j >= 0 && slot_filled(post.partials@, j) ==> (forall|i: int|
                0 <= i < ARRAY_SIZE && i != j && #[trigger] slot_filled(pre.partials@, i)
                    ==> slot_key(pre.slots@, i) != slot_key(post.slots@, j)),
            j >= 0 && slot_filled(post.partials@, j) ==> (forall|l: int|
                0 <= l < post.overflow@.len() ==> (#[trigger] post.overflow@[l]).0 != slot_key(
                    post.slots@,
                    j,
                )),
            keys_distinct(post.overflow@),
            forall|i: int, l: int|
                0 <= i < ARRAY_SIZE && i != j && #[trigger] slot_filled(pre.partials@, i) && 0 <= l
                    < post.overflow@.len() ==> slot_key(pre.slots@, i) != (
                #[trigger] post.overflow@[l]).0,
            post.occupancy == filled_count(post.partials@, ARRAY_SIZE as int)
                + post.overflow@.len(),
            lock::lock_readers(post.state) == 0,
            !lock::lock_exclusive(post.state),
            !lock::lock_waiters(post.state),
            !lock::lock_killed(post.state),
        ensures
            post.wf(),
    {
        assert forall|x: int| 0 <= x < ARRAY_SIZE implies (#[trigger] post.occupied(x)
            <==> post.slots@[x] is Some) by {
            if x != j {
                assert(pre.occupied(x) <==> pre.slots@[x] is Some);
            }
        }
        assert forall|x: int| 0 <= x < ARRAY_SIZE && #[trigger] post.occupied(x) implies post
            .partials@[x] == partial_of(post.key_at(x)) by {
            if x != j {
                assert(pre.occupied(x));
            }
        }
        assert forall|a: int, b: int|
            0 <= a < b < ARRAY_SIZE && #[trigger] post.occupied(a)
                && #[trigger] post.occupied(b) implies post.key_at(a) != post.key_at(b) by {
            if a != j && b != j {
                assert(pre.occupied(a) && pre.occupied(b));
            } else if a == j {
                assert(slot_filled(pre.partials@, b));
            } else {
                assert(slot_filled(pre.partials@, a));
            }
        }
        assert forall|a: int, l: int|
            0 <= a < ARRAY_SIZE && #[trigger] post.occupied(a) && 0 <= l
                < post.overflow@.len() implies post.key_at(a) != (
        #[trigger] post.overflow@[l]).0 by {
            if a != j {
                assert(slot_filled(pre.partials@, a));
            }
        }
    }

    /// Scans the slots for the key; reports the matching slot, or that no
    /// slot holds the key. Only slots whose partial-hash byte matches are
    /// compared by key.
    #[verifier::loop_isolation(false)]
    fn find_slot(&self, key: u64, partial: u8) -> (found: usize)
        requires
            self.wf(),
            partial == partial_of(key),
        ensures
            found <= ARRAY_SIZE,
            found == ARRAY_SIZE ==> !self.in_slots(key),
            found < ARRAY_SIZE ==> self.occupied(found as int) && self.key_at(found as int) == key,
    {
        let mut i: usize = 0;
        while i < ARRAY_SIZE
            invariant
                i <= ARRAY_SIZE,
                forall|ii: int|
                    0 <= ii < i ==> !(#[trigger] self.occupied(ii) && self.key_at(ii) == key),
            decreases ARRAY_SIZE - i,
        {
            if self.partials[i] == partial {
                match &self.slots[i] {
                    Some(e) => {
                        if e.0 == key {
                            return i;
                        }
                    },
                    None => {},
                }
            }
            proof {
                if self.occupied(i as int) && self.key_at(i as int) == key {
                    assert(self.partials@[i as int] == partial_of(key));
                    assert(self.slots@[i as int] is Some);
                }
            }
            i += 1;
        }
        ARRAY_SIZE
    }

    /// Scans the overflow chain for the key; reports the matching link, or
    /// the chain's length when the key is absent.
    #[verifier::loop_isolation(false)]
    fn find_overflow(&self, key: u64) -> (found: usize)
        requires
            self.wf(),
        ensures
            found <= self.overflow_seq().len(),
            found == self.overflow_seq().len() ==> !self.in_overflow(key),
            found < self.overflow_seq().len() ==> self.overflow_seq()[found as int].0 == key,
    {
        let mut l: usize = 0;
        while l < self.overflow.len()
            invariant
                l <= self.overflow@.len(),
                forall|ll: int| 0 <= ll < l ==> (#[trigger] self.overflow@[ll]).0 != key,
            decreases self.overflow@.len() - l,
        {
            if self.overflow[l].0 == key {
                return l;
            }
            l += 1;
        }
        l
    }

    /// Finds the key: scans the partial-hash bytes first and compares keys
    /// only on a byte match, then walks the overflow chain.
    pub fn search(&self, key: u64, partial: u8) -> (r: Option<&V>)
        requires
            self.wf(),
            partial == partial_of(key),
        ensures
            match r {
                Some(v) => self@.dom().contains(key) && *v == self@[key],
                None => !self@.dom().contains(key),
            },
    {
        proof {
            self.lemma_view();
        }
        let j = self.find_slot(key, partial);
        if j < ARRAY_SIZE {
            return match &self.slots[j] {
                Some(e) => Some(&e.1),
                None => vstd::pervasive::unreached(),
            };
        }
        let l = self.find_overflow(key);
        if l < self.overflow.len() {
            proof {
                assert(self.overflow_seq()[l as int] == self.overflow@[l as int]);
            }
            return Some(&self.overflow[l].1);
        }
        proof {
            assert(!self.in_slots(key));
            assert(!self.in_overflow(key));
        }
        None
    }

    /// Inserts a fresh key: into the first free slot, or, with every slot
    /// occupied, at the end of the overflow chain.
    #[verifier::loop_isolation(false)]
    #[verifier::rlimit(60)]
    pub fn insert(&mut self, key: u64, val: V, partial: u8)
        requires
            old(self).wf(),
            !old(self).is_killed(),
            !old(self)@.dom().contains(key),
            partial == partial_of(key),
            old(self).spec_occupancy() < u32::MAX as int,
        ensures
            final(self).wf(),
            !final(self).is_killed(),
            final(self)@ == old(self)@.insert(key, val),
            final(self).spec_occupancy() == old(self).spec_occupancy() + 1,
    {
        proof {
            self.lemma_view();
            assert(partial != 0);
        }
        self.acquire_exclusive();
        let ghost c0 = *self;
        let mut free: usize = ARRAY_SIZE;
        let mut i: usize = 0;
        while i < ARRAY_SIZE
            invariant
                *self == c0,
                i <= ARRAY_SIZE,
                free == ARRAY_SIZE ==> forall|ii: int| 0 <= ii < i ==> #[trigger] self.occupied(
                    ii,
                ),
                free < ARRAY_SIZE ==> !self.occupied(free as int),
            decreases ARRAY_SIZE - i,
        {
            if free == ARRAY_SIZE && self.partials[i] == 0 {
                free = i;
            }
            i += 1;
        }
        proof {
            assert(c0.partials@ == old(self).partials@);
            assert(c0.slots@ == old(self).slots@);
            assert(c0.overflow@ == old(self).overflow@);
        }
        if free < ARRAY_SIZE {
            let j = free;
            self.partials[j] = partial;
            self.slots[j] = Some((key, val));
            self.occupancy = self.occupancy + 1;
            self.state = lock::exclusive_unlock(self.state);
            proof {
                let n = ARRAY_SIZE as int;
                assert forall|x: int|
                    0 <= x < ARRAY_SIZE && x != j && #[trigger] slot_filled(
                        old(self).partials@,
                        x,
                    ) implies slot_key(old(self).slots@, x) != key by {
                    old(self).lemma_fresh_slot(key, x);
                }
                assert forall|l: int| 0 <= l < self.overflow@.len() implies (
                #[trigger] self.overflow@[l]).0 != key by {
                    old(self).lemma_fresh_overflow(key, l);
                }
                assert(self.partials@ =~= c0.partials@.update(j as int, partial));
                assert(self.slots@ =~= c0.slots@.update(j as int, Some((key, val))));
                lemma_slots_map_fill(c0.partials@, c0.slots@, j as int, partial, key, val, n);
                lemma_filled_count_update(c0.partials@, j as int, partial, n);
                assert(self@ =~= old(self)@.insert(key, val));
                assert forall|x: int, l: int|
                    0 <= x < ARRAY_SIZE && x != j && #[trigger] slot_filled(
                        old(self).partials@,
                        x,
                    ) && 0 <= l < self.overflow@.len() implies slot_key(old(self).slots@, x) != (
                #[trigger] self.overflow@[l]).0 by {
                    assert(old(self).occupied(x));
                    assert(self.overflow@[l] == old(self).overflow@[l]);
                }
                Self::lemma_wf_after_edit(*old(self), *self, j as int);
            }
            return ;
        }
        self.overflow.push((key, val));
        self.occupancy = self.occupancy + 1;
        self.state = lock::exclusive_unlock(self.state);
        proof {
            let n = ARRAY_SIZE as int;
            crate::model::lemma_kv_map_push(c0.overflow@, key, val);
            assert(self.overflow@ =~= c0.overflow@.push((key, val)));
            assert(self@ =~= old(self)@.insert(key, val));
            assert(self.partials@ == old(self).partials@ && self.slots@ == old(self).slots@);
            assert forall|a: int, b: int|
                0 <= a < b < self.overflow@.len() implies (#[trigger] self.overflow@[a]).0 != (
            #[trigger] self.overflow@[b]).0 by {
                assert(self.overflow@[a] == c0.overflow@[a]);
                if b < self.overflow@.len() - 1 {
                    assert(self.overflow@[b] == c0.overflow@[b]);
                } else {
                    assert(self.overflow@[b].0 == key);
                    old(self).lemma_fresh_overflow(key, a);
                }
            }
            assert forall|x: int, l: int|
                0 <= x < ARRAY_SIZE && #[trigger] slot_filled(old(self).partials@, x) && 0 <= l
                    < self.overflow@.len() implies slot_key(old(self).slots@, x) != (
            #[trigger] self.overflow@[l]).0 by {
                if l < self.overflow@.len() - 1 {
                    assert(self.overflow@[l] == c0.overflow@[l]);
                    assert(old(self).occupied(x));
                } else {
                    assert(self.overflow@[l].0 == key);
                    old(self).lemma_fresh_slot(key, x);
                }
            }
            Self::lemma_wf_after_edit(*old(self), *self, -1);
        }
    }

    /// Removes the key if present and returns the entry that was stored.
    #[verifier::loop_isolation(false)]
    #[verifier::rlimit(60)]
    pub fn remove_entry(&mut self, key: u64, partial: u8) -> (r: Option<(u64, V)>)
        requires
            old(self).wf(),
            !old(self).is_killed(),
            partial == partial_of(key),
        ensures
            final(self).wf(),
            !final(self).is_killed(),
            match r {
                Some(pair) => {
                    &&& old(self)@.dom().contains(key)
                    &&& pair.0 == key
                    &&& pair.1 == old(self)@[key]
                    &&& final(self)@ == old(self)@.remove(key)
                    &&& final(self).spec_occupancy() == old(self).spec_occupancy() - 1
                },
                None => {
                    &&& !old(self)@.dom().contains(key)
                    &&& final(self)@ == old(self)@
                    &&& final(self).spec_occupancy() == old(self).spec_occupancy()
                },
            },
    {
        proof {
            self.lemma_view();
            assert(partial != 0);
        }
        let j = self.find_slot(key, partial);
        let l = self.find_overflow(key);
        self.acquire_exclusive();
        let ghost c0 = *self;
        proof {
            assert(c0.partials@ == old(self).partials@);
            assert(c0.slots@ == old(self).slots@);
            assert(c0.overflow@ == old(self).overflow@);
            old(self).lemma_wf_slots();
        }
        if j < ARRAY_SIZE {
            let entry_ref = &mut self.slots[j];
            let taken = entry_ref.take();
            self.partials[j] = 0;
            self.occupancy = self.occupancy - 1;
            self.state = lock::exclusive_unlock(self.state);
            proof {
                let n = ARRAY_SIZE as int;
                assert(c0.occupied(j as int) && c0.key_at(j as int) == key);
                assert(self.partials@ =~= c0.partials@.update(j as int, 0u8));
                assert(self.slots@ =~= c0.slots@.update(j as int, None));
                lemma_slots_map_clear(c0.partials@, c0.slots@, j as int, n);
                lemma_filled_count_update(c0.partials@, j as int, 0u8, n);
                lemma_kv_map_dom(c0.overflow@);
                assert(!kv_map(c0.overflow@).dom().contains(key));
                assert(self@ =~= old(self)@.remove(key));
                Self::lemma_wf_after_edit(*old(self), *self, j as int);
            }
            return taken;
        }
        if l < self.overflow.len() {
            let pair = self.overflow.remove(l);
            self.occupancy = self.occupancy - 1;
            self.state = lock::exclusive_unlock(self.state);
            proof {
                lemma_kv_map_remove(c0.overflow@, l as int);
                lemma_kv_map_index(c0.overflow@, l as int);
                lemma_slots_map_dom::<V>(c0.partials@, c0.slots@, ARRAY_SIZE as int);
                assert(c0.overflow@[l as int].0 == key);
                assert(!old(self).in_slots(key));
                assert forall|x: int|
                    !(0 <= x < ARRAY_SIZE && slot_filled(c0.partials@, x) && slot_key(
                        c0.slots@,
                        x,
                    ) == key) by {
                    if 0 <= x < ARRAY_SIZE && slot_filled(c0.partials@, x) && slot_key(
                        c0.slots@,
                        x,
                    ) == key {
                        assert(old(self).occupied(x) && old(self).key_at(x) == key);
                        assert(old(self).in_slots(key));
                    }
                }
                assert(!slots_map_of(c0.partials@, c0.slots@, ARRAY_SIZE as int).dom().contains(
                    key,
                ));
                assert(self@ =~= old(self)@.remove(key));
                assert(self.overflow@ == c0.overflow@.remove(l as int));
                assert forall|a: int, b: int|
                    0 <= a < b < self.overflow@.len() implies (#[trigger] self.overflow@[a]).0
                    != (#[trigger] self.overflow@[b]).0 by {
                    assert(self.overflow@.len() == c0.overflow@.len() - 1);
                }
                assert forall|x: int, ll: int|
                    0 <= x < ARRAY_SIZE && #[trigger] slot_filled(old(self).partials@, x) && 0
                        <= ll < self.overflow@.len() implies slot_key(old(self).slots@, x) != (
                #[trigger] self.overflow@[ll]).0 by {
                    assert(old(self).occupied(x));
                    assert(self.overflow@[ll] == c0.overflow@.remove(l as int)[ll]);
                }
                Self::lemma_wf_after_edit(*old(self), *self, -1);
            }
            return Some(pair);
        }
        self.state = lock::exclusive_unlock(self.state);
        proof {
            assert(!old(self).in_slots(key));
            assert(!old(self).in_overflow(key));
            assert(self@ =~= old(self)@);
            Self::lemma_wf_after_edit(*old(self), *self, -1);
        }
        None
    }

    /// Replaces the value stored under an existing key and hands the old
    /// value back.
    #[verifier::loop_isolation(false)]
    #[verifier::rlimit(60)]
    pub fn replace_value(&mut self, key: u64, partial: u8, val: V) -> (r: V)
        requires
            old(self).wf(),
            !old(self).is_killed(),
            old(self)@.dom().contains(key),
            partial == partial_of(key),
        ensures
            final(self).wf(),
            !final(self).is_killed(),
            r == old(self)@[key],
            final(self)@ == old(self)@.insert(key, val),
            final(self).spec_occupancy() == old(self).spec_occupancy(),
    {
        proof {
            self.lemma_view();
            assert(partial != 0);
        }
        let j = self.find_slot(key, partial);
        let l = self.find_overflow(key);
        self.acquire_exclusive();
        let ghost c0 = *self;
        proof {
            assert(c0.partials@ == old(self).partials@);
            assert(c0.slots@ == old(self).slots@);
            assert(c0.overflow@ == old(self).overflow@);
            old(self).lemma_wf_slots();
        }
        if j < ARRAY_SIZE {
            let mut replacement = Some((key, val));
            let entry_ref = &mut self.slots[j];
            core::mem::swap(entry_ref, &mut replacement);
            self.state = lock::exclusive_unlock(self.state);
            proof {
                let n = ARRAY_SIZE as int;
                assert(c0.occupied(j as int) && c0.key_at(j as int) == key);
                assert(self.partials@ =~= c0.partials@);
                assert(self.slots@ =~= c0.slots@.update(j as int, Some((key, val))));
                lemma_slots_map_set_val(c0.partials@, c0.slots@, j as int, val, n);
                lemma_kv_map_dom(c0.overflow@);
                assert(!kv_map(c0.overflow@).dom().contains(key));
                assert(self@ =~= old(self)@.insert(key, val));
                assert forall|x: int|
                    0 <= x < ARRAY_SIZE && x != j && #[trigger] slot_filled(
                        old(self).partials@,
                        x,
                    ) implies slot_key(old(self).slots@, x) != key by {
                    assert(old(self).occupied(x));
                    assert(old(self).occupied(j as int));
                }
                assert forall|ll: int| 0 <= ll < self.overflow@.len() implies (
                #[trigger] self.overflow@[ll]).0 != key by {
                    assert(old(self).occupied(j as int));
                }
                Self::lemma_wf_after_edit(*old(self), *self, j as int);
            }
            return match replacement {
                Some(pair) => pair.1,
                None => vstd::pervasive::unreached(),
            };
        }
        if l < self.overflow.len() {
            let mut swapped = (key, val);
            let entry = &mut self.overflow[l];
            core::mem::swap(entry, &mut swapped);
            self.state = lock::exclusive_unlock(self.state);
            proof {
                assert(c0.overflow@[l as int].0 == key);
                lemma_kv_map_update(c0.overflow@, l as int, val);
                lemma_kv_map_index(c0.overflow@, l as int);
                assert(self.overflow@ =~= c0.overflow@.update(l as int, (key, val)));
                assert(self@ =~= old(self)@.insert(key, val));
                assert forall|a: int, b: int|
                    0 <= a < b < self.overflow@.len() implies (#[trigger] self.overflow@[a]).0
                    != (#[trigger] self.overflow@[b]).0 by {
                    assert(self.overflow@[a].0 == c0.overflow@[a].0);
                    assert(self.overflow@[b].0 == c0.overflow@[b].0);
                }
                assert forall|x: int, ll: int|
                    0 <= x < ARRAY_SIZE && #[trigger] slot_filled(old(self).partials@, x) && 0
                        <= ll < self.overflow@.len() implies slot_key(old(self).slots@, x) != (
                #[trigger] self.overflow@[ll]).0 by {
                    assert(old(self).occupied(x));
                    if ll == l {
                        assert(old(self).overflow@[l as int].0 == key);
                    } else {
                        assert(self.overflow@[ll] == old(self).overflow@[ll]);
                    }
                }
                Self::lemma_wf_after_edit(*old(self), *self, -1);
            }
            return swapped.1;
        }
        self.state = lock::exclusive_unlock(self.state);
        proof {
            old(self).lemma_view();
            assert(!old(self).in_slots(key));
            assert(!old(self).in_overflow(key));
            assert(false);
        }
        vstd::pervasive::unreached()
    }

    /// Hands every entry out and leaves the cell empty; the keys of the
    /// returned entries are distinct and their map is exactly what the cell
    /// held.
    #[verifier::loop_isolation(false)]
    pub fn take_entries(&mut self) -> (out: Vec<(u64, V)>)
        requires
            old(self).wf(),
            !old(self).is_killed(),
        ensures
            final(self).wf(),
            !final(self).is_killed(),
            final(self)@ == Map::<u64, V>::empty(),
            final(self).spec_occupancy() == 0,
            keys_distinct(out@),
            kv_map(out@) == old(self)@,
            out@.len() == old(self).spec_occupancy(),
            forall|l: int|
                0 <= l < out@.len() ==> old(self)@.dom().contains((#[trigger] out@[l]).0)
                    && old(self)@[out@[l].0] == out@[l].1,
    {
        proof {
            self.lemma_view();
        }
        self.acquire_exclusive();
        let ghost c0 = *self;
        let mut out: Vec<(u64, V)> = Vec::new();
        let mut i: usize = 0;
        while i < ARRAY_SIZE
            invariant
                self.partials@.len() == ARRAY_SIZE,
                self.slots@.len() == ARRAY_SIZE,
                self.overflow == c0.overflow,
                self.occupancy == c0.occupancy,
                self.state == c0.state,
                c0.partials@.len() == ARRAY_SIZE,
                c0.slots@.len() == ARRAY_SIZE,
                i <= ARRAY_SIZE,
                forall|j: int| 0 <= j < i ==> self.partials@[j] == 0,
                forall|j: int| 0 <= j < i ==> self.slots@[j] is None,
                forall|j: int|
                    i as int <= j && j < ARRAY_SIZE as int ==> self.partials@[j]
                        == c0.partials@[j],
                forall|j: int|
                    i as int <= j && j < ARRAY_SIZE as int ==> self.slots@[j] == c0.slots@[j],
                out@ =~= entries_prefix(c0.partials@, c0.slots@, i as int),
            decreases ARRAY_SIZE - i,
        {
            let ghost before = *self;
            if self.partials[i] != 0 {
                let entry_ref = &mut self.slots[i];
                let taken = entry_ref.take();
                self.partials[i] = 0;
                match taken {
                    Some(pair) => {
                        out.push(pair);
                    },
                    None => {
                        proof {
                            assert(c0.occupied(i as int));
                            assert(old(self).occupied(i as int));
                            assert(false);
                        }
                    },
                }
                proof {
                    assert(self.partials@ =~= before.partials@.update(i as int, 0u8));
                    assert(self.slots@ =~= before.slots@.update(i as int, None));
                    assert forall|j: int|
                        0 <= j < i + 1 implies self.partials@[j] == 0 && self.slots@[j]
                        is None by {
                        if j < i {
                            assert(self.partials@[j] == before.partials@[j]);
                            assert(self.slots@[j] == before.slots@[j]);
                        }
                    }
                    assert forall|j: int|
                        i + 1 <= j < ARRAY_SIZE implies self.partials@[j] == c0.partials@[j]
                            && self.slots@[j] == c0.slots@[j] by {
                        assert(self.partials@[j] == before.partials@[j]);
                        assert(self.slots@[j] == before.slots@[j]);
                    }
                    assert(slot_filled(c0.partials@, i as int));
                    assert(out@ =~= entries_prefix(c0.partials@, c0.slots@, i as int).push(
                        (slot_key(c0.slots@, i as int), slot_val(c0.slots@, i as int)),
                    ));
                    assert(out@ =~= entries_prefix(c0.partials@, c0.slots@, i + 1));
                }
            } else {
                proof {
                    assert(self.partials@[i as int] == 0);
                    assert(!old(self).occupied(i as int));
                    assert(old(self).slots@[i as int] is None);
                    assert(self.slots@[i as int] == c0.slots@[i as int]);
                }
            }
            i += 1;
        }
        out.append(&mut self.overflow);
        self.occupancy = 0;
        self.state = lock::exclusive_unlock(self.state);
        proof {
            let n = ARRAY_SIZE as int;
            assert(c0.partials@ == old(self).partials@ && c0.slots@ == old(self).slots@
                && c0.overflow@ == old(self).overflow@);
            let pre = entries_prefix(c0.partials@, c0.slots@, n);
            old(self).lemma_wf_slots();
            lemma_entries_prefix(c0.partials@, c0.slots@, n);
            lemma_kv_map_concat(pre, c0.overflow@);
            assert forall|x: int| 0 <= x < n implies !slot_filled(self.partials@, x) by {
                assert(self.partials@[x] == 0);
            }
            lemma_slots_map_empty::<V>(self.partials@, self.slots@, n);
            assert(self@ =~= Map::<u64, V>::empty());
            assert(out@ =~= pre + c0.overflow@);
            assert(kv_map(out@) =~= old(self)@);
            assert forall|a: int, b: int| 0 <= a < b < out@.len() implies (#[trigger] out@[a]).0
                != (#[trigger] out@[b]).0 by {
                if b < pre.len() {
                    assert(out@[a] == pre[a] && out@[b] == pre[b]);
                } else if a >= pre.len() {
                    assert(out@[a] == c0.overflow@[a - pre.len()]);
                    assert(out@[b] == c0.overflow@[b - pre.len()]);
                } else {
                    assert(out@[a] == pre[a]);
                    assert(out@[b] == c0.overflow@[b - pre.len()]);
                    let i = choose|i: int|
                        0 <= i < n && slot_filled(c0.partials@, i) && slot_key(c0.slots@, i)
                            == pre[a].0;
                    assert(old(self).occupied(i) && old(self).key_at(i) == pre[a].0);
                }
            }
            old(self).lemma_view();
            lemma_kv_map_len(out@);
            assert forall|l: int| 0 <= l < out@.len() implies old(self)@.dom().contains(
                (#[trigger] out@[l]).0,
            ) && old(self)@[out@[l].0] == out@[l].1 by {
                lemma_kv_map_index(out@, l);
            }
        }
        out
    }

    /// Marks an emptied cell killed: the terminal step of its migration.
    pub fn kill_state(&mut self)
        requires
            old(self).wf(),
            !old(self).is_killed(),
            old(self).spec_occupancy() == 0,
        ensures
            final(self).wf(),
            final(self).is_killed(),
            final(self)@ == old(self)@,
            final(self).spec_occupancy() == 0,
    {
        self.acquire_exclusive();
        self.state = lock::kill(self.state);
        self.state = lock::exclusive_unlock(self.state);
        proof {
            assert forall|x: int| 0 <= x < ARRAY_SIZE implies (#[trigger] self.occupied(x)
                <==> self.slots@[x] is Some) by {
                assert(old(self).occupied(x) <==> old(self).slots@[x] is Some);
            }
            assert forall|x: int| 0 <= x < ARRAY_SIZE && #[trigger] self.occupied(x) implies self
                .partials@[x] == partial_of(self.key_at(x)) by {
                assert(old(self).occupied(x));
            }
            assert forall|a: int, b: int|
                0 <= a < b < ARRAY_SIZE && #[trigger] self.occupied(a)
                    && #[trigger] self.occupied(b) implies self.key_at(a) != self.key_at(b) by {
                assert(old(self).occupied(a) && old(self).occupied(b));
            }
            assert forall|a: int, l: int|
                0 <= a < ARRAY_SIZE && #[trigger] self.occupied(a) && 0 <= l
                    < self.overflow@.len() implies self.key_at(a) != (
            #[trigger] self.overflow@[l]).0 by {
                assert(old(self).occupied(a));
            }
        }
    }

    /// The number of entries the cell holds.
    pub fn occupancy(&self) -> (n: usize)
        requires
            self.wf(),
        ensures
            n == self.spec_occupancy(),
            n == self@.dom().len(),
    {
        proof {
            self.lemma_view();
        }
        self.occupancy
    }

    /// The entry count, as an integer, is never negative.
    pub proof fn lemma_occupancy_nonneg(self)
        ensures
            self.spec_occupancy() >= 0,
    {
    }

    /// A killed cell was emptied by its migration.
    pub proof fn lemma_killed_empty(self)
        requires
            self.wf(),
            self.is_killed(),
        ensures
            self.spec_occupancy() == 0,
            self@ == Map::<u64, V>::empty(),
    {
        self.lemma_empty();
    }

    /// A cell that holds no entry holds the empty map.
    pub proof fn lemma_empty(self)
        requires
            self.wf(),
            self.spec_occupancy() == 0,
        ensures
            self@ == Map::<u64, V>::empty(),
    {
        self.lemma_view();
        assert forall|k: u64| !(#[trigger] self@.dom().contains(k)) by {
            if self@.dom().contains(k) {
                vstd::set_lib::lemma_set_empty_equivalency_len(self@.dom());
            }
        }
        assert(self@ =~= Map::<u64, V>::empty());
    }

    /// Whether the cell has been migrated away.
    pub fn killed(&self) -> (b: bool)
        ensures
            b == self.is_killed(),
    {
        self.state & lock::KILLED_FLAG != 0
    }
}

/// The entries held by the filled slots before `n`, in slot order.
pub open spec fn entries_prefix<V>(p: Seq<u8>, s: Seq<Option<(u64, V)>>, n: int) -> Seq<(u64, V)>
    decreases n,
{
    if n <= 0 {
        Seq::empty()
    } else if slot_filled(p, n - 1) {
        entries_prefix(p, s, n - 1).push((slot_key(s, n - 1), slot_val(s, n - 1)))
    } else {
        entries_prefix(p, s, n - 1)
    }
}

/// The slot entries fold to the slot map; their keys mirror the slots and
/// their count mirrors the filled count.
pub proof fn lemma_entries_prefix<V>(p: Seq<u8>, s: Seq<Option<(u64, V)>>, n: int)
    requires
        n <= p.len(),
        forall|a: int, b: int|
            0 <= a < b < p.len() && #[trigger] slot_filled(p, a) && #[trigger] slot_filled(p, b)
                ==> slot_key(s, a) != slot_key(s, b),
    ensures
        kv_map(entries_prefix(p, s, n)) == slots_map_of(p, s, n),
        entries_prefix(p, s, n).len() == filled_count(p, n),
        keys_distinct(entries_prefix(p, s, n)),
        forall|l: int|
            0 <= l < entries_prefix(p, s, n).len() ==> exists|i: int|
                0 <= i < n && slot_filled(p, i) && slot_key(s, i) == (#[trigger] entries_prefix(
                    p,
                    s,
                    n,
                )[l]).0,
    decreases n,
{
    if n > 0 {
        lemma_entries_prefix(p, s, n - 1);
        if slot_filled(p, n - 1) {
            crate::model::lemma_kv_map_push(
                entries_prefix(p, s, n - 1),
                slot_key(s, n - 1),
                slot_val(s, n - 1),
            );
            assert forall|l: int| 0 <= l < entries_prefix(p, s, n - 1).len() implies (
            #[trigger] entries_prefix(p, s, n - 1)[l]).0 != slot_key(s, n - 1) by {
                let i = choose|i: int|
                    0 <= i < n - 1 && slot_filled(p, i) && slot_key(s, i) == entries_prefix(
                        p,
                        s,
                        n - 1,
                    )[l].0;
                assert(slot_key(s, i) != slot_key(s, n - 1));
            }
            assert forall|a: int, b: int|
                0 <= a < b < entries_prefix(p, s, n).len() implies (#[trigger] entries_prefix(
                p,
                s,
                n,
            )[a]).0 != (#[trigger] entries_prefix(p, s, n)[b]).0 by {
                if b < entries_prefix(p, s, n).len() - 1 {
                    assert(entries_prefix(p, s, n)[a] == entries_prefix(p, s, n - 1)[a]);
                    assert(entries_prefix(p, s, n)[b] == entries_prefix(p, s, n - 1)[b]);
                } else {
                    assert(entries_prefix(p, s, n)[a] == entries_prefix(p, s, n - 1)[a]);
                }
            }
        }
        assert forall|l: int| 0 <= l < entries_prefix(p, s, n).len() implies exists|i: int|
            0 <= i < n && slot_filled(p, i) && slot_key(s, i) == (#[trigger] entries_prefix(
                p,
                s,
                n,
            )[l]).0 by {
            if slot_filled(p, n - 1) && l == entries_prefix(p, s, n).len() - 1 {
                assert(slot_filled(p, n - 1) && slot_key(s, n - 1) == entries_prefix(p, s, n)[l].0);
            } else {
                assert(entries_prefix(p, s, n)[l] == entries_prefix(p, s, n - 1)[l]);
                let i = choose|i: int|
                    0 <= i < n - 1 && slot_filled(p, i) && slot_key(s, i) == entries_prefix(
                        p,
                        s,
                        n - 1,
                    )[l].0;
                assert(0 <= i < n && slot_filled(p, i) && slot_key(s, i) == entries_prefix(
                    p,
                    s,
                    n,
                )[l].0);
            }
        }
    }
}

} // verus!
