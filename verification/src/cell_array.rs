//! The cell array: a power-of-two array of cells backing the map at one
//! capacity, the routing of a key to its cell by the top bits of its hash,
//! and the incremental rehash that migrates a predecessor array one cell at
//! a time while the array stays fully usable.

use crate::cell::{Cell, ARRAY_SIZE};
use crate::hashing::{hash_of, partial_of};
use crate::model::{keys_distinct, kv_map};
use vstd::arithmetic::power2::pow2;
use vstd::prelude::*;

verus! {

/// The cell that owns a hash under `2^lb` cells: the top `lb` bits.
pub open spec fn spec_cell_index(hash: u64, lb: u8) -> int {
    (hash >> ((64 - lb) as u64)) as int
}

/// The home cell of a key.
pub open spec fn home_of(key: u64, lb: u8) -> int {
    spec_cell_index(hash_of(key), lb)
}

/// The map held by the cells before `n`.
pub open spec fn cells_map<V>(cs: Seq<Cell<V>>, n: int) -> Map<u64, V>
    decreases n,
{
    if n <= 0 {
        Map::empty()
    } else {
        cells_map(cs, n - 1).union_prefer_right(cs[n - 1]@)
    }
}

/// The total entry count of the cells before `n`.
pub open spec fn cells_count<V>(cs: Seq<Cell<V>>, n: int) -> int
    decreases n,
{
    if n <= 0 {
        0
    } else {
        cells_count(cs, n - 1) + cs[n - 1].spec_occupancy()
    }
}

/// Every key of every cell before `n` lives in its home cell.
pub open spec fn cells_routed<V>(cs: Seq<Cell<V>>, lb: u8) -> bool {
    forall|i: int, k: u64|
        0 <= i < cs.len() && #[trigger] cs[i]@.dom().contains(k) ==> home_of(k, lb) == i
}

/// A key in the folded cell map comes from one of the cells.
pub proof fn lemma_cells_map_member<V>(cs: Seq<Cell<V>>, n: int)
    ensures
        forall|k: u64|
            cells_map(cs, n).dom().contains(k) ==> exists|i: int|
                0 <= i < n && (#[trigger] cs[i])@.dom().contains(k),
    decreases n,
{
    if n > 0 {
        lemma_cells_map_member::<V>(cs, n - 1);
        assert forall|k: u64| cells_map(cs, n).dom().contains(k) implies exists|i: int|
            0 <= i < n && (#[trigger] cs[i])@.dom().contains(k) by {
            if cs[n - 1]@.dom().contains(k) {
                assert(cs[n - 1]@.dom().contains(k));
            } else {
                assert(cells_map(cs, n - 1).dom().contains(k));
                let i = choose|i: int| 0 <= i < n - 1 && (#[trigger] cs[i])@.dom().contains(k);
                assert(cs[i]@.dom().contains(k));
            }
        }
    }
}

/// Membership in the folded cell map is witnessed by a cell.
pub proof fn lemma_cells_map_dom<V>(cs: Seq<Cell<V>>, n: int)
    requires
        n <= cs.len(),
        forall|i: int| 0 <= i < cs.len() ==> (#[trigger] cs[i]).wf(),
    ensures
        cells_map(cs, n).dom().finite(),
        forall|k: u64|
            cells_map(cs, n).dom().contains(k) <==> exists|i: int|
                0 <= i < n && (#[trigger] cs[i])@.dom().contains(k),
    decreases n,
{
    if n > 0 {
        lemma_cells_map_dom(cs, n - 1);
        cs[n - 1].lemma_view();
        assert(cells_map(cs, n).dom() =~= cells_map(cs, n - 1).dom() + cs[n - 1]@.dom());
        assert forall|k: u64| cells_map(cs, n).dom().contains(k) implies exists|i: int|
            0 <= i < n && (#[trigger] cs[i])@.dom().contains(k) by {
            if cs[n - 1]@.dom().contains(k) {
                assert(cs[n - 1]@.dom().contains(k));
            } else {
                let i = choose|i: int| 0 <= i < n - 1 && (#[trigger] cs[i])@.dom().contains(k);
                assert(cs[i]@.dom().contains(k));
            }
        }
        assert forall|k: u64| (exists|i: int|
            0 <= i < n && (#[trigger] cs[i])@.dom().contains(k)) implies cells_map(
            cs,
            n,
        ).dom().contains(k) by {
            let i = choose|i: int| 0 <= i < n && (#[trigger] cs[i])@.dom().contains(k);
            if i < n - 1 {
                assert(cells_map(cs, n - 1).dom().contains(k));
            }
        }
    }
}

/// With routed keys, a lookup in the folded cell map reports the value the
/// home cell stores.
pub proof fn lemma_cells_map_at<V>(cs: Seq<Cell<V>>, lb: u8, n: int, i: int)
    requires
        n <= cs.len(),
        forall|x: int| 0 <= x < cs.len() ==> (#[trigger] cs[x]).wf(),
        cells_routed(cs, lb),
        0 <= i < n,
    ensures
        forall|k: u64|
            #[trigger] cs[i]@.dom().contains(k) ==> cells_map(cs, n).dom().contains(k)
                && cells_map(cs, n)[k] == cs[i]@[k],
    decreases n,
{
    if i < n - 1 {
        lemma_cells_map_at(cs, lb, n - 1, i);
        assert forall|k: u64| #[trigger] cs[i]@.dom().contains(k) implies cells_map(
            cs,
            n,
        ).dom().contains(k) && cells_map(cs, n)[k] == cs[i]@[k] by {
            assert(home_of(k, lb) == i);
            if cs[n - 1]@.dom().contains(k) {
                assert(home_of(k, lb) == n - 1);
            }
        }
    }
}

/// The folded cell map has exactly one element per stored entry.
pub proof fn lemma_cells_map_len<V>(cs: Seq<Cell<V>>, lb: u8, n: int)
    requires
        n <= cs.len(),
        forall|x: int| 0 <= x < cs.len() ==> (#[trigger] cs[x]).wf(),
        cells_routed(cs, lb),
    ensures
        cells_map(cs, n).dom().len() == cells_count(cs, n),
        cells_count(cs, n) >= 0,
    decreases n,
{
    if n > 0 {
        lemma_cells_map_len(cs, lb, n - 1);
        lemma_cells_map_dom(cs, n - 1);
        lemma_cells_map_dom(cs, n);
        cs[n - 1].lemma_view();
        assert forall|k: u64| !(#[trigger] cells_map(cs, n - 1).dom().contains(k) && cs[n
            - 1]@.dom().contains(k)) by {
            if cells_map(cs, n - 1).dom().contains(k) && cs[n - 1]@.dom().contains(k) {
                let i = choose|i: int| 0 <= i < n - 1 && (#[trigger] cs[i])@.dom().contains(k);
                assert(home_of(k, lb) == i);
                assert(home_of(k, lb) == n - 1);
            }
        }
        assert(cells_map(cs, n).dom() =~= cells_map(cs, n - 1).dom() + cs[n - 1]@.dom());
        assert(cells_map(cs, n - 1).dom().disjoint(cs[n - 1]@.dom()));
        vstd::set_lib::lemma_set_disjoint_lens(cells_map(cs, n - 1).dom(), cs[n - 1]@.dom());
    }
}

/// Cells that all hold the empty map fold to the empty map.
pub proof fn lemma_cells_map_empty<V>(cs: Seq<Cell<V>>, n: int)
    requires
        forall|i: int| 0 <= i < n ==> (#[trigger] cs[i])@ == Map::<u64, V>::empty(),
    ensures
        cells_map(cs, n) == Map::<u64, V>::empty(),
    decreases n,
{
    if n > 0 {
        lemma_cells_map_empty::<V>(cs, n - 1);
        assert(cells_map(cs, n) =~= cells_map(cs, n - 1));
    }
}

/// Replacing cell `j`'s map with an edit that stays on `j`'s own keys edits
/// the folded map the same way: an insert of a key routed to `j`.
pub proof fn lemma_cells_map_insert<V>(cs: Seq<Cell<V>>, cs2: Seq<Cell<V>>, j: int, k: u64, v: V, n: int)
    requires
        0 <= j < cs.len(),
        cs2.len() == cs.len(),
        n <= cs.len(),
        forall|x: int| 0 <= x < cs.len() && x != j ==> cs2[x] == cs[x],
        cs2[j]@ == cs[j]@.insert(k, v),
        forall|x: int| 0 <= x < cs.len() && x != j ==> !(#[trigger] cs[x])@.dom().contains(k),
    ensures
        n <= j ==> cells_map(cs2, n) == cells_map(cs, n),
        j < n <= cs.len() ==> cells_map(cs2, n) == cells_map(cs, n).insert(k, v),
    decreases n,
{
    if n > 0 {
        lemma_cells_map_insert(cs, cs2, j, k, v, n - 1);
        if n - 1 == j {
            assert(cells_map(cs2, n) =~= cells_map(cs, n).insert(k, v));
        } else if j < n - 1 {
            assert(!cs[n - 1]@.dom().contains(k));
            assert(cells_map(cs, n - 1).insert(k, v).union_prefer_right(cs[n - 1]@)
                =~= cells_map(cs, n).insert(k, v));
        } else {
            assert(cells_map(cs2, n) =~= cells_map(cs, n));
        }
    }
}

/// Replacing cell `j`'s map with a removal edits the folded map the same
/// way.
pub proof fn lemma_cells_map_remove<V>(cs: Seq<Cell<V>>, cs2: Seq<Cell<V>>, j: int, k: u64, n: int)
    requires
        0 <= j < cs.len(),
        cs2.len() == cs.len(),
        n <= cs.len(),
        forall|x: int| 0 <= x < cs.len() && x != j ==> cs2[x] == cs[x],
        cs2[j]@ == cs[j]@.remove(k),
        forall|x: int| 0 <= x < cs.len() && x != j ==> !(#[trigger] cs[x])@.dom().contains(k),
    ensures
        n <= j ==> cells_map(cs2, n) == cells_map(cs, n),
        j < n <= cs.len() ==> cells_map(cs2, n) == cells_map(cs, n).remove(k),
    decreases n,
{
    if n > 0 {
        lemma_cells_map_remove(cs, cs2, j, k, n - 1);
        if n - 1 == j {
            assert(!cs[n - 1]@.remove(k).dom().contains(k));
            lemma_cells_map_member::<V>(cs, n - 1);
            if cells_map(cs, n - 1).dom().contains(k) {
                let i = choose|i: int| 0 <= i < n - 1 && (#[trigger] cs[i])@.dom().contains(k);
                assert(!cs[i]@.dom().contains(k));
            }
            assert(cells_map(cs2, n) =~= cells_map(cs, n).remove(k));
        } else if j < n - 1 {
            assert(!cs[n - 1]@.dom().contains(k));
            assert(cells_map(cs, n - 1).remove(k).union_prefer_right(cs[n - 1]@) =~= cells_map(
                cs,
                n,
            ).remove(k));
        } else {
            assert(cells_map(cs2, n) =~= cells_map(cs, n));
        }
    }
}

/// Changing the count of cell `j` alone shifts the folded count by the same
/// difference.
pub proof fn lemma_cells_count_update<V>(cs: Seq<Cell<V>>, cs2: Seq<Cell<V>>, j: int, n: int)
    requires
        0 <= j < cs.len(),
        cs2.len() == cs.len(),
        n <= cs.len(),
        forall|x: int| 0 <= x < cs.len() && x != j ==> cs2[x] == cs[x],
    ensures
        n <= j ==> cells_count(cs2, n) == cells_count(cs, n),
        j < n <= cs.len() ==> cells_count(cs2, n) == cells_count(cs, n) + cs2[j].spec_occupancy()
            - cs[j].spec_occupancy(),
    decreases n,
{
    if n > 0 {
        lemma_cells_count_update(cs, cs2, j, n - 1);
    }
}

/// How many source cells one rehash step migrates at most.
pub const REHASH_BATCH: usize = 16;

/// A power-of-two array of cells, the unit of resize. During an incremental
/// rehash it keeps its predecessor in `old_array`; every key then lives in
/// exactly one cell across the two arrays.
pub struct Array<V> {
    /// The cells backing the map at this capacity.
    cells: Vec<Cell<V>>,
    /// The base-two logarithm of the cell count.
    lb_capacity: u8,
    /// The rehash cursor: every predecessor cell before it has been
    /// migrated.
    rehashing: usize,
    /// The predecessor array during an incremental rehash.
    old_array: Option<Box<Array<V>>>,
}

impl<V> Array<V> {
    /// The base-two logarithm of the cell count.
    pub closed spec fn lb(self) -> u8 {
        self.lb_capacity
    }

    /// The cells, as a sequence.
    pub closed spec fn cells_seq(self) -> Seq<Cell<V>> {
        self.cells@
    }

    /// The map held by this array's own cells.
    pub closed spec fn own_map(self) -> Map<u64, V> {
        cells_map(self.cells@, self.cells@.len() as int)
    }

    /// A predecessor array is still being migrated.
    pub closed spec fn has_old(self) -> bool {
        self.old_array is Some
    }

    /// The predecessor array.
    pub closed spec fn old_arr(self) -> Array<V> {
        *self.old_array->Some_0
    }

    /// The map still held by the predecessor's cells.
    pub open spec fn old_map(self) -> Map<u64, V> {
        if self.has_old() {
            self.old_arr().own_map()
        } else {
            Map::empty()
        }
    }

    /// The number of entry slots the array provides.
    pub open spec fn spec_capacity(self) -> int {
        pow2(self.lb() as nat) * (ARRAY_SIZE as int)
    }

    /// Shape and routing of one array's own cells.
    pub open spec fn wf_cells(self) -> bool {
        &&& 1 <= self.lb() <= 58
        &&& self.cells_seq().len() == pow2(self.lb() as nat)
        &&& self.spec_capacity() <= usize::MAX as int
        &&& forall|i: int| 0 <= i < self.cells_seq().len() ==> (#[trigger] self.cells_seq()[i]).wf()
        &&& cells_routed(self.cells_seq(), self.lb())
    }

    /// Well-formedness of the array as the map's current array: its own
    /// cells are alive and routed; a predecessor, if any, is itself routed,
    /// has no predecessor of its own, is killed below the rehash cursor, and
    /// shares no key with this array.
    pub closed spec fn wf(self) -> bool {
        &&& self.wf_cells()
        &&& forall|i: int|
            0 <= i < self.cells_seq().len() ==> !(#[trigger] self.cells_seq()[i]).is_killed()
        &&& (self.has_old() ==> {
            &&& self.old_arr().wf_cells()
            &&& !self.old_arr().has_old()
            &&& self.rehashing <= self.old_arr().cells_seq().len()
            &&& forall|i: int|
                0 <= i < self.rehashing ==> (#[trigger] self.old_arr().cells_seq()[i]).is_killed()
            &&& forall|k: u64|
                !(#[trigger] self.own_map().dom().contains(k) && self.old_map().dom().contains(k))
        })
        &&& (!self.has_old() ==> self.rehashing == 0)
        &&& self@.dom().finite()
        &&& self@.dom().len() < u32::MAX as int
    }
}

impl<V> View for Array<V> {
    type V = Map<u64, V>;

    /// The map the array holds: its own entries together with the
    /// not-yet-migrated entries of its predecessor.
    closed spec fn view(&self) -> Map<u64, V> {
        self.own_map().union_prefer_right(self.old_map())
    }
}

impl<V> Array<V> {
    /// Spells out the array's map: membership, lookups and cardinality in
    /// terms of the two cell arrays.
    pub proof fn lemma_view(self)
        requires
            self.wf_cells(),
            self.has_old() ==> self.old_arr().wf_cells(),
            self.has_old() ==> forall|k: u64|
                !(#[trigger] self.own_map().dom().contains(k) && self.old_map().dom().contains(
                    k,
                )),
        ensures
            self@.dom().finite(),
            self@.dom().len() == cells_count(self.cells_seq(), self.cells_seq().len() as int) + (
            if self.has_old() {
                cells_count(self.old_arr().cells_seq(), self.old_arr().cells_seq().len() as int)
            } else {
                0
            }),
            forall|k: u64|
                self@.dom().contains(k) <==> (self.own_map().dom().contains(k)
                    || self.old_map().dom().contains(k)),
            forall|k: u64|
                self.own_map().dom().contains(k) ==> self@[k] == self.own_map()[k],
            forall|k: u64|
                self.old_map().dom().contains(k) ==> self@[k] == self.old_map()[k],
    {
        let cs = self.cells_seq();
        let n = cs.len() as int;
        lemma_cells_map_dom(cs, n);
        lemma_cells_map_len(cs, self.lb(), n);
        if self.has_old() {
            let os = self.old_arr().cells_seq();
            let m = os.len() as int;
            lemma_cells_map_dom(os, m);
            lemma_cells_map_len(os, self.old_arr().lb(), m);
            assert(self@.dom() =~= self.own_map().dom() + self.old_map().dom());
            assert(self.own_map().dom().disjoint(self.old_map().dom()));
            vstd::set_lib::lemma_set_disjoint_lens(self.own_map().dom(), self.old_map().dom());
            assert forall|k: u64| self.own_map().dom().contains(k) implies self@[k]
                == self.own_map()[k] by {
                assert(!self.old_map().dom().contains(k));
            }
        } else {
            assert(self@ =~= self.own_map());
        }
    }

    /// Opens the consequences of well-formedness that callers outside this
    /// module need.
    pub proof fn lemma_wf(self)
        requires
            self.wf(),
        ensures
            self.wf_cells(),
            self.has_old() ==> self.old_arr().wf_cells(),
            self@.dom().finite(),
            self@.dom().len() < u32::MAX as int,
    {
    }

    /// The number of cells: always a power of two.
    pub fn num_cells(&self) -> (n: usize)
        requires
            self.wf_cells(),
        ensures
            n == self.cells_seq().len(),
            n == pow2(self.lb() as nat),
    {
        self.cells.len()
    }

    /// The number of entry slots: the capacity this array was sized for.
    pub fn num_entries(&self) -> (n: usize)
        requires
            self.wf_cells(),
        ensures
            n == self.spec_capacity(),
    {
        proof {
            vstd::arithmetic::power2::lemma_pow2_pos(self.lb() as nat);
        }
        self.cells.len() * ARRAY_SIZE
    }

    /// The cell at an index.
    pub fn get_cell(&self, index: usize) -> (c: &Cell<V>)
        requires
            index < self.cells_seq().len(),
        ensures
            *c == self.cells_seq()[index as int],
    {
        &self.cells[index]
    }

    /// The predecessor array, while one is still attached.
    pub fn get_old_array(&self) -> (r: Option<&Array<V>>)
        ensures
            match r {
                Some(o) => self.has_old() && *o == self.old_arr(),
                None => !self.has_old(),
            },
    {
        match &self.old_array {
            Some(o) => Some(&**o),
            None => None,
        }
    }

    /// The cell index a hash routes to: the top `lb` bits.
    pub fn calculate_metadata_array_index(&self, hash: u64) -> (index: usize)
        requires
            self.wf_cells(),
        ensures
            index == spec_cell_index(hash, self.lb()),
            index < self.cells_seq().len(),
    {
        let lb = self.lb_capacity;
        let shifted = hash >> ((64 - lb as u32) as u64);
        proof {
            let s = (64 - lb as u32) as u64;
            assert(shifted < (1u64 << lb)) by (bit_vector)
                requires
                    shifted == hash >> s,
                    s == (64 - lb) as u64,
                    1 <= lb <= 58,
            ;
            vstd::bits::lemma_u64_pow2_no_overflow(lb as nat);
            vstd::bits::lemma_u64_shl_is_mul(1u64, lb as u64);
            assert((1u64 << (lb as u64)) == pow2(lb as nat));
            assert(pow2(lb as nat) <= usize::MAX as int) by {
                vstd::arithmetic::power2::lemma_pow2_pos(self.lb() as nat);
                assert(pow2(lb as nat) * (ARRAY_SIZE as int) <= usize::MAX as int);
                assert(pow2(lb as nat) * 1 <= pow2(lb as nat) * (ARRAY_SIZE as int))
                    by (nonlinear_arith)
                    requires
                        pow2(lb as nat) > 0,
                ;
            }
        }
        shifted as usize
    }

    /// The smallest base-two logarithm whose cell count covers the
    /// requested capacity; the request is clamped so that the backing
    /// storage stays addressable.
    pub fn calculate_lb_metadata_array_size(capacity: usize) -> (lb: u8)
        ensures
            1 <= lb <= 58,
            pow2(lb as nat) * (ARRAY_SIZE as int) <= usize::MAX as int,
            pow2(lb as nat) * (ARRAY_SIZE as int) >= spec_adjusted_capacity(capacity),
            lb > 1 ==> pow2((lb - 1) as nat) * (ARRAY_SIZE as int) < spec_adjusted_capacity(
                capacity,
            ),
    {
        let cap_max: u64 = (usize::MAX as u64) / 2 - (ARRAY_SIZE as u64 - 1);
        let adjusted: u64 = if (capacity as u64) < cap_max {
            capacity as u64
        } else {
            cap_max
        };
        let required: u64 = (adjusted + (ARRAY_SIZE as u64 - 1)) / (ARRAY_SIZE as u64);
        let mut lb: u64 = 1;
        proof {
            assert(required < (1u64 << 59)) by (bit_vector)
                requires
                    required == (adjusted + 31) / 32,
                    adjusted <= 0xFFFF_FFFF_FFFF_FFFFu64 / 2 - 31,
            ;
        }
        while (1u64 << lb) < required
            invariant
                1 <= lb <= 59,
                required < (1u64 << 59),
                lb > 1 ==> (1u64 << (lb - 1)) < required,
            decreases 64 - lb,
        {
            proof {
                assert((1u64 << lb) < required && required < (1u64 << 59) ==> lb < 59)
                    by (bit_vector)
                    requires
                        lb <= 59,
                ;
            }
            lb += 1;
        }
        proof {
            Self::lemma_lb_result(capacity, adjusted, required, lb);
        }
        lb as u8
    }

    /// Connects the loop arithmetic of the size calculation to its
    /// power-of-two statement.
    proof fn lemma_lb_result(capacity: usize, adjusted: u64, required: u64, lb: u64)
        requires
            adjusted == if (capacity as u64) < ((usize::MAX as u64) / 2 - 31) as u64 {
                capacity as u64
            } else {
                (((usize::MAX as u64) / 2 - 31) as u64)
            },
            required == (adjusted + 31) / 32,
            1 <= lb <= 59,
            (1u64 << lb) >= required,
            lb > 1 ==> (1u64 << (lb - 1)) < required,
        ensures
            lb <= 58,
            pow2(lb as nat) * (ARRAY_SIZE as int) <= usize::MAX as int,
            pow2(lb as nat) * (ARRAY_SIZE as int) >= spec_adjusted_capacity(capacity),
            lb > 1 ==> pow2((lb - 1) as nat) * (ARRAY_SIZE as int) < spec_adjusted_capacity(
                capacity,
            ),
    {
        vstd::bits::lemma_u64_pow2_no_overflow(lb as nat);
        vstd::bits::lemma_u64_shl_is_mul(1u64, lb);
        let a = spec_adjusted_capacity(capacity);
        assert(adjusted == a);
        assert(pow2(lb as nat) == (1u64 << lb));
        // ceil division: required * 32 + 31 >= adjusted + 31, so required * 32 >= adjusted
        assert(required * 32 > adjusted - 32) by (nonlinear_arith)
            requires
                required == (adjusted + 31) / 32,
        ;
        assert(required * 32 >= adjusted - 31);
        // pow2(lb) >= required gives pow2(lb) * 32 >= required * 32
        assert(pow2(lb as nat) * 32 >= required * 32) by (nonlinear_arith)
            requires
                pow2(lb as nat) >= required,
        ;
        // tie the clamped capacity to the requested one
        assert(required >= (adjusted + 31) / 32);
        assert(required * 32 >= adjusted) by (nonlinear_arith)
            requires
                required == (adjusted + 31) / 32,
        ;
        assert(pow2(lb as nat) * (ARRAY_SIZE as int) >= a);
        if lb > 1 {
            vstd::bits::lemma_u64_pow2_no_overflow((lb - 1) as nat);
            vstd::bits::lemma_u64_shl_is_mul(1u64, (lb - 1) as u64);
            assert(pow2((lb - 1) as nat) == (1u64 << ((lb - 1) as u64)));
            assert((1u64 << ((lb - 1) as u64)) < required);
            assert(pow2((lb - 1) as nat) * 32 < required * 32) by (nonlinear_arith)
                requires
                    pow2((lb - 1) as nat) < required,
            ;
            assert(required * 32 < adjusted + 32) by (nonlinear_arith)
                requires
                    required == (adjusted + 31) / 32,
            ;
            assert(pow2((lb - 1) as nat) * 32 < adjusted + 32);
            assert(pow2((lb - 1) as nat) * 32 <= adjusted) by {
                assert((pow2((lb - 1) as nat) * 32) % 32 == 0) by (nonlinear_arith);
                assert(adjusted < pow2((lb - 1) as nat) * 32 ==> false) by (nonlinear_arith)
                    requires
                        pow2((lb - 1) as nat) * 32 < adjusted + 32,
                        (pow2((lb - 1) as nat) * 32) % 32 == 0,
                        required == (adjusted + 31) / 32,
                        pow2((lb - 1) as nat) < required,
                ;
            }
            assert(pow2((lb - 1) as nat) * 32 < a || pow2((lb - 1) as nat) * 32 == a);
            if pow2((lb - 1) as nat) * 32 == a {
                assert(required <= pow2((lb - 1) as nat)) by (nonlinear_arith)
                    requires
                        required == (adjusted + 31) / 32,
                        adjusted == pow2((lb - 1) as nat) * 32,
                        pow2((lb - 1) as nat) > 0,
                ;
            }
            // the clamp keeps one more doubling addressable
            assert(pow2(lb as nat) == 2 * pow2((lb - 1) as nat)) by {
                vstd::arithmetic::power2::lemma_pow2_unfold(lb as nat);
            }
            assert(pow2(lb as nat) * 32 <= usize::MAX as int) by (nonlinear_arith)
                requires
                    pow2(lb as nat) == 2 * pow2((lb - 1) as nat),
                    pow2((lb - 1) as nat) * 32 < adjusted + 32,
                    adjusted <= (usize::MAX as u64) / 2 - 31,
            ;
            assert(lb <= 58) by {
                if lb > 58 {
                    vstd::arithmetic::power2::lemma2_to64_rest();
                    vstd::arithmetic::power2::lemma_pow2_strictly_increases(58, lb as nat);
                    assert(pow2(lb as nat) > 0x400000000000000);
                    assert(pow2(lb as nat) * 32 > 0x400000000000000u64 * 32) by (nonlinear_arith)
                        requires
                            pow2(lb as nat) > 0x400000000000000,
                    ;
                }
            }
        } else {
            vstd::arithmetic::power2::lemma2_to64();
        }
    }
}

/// The capacity request after clamping to what the backing storage can
/// address.
pub open spec fn spec_adjusted_capacity(capacity: usize) -> int {
    spec_clamped_request(capacity as int)
}

/// The same clamp over an unbounded request.
pub open spec fn spec_clamped_request(request: int) -> int {
    if request < (usize::MAX as int) / 2 - 31 {
        request
    } else {
        (usize::MAX as int) / 2 - 31
    }
}

/// `c` is the capacity the sizing rule picks for `request`: the smallest
/// power-of-two cell count whose slots cover the clamped request, never
/// below one doubling of a single cell. This pins the capacity exactly.
pub open spec fn spec_sized_for(c: int, request: int) -> bool {
    exists|k: nat|
        1 <= k <= 58 && c == #[trigger] pow2(k) * (ARRAY_SIZE as int) && c
            >= spec_clamped_request(request) && (k > 1 ==> pow2((k - 1) as nat) * (
        ARRAY_SIZE as int) < spec_clamped_request(request))
}


/// Replacing cell `j` with a cell holding the same map leaves the folded
/// map alone.
pub proof fn lemma_cells_map_same<V>(cs: Seq<Cell<V>>, cs2: Seq<Cell<V>>, j: int, n: int)
    requires
        0 <= j < cs.len(),
        cs2.len() == cs.len(),
        n <= cs.len(),
        forall|x: int| 0 <= x < cs.len() && x != j ==> cs2[x] == cs[x],
        cs2[j]@ == cs[j]@,
    ensures
        cells_map(cs2, n) == cells_map(cs, n),
    decreases n,
{
    if n > 0 {
        lemma_cells_map_same(cs, cs2, j, n - 1);
        assert(cells_map(cs2, n) =~= cells_map(cs, n));
    }
}

/// A prefix count never exceeds a longer prefix count.
pub proof fn lemma_cells_count_mono<V>(cs: Seq<Cell<V>>, m: int, n: int)
    requires
        m <= n,
        n <= cs.len(),
    ensures
        cells_count(cs, m) <= cells_count(cs, n),
    decreases n,
{
    if n > 0 && m < n {
        lemma_cells_count_mono(cs, m, n - 1);
        cs[n - 1].lemma_occupancy_nonneg();
    }
}

/// One cell's occupancy never exceeds the total count.
pub proof fn lemma_cells_count_at<V>(cs: Seq<Cell<V>>, i: int, n: int)
    requires
        0 <= i < n,
        n <= cs.len(),
    ensures
        cs[i].spec_occupancy() <= cells_count(cs, n),
    decreases n,
{
    if i < n - 1 {
        lemma_cells_count_at(cs, i, n - 1);
        cs[n - 1].lemma_occupancy_nonneg();
    } else {
        lemma_cells_count_mono(cs, 0, n - 1);
    }
}

/// Emptying cell `j` removes exactly its keys from the folded map.
pub proof fn lemma_cells_map_drop<V>(cs: Seq<Cell<V>>, cs2: Seq<Cell<V>>, lb: u8, j: int, n: int)
    requires
        0 <= j < cs.len(),
        cs2.len() == cs.len(),
        n <= cs.len(),
        forall|x: int| 0 <= x < cs.len() && x != j ==> cs2[x] == cs[x],
        cs2[j]@ == Map::<u64, V>::empty(),
        cells_routed(cs, lb),
    ensures
        n <= j ==> cells_map(cs2, n) == cells_map(cs, n),
        j < n <= cs.len() ==> cells_map(cs2, n) == cells_map(cs, n).remove_keys(cs[j]@.dom()),
    decreases n,
{
    if n > 0 {
        lemma_cells_map_drop(cs, cs2, lb, j, n - 1);
        if n - 1 == j {
            lemma_cells_map_member::<V>(cs, n - 1);
            assert forall|k: u64| #[trigger] cells_map(cs, n - 1).dom().contains(k) implies !cs[
                j
            ]@.dom().contains(k) by {
                let i = choose|i: int| 0 <= i < n - 1 && (#[trigger] cs[i])@.dom().contains(k);
                if cs[j]@.dom().contains(k) {
                    assert(home_of(k, lb) == i);
                    assert(home_of(k, lb) == j);
                }
            }
            assert(cells_map(cs2, n) =~= cells_map(cs, n).remove_keys(cs[j]@.dom()));
        } else if j < n - 1 {
            assert forall|k: u64| #[trigger] cs[n - 1]@.dom().contains(k) implies !cs[
                j
            ]@.dom().contains(k) by {
                if cs[j]@.dom().contains(k) {
                    assert(home_of(k, lb) == n - 1);
                    assert(home_of(k, lb) == j);
                }
            }
            assert(cells_map(cs2, n) =~= cells_map(cs, n).remove_keys(cs[j]@.dom()));
        } else {
            assert(cells_map(cs2, n) =~= cells_map(cs, n));
        }
    }
}

impl<V> Array<V> {
    /// How much of the incremental rehash is left, measured in cells plus
    /// one final step for detaching the emptied predecessor.
    pub open spec fn rehash_remaining(self) -> int {
        if self.has_old() {
            self.old_arr().cells_seq().len() - self.spec_rehashing() + 1
        } else {
            0
        }
    }

    /// The rehash cursor.
    pub closed spec fn spec_rehashing(self) -> int {
        self.rehashing as int
    }

    /// A fresh array of the smallest power-of-two size covering `capacity`,
    /// optionally rehashing away a predecessor.
    pub fn new(capacity: usize, old_array: Option<Box<Array<V>>>) -> (a: Array<V>)
        requires
            match old_array {
                Some(o) => o.wf() && !o.has_old(),
                None => true,
            },
        ensures
            a.wf(),
            a@ == (match old_array {
                Some(o) => o@,
                None => Map::<u64, V>::empty(),
            }),
            a.has_old() == old_array is Some,
            a.has_old() ==> a.old_arr() == *old_array->Some_0,
            a.spec_capacity() >= spec_adjusted_capacity(capacity),
            spec_sized_for(a.spec_capacity(), capacity as int),
            a.lb() > 1 ==> pow2((a.lb() - 1) as nat) * (ARRAY_SIZE as int) < spec_adjusted_capacity(
                capacity,
            ),
            a.spec_rehashing() == 0,
    {
        let lb = Self::calculate_lb_metadata_array_size(capacity);
        proof {
            vstd::arithmetic::power2::lemma_pow2_pos(lb as nat);
            assert(pow2(lb as nat) <= usize::MAX as int) by (nonlinear_arith)
                requires
                    pow2(lb as nat) * (ARRAY_SIZE as int) <= usize::MAX as int,
                    pow2(lb as nat) > 0,
            ;
            vstd::bits::lemma_u64_pow2_no_overflow(lb as nat);
            vstd::bits::lemma_u64_shl_is_mul(1u64, lb as u64);
        }
        let num64: u64 = 1u64 << (lb as u64);
        let num: usize = num64 as usize;
        let mut cells: Vec<Cell<V>> = Vec::new();
        let mut i: usize = 0;
        while i < num
            invariant
                i <= num,
                cells@.len() == i,
                forall|j: int|
                    0 <= j < i ==> (#[trigger] cells@[j]).wf() && !cells@[j].is_killed()
                        && cells@[j]@ == Map::<u64, V>::empty() && cells@[j].spec_occupancy() == 0,
            decreases num - i,
        {
            cells.push(Cell::new());
            i += 1;
        }
        let a = Array { cells, lb_capacity: lb, rehashing: 0, old_array };
        proof {
            lemma_cells_map_empty::<V>(a.cells@, a.cells@.len() as int);
            assert(a.own_map() =~= Map::<u64, V>::empty());
            if a.has_old() {
                a.old_arr().lemma_view();
                assert(a@ =~= a.old_arr()@);
                assert(a.old_arr()@ =~= a.old_arr().own_map());
                a.lemma_view();
            } else {
                assert(a@ =~= Map::<u64, V>::empty());
            }
            assert(spec_sized_for(a.spec_capacity(), capacity as int)) by {
                assert(1 <= a.lb() as nat <= 58 && a.spec_capacity() == pow2(a.lb() as nat) * (
                ARRAY_SIZE as int));
            }
        }
        a
    }

    /// Reads the key: the predecessor's cell for this key is consulted
    /// first, unless it has already been migrated; then the own cell.
    pub fn read_entry(&self, key: u64, hash: u64, partial: u8) -> (r: Option<&V>)
        requires
            self.wf(),
            hash == hash_of(key),
            partial == partial_of(key),
        ensures
            match r {
                Some(v) => self@.dom().contains(key) && *v == self@[key],
                None => !self@.dom().contains(key),
            },
    {
        proof {
            self.lemma_view();
        }
        match &self.old_array {
            Some(o) => {
                let oidx = o.calculate_metadata_array_index(hash);
                let ocell = o.get_cell(oidx);
                if !ocell.killed() {
                    let found = ocell.search(key, partial);
                    match found {
                        Some(v) => {
                            proof {
                                lemma_cells_map_at(
                                    o.cells_seq(),
                                    o.lb(),
                                    o.cells_seq().len() as int,
                                    oidx as int,
                                );
                            }
                            return Some(v);
                        },
                        None => {
                            proof {
                                Self::lemma_absent_old(*self, key, hash, oidx as int);
                            }
                        },
                    }
                } else {
                    proof {
                        ocell.lemma_killed_empty();
                        Self::lemma_absent_old(*self, key, hash, oidx as int);
                    }
                }
            },
            None => {},
        }
        let idx = self.calculate_metadata_array_index(hash);
        let r = self.cells[idx].search(key, partial);
        proof {
            match r {
                Some(v) => {
                    lemma_cells_map_at(
                        self.cells_seq(),
                        self.lb(),
                        self.cells_seq().len() as int,
                        idx as int,
                    );
                },
                None => {
                    Self::lemma_absent_own(*self, key, hash, idx as int);
                },
            }
        }
        r
    }

    /// A key missing from its home cell in the predecessor is missing from
    /// the whole predecessor.
    proof fn lemma_absent_old(a: Array<V>, key: u64, hash: u64, oidx: int)
        requires
            a.wf(),
            a.has_old(),
            hash == hash_of(key),
            oidx == spec_cell_index(hash, a.old_arr().lb()),
            0 <= oidx < a.old_arr().cells_seq().len(),
            !a.old_arr().cells_seq()[oidx]@.dom().contains(key),
        ensures
            !a.old_map().dom().contains(key),
    {
        let os = a.old_arr().cells_seq();
        lemma_cells_map_member::<V>(os, os.len() as int);
        if a.old_map().dom().contains(key) {
            let i = choose|i: int| 0 <= i < os.len() && (#[trigger] os[i])@.dom().contains(key);
            assert(home_of(key, a.old_arr().lb()) == i);
        }
    }

    /// A key missing from its own home cell is missing from the whole own
    /// map.
    proof fn lemma_absent_own(a: Array<V>, key: u64, hash: u64, idx: int)
        requires
            a.wf_cells(),
            hash == hash_of(key),
            idx == spec_cell_index(hash, a.lb()),
            0 <= idx < a.cells_seq().len(),
            !a.cells_seq()[idx]@.dom().contains(key),
        ensures
            !a.own_map().dom().contains(key),
    {
        let cs = a.cells_seq();
        lemma_cells_map_member::<V>(cs, cs.len() as int);
        if a.own_map().dom().contains(key) {
            let i = choose|i: int| 0 <= i < cs.len() && (#[trigger] cs[i])@.dom().contains(key);
            assert(home_of(key, a.lb()) == i);
        }
    }

    /// Inserts a key that is nowhere in the array into its own home cell.
    pub fn insert_own(&mut self, key: u64, val: V, hash: u64, partial: u8)
        requires
            old(self).wf(),
            hash == hash_of(key),
            partial == partial_of(key),
            !old(self)@.dom().contains(key),
            old(self)@.dom().len() + 1 < u32::MAX as int,
        ensures
            final(self).wf(),
            final(self)@ == old(self)@.insert(key, val),
            final(self)@.dom().len() == old(self)@.dom().len() + 1,
            final(self).has_old() == old(self).has_old(),
            final(self).lb() == old(self).lb(),
            final(self).spec_rehashing() == old(self).spec_rehashing(),
            final(self).rehash_remaining() == old(self).rehash_remaining(),
            final(self).old_map() == old(self).old_map(),
            old(self).has_old() ==> final(self).old_arr() == old(self).old_arr(),
    {
        proof {
            self.lemma_view();
        }
        let idx = self.calculate_metadata_array_index(hash);
        let ghost cs0 = self.cells@;
        let ghost a0 = *self;
        proof {
            let n = cs0.len() as int;
            lemma_cells_map_member::<V>(cs0, n);
            lemma_cells_map_at(cs0, a0.lb(), n, idx as int);
            a0.lemma_view();
            if cs0[idx as int]@.dom().contains(key) {
                assert(a0.own_map().dom().contains(key));
            }
            lemma_cells_map_len(cs0, a0.lb(), n);
            lemma_cells_count_at(cs0, idx as int, n);
            assert(a0.own_map().dom() <= a0@.dom());
            vstd::set_lib::lemma_len_subset(a0.own_map().dom(), a0@.dom());
            cs0[idx as int].lemma_view();
        }
        let c = &mut self.cells[idx];
        c.insert(key, val, partial);
        proof {
            let n = cs0.len() as int;
            let cs2 = self.cells@;
            assert(cs2 =~= cs0.update(idx as int, cs2[idx as int]));
            assert forall|x: int| 0 <= x < cs0.len() && x != idx implies !(
            #[trigger] cs0[x])@.dom().contains(key) by {
                if cs0[x]@.dom().contains(key) {
                    lemma_cells_map_member::<V>(cs0, n);
                    assert(a0.own_map().dom().contains(key));
                }
            }
            lemma_cells_map_insert(cs0, cs2, idx as int, key, val, n);
            assert(self.own_map() == a0.own_map().insert(key, val));
            assert(self@ =~= a0@.insert(key, val));
            assert forall|i: int, k: u64|
                0 <= i < cs2.len() && #[trigger] cs2[i]@.dom().contains(k) implies home_of(
                k,
                a0.lb(),
            ) == i by {
                if i != idx {
                    assert(cs0[i]@.dom().contains(k));
                } else {
                    if k != key {
                        assert(cs0[i]@.dom().contains(k));
                    }
                }
            }
            assert(self@.dom() =~= a0@.dom().insert(key));
            vstd::set::axiom_set_insert_len(a0@.dom(), key);
            if self.has_old() {
                assert forall|k: u64|
                    !(#[trigger] self.own_map().dom().contains(k)
                        && self.old_map().dom().contains(k)) by {
                    if k != key {
                        assert(!(a0.own_map().dom().contains(k) && a0.old_map().dom().contains(
                            k,
                        )));
                    } else {
                        a0.lemma_view();
                    }
                }
            }
        }
    }

    /// Removes a key that cannot be in the predecessor; reports the entry
    /// stored under it, if any.
    pub fn remove_own(&mut self, key: u64, hash: u64, partial: u8) -> (r: Option<(u64, V)>)
        requires
            old(self).wf(),
            hash == hash_of(key),
            partial == partial_of(key),
            !old(self).old_map().dom().contains(key),
        ensures
            final(self).wf(),
            final(self).has_old() == old(self).has_old(),
            final(self).lb() == old(self).lb(),
            final(self).spec_rehashing() == old(self).spec_rehashing(),
            final(self).rehash_remaining() == old(self).rehash_remaining(),
            final(self).old_map() == old(self).old_map(),
            old(self).has_old() ==> final(self).old_arr() == old(self).old_arr(),
            match r {
                Some(pair) => {
                    &&& old(self)@.dom().contains(key)
                    &&& pair.0 == key
                    &&& pair.1 == old(self)@[key]
                    &&& final(self)@ == old(self)@.remove(key)
                    &&& final(self)@.dom().len() == old(self)@.dom().len() - 1
                },
                None => {
                    &&& !old(self)@.dom().contains(key)
                    &&& final(self)@ == old(self)@
                },
            },
    {
        proof {
            self.lemma_view();
        }
        let idx = self.calculate_metadata_array_index(hash);
        let ghost cs0 = self.cells@;
        let ghost a0 = *self;
        proof {
            cs0[idx as int].lemma_view();
        }
        let c = &mut self.cells[idx];
        let r = c.remove_entry(key, partial);
        proof {
            let n = cs0.len() as int;
            let cs2 = self.cells@;
            assert(cs2 =~= cs0.update(idx as int, cs2[idx as int]));
            assert forall|x: int| 0 <= x < cs0.len() && x != idx implies !(
            #[trigger] cs0[x])@.dom().contains(key) by {
                if cs0[x]@.dom().contains(key) {
                    assert(home_of(key, a0.lb()) == x);
                }
            }
            assert forall|i: int, k: u64|
                0 <= i < cs2.len() && #[trigger] cs2[i]@.dom().contains(k) implies home_of(
                k,
                a0.lb(),
            ) == i by {
                assert(cs0[i]@.dom().contains(k));
            }
            if r is Some {
                {
                    lemma_cells_map_remove(cs0, cs2, idx as int, key, n);
                    lemma_cells_map_at(cs0, a0.lb(), n, idx as int);
                    assert(self.own_map() == a0.own_map().remove(key));
                    assert(self@ =~= a0@.remove(key));
                    assert(a0@[key] == cs0[idx as int]@[key]);
                    assert(self@.dom() =~= a0@.dom().remove(key));
                    a0.lemma_view();
                    assert(a0@.dom().contains(key));
                    if self.has_old() {
                        assert forall|k: u64|
                            !(#[trigger] self.own_map().dom().contains(k)
                                && self.old_map().dom().contains(k)) by {
                            assert(!(a0.own_map().dom().contains(k)
                                && a0.old_map().dom().contains(k)));
                        }
                    }
                }
            } else {
                lemma_cells_map_same(cs0, cs2, idx as int, n);
                assert(self.own_map() == a0.own_map());
                assert(self@ =~= a0@);
                Self::lemma_absent_own(a0, key, hash, idx as int);
                a0.lemma_view();
            }
        }
        r
    }

    /// Replaces the value under a key that is present in this array's own
    /// cells, handing the old value back.
    pub fn replace_own(&mut self, key: u64, hash: u64, partial: u8, val: V) -> (r: V)
        requires
            old(self).wf(),
            hash == hash_of(key),
            partial == partial_of(key),
            old(self)@.dom().contains(key),
            !old(self).old_map().dom().contains(key),
        ensures
            final(self).wf(),
            final(self).has_old() == old(self).has_old(),
            final(self).lb() == old(self).lb(),
            final(self).spec_rehashing() == old(self).spec_rehashing(),
            final(self).rehash_remaining() == old(self).rehash_remaining(),
            final(self).old_map() == old(self).old_map(),
            old(self).has_old() ==> final(self).old_arr() == old(self).old_arr(),
            r == old(self)@[key],
            final(self)@ == old(self)@.insert(key, val),
            final(self)@.dom().len() == old(self)@.dom().len(),
    {
        proof {
            self.lemma_view();
        }
        let idx = self.calculate_metadata_array_index(hash);
        let ghost cs0 = self.cells@;
        let ghost a0 = *self;
        proof {
            let n = cs0.len() as int;
            a0.lemma_view();
            assert(a0.own_map().dom().contains(key));
            lemma_cells_map_member::<V>(cs0, n);
            let i = choose|i: int| 0 <= i < cs0.len() && (#[trigger] cs0[i])@.dom().contains(key);
            assert(home_of(key, a0.lb()) == i);
            assert(cs0[idx as int]@.dom().contains(key));
            lemma_cells_map_at(cs0, a0.lb(), n, idx as int);
            cs0[idx as int].lemma_view();
        }
        let c = &mut self.cells[idx];
        let r = c.replace_value(key, partial, val);
        proof {
            let n = cs0.len() as int;
            let cs2 = self.cells@;
            assert(cs2 =~= cs0.update(idx as int, cs2[idx as int]));
            assert forall|x: int| 0 <= x < cs0.len() && x != idx implies !(
            #[trigger] cs0[x])@.dom().contains(key) by {
                if cs0[x]@.dom().contains(key) {
                    assert(home_of(key, a0.lb()) == x);
                }
            }
            lemma_cells_map_insert(cs0, cs2, idx as int, key, val, n);
            assert(self.own_map() == a0.own_map().insert(key, val));
            assert(self@ =~= a0@.insert(key, val));
            assert forall|i: int, k: u64|
                0 <= i < cs2.len() && #[trigger] cs2[i]@.dom().contains(k) implies home_of(
                k,
                a0.lb(),
            ) == i by {
                if i != idx {
                    assert(cs0[i]@.dom().contains(k));
                } else {
                    if k != key {
                        assert(cs0[i]@.dom().contains(k));
                    }
                }
            }
            assert(self@.dom() =~= a0@.dom());
            if self.has_old() {
                assert forall|k: u64|
                    !(#[trigger] self.own_map().dom().contains(k)
                        && self.old_map().dom().contains(k)) by {
                    if k != key {
                        assert(!(a0.own_map().dom().contains(k) && a0.old_map().dom().contains(
                            k,
                        )));
                    }
                }
            }
        }
        r
    }
}


impl<V> Array<V> {
    /// Inserts a batch of fresh, distinct entries, one by one, each into its
    /// home cell.
    #[verifier::loop_isolation(false)]
    fn insert_all(&mut self, entries: Vec<(u64, V)>)
        requires
            old(self).wf(),
            keys_distinct(entries@),
            forall|l: int|
                0 <= l < entries@.len() ==> !old(self)@.dom().contains(
                    (#[trigger] entries@[l]).0,
                ),
            old(self)@.dom().len() + entries@.len() < u32::MAX as int,
        ensures
            final(self).wf(),
            final(self)@ == old(self)@.union_prefer_right(kv_map(entries@)),
            final(self)@.dom().len() == old(self)@.dom().len() + entries@.len(),
            final(self).has_old() == old(self).has_old(),
            final(self).lb() == old(self).lb(),
            final(self).spec_rehashing() == old(self).spec_rehashing(),
            final(self).rehash_remaining() == old(self).rehash_remaining(),
            final(self).old_map() == old(self).old_map(),
            old(self).has_old() ==> final(self).old_arr() == old(self).old_arr(),
    {
        let ghost orig = entries@;
        let ghost v0 = old(self)@;
        let mut entries = entries;
        let mut i: usize = 0;
        while entries.len() > 0
            invariant
                self.wf(),
                i + entries@.len() == orig.len(),
                entries@ =~= orig.skip(i as int),
                self@ == v0.union_prefer_right(kv_map(orig.take(i as int))),
                self@.dom().len() == v0.dom().len() + i,
                self.has_old() == old(self).has_old(),
                self.lb() == old(self).lb(),
                self.spec_rehashing() == old(self).spec_rehashing(),
                self.rehash_remaining() == old(self).rehash_remaining(),
                self.old_map() == old(self).old_map(),
                old(self).has_old() ==> self.old_arr() == old(self).old_arr(),
            decreases entries@.len(),
        {
            let entry = entries.remove(0);
            let key = entry.0;
            let (hash, partial) = crate::hashing::hash_pair(key);
            proof {
                assert(entry == orig[i as int]);
                crate::model::lemma_kv_map_dom(orig.take(i as int));
                assert forall|l: int| 0 <= l < orig.take(i as int).len() implies (
                #[trigger] orig.take(i as int)[l]).0 != key by {
                    assert(orig.take(i as int)[l] == orig[l]);
                }
                assert(!kv_map(orig.take(i as int)).dom().contains(key));
                assert(!v0.dom().contains(key));
                assert(!self@.dom().contains(key));
            }
            self.insert_own(key, entry.1, hash, partial);
            i += 1;
            proof {
                assert(orig.take(i as int) =~= orig.take(i - 1).push(orig[i - 1]));
                crate::model::lemma_kv_map_push(orig.take(i - 1), orig[i - 1].0, orig[i - 1].1);
                assert(self@ =~= v0.union_prefer_right(kv_map(orig.take(i as int))));
                assert(entries@ =~= orig.skip(i as int));
            }
        }
        proof {
            assert(orig.take(i as int) =~= orig);
        }
    }

    /// Migrates one predecessor cell: its entries move to their home cells
    /// in this array and the source cell is killed. The array's map does not
    /// change.
    /// Empties one live predecessor cell and kills it, handing its entries
    /// out; the predecessor then no longer answers for those keys.
    #[verifier::rlimit(100)]
    fn take_old_cell(&mut self, idx: usize) -> (out: Vec<(u64, V)>)
        requires
            old(self).wf(),
            old(self).has_old(),
            idx < old(self).old_arr().cells_seq().len(),
            !old(self).old_arr().cells_seq()[idx as int].is_killed(),
        ensures
            final(self).wf(),
            final(self).has_old(),
            final(self).lb() == old(self).lb(),
            final(self).spec_rehashing() == old(self).spec_rehashing(),
            final(self).old_arr().lb() == old(self).old_arr().lb(),
            final(self).old_arr().cells_seq().len() == old(self).old_arr().cells_seq().len(),
            final(self).old_arr().cells_seq()[idx as int].is_killed(),
            final(self).old_arr().cells_seq()[idx as int]@ == Map::<u64, V>::empty(),
            forall|i: int|
                0 <= i < old(self).old_arr().cells_seq().len()
                    && (#[trigger] old(self).old_arr().cells_seq()[i]).is_killed()
                    ==> final(self).old_arr().cells_seq()[i].is_killed(),
            final(self).own_map() == old(self).own_map(),
            final(self).old_map() == old(self).old_map().remove_keys(
                old(self).old_arr().cells_seq()[idx as int]@.dom(),
            ),
            kv_map(out@) == old(self).old_arr().cells_seq()[idx as int]@,
            keys_distinct(out@),
            forall|l: int|
                0 <= l < out@.len() ==> !final(self)@.dom().contains((#[trigger] out@[l]).0),
            final(self)@.dom().len() + out@.len() == old(self)@.dom().len(),
    {
        proof {
            self.lemma_view();
        }
        let ghost a0 = *self;
        let ghost os0 = a0.old_arr().cells_seq();
        let ghost olb = a0.old_arr().lb();
        let entries = match &mut self.old_array {
            Some(o) => {
                let ghost ocs0 = o.cells@;
                let oc = &mut o.cells[idx];
                let es = oc.take_entries();
                oc.kill_state();
                proof {
                    let m = ocs0.len() as int;
                    let ocs2 = o.cells@;
                    assert(ocs2 =~= ocs0.update(idx as int, ocs2[idx as int]));
                    lemma_cells_map_drop(ocs0, ocs2, olb, idx as int, m);
                    assert forall|i: int, k: u64|
                        0 <= i < ocs2.len() && #[trigger] ocs2[i]@.dom().contains(
                            k,
                        ) implies home_of(k, olb) == i by {
                        assert(ocs0[i]@.dom().contains(k));
                    }
                }
                es
            },
            None => Vec::new(),
        };
        let ghost mid = *self;
        proof {
            let m = os0.len() as int;
            assert(mid.old_map() == a0.old_map().remove_keys(os0[idx as int]@.dom()));
            assert(kv_map(entries@) == os0[idx as int]@);
            crate::model::lemma_kv_map_dom(entries@);
            assert forall|l: int| 0 <= l < entries@.len() implies !mid@.dom().contains(
                (#[trigger] entries@[l]).0,
            ) by {
                let k = entries@[l].0;
                crate::model::lemma_kv_map_index(entries@, l);
                assert(os0[idx as int]@.dom().contains(k));
                lemma_cells_map_at(os0, olb, m, idx as int);
                assert(a0.old_map().dom().contains(k));
                assert(!a0.own_map().dom().contains(k));
                assert(mid.own_map() == a0.own_map());
                assert(!mid.old_map().dom().contains(k));
                mid.lemma_view();
            }
            a0.lemma_view();
            mid.lemma_view();
            os0[idx as int].lemma_view();
            lemma_cells_map_len(os0, olb, m);
            lemma_cells_map_len(mid.old_arr().cells_seq(), olb, m);
            lemma_cells_count_update(os0, mid.old_arr().cells_seq(), idx as int, m);
            assert(mid@.dom().len() + entries@.len() == a0@.dom().len());
        }
        entries
    }

    /// Migrates one predecessor cell: its entries move to their home cells
    /// in this array and the source cell is killed. The array's map does not
    /// change.
    pub fn migrate_index(&mut self, idx: usize)
        requires
            old(self).wf(),
            old(self).has_old(),
            idx < old(self).old_arr().cells_seq().len(),
        ensures
            final(self).wf(),
            final(self)@ == old(self)@,
            final(self).has_old(),
            final(self).lb() == old(self).lb(),
            final(self).spec_rehashing() == old(self).spec_rehashing(),
            final(self).old_arr().lb() == old(self).old_arr().lb(),
            final(self).old_arr().cells_seq().len() == old(self).old_arr().cells_seq().len(),
            final(self).old_arr().cells_seq()[idx as int].is_killed(),
            final(self).old_arr().cells_seq()[idx as int]@ == Map::<u64, V>::empty(),
            forall|i: int|
                0 <= i < old(self).old_arr().cells_seq().len()
                    && (#[trigger] old(self).old_arr().cells_seq()[i]).is_killed()
                    ==> final(self).old_arr().cells_seq()[i].is_killed(),
            forall|k: u64|
                home_of(k, final(self).old_arr().lb()) == idx ==> !(
                #[trigger] final(self).old_map().dom().contains(k)),
    {
        let ghost a0 = *self;
        let already = match &self.old_array {
            Some(o) => o.get_cell(idx).killed(),
            None => true,
        };
        if already {
            proof {
                a0.old_arr().cells_seq()[idx as int].lemma_killed_empty();
                assert forall|k: u64|
                    home_of(k, self.old_arr().lb()) == idx implies !(
                #[trigger] self.old_map().dom().contains(k)) by {
                    Self::lemma_absent_old(*self, k, hash_of(k), idx as int);
                }
            }
            return ;
        }
        let ghost os0 = a0.old_arr().cells_seq();
        let entries = self.take_old_cell(idx);
        let ghost entries_snap = entries@;
        let ghost mid = *self;
        self.insert_all(entries);
        proof {
            Self::lemma_migrate_view(a0, mid, *self, entries_snap, idx as int);
            assert forall|k: u64|
                home_of(k, self.old_arr().lb()) == idx implies !(
            #[trigger] self.old_map().dom().contains(k)) by {
                Self::lemma_absent_old(*self, k, hash_of(k), idx as int);
            }
        }
    }

    /// Putting a migrated cell's entries back into the array restores the
    /// map it held before the migration.
    proof fn lemma_migrate_view(
        a0: Array<V>,
        mid: Array<V>,
        fin: Array<V>,
        entries: Seq<(u64, V)>,
        idx: int,
    )
        requires
            a0.wf(),
            a0.has_old(),
            0 <= idx < a0.old_arr().cells_seq().len(),
            mid.wf(),
            mid.own_map() == a0.own_map(),
            mid.has_old(),
            mid.old_arr().lb() == a0.old_arr().lb(),
            mid.old_map() == a0.old_map().remove_keys(a0.old_arr().cells_seq()[idx]@.dom()),
            kv_map(entries) == a0.old_arr().cells_seq()[idx]@,
            fin@ == mid@.union_prefer_right(kv_map(entries)),
        ensures
            fin@ == a0@,
    {
        let os0 = a0.old_arr().cells_seq();
        let olb = a0.old_arr().lb();
        a0.lemma_view();
        mid.lemma_view();
        assert forall|k: u64| fin@.dom().contains(k) <==> a0@.dom().contains(k) by {
            if kv_map(entries).dom().contains(k) {
                lemma_cells_map_at(os0, olb, os0.len() as int, idx);
            }
        }
        assert forall|k: u64| #[trigger] a0@.dom().contains(k) implies fin@[k] == a0@[k] by {
            if kv_map(entries).dom().contains(k) {
                lemma_cells_map_at(os0, olb, os0.len() as int, idx);
                assert(a0@[k] == os0[idx]@[k]);
            } else {
                assert(mid@.dom().contains(k));
            }
        }
        assert(fin@ =~= a0@);
    }

    /// The predecessor's cell index a hash routes to.
    pub fn old_index_of(&self, hash: u64) -> (index: usize)
        requires
            self.wf(),
            self.has_old(),
        ensures
            index == spec_cell_index(hash, self.old_arr().lb()),
            index < self.old_arr().cells_seq().len(),
    {
        match &self.old_array {
            Some(o) => o.calculate_metadata_array_index(hash),
            None => vstd::pervasive::unreached(),
        }
    }

    /// One incremental rehash step: migrates up to `REHASH_BATCH` source
    /// cells in cursor order and detaches the predecessor once every source
    /// cell has been migrated. The array's map does not change.
    #[verifier::loop_isolation(false)]
    pub fn partial_rehash(&mut self)
        requires
            old(self).wf(),
        ensures
            final(self).wf(),
            final(self)@ == old(self)@,
            final(self).lb() == old(self).lb(),
            old(self).has_old() ==> final(self).rehash_remaining() < old(
                self,
            ).rehash_remaining(),
            !old(self).has_old() ==> *final(self) == *old(self),
    {
        if !self.old_array.is_some() {
            return ;
        }
        let mut steps: usize = 0;
        let ghost v0 = old(self)@;
        let ghost r0 = old(self).rehash_remaining();
        while steps < REHASH_BATCH && self.old_array.is_some()
            invariant
                self.wf(),
                self@ == v0,
                self.lb() == old(self).lb(),
                steps == 0 ==> self.rehash_remaining() == r0,
                steps > 0 ==> self.rehash_remaining() < r0,
                steps <= REHASH_BATCH,
            decreases REHASH_BATCH - steps,
        {
            let olen = match &self.old_array {
                Some(o) => o.num_cells(),
                None => 0,
            };
            let cursor = self.rehashing;
            if cursor >= olen {
                proof {
                    let os = self.old_arr().cells_seq();
                    assert forall|i: int| 0 <= i < os.len() implies (#[trigger] os[i])@ == Map::<
                        u64,
                        V,
                    >::empty() by {
                        os[i].lemma_killed_empty();
                    }
                    lemma_cells_map_empty::<V>(os, os.len() as int);
                    assert(self.old_map() =~= Map::<u64, V>::empty());
                    assert(self@ =~= self.own_map());
                }
                let ghost before = *self;
                self.old_array = None;
                self.rehashing = 0;
                proof {
                    assert(self.own_map() == before.own_map());
                    assert(self@ =~= self.own_map());
                    assert(self@ =~= v0);
                    before.lemma_view();
                    assert(self@.dom().finite() && self@.dom().len() < u32::MAX as int);
                }
            } else {
                self.migrate_index(cursor);
                let ghost before = *self;
                self.rehashing = cursor + 1;
                proof {
                    assert(self.own_map() == before.own_map());
                    assert(self.old_map() == before.old_map());
                    assert(self@ =~= before@);
                    assert forall|i: int| 0 <= i < self.rehashing implies (
                    #[trigger] self.old_arr().cells_seq()[i]).is_killed() by {
                        if i < cursor {
                            assert(before.old_arr().cells_seq()[i].is_killed());
                        }
                    }
                }
            }
            steps += 1;
        }
    }

    /// Drives the incremental rehash to completion.
    #[verifier::loop_isolation(false)]
    pub fn complete_rehash(&mut self)
        requires
            old(self).wf(),
        ensures
            final(self).wf(),
            final(self)@ == old(self)@,
            final(self).lb() == old(self).lb(),
            !final(self).has_old(),
            !old(self).has_old() ==> *final(self) == *old(self),
    {
        while self.old_array.is_some()
            invariant
                self.wf(),
                self@ == old(self)@,
                self.lb() == old(self).lb(),
                !old(self).has_old() ==> *self == *old(self),
            decreases self.rehash_remaining(),
        {
            self.partial_rehash();
        }
    }

    /// Empties the whole array and hands every entry out; used by the full
    /// sweeps. The keys of the returned entries are distinct.
    #[verifier::loop_isolation(false)]
    pub fn take_all(&mut self) -> (out: Vec<(u64, V)>)
        requires
            old(self).wf(),
        ensures
            final(self).wf(),
            final(self)@ == Map::<u64, V>::empty(),
            !final(self).has_old(),
            final(self).lb() == old(self).lb(),
            keys_distinct(out@),
            kv_map(out@) == old(self)@,
            out@.len() == old(self)@.dom().len(),
            forall|l: int|
                0 <= l < out@.len() ==> old(self)@.dom().contains((#[trigger] out@[l]).0)
                    && old(self)@[out@[l].0] == out@[l].1,
    {
        self.complete_rehash();
        let ghost v0 = old(self)@;
        let ghost cs0 = self.cells@;
        let ghost lb = self.lb();
        let n = self.cells.len();
        let mut out: Vec<(u64, V)> = Vec::new();
        let mut i: usize = 0;
        proof {
            lemma_cells_map_len(cs0, lb, cs0.len() as int);
        }
        while i < n
            invariant
                n == self.cells_seq().len(),
                i <= n,
                self.wf_cells(),
                !self.has_old(),
                self.spec_rehashing() == 0,
                self.lb() == lb,
                self.cells_seq().len() == cs0.len(),
                forall|j: int|
                    0 <= j < i ==> (#[trigger] self.cells_seq()[j])@ == Map::<u64, V>::empty()
                        && !self.cells_seq()[j].is_killed(),
                forall|j: int|
                    i as int <= j && j < n as int ==> #[trigger] self.cells_seq()[j] == cs0[j],
                kv_map(out@) == cells_map(cs0, i as int),
                out@.len() == cells_count(cs0, i as int),
                keys_distinct(out@),
                forall|l: int|
                    0 <= l < out@.len() ==> exists|ci: int|
                        0 <= ci < i && cs0[ci]@.dom().contains((#[trigger] out@[l]).0),
            decreases n - i,
        {
            let ghost out0 = out@;
            let ghost csb = self.cells@;
            let ghost c_i = self.cells@[i as int];
            proof {
                assert(c_i == cs0[i as int]);
                c_i.lemma_view();
            }
            let c = &mut self.cells[i];
            let mut taken = c.take_entries();
            let ghost taken0 = taken@;
            out.append(&mut taken);
            proof {
                let cs2 = self.cells@;
                assert(cs2 =~= csb.update(i as int, cs2[i as int]));
                assert(out@ =~= out0 + taken0);
                crate::model::lemma_kv_map_concat(out0, taken0);
                assert(kv_map(taken0) == c_i@);
                assert(kv_map(out0) == cells_map(cs0, i as int));
                assert(cells_map(cs0, i + 1) == cells_map(cs0, i as int).union_prefer_right(
                    cs0[i as int]@,
                ));
                assert(kv_map(out@) =~= cells_map(cs0, i + 1));
                assert forall|a: int, b: int| 0 <= a < b < out@.len() implies (
                #[trigger] out@[a]).0 != (#[trigger] out@[b]).0 by {
                    if b < out0.len() {
                        assert(out@[a] == out0[a] && out@[b] == out0[b]);
                    } else if a >= out0.len() {
                        assert(out@[a] == taken0[a - out0.len()]);
                        assert(out@[b] == taken0[b - out0.len()]);
                    } else {
                        assert(out@[a] == out0[a]);
                        assert(out@[b] == taken0[b - out0.len()]);
                        let ci = choose|ci: int|
                            0 <= ci < i && cs0[ci]@.dom().contains((#[trigger] out0[a]).0);
                        assert(cs0[ci]@.dom().contains(out@[a].0));
                        assert(home_of(out@[a].0, lb) == ci);
                        crate::model::lemma_kv_map_index(taken0, b - out0.len());
                        assert(c_i@.dom().contains(out@[b].0));
                        assert(home_of(out@[b].0, lb) == i);
                    }
                }
                assert forall|l: int| 0 <= l < out@.len() implies exists|ci: int|
                    0 <= ci < i + 1 && cs0[ci]@.dom().contains((#[trigger] out@[l]).0) by {
                    if l < out0.len() {
                        let ci = choose|ci: int|
                            0 <= ci < i && cs0[ci]@.dom().contains((#[trigger] out0[l]).0);
                        assert(cs0[ci]@.dom().contains(out@[l].0));
                    } else {
                        crate::model::lemma_kv_map_index(taken0, l - out0.len());
                        assert(cs0[i as int]@.dom().contains(out@[l].0));
                    }
                }
                assert forall|j: int|
                    i as int + 1 <= j && j < n as int implies #[trigger] self.cells_seq()[j]
                    == cs0[j] by {
                    assert(self.cells_seq()[j] == cs0[j]);
                }
            }
            i += 1;
        }
        proof {
            let cs2 = self.cells_seq();
            assert forall|j: int| 0 <= j < cs2.len() implies (#[trigger] cs2[j])@ == Map::<
                u64,
                V,
            >::empty() by {}
            lemma_cells_map_empty::<V>(cs2, cs2.len() as int);
            assert(self.own_map() =~= Map::<u64, V>::empty());
            assert(self@ =~= Map::<u64, V>::empty());
            assert(kv_map(out@) == v0);
            crate::model::lemma_kv_map_len(out@);
            assert forall|l: int| 0 <= l < out@.len() implies v0.dom().contains(
                (#[trigger] out@[l]).0,
            ) && v0[out@[l].0] == out@[l].1 by {
                crate::model::lemma_kv_map_index(out@, l);
            }
        }
        out
    }
}


impl<V> Array<V> {
    /// Counts the entries the array holds, predecessor included: one scan
    /// over every cell.
    #[verifier::loop_isolation(false)]
    pub fn count_entries(&self) -> (n: usize)
        requires
            self.wf(),
        ensures
            n == self@.dom().len(),
    {
        proof {
            self.lemma_view();
            lemma_cells_map_len(self.cells_seq(), self.lb(), self.cells_seq().len() as int);
            if self.has_old() {
                lemma_cells_map_len(
                    self.old_arr().cells_seq(),
                    self.old_arr().lb(),
                    self.old_arr().cells_seq().len() as int,
                );
            }
        }
        let mut acc: usize = 0;
        let mut i: usize = 0;
        let num = self.cells.len();
        while i < num
            invariant
                i <= num,
                num == self.cells_seq().len(),
                acc == cells_count(self.cells_seq(), i as int),
                acc <= self@.dom().len(),
            decreases num - i,
        {
            proof {
                lemma_cells_count_mono(self.cells_seq(), i + 1, num as int);
                lemma_cells_count_mono(self.cells_seq(), 0, i as int);
                if self.has_old() {
                    lemma_cells_map_len(
                        self.old_arr().cells_seq(),
                        self.old_arr().lb(),
                        self.old_arr().cells_seq().len() as int,
                    );
                }
            }
            acc = acc + self.cells[i].occupancy();
            i += 1;
        }
        match &self.old_array {
            Some(o) => {
                let ghost own_total = acc as int;
                let onum = o.cells.len();
                proof {
                    lemma_cells_map_len(o.cells_seq(), o.lb_capacity, onum as int);
                }
                let mut l: usize = 0;
                while l < onum
                    invariant
                        l <= onum,
                        self.has_old(),
                        onum == self.old_arr().cells_seq().len(),
                        *o == self.old_arr(),
                        acc == own_total + cells_count(self.old_arr().cells_seq(), l as int),
                        acc <= self@.dom().len(),
                    decreases onum - l,
                {
                    proof {
                        lemma_cells_count_mono(self.old_arr().cells_seq(), l + 1, onum as int);
                        lemma_cells_count_mono(self.old_arr().cells_seq(), 0, l as int);
                    }
                    acc = acc + o.cells[l].occupancy();
                    l += 1;
                }
                acc
            },
            None => acc,
        }
    }

    /// Sums the occupancy of the sampled cells: the first
    /// `min(REHASH_BATCH, cells)` of them, the load estimate a resize is
    /// based on.
    #[verifier::loop_isolation(false)]
    pub fn sample_count(&self) -> (n: usize)
        requires
            self.wf(),
        ensures
            n == cells_count(
                self.cells_seq(),
                if self.cells_seq().len() < REHASH_BATCH {
                    self.cells_seq().len() as int
                } else {
                    REHASH_BATCH as int
                },
            ),
    {
        proof {
            self.lemma_view();
            lemma_cells_map_len(self.cells_seq(), self.lb(), self.cells_seq().len() as int);
            if self.has_old() {
                lemma_cells_map_len(
                    self.old_arr().cells_seq(),
                    self.old_arr().lb(),
                    self.old_arr().cells_seq().len() as int,
                );
            }
        }
        let num = self.cells.len();
        let sample = if num < REHASH_BATCH {
            num
        } else {
            REHASH_BATCH
        };
        let mut acc: usize = 0;
        let mut i: usize = 0;
        while i < sample
            invariant
                i <= sample,
                sample <= self.cells_seq().len(),
                acc == cells_count(self.cells_seq(), i as int),
                acc <= self@.dom().len(),
            decreases sample - i,
        {
            proof {
                lemma_cells_count_mono(self.cells_seq(), i + 1, self.cells_seq().len() as int);
                lemma_cells_count_mono(self.cells_seq(), 0, i as int);
            }
            acc = acc + self.cells[i].occupancy();
            i += 1;
        }
        acc
    }
}


impl<V> Array<V> {
    /// At any instant a key is present in at most one cell across the
    /// current array and its predecessor: two own cells never share a key,
    /// two predecessor cells never share a key, and no key is in an own
    /// cell and a predecessor cell at once.
    pub proof fn lemma_key_in_at_most_one_cell(self, k: u64)
        requires
            self.wf(),
        ensures
            forall|i: int, j: int|
                0 <= i < self.cells_seq().len() && 0 <= j < self.cells_seq().len() && (
                #[trigger] self.cells_seq()[i])@.dom().contains(k) && (
                #[trigger] self.cells_seq()[j])@.dom().contains(k) ==> i == j,
            self.has_old() ==> forall|i: int, j: int|
                0 <= i < self.old_arr().cells_seq().len() && 0 <= j
                    < self.old_arr().cells_seq().len() && (
                #[trigger] self.old_arr().cells_seq()[i])@.dom().contains(k) && (
                #[trigger] self.old_arr().cells_seq()[j])@.dom().contains(k) ==> i == j,
            self.has_old() ==> forall|i: int, j: int|
                0 <= i < self.cells_seq().len() && 0 <= j < self.old_arr().cells_seq().len()
                    ==> !((#[trigger] self.cells_seq()[i])@.dom().contains(k) && (
                #[trigger] self.old_arr().cells_seq()[j])@.dom().contains(k)),
    {
        let cs = self.cells_seq();
        let n = cs.len() as int;
        assert forall|i: int, j: int|
            0 <= i < cs.len() && 0 <= j < cs.len() && (#[trigger] cs[i])@.dom().contains(k) && (
            #[trigger] cs[j])@.dom().contains(k) implies i == j by {
            assert(home_of(k, self.lb()) == i);
            assert(home_of(k, self.lb()) == j);
        }
        if self.has_old() {
            let os = self.old_arr().cells_seq();
            let m = os.len() as int;
            assert forall|i: int, j: int|
                0 <= i < os.len() && 0 <= j < os.len() && (#[trigger] os[i])@.dom().contains(k)
                    && (#[trigger] os[j])@.dom().contains(k) implies i == j by {
                assert(home_of(k, self.old_arr().lb()) == i);
                assert(home_of(k, self.old_arr().lb()) == j);
            }
            assert forall|i: int, j: int|
                0 <= i < cs.len() && 0 <= j < os.len() implies !((
            #[trigger] cs[i])@.dom().contains(k) && (#[trigger] os[j])@.dom().contains(k)) by {
                if cs[i]@.dom().contains(k) && os[j]@.dom().contains(k) {
                    lemma_cells_map_at(cs, self.lb(), n, i);
                    lemma_cells_map_at(os, self.old_arr().lb(), m, j);
                    assert(self.own_map().dom().contains(k));
                    assert(self.old_map().dom().contains(k));
                }
            }
        }
    }
}

} // verus!
