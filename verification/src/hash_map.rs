//! The hash map: routes each key to a cell by the top bits of its hash,
//! drives the incremental rehash on every mutating access, and applies the
//! resize policy based on sampled load and explicit capacity reservations.
//!
//! The map's abstract value is a `Map<u64, V>`; every operation's contract
//! is stated against it.

use crate::cell::ARRAY_SIZE;
use crate::cell_array::{cells_count, lemma_cells_count_mono, lemma_cells_map_len};
use crate::cell_array::{spec_adjusted_capacity, spec_sized_for, Array, REHASH_BATCH};
use crate::hashing::{hash_of, hash_pair};
use vstd::arithmetic::power2::pow2;
use vstd::prelude::*;

verus! {

/// The default capacity: what `default()` builds and the floor `new`
/// enforces.
pub const DEFAULT_CAPACITY: usize = 64;

/// The capacity a resize decision requests: twice the entry count, clamped
/// to the address space, or the demanded floor where that is larger.
pub open spec fn spec_resize_request(entries: int, demand: int) -> int {
    let doubled = if 2 * entries > usize::MAX as int {
        usize::MAX as int
    } else {
        2 * entries
    };
    if doubled > demand {
        doubled
    } else {
        demand
    }
}

/// What the resize policy does, as a relation between the load sampled
/// before the decision, the capacity and entry count at that moment, the
/// demanded floor, and the capacity afterwards: grow when the sample
/// reaches a quarter of the sampled slots or the floor demands more;
/// shrink when the sample is at most half a cell's worth while the
/// capacity exceeds both the floor and the default; otherwise leave the
/// array alone. On a resize, the new capacity is exactly the smallest
/// power-of-two cell count covering the request.
pub open spec fn spec_resize_outcome(
    sampled: int,
    sample_size: int,
    cap: int,
    entries: int,
    demand: int,
    new_cap: int,
) -> bool {
    if sampled >= sample_size * 8 || cap < demand {
        spec_sized_for(new_cap, spec_resize_request(entries, demand))
    } else if 2 * sampled <= sample_size && cap > demand && cap > DEFAULT_CAPACITY as int {
        spec_sized_for(new_cap, spec_resize_request(entries, demand))
    } else {
        new_cap == cap
    }
}

/// A scalable hash map from 64-bit keys to values.
///
/// A single array of cells backs the map; it grows and shrinks by publishing
/// a successor array and migrating cells incrementally.
pub struct HashMap<V> {
    /// The current cell array; its predecessor, during a rehash, hangs off
    /// it.
    array: Array<V>,
    /// The construction-time capacity floor.
    minimum_capacity: usize,
    /// The sum of the live reservation tickets.
    additional_capacity: usize,
    /// The single-byte mutex that admits one resize actor at a time.
    resize_mutex: u8,
}

/// A reservation: it keeps the map's minimum capacity raised until it is
/// handed back through `HashMap::release`.
pub struct Ticket {
    /// By how much the reservation raised the minimum capacity.
    increment: usize,
}

impl Ticket {
    /// By how much this reservation raised the minimum capacity.
    pub closed spec fn spec_increment(self) -> int {
        self.increment as int
    }

    /// By how much this reservation raised the minimum capacity.
    pub fn increment(&self) -> (n: usize)
        ensures
            n == self.spec_increment(),
    {
        self.increment
    }
}

impl<V> View for HashMap<V> {
    type V = Map<u64, V>;

    /// The key-value pairs the map holds.
    closed spec fn view(&self) -> Map<u64, V> {
        self.array@
    }
}

impl<V> HashMap<V> {
    /// Well-formedness: the backing array is well formed, the capacity
    /// bookkeeping cannot overflow, and the resize mutex is free.
    pub closed spec fn wf(self) -> bool {
        &&& self.array.wf()
        &&& self.minimum_capacity >= DEFAULT_CAPACITY
        &&& self.minimum_capacity + self.additional_capacity <= usize::MAX
        &&& self.resize_mutex == 0
    }

    /// The number of entry slots the current array provides.
    pub closed spec fn spec_capacity(self) -> int {
        self.array.spec_capacity()
    }

    /// The construction-time capacity floor.
    pub closed spec fn spec_minimum_capacity(self) -> int {
        self.minimum_capacity as int
    }

    /// The sum of the live reservation tickets.
    pub closed spec fn spec_additional_capacity(self) -> int {
        self.additional_capacity as int
    }

    /// How many cells a resize samples: the first `min(16, cells)` of them.
    pub closed spec fn spec_sample_size(self) -> int {
        if self.array.cells_seq().len() < REHASH_BATCH {
            self.array.cells_seq().len() as int
        } else {
            REHASH_BATCH as int
        }
    }

    /// The summed occupancy of the sampled cells: the load estimate a
    /// resize decision is based on.
    pub closed spec fn spec_sampled(self) -> int {
        cells_count(self.array.cells_seq(), self.spec_sample_size())
    }

    /// An incremental rehash of a predecessor array is still pending.
    pub closed spec fn spec_rehash_pending(self) -> bool {
        self.array.has_old()
    }

    /// A well-formed map's domain is finite and below the entry ceiling —
    /// the facts the map-level laws ask of a view.
    pub proof fn lemma_view_finite(self)
        requires
            self.wf(),
        ensures
            self@.dom().finite(),
            self@.dom().len() < u32::MAX as int,
    {
        self.array.lemma_wf();
    }

    /// An empty map with at least the given capacity (and at least the
    /// default capacity), rounded up to a power-of-two cell count.
    pub fn new(capacity: usize) -> (m: HashMap<V>)
        ensures
            m.wf(),
            m@ == Map::<u64, V>::empty(),
            m.spec_capacity() >= spec_adjusted_capacity(
                if capacity >= DEFAULT_CAPACITY {
                    capacity
                } else {
                    DEFAULT_CAPACITY
                },
            ),
            m.spec_minimum_capacity() == m.spec_capacity(),
            m.spec_additional_capacity() == 0,
            capacity <= DEFAULT_CAPACITY ==> m.spec_capacity() == DEFAULT_CAPACITY as int,
            spec_sized_for(
                m.spec_capacity(),
                if capacity >= DEFAULT_CAPACITY {
                    capacity as int
                } else {
                    DEFAULT_CAPACITY as int
                },
            ),
            !m.spec_rehash_pending(),
    {
        let initial_capacity = if capacity >= DEFAULT_CAPACITY {
            capacity
        } else {
            DEFAULT_CAPACITY
        };
        let array = Array::new(initial_capacity, None);
        proof {
            array.lemma_wf();
        }
        let current_capacity = array.num_entries();
        proof {
            vstd::arithmetic::power2::lemma_pow2_pos(array.lb() as nat);
            assert(array.spec_capacity() >= 64) by (nonlinear_arith)
                requires
                    array.spec_capacity() == pow2(array.lb() as nat) * 32,
                    pow2(array.lb() as nat) >= 2,
            ;
            assert(pow2(array.lb() as nat) >= 2) by {
                vstd::arithmetic::power2::lemma2_to64();
                if array.lb() > 1 {
                    vstd::arithmetic::power2::lemma_pow2_strictly_increases(
                        1,
                        array.lb() as nat,
                    );
                }
            }
        }
        proof {
            if capacity <= DEFAULT_CAPACITY {
                vstd::arithmetic::power2::lemma2_to64();
                let lb = array.lb();
                if lb > 1 {
                    assert(pow2((lb - 1) as nat) * 32 < 64);
                    assert(pow2((lb - 1) as nat) >= 2) by {
                        vstd::arithmetic::power2::lemma_pow2_strictly_increases(
                            0,
                            (lb - 1) as nat,
                        );
                    }
                }
                assert(lb == 1);
            }
        }
        HashMap {
            array,
            minimum_capacity: current_capacity,
            additional_capacity: 0,
            resize_mutex: 0,
        }
    }

    /// The number of entries the map holds; a scan over every cell.
    pub fn len(&self) -> (n: usize)
        requires
            self.wf(),
        ensures
            n == self@.dom().len(),
    {
        self.array.count_entries()
    }

    /// Whether the map holds no entry.
    pub fn is_empty(&self) -> (b: bool)
        requires
            self.wf(),
        ensures
            b == (self@.dom().len() == 0),
    {
        self.len() == 0
    }

    /// The number of entry slots of the current array.
    pub fn capacity(&self) -> (n: usize)
        requires
            self.wf(),
        ensures
            n == self.spec_capacity(),
    {
        proof {
            self.array.lemma_wf();
        }
        self.array.num_entries()
    }

    /// Whether the key is present.
    pub fn contains(&self, key: u64) -> (b: bool)
        requires
            self.wf(),
        ensures
            b == self@.dom().contains(key),
    {
        let (hash, partial) = hash_pair(key);
        self.array.read_entry(key, hash, partial).is_some()
    }

    /// Reads the entry under `key` with the supplied reader and hands its
    /// result out, or `None` if the key is absent.
    pub fn read<R, F: Fn(&u64, &V) -> R>(&self, key: u64, reader: F) -> (r: Option<R>)
        requires
            self.wf(),
            self@.dom().contains(key) ==> call_requires(reader, (&key, &self@[key])),
        ensures
            match r {
                Some(res) => self@.dom().contains(key) && call_ensures(
                    reader,
                    (&key, &self@[key]),
                    res,
                ),
                None => !self@.dom().contains(key),
            },
    {
        self.read_with(key, reader)
    }

    /// Reads the entry under `key`. In a concurrent deployment this is the
    /// variant whose borrow outlives the call under a caller-supplied
    /// barrier; with the whole map behind one borrow the two variants
    /// coincide, and `read` forwards here.
    pub fn read_with<R, F: Fn(&u64, &V) -> R>(&self, key: u64, reader: F) -> (r: Option<R>)
        requires
            self.wf(),
            self@.dom().contains(key) ==> call_requires(reader, (&key, &self@[key])),
        ensures
            match r {
                Some(res) => self@.dom().contains(key) && call_ensures(
                    reader,
                    (&key, &self@[key]),
                    res,
                ),
                None => !self@.dom().contains(key),
            },
    {
        let (hash, partial) = hash_pair(key);
        match self.array.read_entry(key, hash, partial) {
            Some(v) => {
                let res = reader(&key, v);
                proof {
                    assert(*v == self@[key]);
                    assert(call_ensures(reader, (&key, v), res));
                }
                Some(res)
            },
            None => None,
        }
    }

    /// Makes sure the key cannot still live in the predecessor array:
    /// drives one incremental rehash step, then migrates the key's source
    /// cell if a predecessor remains.
    fn settle_key(&mut self, hash: u64)
        requires
            old(self).wf(),
        ensures
            final(self).wf(),
            final(self)@ == old(self)@,
            final(self).spec_capacity() == old(self).spec_capacity(),
            final(self).spec_minimum_capacity() == old(self).spec_minimum_capacity(),
            final(self).spec_additional_capacity() == old(self).spec_additional_capacity(),
            forall|k: u64|
                hash_of(k) == hash ==> !(#[trigger] final(self).array.old_map().dom().contains(
                    k,
                )),
    {
        self.array.partial_rehash();
        if self.array.get_old_array().is_some() {
            let oidx = self.array.old_index_of(hash);
            self.array.migrate_index(oidx);
        }
    }

    /// Inserts the pair; an existing key refuses the insert and hands the
    /// pair back.
    ///
    /// The entry-count bound below renders the design's fatal condition —
    /// a cell's occupancy reaching `u32::MAX` — at the map level: cells are
    /// hidden from callers, so the one statable bound caps the whole map at
    /// the ceiling well-formedness carries, which every cell's occupancy is
    /// below.
    pub fn insert(&mut self, key: u64, val: V) -> (r: Result<(), (u64, V)>)
        requires
            old(self).wf(),
            old(self)@.dom().len() + 1 < u32::MAX as int,
        ensures
            final(self).wf(),
            match r {
                Ok(()) => !old(self)@.dom().contains(key) && final(self)@ == old(self)@.insert(
                    key,
                    val,
                ) && final(self)@.dom().len() == old(self)@.dom().len() + 1,
                Err(pair) => old(self)@.dom().contains(key) && pair == (key, val) && final(self)@
                    == old(self)@,
            },
    {
        let (hash, partial) = hash_pair(key);
        self.settle_key(hash);
        let present = self.array.read_entry(key, hash, partial).is_some();
        if present {
            return Err((key, val));
        }
        self.array.insert_own(key, val, hash, partial);
        proof {
            self.array.lemma_wf();
        }
        let idx = self.array.calculate_metadata_array_index(hash);
        let heavy = self.array.get_cell(idx).occupancy() > ARRAY_SIZE;
        if heavy {
            self.resize();
        }
        Ok(())
    }

    /// Removes the key, handing the stored entry back.
    pub fn remove(&mut self, key: u64) -> (r: Option<(u64, V)>)
        requires
            old(self).wf(),
        ensures
            final(self).wf(),
            match r {
                Some(pair) => old(self)@.dom().contains(key) && pair.0 == key && pair.1 == old(self)@[key] && final(self)@ == old(self)@.remove(key),
                None => !old(self)@.dom().contains(key) && final(self)@ == old(self)@,
            },
    {
        let (hash, partial) = hash_pair(key);
        self.settle_key(hash);
        self.array.remove_own(key, hash, partial)
    }

    /// Removes the key if the stored value satisfies the condition.
    pub fn remove_if<F: Fn(&V) -> bool>(&mut self, key: u64, condition: F) -> (r: Option<
        (u64, V),
    >)
        requires
            old(self).wf(),
            old(self)@.dom().contains(key) ==> call_requires(
                condition,
                (&old(self)@[key],),
            ),
        ensures
            final(self).wf(),
            match r {
                Some(pair) => {
                    &&& old(self)@.dom().contains(key)
                    &&& pair.0 == key
                    &&& pair.1 == old(self)@[key]
                    &&& final(self)@ == old(self)@.remove(key)
                    &&& call_ensures(condition, (&old(self)@[key],), true)
                },
                None => {
                    &&& final(self)@ == old(self)@
                    &&& (!old(self)@.dom().contains(key) || call_ensures(
                        condition,
                        (&old(self)@[key],),
                        false,
                    ))
                },
            },
    {
        let (hash, partial) = hash_pair(key);
        self.settle_key(hash);
        let verdict = match self.array.read_entry(key, hash, partial) {
            Some(v) => Some(condition(v)),
            None => None,
        };
        match verdict {
            Some(true) => self.array.remove_own(key, hash, partial),
            Some(false) => None,
            None => None,
        }
    }

    /// Applies the updater to the stored entry: the updater hands back the
    /// value to store and a result, and the result comes out; `None` if the
    /// key is absent.
    pub fn update<R, F: Fn(&u64, &V) -> (V, R)>(&mut self, key: u64, updater: F) -> (r: Option<
        R,
    >)
        requires
            old(self).wf(),
            old(self)@.dom().contains(key) ==> call_requires(
                updater,
                (&key, &old(self)@[key]),
            ),
        ensures
            final(self).wf(),
            r is Some <==> old(self)@.dom().contains(key),
            r is Some ==> final(self)@ == old(self)@.insert(key, final(self)@[key])
                && call_ensures(
                updater,
                (&key, &old(self)@[key]),
                (final(self)@[key], r->Some_0),
            ),
            r is None ==> final(self)@ == old(self)@,
    {
        let (hash, partial) = hash_pair(key);
        self.settle_key(hash);
        let next = match self.array.read_entry(key, hash, partial) {
            Some(v) => Some(updater(&key, v)),
            None => None,
        };
        match next {
            Some(pair) => {
                let ghost stored = pair.0;
                let (nv, res) = pair;
                self.array.replace_own(key, hash, partial, nv);
                proof {
                    assert(call_ensures(updater, (&key, &old(self)@[key]), (stored, res)));
                    assert(self@ == old(self)@.insert(key, stored));
                    assert(self@[key] == stored);
                }
                Some(res)
            },
            None => None,
        }
    }

    /// Stores the constructor's value under an absent key, or applies the
    /// updater to the present value and stores its result. The entry-count
    /// bound renders the design's per-cell fatal condition, as on `insert`.
    pub fn upsert<FI: Fn() -> V, FU: Fn(&u64, &V) -> V>(
        &mut self,
        key: u64,
        constructor: FI,
        updater: FU,
    )
        requires
            old(self).wf(),
            old(self)@.dom().len() + 1 < u32::MAX as int,
            call_requires(constructor, ()),
            old(self)@.dom().contains(key) ==> call_requires(
                updater,
                (&key, &old(self)@[key]),
            ),
        ensures
            final(self).wf(),
            old(self)@.dom().contains(key) ==> exists|nv: V|
                final(self)@ == old(self)@.insert(key, nv) && #[trigger] call_ensures(
                    updater,
                    (&key, &old(self)@[key]),
                    nv,
                ),
            !old(self)@.dom().contains(key) ==> exists|nv: V|
                final(self)@ == old(self)@.insert(key, nv) && #[trigger] call_ensures(
                    constructor,
                    (),
                    nv,
                ),
    {
        let (hash, partial) = hash_pair(key);
        self.settle_key(hash);
        let next = match self.array.read_entry(key, hash, partial) {
            Some(v) => Some(updater(&key, v)),
            None => None,
        };
        match next {
            Some(nv) => {
                self.array.replace_own(key, hash, partial, nv);
            },
            None => {
                self.array.insert_own(key, constructor(), hash, partial);
            },
        }
    }
}

impl<V> HashMap<V> {
    /// Applies the resize policy: completes any pending rehash, samples the
    /// first cells to estimate the load, grows when the estimate or a
    /// reservation demands it, shrinks when the load is far below the
    /// capacity floor, and otherwise leaves the array alone. The map's
    /// entries never change.
    pub fn resize(&mut self)
        requires
            old(self).wf(),
        ensures
            final(self).wf(),
            final(self)@ == old(self)@,
            final(self).spec_minimum_capacity() == old(self).spec_minimum_capacity(),
            final(self).spec_additional_capacity() == old(self).spec_additional_capacity(),
            final(self).spec_capacity() >= spec_adjusted_capacity(
                (old(self).spec_minimum_capacity() + old(self).spec_additional_capacity()) as usize,
            ),
            !old(self).spec_rehash_pending() ==> spec_resize_outcome(
                old(self).spec_sampled(),
                old(self).spec_sample_size(),
                old(self).spec_capacity(),
                old(self)@.dom().len() as int,
                old(self).spec_minimum_capacity() + old(self).spec_additional_capacity(),
                final(self).spec_capacity(),
            ),
    {
        if self.resize_mutex != 0 {
            return ;
        }
        self.resize_mutex = 1;
        self.array.complete_rehash();
        proof {
            self.array.lemma_wf();
            if !old(self).spec_rehash_pending() {
                assert(self.array == old(self).array);
            }
        }
        let capacity = self.array.num_entries();
        let num_cells = self.array.num_cells();
        let sampled = self.array.sample_count();
        let sample_size = if num_cells < REHASH_BATCH {
            num_cells
        } else {
            REHASH_BATCH
        };
        let ghost v0 = self.array@;
        let demand = self.minimum_capacity + self.additional_capacity;
        proof {
            assert(sample_size <= 16);
        }
        let threshold = sample_size * 8;
        let grow = sampled >= threshold || capacity < demand;
        let shrink = !grow && sampled <= sample_size / 2 && capacity > demand && capacity
            > DEFAULT_CAPACITY;
        proof {
            assert((sampled <= sample_size / 2) == (2 * sampled <= sample_size));
            if !old(self).spec_rehash_pending() {
                assert(sampled == old(self).spec_sampled());
                assert(sample_size == old(self).spec_sample_size());
                assert(capacity == old(self).spec_capacity());
            }
        }
        if grow || shrink {
            proof {
                self.array.lemma_view();
            }
            let entries = self.array.count_entries();
            let doubled: u128 = (entries as u128) * 2;
            let wanted: usize = if doubled > (usize::MAX as u128) {
                usize::MAX
            } else {
                doubled as usize
            };
            let request = if wanted > demand {
                wanted
            } else {
                demand
            };
            let mut current = Array::new(DEFAULT_CAPACITY, None);
            core::mem::swap(&mut self.array, &mut current);
            self.array = Array::new(request, Some(Box::new(current)));
            proof {
                assert(self.array@ =~= v0);
                assert(spec_adjusted_capacity(request) >= spec_adjusted_capacity(demand));
                assert(request as int == spec_resize_request(entries as int, demand as int)) by {
                    assert(doubled == (entries as int) * 2);
                }
                assert(spec_sized_for(self.spec_capacity(), request as int));
            }
        }
        self.resize_mutex = 0;
    }

    /// Raises the minimum capacity by `capacity` for the lifetime of the
    /// returned ticket; refuses a reservation that would overflow the
    /// bookkeeping.
    pub fn reserve(&mut self, capacity: usize) -> (r: Option<Ticket>)
        requires
            old(self).wf(),
        ensures
            final(self).wf(),
            final(self)@ == old(self)@,
            final(self).spec_minimum_capacity() == old(self).spec_minimum_capacity(),
            match r {
                Some(ticket) => {
                    &&& old(self).spec_minimum_capacity() + old(self).spec_additional_capacity() + capacity <= usize::MAX as int
                    &&& ticket.spec_increment() == capacity
                    &&& final(self).spec_additional_capacity() == old(self).spec_additional_capacity() + capacity
                    &&& final(self).spec_capacity() >= spec_adjusted_capacity(
                        (final(self).spec_minimum_capacity() + final(self).spec_additional_capacity()) as usize,
                    )
                    &&& (!old(self).spec_rehash_pending() ==> spec_resize_outcome(
                        old(self).spec_sampled(),
                        old(self).spec_sample_size(),
                        old(self).spec_capacity(),
                        old(self)@.dom().len() as int,
                        old(self).spec_minimum_capacity() + old(self).spec_additional_capacity()
                            + capacity,
                        final(self).spec_capacity(),
                    ))
                },
                None => {
                    &&& old(self).spec_minimum_capacity() + old(self).spec_additional_capacity() + capacity > usize::MAX as int
                    &&& final(self)@ == old(self)@
                    &&& final(self).spec_additional_capacity() == old(self).spec_additional_capacity()
                    &&& *final(self) == *old(self)
                },
            },
    {
        if usize::MAX - self.minimum_capacity - self.additional_capacity < capacity {
            return None;
        }
        self.additional_capacity = self.additional_capacity + capacity;
        self.resize();
        Some(Ticket { increment: capacity })
    }

    /// Hands a reservation back: the minimum capacity falls again and the
    /// array may shrink.
    pub fn release(&mut self, ticket: Ticket)
        requires
            old(self).wf(),
            ticket.spec_increment() <= old(self).spec_additional_capacity(),
        ensures
            final(self).wf(),
            final(self)@ == old(self)@,
            final(self).spec_minimum_capacity() == old(self).spec_minimum_capacity(),
            final(self).spec_additional_capacity() == old(self).spec_additional_capacity()
                - ticket.spec_increment(),
            final(self).spec_capacity() >= spec_adjusted_capacity(
                (final(self).spec_minimum_capacity() + final(self).spec_additional_capacity()) as usize,
            ),
            !old(self).spec_rehash_pending() ==> spec_resize_outcome(
                old(self).spec_sampled(),
                old(self).spec_sample_size(),
                old(self).spec_capacity(),
                old(self)@.dom().len() as int,
                old(self).spec_minimum_capacity() + old(self).spec_additional_capacity()
                    - ticket.spec_increment(),
                final(self).spec_capacity(),
            ),
    {
        self.additional_capacity = self.additional_capacity - ticket.increment;
        self.resize();
    }
}

impl<V> HashMap<V> {
    /// Retains the entries the filter approves and drops the rest; reports
    /// how many entries remained and how many were removed. A sweep whose
    /// removals reach its survivors requests a resize.
    #[verifier::loop_isolation(false)]
    #[verifier::rlimit(60)]
    pub fn retain<F: Fn(&u64, &V) -> bool>(&mut self, filter: F) -> (r: (usize, usize))
        requires
            old(self).wf(),
            forall|k: u64|
                #[trigger] old(self)@.dom().contains(k) ==> call_requires(
                    filter,
                    (&k, &old(self)@[k]),
                ),
        ensures
            final(self).wf(),
            forall|k: u64|
                #[trigger] final(self)@.dom().contains(k) ==> old(self)@.dom().contains(k)
                    && final(self)@[k] == old(self)@[k],
            forall|k: u64|
                #[trigger] old(self)@.dom().contains(k) ==> (final(self)@.dom().contains(k)
                    && call_ensures(filter, (&k, &old(self)@[k]), true)) || (!final(self)@.dom().contains(k) && call_ensures(filter, (&k, &old(self)@[k]), false)),
            r.0 == final(self)@.dom().len(),
            r.1 == old(self)@.dom().len() - final(self)@.dom().len(),
            r.1 >= r.0 ==> final(self).spec_capacity() >= spec_adjusted_capacity(
                (old(self).spec_minimum_capacity() + old(self).spec_additional_capacity()) as usize,
            ),
    {
        let ghost v0 = self@;
        proof {
            self.array.lemma_wf();
        }
        let mut entries = self.array.take_all();
        let ghost orig = entries@;
        proof {
            crate::model::lemma_kv_map_dom(orig);
            crate::model::lemma_kv_map_len(orig);
            assert(orig.len() < u32::MAX as int);
        }
        let mut retained: usize = 0;
        let mut removed: usize = 0;
        let mut i: usize = 0;
        while entries.len() > 0
            invariant
                self.wf(),
                i + entries@.len() == orig.len(),
                entries@ =~= orig.skip(i as int),
                forall|k: u64|
                    #[trigger] self@.dom().contains(k) ==> v0.dom().contains(k) && self@[k]
                        == v0[k],
                forall|k: u64|
                    #[trigger] self@.dom().contains(k) ==> exists|l: int|
                        0 <= l < i && orig[l].0 == k,
                forall|l: int|
                    0 <= l < i ==> ((self@.dom().contains((#[trigger] orig[l]).0)
                        && call_ensures(filter, (&orig[l].0, &orig[l].1), true)) || (
                    !self@.dom().contains(orig[l].0) && call_ensures(
                        filter,
                        (&orig[l].0, &orig[l].1),
                        false,
                    ))),
                retained == self@.dom().len(),
                removed == i - retained,
                self.spec_minimum_capacity() == old(self).spec_minimum_capacity(),
                self.spec_additional_capacity() == old(self).spec_additional_capacity(),
            decreases entries@.len(),
        {
            let entry = entries.remove(0);
            let ghost before = self@;
            proof {
                assert(entry == orig[i as int]);
                assert forall|l: int| 0 <= l < i implies (#[trigger] orig[l]).0 != entry.0 by {}
                if self@.dom().contains(entry.0) {
                    let l = choose|l: int| 0 <= l < i && orig[l].0 == entry.0;
                    assert(false);
                }
            }
            proof {
                assert(v0.dom().contains(entry.0) && v0[entry.0] == entry.1);
                assert(call_requires(filter, (&entry.0, &entry.1)));
            }
            let keep = filter(&entry.0, &entry.1);
            if keep {
                let (hash, partial) = hash_pair(entry.0);
                proof {
                    assert(self@.dom().len() < i + 1);
                    assert(orig.len() < u32::MAX as int);
                }
                self.array.insert_own(entry.0, entry.1, hash, partial);
                retained = retained + 1;
            } else {
                removed = removed + 1;
            }
            i += 1;
            proof {
                assert(entries@ =~= orig.skip(i as int));
                assert forall|k: u64| #[trigger] self@.dom().contains(k) implies exists|l: int|
                    0 <= l < i && orig[l].0 == k by {
                    if k == entry.0 {
                        assert(orig[i - 1].0 == k);
                    } else {
                        assert(before.dom().contains(k));
                        let l = choose|l: int| 0 <= l < i - 1 && orig[l].0 == k;
                        assert(orig[l].0 == k);
                    }
                }
                assert forall|l: int|
                    0 <= l < i implies ((self@.dom().contains((#[trigger] orig[l]).0)
                        && call_ensures(filter, (&orig[l].0, &orig[l].1), true)) || (
                    !self@.dom().contains(orig[l].0) && call_ensures(
                        filter,
                        (&orig[l].0, &orig[l].1),
                        false,
                    ))) by {
                    if l < i - 1 {
                        assert(orig[l].0 != entry.0);
                    }
                }
            }
        }
        proof {
            assert(orig.skip(i as int).len() == 0);
            assert(i == orig.len());
            assert forall|k: u64| #[trigger] v0.dom().contains(k) implies ((self@.dom().contains(
                k,
            ) && call_ensures(filter, (&k, &v0[k]), true)) || (!self@.dom().contains(k)
                && call_ensures(filter, (&k, &v0[k]), false))) by {
                let l = choose|l: int| 0 <= l < orig.len() && orig[l].0 == k;
                crate::model::lemma_kv_map_index(orig, l);
                assert(orig[l].1 == v0[k]);
            }
        }
        if removed >= retained {
            self.resize();
        }
        (retained, removed)
    }

    /// Applies the function to every entry and stores each result in the
    /// entry's place; the key set does not change.
    #[verifier::loop_isolation(false)]
    #[verifier::rlimit(60)]
    pub fn for_each<F: Fn(&u64, &V) -> V>(&mut self, f: F)
        requires
            old(self).wf(),
            forall|k: u64|
                #[trigger] old(self)@.dom().contains(k) ==> call_requires(
                    f,
                    (&k, &old(self)@[k]),
                ),
        ensures
            final(self).wf(),
            final(self)@.dom() == old(self)@.dom(),
            forall|k: u64|
                #[trigger] old(self)@.dom().contains(k) ==> call_ensures(
                    f,
                    (&k, &old(self)@[k]),
                    final(self)@[k],
                ),
    {
        let ghost v0 = self@;
        proof {
            self.array.lemma_wf();
        }
        let mut entries = self.array.take_all();
        let ghost orig = entries@;
        proof {
            crate::model::lemma_kv_map_dom(orig);
            crate::model::lemma_kv_map_len(orig);
            assert(orig.len() < u32::MAX as int);
        }
        let mut i: usize = 0;
        while entries.len() > 0
            invariant
                self.wf(),
                i + entries@.len() == orig.len(),
                entries@ =~= orig.skip(i as int),
                forall|k: u64|
                    #[trigger] self@.dom().contains(k) ==> exists|l: int|
                        0 <= l < i && orig[l].0 == k,
                forall|l: int|
                    0 <= l < i ==> self@.dom().contains((#[trigger] orig[l]).0) && call_ensures(
                        f,
                        (&orig[l].0, &orig[l].1),
                        self@[orig[l].0],
                    ),
                self@.dom().len() == i,
                self.spec_minimum_capacity() == old(self).spec_minimum_capacity(),
                self.spec_additional_capacity() == old(self).spec_additional_capacity(),
            decreases entries@.len(),
        {
            let entry = entries.remove(0);
            let ghost before = self@;
            proof {
                assert(entry == orig[i as int]);
                if self@.dom().contains(entry.0) {
                    let l = choose|l: int| 0 <= l < i && orig[l].0 == entry.0;
                    assert(false);
                }
                assert(orig.len() < u32::MAX as int);
            }
            proof {
                assert(v0.dom().contains(entry.0) && v0[entry.0] == entry.1);
                assert(call_requires(f, (&entry.0, &entry.1)));
            }
            let nv = f(&entry.0, &entry.1);
            let (hash, partial) = hash_pair(entry.0);
            self.array.insert_own(entry.0, nv, hash, partial);
            i += 1;
            proof {
                assert(entries@ =~= orig.skip(i as int));
                assert forall|k: u64| #[trigger] self@.dom().contains(k) implies exists|l: int|
                    0 <= l < i && orig[l].0 == k by {
                    if k == entry.0 {
                        assert(orig[i - 1].0 == k);
                    } else {
                        assert(before.dom().contains(k));
                        let l = choose|l: int| 0 <= l < i - 1 && orig[l].0 == k;
                        assert(orig[l].0 == k);
                    }
                }
                assert forall|l: int|
                    0 <= l < i implies self@.dom().contains((#[trigger] orig[l]).0)
                    && call_ensures(f, (&orig[l].0, &orig[l].1), self@[orig[l].0]) by {
                    if l < i - 1 {
                        assert(orig[l].0 != entry.0);
                        assert(self@[orig[l].0] == before[orig[l].0]);
                    }
                }
            }
        }
        proof {
            assert(i == orig.len());
            assert forall|k: u64| #[trigger] v0.dom().contains(k) implies self@.dom().contains(
                k,
            ) && call_ensures(f, (&k, &v0[k]), self@[k]) by {
                let l = choose|l: int| 0 <= l < orig.len() && orig[l].0 == k;
                crate::model::lemma_kv_map_index(orig, l);
                assert(orig[l].1 == v0[k]);
            }
            assert(self@.dom() =~= v0.dom());
        }
    }

    /// Drops every entry and reports how many there were; the sweep then
    /// applies the resize policy to the emptied map.
    pub fn clear(&mut self) -> (n: usize)
        requires
            old(self).wf(),
        ensures
            final(self).wf(),
            final(self)@ == Map::<u64, V>::empty(),
            n == old(self)@.dom().len(),
            final(self).spec_capacity() >= spec_adjusted_capacity(
                (old(self).spec_minimum_capacity() + old(self).spec_additional_capacity()) as usize,
            ),
            spec_resize_outcome(
                0,
                old(self).spec_sample_size(),
                old(self).spec_capacity(),
                0,
                old(self).spec_minimum_capacity() + old(self).spec_additional_capacity(),
                final(self).spec_capacity(),
            ),
    {
        let entries = self.array.take_all();
        let n = entries.len();
        proof {
            self.array.lemma_wf();
            old(self).array.lemma_wf();
            let cs = self.array.cells_seq();
            let full = cs.len() as int;
            lemma_cells_map_len(cs, self.array.lb(), full);
            self.array.lemma_view();
            assert(self@.dom() =~= Set::empty());
            assert(self@.dom().len() == 0);
            assert(cells_count(cs, full) == 0);
            lemma_cells_count_mono(cs, self.spec_sample_size(), full);
            lemma_cells_count_mono(cs, 0, self.spec_sample_size());
            assert(self.spec_sampled() == 0);
            assert(self.spec_sample_size() == old(self).spec_sample_size());
            assert(self.spec_capacity() == old(self).spec_capacity());
            assert(!self.spec_rehash_pending());
        }
        self.resize();
        n
    }
}

impl<V> Default for HashMap<V> {
    /// An empty map with the default capacity.
    fn default() -> (m: Self)
        ensures
            m.wf(),
            m@ == Map::<u64, V>::empty(),
            m.spec_capacity() == 64,
            m.spec_minimum_capacity() == 64,
            m.spec_additional_capacity() == 0,
            !m.spec_rehash_pending(),
    {
        HashMap::new(DEFAULT_CAPACITY)
    }
}


impl<V> HashMap<V> {
    /// The capacity is always a power of two times the cell size, and a
    /// resize leaves it no smaller than the capacity floor plus the live
    /// reservations (clamped to what the backing storage can address); the
    /// bound itself is the ensures of `resize`, `reserve` and `release`.
    pub proof fn lemma_capacity_power_of_two(self)
        requires
            self.wf(),
        ensures
            exists|k: nat| self.spec_capacity() == pow2(k) * (ARRAY_SIZE as int),
    {
        self.array.lemma_wf();
        assert(self.spec_capacity() == pow2(self.array.lb() as nat) * (ARRAY_SIZE as int));
    }
}

} // verus!
