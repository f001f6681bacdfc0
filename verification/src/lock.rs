//! The cell's eight-byte read/write lock word.
//!
//! One 64-bit word encodes the whole synchronisation state of a cell: a
//! `killed` flag (the cell was migrated and accepts no more writers), a
//! waiters flag, an exclusive-holder flag, and a shared-reader count in the
//! low bits. Every transition of the word is a total function from the old
//! word to the new one, so the state machine below is exactly the observable
//! contract of the lock: `Free -> Shared(n) -> Free`,
//! `Free -> Exclusive -> Free`, and `Exclusive -> Killed` (terminal).

use vstd::prelude::*;

verus! {

/// Bit 63: the cell was migrated away and accepts no new writers.
pub const KILLED_FLAG: u64 = 0x8000_0000_0000_0000;

/// Bit 62: a contended acquirer parked itself on the cell's wait queue.
pub const WAITERS_FLAG: u64 = 0x4000_0000_0000_0000;

/// Bit 56: an exclusive holder owns the cell.
pub const EXCLUSIVE_FLAG: u64 = 0x0100_0000_0000_0000;

/// Bits 0..48: the count of shared readers.
pub const READERS_MASK: u64 = 0x0000_FFFF_FFFF_FFFF;

/// The cell behind this word has been migrated to a successor array.
pub open spec fn lock_killed(w: u64) -> bool {
    w & KILLED_FLAG != 0
}

/// A parked waiter is recorded on this word.
pub open spec fn lock_waiters(w: u64) -> bool {
    w & WAITERS_FLAG != 0
}

/// An exclusive holder owns the cell behind this word.
pub open spec fn lock_exclusive(w: u64) -> bool {
    w & EXCLUSIVE_FLAG != 0
}

/// The number of shared readers admitted by this word.
pub open spec fn lock_readers(w: u64) -> u64 {
    w & READERS_MASK
}

/// The word grants neither shared nor exclusive access and is not killed.
pub open spec fn lock_free(w: u64) -> bool {
    !lock_killed(w) && !lock_exclusive(w) && lock_readers(w) == 0
}

/// Admits one more shared reader, or refuses: a shared acquisition fails only
/// on a killed word, an exclusively held word, or a full reader count.
pub fn try_shared(w: u64) -> (r: Option<u64>)
    ensures
        match r {
            Some(w2) => {
                &&& !lock_killed(w)
                &&& !lock_exclusive(w)
                &&& lock_readers(w) < READERS_MASK
                &&& lock_killed(w2) == lock_killed(w)
                &&& lock_waiters(w2) == lock_waiters(w)
                &&& lock_exclusive(w2) == lock_exclusive(w)
                &&& lock_readers(w2) == lock_readers(w) + 1
            },
            None => lock_killed(w) || lock_exclusive(w) || lock_readers(w) == READERS_MASK,
        },
{
    proof {
        assert(w & (0x8000_0000_0000_0000u64 | 0x0100_0000_0000_0000u64) != 0 <==> (w
            & 0x8000_0000_0000_0000u64 != 0 || w & 0x0100_0000_0000_0000u64 != 0)) by (bit_vector);
    }
    if w & (KILLED_FLAG | EXCLUSIVE_FLAG) != 0 {
        return None;
    }
    if w & READERS_MASK == READERS_MASK {
        return None;
    }
    proof {
        assert(w & (0x8000_0000_0000_0000u64 | 0x0100_0000_0000_0000u64) == 0 ==> w
            < 0xFFFF_FFFF_FFFF_FFFFu64) by (bit_vector);
    }
    let w2 = w + 1;
    proof {
        assert((w2 & 0x8000_0000_0000_0000u64 == w & 0x8000_0000_0000_0000u64) && (w2
            & 0x4000_0000_0000_0000u64 == w & 0x4000_0000_0000_0000u64) && (w2
            & 0x0100_0000_0000_0000u64 == w & 0x0100_0000_0000_0000u64) && (w2
            & 0x0000_FFFF_FFFF_FFFFu64 == (w & 0x0000_FFFF_FFFF_FFFFu64) + 1) && (w
            & 0x0000_FFFF_FFFF_FFFFu64 < 0x0000_FFFF_FFFF_FFFFu64)) by (bit_vector)
            requires
                w2 == w + 1,
                w & (0x8000_0000_0000_0000u64 | 0x0100_0000_0000_0000u64) == 0,
                w & 0x0000_FFFF_FFFF_FFFFu64 != 0x0000_FFFF_FFFF_FFFFu64,
        ;
    }
    Some(w2)
}

/// Releases one shared reader.
pub fn shared_unlock(w: u64) -> (w2: u64)
    requires
        lock_readers(w) >= 1,
    ensures
        lock_killed(w2) == lock_killed(w),
        lock_waiters(w2) == lock_waiters(w),
        lock_exclusive(w2) == lock_exclusive(w),
        lock_readers(w2) == lock_readers(w) - 1,
{
    proof {
        assert(w & 0x0000_FFFF_FFFF_FFFFu64 >= 1 ==> w >= 1) by (bit_vector);
    }
    let w2 = w - 1;
    proof {
        assert((w2 & 0x8000_0000_0000_0000u64 == w & 0x8000_0000_0000_0000u64) && (w2
            & 0x4000_0000_0000_0000u64 == w & 0x4000_0000_0000_0000u64) && (w2
            & 0x0100_0000_0000_0000u64 == w & 0x0100_0000_0000_0000u64) && (w2
            & 0x0000_FFFF_FFFF_FFFFu64 == (w & 0x0000_FFFF_FFFF_FFFFu64) - 1)) by (bit_vector)
            requires
                w2 == w - 1,
                w & 0x0000_FFFF_FFFF_FFFFu64 >= 1,
        ;
    }
    w2
}

/// Grants exclusive ownership, or refuses: an exclusive acquisition fails
/// only on a killed word, an already-owned word, or live readers.
pub fn try_exclusive(w: u64) -> (r: Option<u64>)
    ensures
        match r {
            Some(w2) => {
                &&& !lock_killed(w)
                &&& !lock_exclusive(w)
                &&& lock_readers(w) == 0
                &&& lock_killed(w2) == lock_killed(w)
                &&& lock_waiters(w2) == lock_waiters(w)
                &&& lock_exclusive(w2)
                &&& lock_readers(w2) == 0
            },
            None => lock_killed(w) || lock_exclusive(w) || lock_readers(w) > 0,
        },
{
    proof {
        assert(w & (0x8000_0000_0000_0000u64 | 0x0100_0000_0000_0000u64) != 0 <==> (w
            & 0x8000_0000_0000_0000u64 != 0 || w & 0x0100_0000_0000_0000u64 != 0)) by (bit_vector);
    }
    if w & (KILLED_FLAG | EXCLUSIVE_FLAG) != 0 {
        return None;
    }
    if w & READERS_MASK != 0 {
        return None;
    }
    let w2 = w | EXCLUSIVE_FLAG;
    proof {
        assert((w2 & 0x8000_0000_0000_0000u64 == w & 0x8000_0000_0000_0000u64) && (w2
            & 0x4000_0000_0000_0000u64 == w & 0x4000_0000_0000_0000u64) && (w2
            & 0x0100_0000_0000_0000u64 != 0) && (w2 & 0x0000_FFFF_FFFF_FFFFu64 == w
            & 0x0000_FFFF_FFFF_FFFFu64)) by (bit_vector)
            requires
                w2 == w | 0x0100_0000_0000_0000u64,
        ;
    }
    Some(w2)
}

/// Releases the exclusive holder; the killed flag survives the release.
pub fn exclusive_unlock(w: u64) -> (w2: u64)
    requires
        lock_exclusive(w),
    ensures
        lock_killed(w2) == lock_killed(w),
        lock_waiters(w2) == lock_waiters(w),
        !lock_exclusive(w2),
        lock_readers(w2) == lock_readers(w),
{
    let w2 = w & !EXCLUSIVE_FLAG;
    proof {
        assert((w2 & 0x8000_0000_0000_0000u64 == w & 0x8000_0000_0000_0000u64) && (w2
            & 0x4000_0000_0000_0000u64 == w & 0x4000_0000_0000_0000u64) && (w2
            & 0x0100_0000_0000_0000u64 == 0) && (w2 & 0x0000_FFFF_FFFF_FFFFu64 == w
            & 0x0000_FFFF_FFFF_FFFFu64)) by (bit_vector)
            requires
                w2 == w & !0x0100_0000_0000_0000u64,
        ;
    }
    w2
}

/// Marks the cell killed; only an exclusive holder may do so, and the state
/// is terminal: no later transition clears the flag.
pub fn kill(w: u64) -> (w2: u64)
    requires
        lock_exclusive(w),
    ensures
        lock_killed(w2),
        lock_waiters(w2) == lock_waiters(w),
        lock_exclusive(w2) == lock_exclusive(w),
        lock_readers(w2) == lock_readers(w),
{
    let w2 = w | KILLED_FLAG;
    proof {
        assert((w2 & 0x8000_0000_0000_0000u64 != 0) && (w2 & 0x4000_0000_0000_0000u64 == w
            & 0x4000_0000_0000_0000u64) && (w2 & 0x0100_0000_0000_0000u64 == w
            & 0x0100_0000_0000_0000u64) && (w2 & 0x0000_FFFF_FFFF_FFFFu64 == w
            & 0x0000_FFFF_FFFF_FFFFu64)) by (bit_vector)
            requires
                w2 == w | 0x8000_0000_0000_0000u64,
        ;
    }
    w2
}

} // verus!
