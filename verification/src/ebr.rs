//! A model of the epoch-based reclamation protocol.
//!
//! A small integer epoch cycles through three values. Each participant
//! (thread) records the epoch it entered under, and how many nested barriers
//! it holds. A retired object lands in the bag of the epoch current at
//! retirement. The epoch may advance only when every active participant has
//! caught up with it; the advance reclaims the bag two epochs back, which no
//! active participant can still observe — the safety property proved on
//! `try_advance`.
//!
//! In this sequential embedding the map's arrays are reclaimed by ownership,
//! so the protocol stands alone as the verified model of the reclamation
//! discipline the concurrent design rests on.

use vstd::prelude::*;

verus! {

/// The number of epochs in the cycle.
pub const EPOCH_COUNT: u8 = 3;

/// One thread's reclamation state: the epoch it entered under and its count
/// of nested barriers.
pub struct Participant {
    /// The epoch recorded when the outermost barrier was entered.
    local_epoch: u8,
    /// How many barriers the participant currently holds.
    active_count: u32,
}

impl Participant {
    /// The epoch recorded when the outermost barrier was entered.
    pub closed spec fn spec_local_epoch(self) -> u8 {
        self.local_epoch
    }

    /// The participant holds at least one barrier.
    pub closed spec fn is_active(self) -> bool {
        self.active_count > 0
    }

    /// How many barriers the participant holds.
    pub closed spec fn spec_active_count(self) -> int {
        self.active_count as int
    }
}

/// The epoch before `g` in the three-epoch cycle; also the epoch two after
/// it, and the bag an advance out of `g` reclaims.
pub open spec fn prev_epoch(g: u8) -> u8 {
    ((g + 2) % 3) as u8
}

/// The epoch after `g` in the three-epoch cycle.
pub open spec fn next_epoch(g: u8) -> u8 {
    ((g + 1) % 3) as u8
}

/// The reclaimed bag belongs to neither the epoch the advance leaves nor
/// the epoch it enters: it is two epochs back.
pub proof fn lemma_reclaimed_is_two_back(g: u8)
    requires
        g < EPOCH_COUNT,
    ensures
        prev_epoch(g) != g,
        prev_epoch(g) != next_epoch(g),
        prev_epoch(next_epoch(g)) == g,
{
}

/// The global reclamation state: the published epoch, every participant,
/// and one retired bag per epoch.
pub struct Ebr {
    /// The published epoch.
    global_epoch: u8,
    /// Every registered participant.
    participants: Vec<Participant>,
    /// One bag of retired object handles per epoch.
    retired: Vec<Vec<u64>>,
}

impl Ebr {
    /// The published epoch.
    pub closed spec fn spec_global(self) -> u8 {
        self.global_epoch
    }

    /// The participants.
    pub closed spec fn spec_participants(self) -> Seq<Participant> {
        self.participants@
    }

    /// The bag retired under epoch `e`.
    pub closed spec fn spec_bag(self, e: int) -> Seq<u64> {
        self.retired@[e]@
    }

    /// Well-formedness: the epoch is one of the three, there are three
    /// bags, and every active participant lags the published epoch by at
    /// most one step.
    pub closed spec fn wf(self) -> bool {
        &&& self.global_epoch < EPOCH_COUNT
        &&& self.retired@.len() == EPOCH_COUNT
        &&& forall|i: int|
            0 <= i < self.participants@.len() ==> (#[trigger] self.participants@[i]).local_epoch
                < EPOCH_COUNT
        &&& forall|i: int|
            0 <= i < self.participants@.len() && (#[trigger] self.participants@[i]).active_count
                > 0 ==> self.participants@[i].local_epoch == self.global_epoch
                || self.participants@[i].local_epoch == prev_epoch(self.global_epoch)
    }

    /// A fresh reclamation state: epoch zero, no participants, empty bags.
    pub fn new() -> (e: Ebr)
        ensures
            e.wf(),
            e.spec_global() == 0,
            e.spec_participants().len() == 0,
            forall|b: int| 0 <= b < EPOCH_COUNT ==> (#[trigger] e.spec_bag(b)).len() == 0,
    {
        let mut retired: Vec<Vec<u64>> = Vec::new();
        retired.push(Vec::new());
        retired.push(Vec::new());
        retired.push(Vec::new());
        Ebr { global_epoch: 0, participants: Vec::new(), retired }
    }

    /// Registers a new participant and hands its index back.
    pub fn register(&mut self) -> (id: usize)
        requires
            old(self).wf(),
            old(self).spec_participants().len() < usize::MAX,
        ensures
            final(self).wf(),
            id == old(self).spec_participants().len(),
            final(self).spec_participants().len() == id + 1,
            !final(self).spec_participants()[id as int].is_active(),
            final(self).spec_global() == old(self).spec_global(),
            forall|b: int|
                0 <= b < EPOCH_COUNT ==> final(self).spec_bag(b) == old(self).spec_bag(b),
            forall|i: int|
                0 <= i < id ==> final(self).spec_participants()[i] == old(self).spec_participants()[i],
    {
        let id = self.participants.len();
        self.participants.push(Participant { local_epoch: 0, active_count: 0 });
        id
    }

    /// Enters a barrier: an outermost entry copies the published epoch into
    /// the participant's slot.
    pub fn enter(&mut self, id: usize)
        requires
            old(self).wf(),
            id < old(self).spec_participants().len(),
            old(self).spec_participants()[id as int].spec_active_count() < u32::MAX as int,
        ensures
            final(self).wf(),
            final(self).spec_global() == old(self).spec_global(),
            final(self).spec_participants().len() == old(self).spec_participants().len(),
            final(self).spec_participants()[id as int].is_active(),
            final(self).spec_participants()[id as int].spec_active_count() == old(self).spec_participants()[id as int].spec_active_count() + 1,
            old(self).spec_participants()[id as int].is_active() ==> final(self).spec_participants()[id as int].spec_local_epoch() == old(self).spec_participants()[id as int].spec_local_epoch(),
            !old(self).spec_participants()[id as int].is_active() ==> final(self).spec_participants()[id as int].spec_local_epoch() == old(self).spec_global(),
            forall|i: int|
                0 <= i < old(self).spec_participants().len() && i != id ==> final(self).spec_participants()[i] == old(self).spec_participants()[i],
            forall|b: int|
                0 <= b < EPOCH_COUNT ==> final(self).spec_bag(b) == old(self).spec_bag(b),
    {
        let p = &mut self.participants[id];
        if p.active_count == 0 {
            p.local_epoch = self.global_epoch;
        }
        p.active_count = p.active_count + 1;
    }

    /// Leaves a barrier.
    pub fn exit(&mut self, id: usize)
        requires
            old(self).wf(),
            id < old(self).spec_participants().len(),
            old(self).spec_participants()[id as int].spec_active_count() >= 1,
        ensures
            final(self).wf(),
            final(self).spec_global() == old(self).spec_global(),
            final(self).spec_participants().len() == old(self).spec_participants().len(),
            final(self).spec_participants()[id as int].spec_active_count() == old(self).spec_participants()[id as int].spec_active_count() - 1,
            forall|i: int|
                0 <= i < old(self).spec_participants().len() && i != id ==> final(self).spec_participants()[i] == old(self).spec_participants()[i],
            forall|b: int|
                0 <= b < EPOCH_COUNT ==> final(self).spec_bag(b) == old(self).spec_bag(b),
    {
        let p = &mut self.participants[id];
        p.active_count = p.active_count - 1;
    }

    /// Retires an object handle into the current epoch's bag.
    pub fn retire(&mut self, object: u64)
        requires
            old(self).wf(),
            old(self).spec_bag(old(self).spec_global() as int).len() < usize::MAX,
        ensures
            final(self).wf(),
            final(self).spec_global() == old(self).spec_global(),
            final(self).spec_participants() == old(self).spec_participants(),
            final(self).spec_bag(old(self).spec_global() as int) == old(self).spec_bag(
                old(self).spec_global() as int,
            ).push(object),
            forall|b: int|
                0 <= b < EPOCH_COUNT && b != old(self).spec_global() as int ==> final(self).spec_bag(b) == old(self).spec_bag(b),
    {
        let g = self.global_epoch as usize;
        let bag = &mut self.retired[g];
        bag.push(object);
    }

    /// Tries to advance the epoch. The advance succeeds only when every
    /// active participant has caught up with the published epoch; it then
    /// reclaims and hands back the bag two epochs back — whose epoch, by
    /// the postcondition, no active participant still observes.
    #[verifier::loop_isolation(false)]
    pub fn try_advance(&mut self) -> (r: Option<Vec<u64>>)
        requires
            old(self).wf(),
        ensures
            final(self).wf(),
            match r {
                Some(objects) => {
                    // every active participant had caught up, so none
                    // observes the reclaimed epoch
                    &&& (forall|i: int|
                        0 <= i < old(self).spec_participants().len() && (#[trigger] old(self).spec_participants()[i]).is_active() ==> old(self).spec_participants()[i].spec_local_epoch() == old(self).spec_global())
                    &&& (forall|i: int|
                        0 <= i < final(self).spec_participants().len() && (#[trigger] final(self).spec_participants()[i]).is_active() ==> final(self).spec_participants()[i].spec_local_epoch() != prev_epoch(
                            old(self).spec_global(),
                        ))
                    &&& final(self).spec_global() == next_epoch(old(self).spec_global())
                    &&& objects@ == old(self).spec_bag(prev_epoch(old(self).spec_global()) as int)
                    &&& final(self).spec_bag(prev_epoch(old(self).spec_global()) as int).len()
                        == 0
                    &&& final(self).spec_participants() == old(self).spec_participants()
                },
                None => {
                    &&& *final(self) == *old(self)
                    &&& exists|i: int|
                        0 <= i < old(self).spec_participants().len() && (#[trigger] old(self).spec_participants()[i]).is_active() && old(self).spec_participants()[i].spec_local_epoch() != old(self).spec_global()
                },
            },
    {
        let n = self.participants.len();
        let mut i: usize = 0;
        while i < n
            invariant
                i <= n,
                n == self.spec_participants().len(),
                forall|j: int|
                    0 <= j < i && (#[trigger] self.spec_participants()[j]).is_active()
                        ==> self.spec_participants()[j].spec_local_epoch() == self.spec_global(),
            decreases n - i,
        {
            let p = &self.participants[i];
            if p.active_count > 0 && p.local_epoch != self.global_epoch {
                return None;
            }
            i += 1;
        }
        let reclaim_index = ((self.global_epoch + 2) % 3) as usize;
        let mut objects: Vec<u64> = Vec::new();
        let bag = &mut self.retired[reclaim_index];
        core::mem::swap(bag, &mut objects);
        let ghost g0 = self.global_epoch;
        self.global_epoch = (self.global_epoch + 1) % 3;
        proof {
            lemma_reclaimed_is_two_back(g0);
        }
        Some(objects)
    }
}

} // verus!
