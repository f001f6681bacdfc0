//! The subsystems under the map: array geometry, the cell lock word, and
//! the epoch-based reclamation model.

use scc::cell::ARRAY_SIZE;
use scc::cell_array::Array;
use scc::ebr::Ebr;
use scc::lock;
use scc::hash_pair;

#[test]
fn static_assertions() {
    assert_eq!(0usize.next_power_of_two(), 1);
    assert_eq!(1usize.next_power_of_two(), 1);
    assert_eq!(2usize.next_power_of_two(), 2);
    assert_eq!(3usize.next_power_of_two(), 4);
    assert_eq!(1 << 0, 1);
    assert_eq!(0usize.is_power_of_two(), false);
    assert_eq!(1usize.is_power_of_two(), true);
    // a cell manages 32 entries, so 19 entries fit into a fraction of one
    assert_eq!(19usize / (ARRAY_SIZE as usize), 0);
    for capacity in 0..1024 as usize {
        assert!(
            (1usize << Array::<bool>::calculate_lb_metadata_array_size(capacity))
                * (ARRAY_SIZE as usize)
                >= capacity
        );
    }
    assert!(
        (1usize << Array::<bool>::calculate_lb_metadata_array_size(usize::MAX))
            * (ARRAY_SIZE as usize)
            >= (usize::MAX / 2)
    );
    for i in 2..(std::mem::size_of::<usize>() - 3) {
        let capacity = (1 << i) * (ARRAY_SIZE as usize);
        assert_eq!(
            Array::<bool>::calculate_lb_metadata_array_size(capacity) as usize,
            i
        );
    }
}

#[test]
fn treiber_stack() {}

#[test]
fn hash_is_deterministic_and_partial_nonzero() {
    for k in [0u64, 1, 2, 1023, u64::MAX] {
        let (full_a, partial_a) = hash_pair(k);
        let (full_b, partial_b) = hash_pair(k);
        assert_eq!(full_a, full_b);
        assert_eq!(partial_a, partial_b);
        assert_ne!(partial_a, 0);
    }
}

#[test]
fn lock_word_state_machine() {
    let free = 0u64;
    // shared readers stack up and drain
    let one = lock::try_shared(free).expect("a free word admits a reader");
    let two = lock::try_shared(one).expect("a shared word admits another reader");
    assert!(lock::try_exclusive(two).is_none(), "readers block the exclusive holder");
    let one_again = lock::shared_unlock(two);
    let free_again = lock::shared_unlock(one_again);
    // exclusive ownership excludes everyone
    let held = lock::try_exclusive(free_again).expect("a free word grants exclusivity");
    assert!(lock::try_shared(held).is_none());
    assert!(lock::try_exclusive(held).is_none());
    // killing is terminal: after release no one gets in again
    let killed = lock::kill(held);
    let released = lock::exclusive_unlock(killed);
    assert!(lock::try_shared(released).is_none());
    assert!(lock::try_exclusive(released).is_none());
}

#[test]
fn lock_word_plain_release() {
    let held = lock::try_exclusive(0u64).unwrap();
    let released = lock::exclusive_unlock(held);
    assert!(lock::try_shared(released).is_some(), "an unkilled release reopens the cell");
}

#[test]
fn epoch_advance_waits_for_stragglers() {
    let mut ebr = Ebr::new();
    let a = ebr.register();
    let b = ebr.register();
    ebr.enter(a);
    ebr.enter(b);
    // both participants are at the global epoch, so the epoch can advance
    assert!(ebr.try_advance().is_some());
    // `a` still pins the old epoch: the next advance must refuse
    ebr.exit(b);
    assert!(ebr.try_advance().is_none());
    // once `a` leaves and re-enters at the current epoch, advancing works
    ebr.exit(a);
    ebr.enter(a);
    assert!(ebr.try_advance().is_some());
    ebr.exit(a);
}

#[test]
fn epoch_reclaims_the_bag_two_epochs_back() {
    let mut ebr = Ebr::new();
    ebr.retire(41);
    ebr.retire(42);
    // epoch 0 -> 1: reclaims bag 2, which is empty
    assert_eq!(ebr.try_advance().unwrap(), Vec::<u64>::new());
    // epoch 1 -> 2: reclaims bag 0, holding the two objects
    assert_eq!(ebr.try_advance().unwrap(), vec![41, 42]);
    // epoch 2 -> 0: reclaims bag 1, empty again
    assert_eq!(ebr.try_advance().unwrap(), Vec::<u64>::new());
}
