//! End-to-end behaviour of the hash map surface.

use scc::HashMap;

#[test]
fn insert_and_read_back() {
    let mut m: HashMap<u64> = HashMap::default();
    assert!(m.insert(1, 10).is_ok());
    assert_eq!(m.read(1, |_, v| *v), Some(10));
    assert_eq!(m.read(2, |_, v| *v), None);
    assert!(m.contains(1));
    assert!(!m.contains(2));
}

#[test]
fn duplicate_insert_keeps_first_value() {
    let mut m: HashMap<u64> = HashMap::default();
    assert!(m.insert(1, 1).is_ok());
    assert_eq!(m.insert(1, 2), Err((1, 2)));
    assert_eq!(m.read(1, |_, v| *v), Some(1));
}

#[test]
fn insert_remove_read_cycle() {
    let mut m: HashMap<u64> = HashMap::default();
    assert!(m.insert(1, 0).is_ok());
    assert_eq!(m.insert(1, 1), Err((1, 1)));
    assert_eq!(m.read(1, |_, v| *v), Some(0));
    assert_eq!(m.remove(1), Some((1, 0)));
    assert_eq!(m.read(1, |_, v| *v), None);
}

#[test]
fn clear_then_for_each_visits_nothing() {
    let mut m: HashMap<u64> = HashMap::default();
    for i in 0..10u64 {
        assert!(m.insert(i, i).is_ok());
    }
    assert_eq!(m.clear(), 10);
    let visited = std::cell::Cell::new(0usize);
    m.for_each(|_, v| {
        visited.set(visited.get() + 1);
        *v
    });
    assert_eq!(visited.get(), 0);
    assert_eq!(m.len(), 0);
    assert!(m.is_empty());
}

#[test]
fn len_tracks_disjoint_inserts_and_removes() {
    let mut m: HashMap<u64> = HashMap::default();
    let mut inserted = 0usize;
    let mut removed = 0usize;
    for i in 0..300u64 {
        assert!(m.insert(i, i * 2).is_ok());
        inserted += 1;
    }
    for i in 0..120u64 {
        assert!(m.remove(i * 2).is_some());
        removed += 1;
    }
    assert_eq!(m.len(), inserted - removed);
}

#[test]
fn retain_everything_reports_len_and_zero() {
    let mut m: HashMap<u64> = HashMap::default();
    for i in 0..97u64 {
        assert!(m.insert(i, i + 1).is_ok());
    }
    m.remove(13);
    m.insert(200, 7).unwrap();
    let len = m.len();
    assert_eq!(m.retain(|_, _| true), (len, 0));
    assert_eq!(m.len(), len);
}

#[test]
fn growth_scenario_reaches_target_capacity() {
    let mut m: HashMap<u64> = HashMap::default();
    assert_eq!(m.capacity(), 64);
    for i in 0..1024u64 {
        assert!(m.insert(i, i).is_ok());
    }
    assert!(m.capacity() >= 2048);
    assert_eq!(m.len(), 1024);
}

#[test]
fn single_key_lifecycle() {
    let mut m: HashMap<u64> = HashMap::default();
    assert!(m.insert(1, 0).is_ok());
    assert_eq!(m.insert(1, 1), Err((1, 1)));
    assert_eq!(m.read(1, |_, v| *v), Some(0));
    assert_eq!(m.remove(1), Some((1, 0)));
    assert_eq!(m.read(1, |_, v| *v), None);
}

#[test]
fn reservation_raises_and_release_restores_capacity() {
    let mut m: HashMap<u64> = HashMap::new(1000);
    assert_eq!(m.capacity(), 1024);
    let ticket = m.reserve(10000);
    assert!(ticket.is_some());
    assert_eq!(m.capacity(), 16384);
    for i in 0..16u64 {
        assert!(m.insert(i, i).is_ok());
    }
    m.release(ticket.unwrap());
    assert_eq!(m.capacity(), 1024);
}

#[test]
fn reservation_too_large_is_refused() {
    let mut m: HashMap<u64> = HashMap::default();
    assert!(m.reserve(usize::MAX - 32).is_none());
}

#[test]
fn retain_filters_and_counts() {
    let mut m: HashMap<u64> = HashMap::default();
    assert!(m.insert(1, 0).is_ok());
    assert!(m.insert(2, 1).is_ok());
    assert!(m.insert(3, 2).is_ok());
    assert_eq!(m.retain(|k, v| *k == 1 && *v == 0), (1, 2));
    assert_eq!(m.len(), 1);
    assert_eq!(m.read(1, |_, v| *v), Some(0));
    assert_eq!(m.read(2, |_, v| *v), None);
}

#[test]
fn upsert_counts_across_random_keys() {
    let mut m: HashMap<u64> = HashMap::default();
    let rounds: usize = 1_600_000;
    let mut state: u64 = 0x1234_5678_9abc_def0;
    for _ in 0..rounds {
        state = state
            .wrapping_mul(6364136223846793005)
            .wrapping_add(1442695040888963407);
        let key = (state >> 33) % 1000;
        m.upsert(key, || 0, |_, v| *v + 1);
    }
    let distinct = m.len();
    assert!(distinct <= 1000);
    let sum = std::cell::Cell::new(0u64);
    m.for_each(|_, v| {
        sum.set(sum.get() + *v);
        *v
    });
    // the first upsert of a key stores the constructor's zero, every later
    // one adds one
    assert_eq!(sum.get() as usize + distinct, rounds);
}

#[test]
fn reads_survive_a_resize_boundary() {
    let mut m: HashMap<u64> = HashMap::default();
    for i in 0..400u64 {
        assert!(m.insert(i, i + 7).is_ok());
        for j in 0..=i {
            assert_eq!(m.read(j, |_, v| *v), Some(j + 7), "key inserted before a resize");
        }
    }
}

#[test]
fn update_applies_to_present_keys_only() {
    let mut m: HashMap<u64> = HashMap::default();
    assert!(m.update(1, |_, v| (*v + 1, ())).is_none());
    assert!(m.insert(1, 0).is_ok());
    assert_eq!(m.update(1, |_, _| (2, 2)), Some(2));
    assert_eq!(m.read(1, |_, v| *v), Some(2));
}

#[test]
fn upsert_constructs_then_updates() {
    let mut m: HashMap<u64> = HashMap::default();
    m.upsert(1, || 2, |_, v| *v + 10);
    assert_eq!(m.read(1, |_, v| *v), Some(2));
    m.upsert(1, || 2, |_, _| 3);
    assert_eq!(m.read(1, |_, v| *v), Some(3));
}

#[test]
fn remove_if_checks_the_condition() {
    let mut m: HashMap<u64> = HashMap::default();
    assert!(m.insert(1, 0).is_ok());
    assert!(m.remove_if(1, |v| *v == 1).is_none());
    assert_eq!(m.remove_if(1, |v| *v == 0), Some((1, 0)));
    assert!(m.remove_if(1, |_| true).is_none());
}

#[test]
fn for_each_transforms_every_value() {
    let mut m: HashMap<u64> = HashMap::default();
    assert!(m.insert(1, 0).is_ok());
    assert!(m.insert(2, 1).is_ok());
    m.for_each(|_, _| 2);
    assert_eq!(m.read(1, |_, v| *v), Some(2));
    assert_eq!(m.read(2, |_, v| *v), Some(2));
}

#[test]
fn read_with_borrows_key_and_value() {
    let mut m: HashMap<u64> = HashMap::default();
    assert!(m.insert(5, 50).is_ok());
    assert_eq!(m.read_with(5, |k, v| *k + *v), Some(55));
}

#[test]
fn shrink_after_heavy_removal() {
    let mut m: HashMap<u64> = HashMap::default();
    for i in 0..4096u64 {
        assert!(m.insert(i, i).is_ok());
    }
    let grown = m.capacity();
    assert!(grown >= 8192);
    assert_eq!(m.retain(|k, _| *k < 8), (8, 4088));
    assert!(m.capacity() < grown);
    for i in 0..8u64 {
        assert_eq!(m.read(i, |_, v| *v), Some(i));
    }
}
