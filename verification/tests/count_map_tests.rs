use progress_broadcast::count_map::{CountMap, UpdateKey};

fn key(scope: usize, port: usize, time: u64) -> UpdateKey {
    UpdateKey { scope, port, time }
}

#[test]
fn update_accumulates_per_key() {
    let mut map = CountMap::new();
    let k = key(0, 0, 5);
    assert_eq!(map.update(k, 2), 2);
    assert_eq!(map.update(k, 3), 5);
    assert_eq!(map.get(k), 5);
    assert_eq!(map.len(), 1);
}

#[test]
fn update_prunes_entry_when_sum_reaches_zero() {
    let mut map = CountMap::new();
    let k = key(1, 2, 7);
    map.update(k, 4);
    assert_eq!(map.len(), 1);
    assert_eq!(map.update(k, -4), 0);
    assert_eq!(map.len(), 0);
    assert_eq!(map.get(k), 0);
}

#[test]
fn update_with_zero_delta_on_absent_key_inserts_nothing() {
    let mut map = CountMap::new();
    assert_eq!(map.update(key(3, 1, 9), 0), 0);
    assert_eq!(map.len(), 0);
}

#[test]
fn negative_deltas_are_tracked() {
    let mut map = CountMap::new();
    let k = key(0, 1, 3);
    assert_eq!(map.update(k, -7), -7);
    assert_eq!(map.get(k), -7);
    assert_eq!(map.len(), 1);
}

#[test]
fn len_counts_distinct_keys() {
    let mut map = CountMap::new();
    map.update(key(0, 0, 1), 1);
    map.update(key(0, 0, 2), 1);
    map.update(key(0, 1, 1), 1);
    map.update(key(0, 0, 1), 5);
    assert_eq!(map.len(), 3);
}

#[test]
fn snapshot_clears_the_map() {
    let mut map = CountMap::new();
    map.update(key(0, 0, 1), 2);
    map.update(key(0, 0, 2), -3);
    let snapshot = map.snapshot_and_clear();
    assert_eq!(map.len(), 0);
    assert_eq!(snapshot.len(), 2);
}

#[test]
fn snapshot_round_trip_rebuilds_the_map() {
    let mut map = CountMap::new();
    let keys = [key(0, 0, 1), key(0, 1, 1), key(2, 0, 9), key(2, 0, 10)];
    let deltas = [5i64, -2, 7, 1];
    for (k, d) in keys.iter().zip(deltas.iter()) {
        map.update(*k, *d);
    }
    let expected = map.duplicate();
    let snapshot = map.snapshot_and_clear();
    assert_eq!(map.len(), 0);

    let mut rebuilt = CountMap::new();
    for (k, d) in snapshot.iter() {
        rebuilt.update(*k, *d);
    }
    assert_eq!(rebuilt.len(), expected.len());
    for k in keys.iter() {
        assert_eq!(rebuilt.get(*k), expected.get(*k));
    }
}

#[test]
fn snapshot_round_trip_is_order_independent() {
    let mut map = CountMap::new();
    map.update(key(0, 0, 1), 5);
    map.update(key(0, 1, 1), -2);
    map.update(key(2, 0, 9), 7);
    let expected = map.duplicate();
    let mut snapshot = map.snapshot_and_clear();
    snapshot.reverse();

    let mut rebuilt = CountMap::new();
    for (k, d) in snapshot.iter() {
        rebuilt.update(*k, *d);
    }
    assert_eq!(rebuilt.len(), expected.len());
    for (k, _) in snapshot.iter() {
        assert_eq!(rebuilt.get(*k), expected.get(*k));
    }
}

#[test]
fn duplicate_is_independent() {
    let mut map = CountMap::new();
    let k = key(4, 0, 2);
    map.update(k, 3);
    let copy = map.duplicate();
    map.update(k, 10);
    assert_eq!(copy.get(k), 3);
    assert_eq!(map.get(k), 13);
}

#[test]
fn extreme_keys_and_deltas_are_representable() {
    let mut map = CountMap::new();
    let k = key(usize::MAX, usize::MAX, u64::MAX);
    map.update(k, i64::MAX);
    assert_eq!(map.get(k), i64::MAX);
    map.update(k, -1);
    assert_eq!(map.get(k), i64::MAX - 1);
    map.update(k, i64::MIN + 1);
    assert_eq!(map.get(k), -1);
    map.update(k, 1);
    assert_eq!(map.get(k), 0);
    assert_eq!(map.len(), 0);
}

#[test]
fn absorb_folds_a_batch() {
    let mut map = CountMap::new();
    map.update(key(0, 0, 1), 1);
    let batch = vec![(key(0, 0, 1), -1i64), (key(0, 0, 2), 4i64)];
    map.absorb(&batch);
    assert_eq!(map.len(), 1);
    assert_eq!(map.get(key(0, 0, 1)), 0);
    assert_eq!(map.get(key(0, 0, 2)), 4);
}
