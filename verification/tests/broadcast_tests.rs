use progress_broadcast::broadcast::{Progcaster, ProgressMsg};
use progress_broadcast::count_map::{CountMap, UpdateKey};

fn key(scope: usize, port: usize, time: u64) -> UpdateKey {
    UpdateKey { scope, port, time }
}

fn empty_inbound() -> Vec<ProgressMsg> {
    Vec::new()
}

#[test]
fn new_records_rank_peers_and_address() {
    let path = vec![0usize, 3, 1];
    let caster = Progcaster::new(2, 4, &path);
    assert_eq!(caster.source(), 2);
    assert_eq!(caster.peers(), 4);
    assert_eq!(caster.counter(), 0);
    assert_eq!(caster.addr(), &path);
}

#[test]
fn single_peer_round_is_a_noop() {
    let mut caster = Progcaster::new(0, 1, &vec![0usize]);
    let mut messages = CountMap::new();
    let mut internal = CountMap::new();
    messages.update(key(0, 0, 1), 2);
    internal.update(key(0, 1, 1), -3);

    let outbound = caster.send_and_recv(&mut messages, &mut internal, &empty_inbound());
    assert!(outbound.is_none());
    assert_eq!(caster.counter(), 0);
    assert_eq!(messages.len(), 1);
    assert_eq!(messages.get(key(0, 0, 1)), 2);
    assert_eq!(internal.len(), 1);
    assert_eq!(internal.get(key(0, 1, 1)), -3);
}

#[test]
fn empty_round_sends_nothing_but_still_merges() {
    let mut caster = Progcaster::new(1, 3, &vec![0usize]);
    let mut messages = CountMap::new();
    let mut internal = CountMap::new();

    let queued: ProgressMsg = (0, 0, vec![(key(0, 0, 4), 2i64)], vec![(key(0, 0, 4), -1i64)]);
    let outbound = caster.send_and_recv(&mut messages, &mut internal, &vec![queued]);

    assert!(outbound.is_none());
    assert_eq!(caster.counter(), 0);
    assert_eq!(messages.get(key(0, 0, 4)), 2);
    assert_eq!(internal.get(key(0, 0, 4)), -1);
}

#[test]
fn broadcast_snapshots_and_clears_the_maps() {
    let mut caster = Progcaster::new(0, 2, &vec![0usize]);
    let mut messages = CountMap::new();
    let mut internal = CountMap::new();
    messages.update(key(0, 0, 1), 2);
    internal.update(key(1, 0, 1), 5);

    let outbound = caster.send_and_recv(&mut messages, &mut internal, &empty_inbound());
    let msg = outbound.expect("a non-empty round must broadcast");
    assert_eq!(msg.0, 0);
    assert_eq!(msg.1, 0);
    assert_eq!(msg.2, vec![(key(0, 0, 1), 2i64)]);
    assert_eq!(msg.3, vec![(key(1, 0, 1), 5i64)]);
    assert_eq!(messages.len(), 0);
    assert_eq!(internal.len(), 0);
    assert_eq!(caster.counter(), 1);
}

#[test]
fn sequence_numbers_increase_by_one_per_broadcast() {
    let mut caster = Progcaster::new(0, 2, &vec![0usize]);
    let mut messages = CountMap::new();
    let mut internal = CountMap::new();

    messages.update(key(0, 0, 1), 1);
    let first = caster.send_and_recv(&mut messages, &mut internal, &empty_inbound());
    assert_eq!(first.expect("non-empty round").1, 0);

    let skipped = caster.send_and_recv(&mut messages, &mut internal, &empty_inbound());
    assert!(skipped.is_none());

    internal.update(key(0, 0, 2), -4);
    let second = caster.send_and_recv(&mut messages, &mut internal, &empty_inbound());
    assert_eq!(second.expect("non-empty round").1, 1);
}

#[test]
fn merge_result_is_independent_of_arrival_order() {
    let peer_msgs: Vec<ProgressMsg> = vec![
        (0, 0, vec![(key(0, 0, 1), 2i64)], vec![(key(0, 0, 1), 1i64)]),
        (1, 0, vec![(key(0, 0, 1), -2i64), (key(0, 0, 2), 3i64)], vec![]),
        (2, 0, vec![(key(5, 1, 9), 7i64)], vec![(key(0, 0, 1), -1i64)]),
    ];
    let keys = [key(0, 0, 1), key(0, 0, 2), key(5, 1, 9)];
    let orders: [[usize; 3]; 6] =
        [[0, 1, 2], [0, 2, 1], [1, 0, 2], [1, 2, 0], [2, 0, 1], [2, 1, 0]];

    let mut results: Vec<(Vec<i64>, Vec<i64>, usize, usize)> = Vec::new();
    for order in orders.iter() {
        let mut caster = Progcaster::new(3, 4, &vec![0usize]);
        let mut messages = CountMap::new();
        let mut internal = CountMap::new();
        let inbound: Vec<ProgressMsg> = order.iter().map(|&i| peer_msgs[i].clone()).collect();
        let outbound = caster.send_and_recv(&mut messages, &mut internal, &inbound);
        assert!(outbound.is_none());
        results.push((
            keys.iter().map(|&k| messages.get(k)).collect(),
            keys.iter().map(|&k| internal.get(k)).collect(),
            messages.len(),
            internal.len(),
        ));
    }
    for r in results.iter() {
        assert_eq!(r, &results[0]);
    }
    assert_eq!(results[0].0, vec![0i64, 3, 7]);
    assert_eq!(results[0].1, vec![0i64, 0, 0]);
    assert_eq!(results[0].2, 2);
    assert_eq!(results[0].3, 0);
}

#[test]
fn three_worker_broadcast_scenario() {
    // Three workers; per-worker inbound queues stand in for the channel
    // fabric. Pushing a message to a peer clones it, as a real endpoint
    // consumes its own copy.
    let path = vec![0usize];
    let mut casters: Vec<Progcaster> =
        (0..3).map(|w| Progcaster::new(w, 3, &path)).collect();
    let mut queues: Vec<Vec<ProgressMsg>> = vec![Vec::new(), Vec::new(), Vec::new()];

    let k = key(0, 0, 5);
    let mut messages0 = CountMap::new();
    let mut internal0 = CountMap::new();
    internal0.update(k, 1);

    let outbound = casters[0].send_and_recv(&mut messages0, &mut internal0, &Vec::new());
    let msg = outbound.expect("worker 0 broadcasts its delta");
    for peer in [1usize, 2] {
        queues[peer].push(msg.clone());
    }
    assert_eq!(internal0.len(), 0);
    assert_eq!(messages0.len(), 0);

    for worker in [1usize, 2] {
        let mut messages = CountMap::new();
        let mut internal = CountMap::new();
        let inbound = std::mem::take(&mut queues[worker]);
        let outbound = casters[worker].send_and_recv(&mut messages, &mut internal, &inbound);
        assert!(outbound.is_none());
        assert_eq!(internal.get(k), 1);
        assert_eq!(internal.len(), 1);
        assert_eq!(messages.len(), 0);
    }

    // Worker 0 does not re-receive its own broadcast: nothing is queued for
    // it, so a later empty round leaves its maps empty.
    let inbound = std::mem::take(&mut queues[0]);
    let outbound = casters[0].send_and_recv(&mut messages0, &mut internal0, &inbound);
    assert!(outbound.is_none());
    assert_eq!(internal0.len(), 0);
    assert_eq!(internal0.get(k), 0);
}
