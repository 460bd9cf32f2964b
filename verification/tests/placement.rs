use std::hash::{DefaultHasher, Hash, Hasher};

use binfs::placement::{
    bin_name_from_key, get_hash_index, get_live_backend_indices, next_live_backend_index,
    previous_live_backend_index, LiveProbe, PlacementError,
};

fn std_hash(name: &str) -> u64 {
    let mut hasher = DefaultHasher::new();
    name.hash(&mut hasher);
    hasher.finish()
}

/// The first two live backends in ring order from `start`, computed directly.
fn expected_replicas(start: usize, live: &[bool]) -> Vec<usize> {
    (0..live.len())
        .map(|o| (start + o) % live.len())
        .filter(|&i| live[i])
        .take(2)
        .collect()
}

#[test]
fn hash_index_is_the_default_hash_modulo_the_ring() {
    for name in ["alice", "bob", "__users__", ""] {
        for n in [1usize, 2, 3, 7, 64] {
            assert_eq!(get_hash_index(name, n), std_hash(name) as usize % n);
        }
    }
}

#[test]
fn replicas_are_the_first_two_live_in_ring_order() {
    let live = [true, false, true, true, false, true];
    for name in ["alice", "bob", "carol", "dave", "erin"] {
        let start = get_hash_index(name, live.len());
        assert_eq!(
            get_live_backend_indices(name, &live).unwrap(),
            expected_replicas(start, &live)
        );
    }
    let one = [false, false, true];
    assert_eq!(get_live_backend_indices("x", &one).unwrap(), vec![2]);
}

#[test]
fn placement_errors() {
    assert_eq!(
        get_live_backend_indices("x", &[]),
        Err(PlacementError::NoBackends)
    );
    assert_eq!(
        get_live_backend_indices("x", &[false, false]),
        Err(PlacementError::NoLiveBackends)
    );
}

#[test]
fn ring_neighbours_skip_dead_backends() {
    let live = [true, false, true, false];
    assert_eq!(next_live_backend_index(0, &live), Some(2));
    assert_eq!(previous_live_backend_index(0, &live), Some(2));
    assert_eq!(next_live_backend_index(1, &live), Some(2));
    assert_eq!(previous_live_backend_index(1, &live), Some(0));
    assert_eq!(next_live_backend_index(3, &live), Some(0));
    assert_eq!(previous_live_backend_index(3, &live), Some(2));
    assert_eq!(next_live_backend_index(0, &[true, false]), None);
    assert_eq!(previous_live_backend_index(0, &[true]), None);
    assert_eq!(next_live_backend_index(0, &[]), None);
    assert_eq!(previous_live_backend_index(0, &[]), None);
}

#[test]
fn bin_names_come_from_backend_keys() {
    assert_eq!(bin_name_from_key("key::alice::signed_up"), Some("alice".to_string()));
    assert_eq!(bin_name_from_key("list::bob::tribs"), Some("bob".to_string()));
    assert_eq!(bin_name_from_key("other::x::y"), Some("other".to_string()));
    assert_eq!(bin_name_from_key("key::lonely"), Some("key".to_string()));
    assert_eq!(bin_name_from_key("no separator"), None);
    assert_eq!(bin_name_from_key("a:b::c"), Some("a:b".to_string()));
}

#[test]
fn a_probe_walk_finds_the_replicas_and_the_clock() {
    let live = [false, true, true, false, true];
    let clocks = [0u64, 40, 7, 0, 99];
    for name in ["alice", "bob", "carol", "dave"] {
        let mut probe = LiveProbe::new(name, live.len());
        let mut asked = Vec::new();
        while let Some(i) = probe.next_probe() {
            asked.push(i);
            probe.record(if live[i] { Some(clocks[i]) } else { None });
        }
        let (found, max_clock) = probe.outcome().unwrap();
        assert_eq!(found, get_live_backend_indices(name, &live).unwrap());
        assert_eq!(max_clock, found.iter().map(|&i| clocks[i]).max().unwrap());
        let start = get_hash_index(name, live.len());
        assert_eq!(asked[0], start);
        assert!(asked.len() <= live.len());
    }
}

#[test]
fn a_probe_walk_with_no_answer_finds_nothing() {
    let mut probe = LiveProbe::new("alice", 3);
    let mut asked = 0;
    while probe.next_probe().is_some() {
        probe.record(None);
        asked += 1;
    }
    assert_eq!(asked, 3);
    assert!(probe.outcome().is_none());
}
