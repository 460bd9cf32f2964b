use binfs::keeper::{
    clock_write_targets, copy_candidates, heartbeat_reads, stagger_ms, heartbeat_writes, initial_repair_queue, is_replica_pair,
    keeper_tick, left_repair_target, member_list, BackendHealth, RepairQueues,
};
use binfs::placement::get_live_backend_indices;

fn up(clock: Option<u64>) -> BackendHealth {
    BackendHealth {
        alive: true,
        last_clock: clock,
    }
}

fn strings(v: &[&str]) -> Vec<String> {
    v.iter().map(|s| s.to_string()).collect()
}

#[test]
fn heartbeat_reads_find_restarts_and_the_largest_clock() {
    let mut health = vec![up(Some(10)), up(Some(10)), up(None), up(Some(5))];
    let replies = vec![Some(Some(12)), Some(Some(3)), Some(None), None];
    let (restarted, max_clock) = heartbeat_reads(&mut health, &replies);
    assert_eq!(restarted, vec![false, true, false, false]);
    assert_eq!(max_clock, 12);
    assert_eq!(health[0], up(Some(10)));
    assert_eq!(
        health[2],
        BackendHealth {
            alive: false,
            last_clock: None
        }
    );
    assert_eq!(health[3], up(Some(5)));
}

#[test]
fn heartbeat_reads_with_no_reply_keep_clock_zero() {
    let mut health = vec![up(None)];
    let (restarted, max_clock) = heartbeat_reads(&mut health, &vec![Some(None)]);
    assert_eq!(restarted, vec![false]);
    assert_eq!(max_clock, 0);
}

#[test]
fn heartbeat_writes_record_clocks_and_failures() {
    let mut health = vec![up(Some(1)), up(Some(2)), up(Some(3))];
    heartbeat_writes(&mut health, &vec![Some(Some(20)), Some(None), None]);
    assert_eq!(health[0], up(Some(20)));
    assert_eq!(
        health[1],
        BackendHealth {
            alive: false,
            last_clock: None
        }
    );
    assert_eq!(health[2], up(Some(3)));
}

#[test]
fn the_first_queue_holds_the_neighbours_of_dead_backends() {
    assert_eq!(
        initial_repair_queue(&vec![true, false, true, true]),
        vec![true, false, true, false]
    );
    assert_eq!(initial_repair_queue(&vec![true, true]), vec![false, false]);
    assert_eq!(member_list(&vec![false, true, true, false, true]), vec![1, 2, 4]);
}

#[test]
fn a_keeper_tick_queues_and_drops_repairs() {
    let mut queues = RepairQueues {
        left: vec![false, false, false, false],
        rejoin: vec![false, false, false, true],
    };
    let old_live = vec![true, true, false, true];
    let new_live = vec![true, false, true, false];
    let restarted = vec![true, false, false, false];
    let (left, rejoin) = keeper_tick(&mut queues, &old_live, &new_live, &restarted);
    // Backends 1 and 3 went down: their live neighbours are 0 and 2.
    assert_eq!(left, vec![0, 2]);
    // Backend 2 came back, backend 0 restarted, backend 3 is down again.
    assert_eq!(rejoin, vec![0, 2]);
    assert_eq!(queues.left, vec![true, false, true, false]);
    assert_eq!(queues.rejoin, vec![true, false, true, false]);

    // A later tick with nothing new keeps what is queued while it stays live.
    let (left, rejoin) = keeper_tick(
        &mut queues,
        &new_live,
        &vec![true, false, false, false],
        &vec![false; 4],
    );
    assert_eq!(left, vec![0]);
    assert_eq!(rejoin, vec![0]);
}

#[test]
fn repairs_copy_only_between_a_bins_two_replicas() {
    let live = [true, true, false, true];
    for name in ["alice", "bob", "carol", "dave", "erin"] {
        let replicas = get_live_backend_indices(name, &live).unwrap();
        let (first, second) = (replicas[0], replicas[1]);
        assert_eq!(left_repair_target(name, &live, first), Some(second));
        assert_eq!(left_repair_target(name, &live, second), None);
        assert_eq!(left_repair_target(name, &live, 2), None);
        assert_eq!(left_repair_target(name, &live, 9), None);
        assert!(is_replica_pair(name, &live, first, second));
        assert!(!is_replica_pair(name, &live, second, first));
    }
    assert_eq!(left_repair_target("x", &[true, false], 0), None);
    assert!(!is_replica_pair("x", &[false, false], 0, 1));
}

#[test]
fn copy_candidates_follow_the_kind_of_log() {
    let log = strings(&["1::a", "3::b", "bad", "2::c", "3::d"]);
    assert_eq!(copy_candidates("key::bin::k", &log), strings(&["3::d"]));
    assert_eq!(copy_candidates("list::bin::k", &log), log);
    assert!(copy_candidates("other::bin::k", &log).is_empty());
    assert!(copy_candidates("key::bin::k", &strings(&["x", "y::z"])).is_empty());
}

#[test]
fn clock_writes_go_to_live_backends() {
    let health = vec![
        up(Some(1)),
        BackendHealth {
            alive: false,
            last_clock: None,
        },
        up(None),
    ];
    assert_eq!(clock_write_targets(&health), vec![true, false, true]);
}

#[test]
fn keepers_wait_a_staggered_delay() {
    assert_eq!(stagger_ms(0, 0, 1), 1);
    assert_eq!(stagger_ms(3, 4, 45), 2);
    assert_eq!(stagger_ms(100, 20, 30), 0);
    assert_eq!(stagger_ms(u64::MAX - 5, 5, u64::MAX), ((u64::MAX % 50) + (u64::MAX % 50)) % 50);
}
