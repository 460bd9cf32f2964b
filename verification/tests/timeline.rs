use std::cmp::Ordering;

use binfs::timeline::{
    contains_string, follow_confirmed, follow_precheck, following_list, gc_victims,
    is_following, latest_tribs, listed_users, post_too_long, should_register, sort_tribs,
    trib_before, trib_order, unfollow_confirmed, unfollow_precheck, FollowEntry, FollowRefusal,
    Trib,
};

fn trib(user: &str, message: &str, time: u64, clock: u64) -> Trib {
    Trib {
        user: user.to_string(),
        message: message.to_string(),
        time,
        clock,
    }
}

fn entry(clock: u64, follow: bool, target: &str) -> FollowEntry {
    FollowEntry {
        clock,
        follow,
        target: target.to_string(),
    }
}

fn strings(v: &[&str]) -> Vec<String> {
    v.iter().map(|s| s.to_string()).collect()
}

#[test]
fn tribbles_order_by_clock_time_user_message() {
    let a = trib("bob", "x", 5, 1);
    let b = trib("alice", "x", 1, 2);
    assert_eq!(trib_order(&a, &b), Ordering::Less);
    assert_eq!(trib_order(&b, &a), Ordering::Greater);
    assert_eq!(trib_order(&a, &a.clone()), Ordering::Equal);
    let c = trib("alice", "x", 4, 1);
    assert!(trib_before(&c, &a));
    let d = trib("alice", "y", 5, 1);
    assert!(trib_before(&d, &a));
    let e = trib("bob", "w", 5, 1);
    assert!(trib_before(&e, &a));
}

#[test]
fn sorting_and_timelines_keep_the_latest() {
    let tribs = vec![
        trib("c", "3", 0, 3),
        trib("a", "1", 0, 1),
        trib("b", "2", 0, 2),
        trib("a", "1", 0, 1),
    ];
    let sorted = sort_tribs(&tribs);
    let clocks: Vec<u64> = sorted.iter().map(|t| t.clock).collect();
    assert_eq!(clocks, vec![1, 1, 2, 3]);
    let latest = latest_tribs(&tribs, 2);
    assert_eq!(latest, vec![trib("b", "2", 0, 2), trib("c", "3", 0, 3)]);
    assert_eq!(latest_tribs(&tribs, 10).len(), 4);
    assert!(latest_tribs(&tribs, 0).is_empty());
}

#[test]
fn collection_removes_the_oldest_past_the_limit() {
    let tribs = vec![
        trib("a", "3", 0, 3),
        trib("a", "1", 0, 1),
        trib("a", "2", 0, 2),
    ];
    assert!(gc_victims(12, &tribs, 2).is_empty());
    assert_eq!(gc_victims(13, &tribs, 2), vec![trib("a", "1", 0, 1)]);
    assert!(gc_victims(13, &tribs, 5).is_empty());
}

#[test]
fn listings_are_sorted_distinct_and_bounded() {
    let names = strings(&["carol", "alice", "bob", "alice"]);
    assert_eq!(listed_users(&names, 20), strings(&["alice", "bob", "carol"]));
    assert_eq!(listed_users(&names, 2), strings(&["alice", "bob"]));
    assert!(should_register(&names, "dave", 20));
    assert!(!should_register(&names, "bob", 20));
    assert!(!should_register(&names, "dave", 4));
}

#[test]
fn posts_are_measured_in_bytes() {
    assert!(!post_too_long("hello", 5));
    assert!(post_too_long("héllo", 5));
    assert!(!post_too_long("", 0));
}

#[test]
fn the_follow_log_decides_who_is_followed() {
    let log = vec![
        entry(1, true, "bob"),
        entry(2, false, "bob"),
        entry(3, true, "carol"),
        entry(4, true, "bob"),
        entry(5, true, "bob"),
        entry(2, true, "dave"),
        entry(1, false, "dave"),
    ];
    assert!(is_following(&log, "bob"));
    assert!(is_following(&log, "carol"));
    assert!(is_following(&log, "dave"));
    assert!(!is_following(&log, "erin"));
    let mut following = following_list(&log);
    following.sort();
    assert_eq!(following, strings(&["bob", "carol", "dave"]));

    assert!(follow_confirmed(&log, "bob", 4));
    assert!(!follow_confirmed(&log, "bob", 5));
    assert!(!follow_confirmed(&log, "bob", 1));
    assert!(follow_confirmed(&log, "dave", 2));
}

#[test]
fn an_unfollow_is_confirmed_by_the_start_of_the_last_run() {
    let log = vec![
        entry(1, true, "bob"),
        entry(3, false, "bob"),
        entry(4, false, "bob"),
    ];
    assert!(!is_following(&log, "bob"));
    assert!(unfollow_confirmed(&log, "bob", 3));
    assert!(!unfollow_confirmed(&log, "bob", 4));
    assert!(!unfollow_confirmed(&vec![entry(1, false, "bob")], "bob", 1));
    assert!(following_list(&log).is_empty());
}

#[test]
fn follows_are_checked_before_they_are_written() {
    let following = strings(&["bob", "carol"]);
    assert_eq!(
        follow_precheck(&following, "bob", 10),
        Err(FollowRefusal::AlreadyFollowing)
    );
    assert_eq!(
        follow_precheck(&following, "dave", 2),
        Err(FollowRefusal::FollowingTooMany)
    );
    assert_eq!(follow_precheck(&following, "dave", 3), Ok(()));
    assert_eq!(unfollow_precheck(&following, "carol"), Ok(()));
    assert_eq!(
        unfollow_precheck(&following, "dave"),
        Err(FollowRefusal::NotFollowing)
    );
    assert!(contains_string(&following, "carol"));
    assert!(!contains_string(&following, "car"));
}
