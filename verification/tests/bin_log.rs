use binfs::bin_log::{
    append_outcome, clock_after_reply, merged_reads, count_value, kv_log_entry, kv_prefixed_key, kv_remove_prefix, latest_entry_index,
    latest_kv_value, list_log_entry, list_prefixed_key, list_remove_prefix, missing_entry,
    parse_list_log, parse_list_log_entry, present_value, replay_list,
};

fn strings(v: &[&str]) -> Vec<String> {
    v.iter().map(|s| s.to_string()).collect()
}

#[test]
fn backend_keys_carry_the_bin_and_the_key() {
    assert_eq!(kv_prefixed_key("alice", "signed_up"), "key::alice::signed_up");
    assert_eq!(list_prefixed_key("alice", "tribs"), "list::alice::tribs");
    assert_eq!(
        kv_remove_prefix("alice", "key::alice::signed_up"),
        Some("signed_up".to_string())
    );
    assert_eq!(kv_remove_prefix("alice", "key::bob::signed_up"), None);
    assert_eq!(kv_remove_prefix("alice", "list::alice::tribs"), None);
    assert_eq!(
        list_remove_prefix("alice", "list::alice::tribs"),
        Some("tribs".to_string())
    );
    assert_eq!(list_remove_prefix("alice", "list::alic"), None);
}

#[test]
fn log_entries_are_written_with_their_clock() {
    assert_eq!(kv_log_entry(0, "v"), "0::v");
    assert_eq!(kv_log_entry(1234, ""), "1234::");
    assert_eq!(list_log_entry(true, 7, "x"), "append::7::x");
    assert_eq!(list_log_entry(false, 18446744073709551615, "x"), "remove::18446744073709551615::x");
}

#[test]
fn the_latest_entry_has_the_highest_clock_last_one_winning_ties() {
    let log = strings(&["1::a", "2::b", "bad", "x::y", "2::c", "0::d"]);
    assert_eq!(latest_entry_index(&log), Some(4));
    assert_eq!(latest_kv_value(&log), Some("c".to_string()));
    assert_eq!(latest_kv_value(&strings(&["oops", "5"])), None);
    assert_eq!(latest_kv_value(&vec![]), None);
}

#[test]
fn a_value_reads_back_after_it_is_written() {
    let mut log = strings(&["3::old", "1::older"]);
    log.push(kv_log_entry(3, "new"));
    assert_eq!(latest_kv_value(&log), Some("new".to_string()));
    log.push(kv_log_entry(4, ""));
    assert_eq!(latest_kv_value(&log).and_then(present_value), None);
    assert_eq!(present_value("v".to_string()), Some("v".to_string()));
}

#[test]
fn list_entries_parse_or_are_ignored() {
    let e = parse_list_log_entry("append::3::x::y").unwrap();
    assert!(e.append);
    assert_eq!(e.clock, 3);
    assert_eq!(e.value, "x::y");
    assert_eq!(e.raw, "append::3::x::y");
    let r = parse_list_log_entry("remove::0::").unwrap();
    assert!(!r.append);
    assert_eq!(r.value, "");
    assert!(parse_list_log_entry("insert::3::x").is_none());
    assert!(parse_list_log_entry("append::three::x").is_none());
    assert!(parse_list_log_entry("append::3").is_none());
    assert!(parse_list_log_entry("").is_none());
}

#[test]
fn a_list_log_replays_in_clock_order_once_per_entry() {
    let log = strings(&[
        "append::2::b",
        "append::1::a",
        "append::2::b",
        "remove::3::a",
        "junk",
        "append::2::a",
    ]);
    let entries = parse_list_log(&log);
    let raws: Vec<&str> = entries.iter().map(|e| e.raw.as_str()).collect();
    assert_eq!(raws, vec!["append::1::a", "append::2::a", "append::2::b", "remove::3::a"]);
    assert_eq!(replay_list(&entries, None), strings(&["b"]));
    assert_eq!(replay_list(&entries, Some(3)), strings(&["a", "a", "b"]));
    assert_eq!(replay_list(&entries, Some(0)), Vec::<String>::new());
}

#[test]
fn removal_counts_every_copy() {
    let list = strings(&["a", "b", "a", "c"]);
    assert_eq!(count_value(&list, &"a".to_string()), 2);
    assert_eq!(count_value(&list, &"z".to_string()), 0);
}

#[test]
fn repairs_append_only_missing_entries() {
    let target = strings(&["1::a", "2::b"]);
    assert!(!missing_entry(&target, "1::a"));
    assert!(missing_entry(&target, "3::c"));
}

#[test]
fn a_list_reads_back_appends_and_removals() {
    let mut log = strings(&["append::1::a", "append::2::b", "append::2::a"]);
    let before = replay_list(&parse_list_log(&log), None);
    log.push(list_log_entry(true, 3, "c"));
    let mut expected = before.clone();
    expected.push("c".to_string());
    assert_eq!(replay_list(&parse_list_log(&log), None), expected);
    log.push(list_log_entry(false, 4, "a"));
    assert_eq!(replay_list(&parse_list_log(&log), None), strings(&["b", "c"]));
}

#[test]
fn replica_replies_are_combined() {
    assert_eq!(append_outcome(&vec![None, None]), None);
    assert_eq!(append_outcome(&vec![Some(false), None]), Some(false));
    assert_eq!(append_outcome(&vec![Some(false), Some(true)]), Some(true));
    assert_eq!(append_outcome(&vec![]), None);
    assert_eq!(merged_reads(&vec![None, None]), None);
    assert_eq!(
        merged_reads(&vec![Some(strings(&["a"])), None, Some(strings(&["b", "a"]))]),
        Some(strings(&["a", "b", "a"]))
    );
    assert_eq!(merged_reads(&vec![Some(vec![])]), Some(vec![]));
    assert_eq!(clock_after_reply(5, Some(9)), 9);
    assert_eq!(clock_after_reply(5, Some(3)), 5);
    assert_eq!(clock_after_reply(5, None), 5);
}

#[test]
fn merged_replica_logs_replay_the_same_way() {
    let one = strings(&["append::1::a", "remove::2::a", "append::3::b"]);
    let merged = strings(&[
        "append::3::b",
        "append::1::a",
        "remove::2::a",
        "append::1::a",
        "append::3::b",
    ]);
    let raws = |log: &Vec<String>| -> Vec<String> {
        parse_list_log(log).into_iter().map(|e| e.raw).collect()
    };
    assert_eq!(raws(&one), raws(&merged));
    assert_eq!(
        replay_list(&parse_list_log(&merged), None),
        strings(&["b"])
    );
}
