use std::collections::{HashMap, HashSet};

use process_usage::clock::return_time;
use process_usage::tracker::{
    add_process_close_time, add_process_open_time, process_analyze, record_snapshot,
    ProcessInfo, ProcessRecord, TrackingState,
};

fn snap(entries: &[(u32, &str)]) -> Vec<(u32, String)> {
    entries.iter().map(|(p, n)| (*p, n.to_string())).collect()
}

fn record<'a>(state: &'a TrackingState, pid: u32) -> &'a ProcessRecord {
    let found: Vec<&ProcessRecord> = state.records.iter().filter(|r| r.pid == pid).collect();
    assert_eq!(found.len(), 1, "exactly one record for pid {}", pid);
    found[0]
}

fn close_of(state: &TrackingState, pid: u32) -> Option<String> {
    record(state, pid).info.close_time.clone()
}

#[test]
fn process_info_new_is_open() {
    let info = ProcessInfo::new("bash".to_string(), "t0".to_string());
    assert_eq!(info.name, "bash");
    assert_eq!(info.open_time, "t0");
    assert_eq!(info.close_time, None);
}

#[test]
fn set_close_time_keeps_name_and_open() {
    let mut info = ProcessInfo::new("bash".to_string(), "t0".to_string());
    info.set_close_time("t1".to_string());
    assert_eq!(info.name, "bash");
    assert_eq!(info.open_time, "t0");
    assert_eq!(info.close_time, Some("t1".to_string()));
}

fn ids(pids: &[u32]) -> HashSet<u32> {
    pids.iter().copied().collect()
}

#[test]
fn open_time_added_once() {
    let mut recs: Vec<ProcessRecord> = Vec::new();
    let mut index: HashMap<u32, usize> = HashMap::new();
    add_process_open_time("a".to_string(), 7, &mut recs, &mut index, &"t1".to_string());
    add_process_open_time("renamed".to_string(), 7, &mut recs, &mut index, &"t2".to_string());
    assert_eq!(recs.len(), 1);
    assert_eq!(recs[0].pid, 7);
    assert_eq!(recs[0].info.name, "a");
    assert_eq!(recs[0].info.open_time, "t1");
    assert_eq!(recs[0].info.close_time, None);
    assert_eq!(index.get(&7), Some(&0));
    assert_eq!(index.len(), 1);
}

#[test]
fn close_time_only_when_missing_and_open() {
    let mut recs: Vec<ProcessRecord> = Vec::new();
    let mut index: HashMap<u32, usize> = HashMap::new();
    add_process_open_time("a".to_string(), 1, &mut recs, &mut index, &"t1".to_string());
    add_process_open_time("b".to_string(), 2, &mut recs, &mut index, &"t1".to_string());
    assert_eq!(index.get(&2), Some(&1));
    // still present: untouched
    add_process_close_time(1, &ids(&[1, 2]), &mut recs, &index, &"t2".to_string());
    assert_eq!(recs[0].info.close_time, None);
    // missing: closed
    add_process_close_time(1, &ids(&[2]), &mut recs, &index, &"t3".to_string());
    assert_eq!(recs[0].info.close_time, Some("t3".to_string()));
    assert_eq!(recs[1].info.close_time, None);
    // already closed: not overwritten
    add_process_close_time(1, &ids(&[2]), &mut recs, &index, &"t4".to_string());
    assert_eq!(recs[0].info.close_time, Some("t3".to_string()));
    // unknown identifier: nothing happens
    add_process_close_time(9, &ids(&[]), &mut recs, &index, &"t5".to_string());
    assert_eq!(recs.len(), 2);
    assert_eq!(recs[1].info.close_time, None);
}

#[test]
fn three_snapshot_scenario() {
    let mut state = TrackingState::new();
    process_analyze(&mut state, &snap(&[(1, "a")]), &"t1".to_string());
    process_analyze(&mut state, &snap(&[(1, "a"), (2, "b")]), &"t2".to_string());
    process_analyze(&mut state, &snap(&[(2, "b")]), &"t3".to_string());
    assert_eq!(state.records.len(), 2);
    let r1 = record(&state, 1);
    assert_eq!(r1.info.name, "a");
    assert_eq!(r1.info.open_time, "t1");
    assert_eq!(r1.info.close_time, Some("t3".to_string()));
    let r2 = record(&state, 2);
    assert_eq!(r2.info.name, "b");
    assert_eq!(r2.info.open_time, "t2");
    assert_eq!(r2.info.close_time, None);
    assert_eq!(state.live_set, vec![2]);
}

#[test]
fn open_time_is_first_appearance() {
    let mut state = TrackingState::new();
    process_analyze(&mut state, &snap(&[(3, "x")]), &"t1".to_string());
    process_analyze(&mut state, &snap(&[(3, "y"), (4, "z")]), &"t2".to_string());
    process_analyze(&mut state, &snap(&[(3, "x"), (4, "z")]), &"t3".to_string());
    let r3 = record(&state, 3);
    assert_eq!(r3.info.open_time, "t1");
    assert_eq!(r3.info.name, "x");
    assert_eq!(record(&state, 4).info.open_time, "t2");
}

#[test]
fn closing_is_idempotent() {
    let mut state = TrackingState::new();
    process_analyze(&mut state, &snap(&[(1, "a"), (2, "b")]), &"t1".to_string());
    process_analyze(&mut state, &snap(&[(2, "b")]), &"t2".to_string());
    process_analyze(&mut state, &snap(&[(2, "b")]), &"t3".to_string());
    process_analyze(&mut state, &snap(&[]), &"t4".to_string());
    assert_eq!(close_of(&state, 1), Some("t2".to_string()));
    assert_eq!(close_of(&state, 2), Some("t4".to_string()));
}

#[test]
fn no_reopening_after_close() {
    let mut state = TrackingState::new();
    process_analyze(&mut state, &snap(&[(5, "a")]), &"t1".to_string());
    process_analyze(&mut state, &snap(&[]), &"t2".to_string());
    process_analyze(&mut state, &snap(&[(5, "other")]), &"t3".to_string());
    process_analyze(&mut state, &snap(&[]), &"t4".to_string());
    assert_eq!(state.records.len(), 1);
    let r = record(&state, 5);
    assert_eq!(r.info.name, "a");
    assert_eq!(r.info.open_time, "t1");
    assert_eq!(r.info.close_time, Some("t2".to_string()));
}

#[test]
fn never_seen_gone_stays_open() {
    let mut state = TrackingState::new();
    process_analyze(&mut state, &snap(&[(1, "a")]), &"t1".to_string());
    process_analyze(&mut state, &snap(&[(1, "a")]), &"t2".to_string());
    assert_eq!(close_of(&state, 1), None);
}

#[test]
fn empty_snapshot_on_fresh_tracker() {
    let mut state = TrackingState::new();
    process_analyze(&mut state, &snap(&[]), &"t1".to_string());
    assert!(state.records.is_empty());
    assert!(state.live_set.is_empty());
}

#[test]
fn repeated_identifier_in_snapshot_keeps_first_name() {
    let mut state = TrackingState::new();
    process_analyze(&mut state, &snap(&[(8, "first"), (8, "second")]), &"t1".to_string());
    assert_eq!(state.records.len(), 1);
    assert_eq!(record(&state, 8).info.name, "first");
    assert_eq!(state.live_set, vec![8]);
}

#[test]
fn records_keep_first_seen_order() {
    let mut state = TrackingState::new();
    process_analyze(&mut state, &snap(&[(9, "i"), (4, "j")]), &"t1".to_string());
    process_analyze(&mut state, &snap(&[(6, "k"), (9, "i")]), &"t2".to_string());
    let pids: Vec<u32> = state.records.iter().map(|r| r.pid).collect();
    assert_eq!(pids, vec![9, 4, 6]);
    assert_eq!(state.index.get(&6), Some(&2));
    assert_eq!(close_of(&state, 4), Some("t2".to_string()));
}

fn looks_like_timestamp(s: &str) -> bool {
    let b = s.as_bytes();
    b.len() == 19
        && b.iter().enumerate().all(|(i, c)| match i {
            4 | 7 => *c == b'-',
            10 => *c == b' ',
            13 | 16 => *c == b':',
            _ => c.is_ascii_digit(),
        })
}

#[test]
fn return_time_has_report_format() {
    let t = return_time().expect("the clock reads a time between 1970 and 9999");
    assert!(looks_like_timestamp(&t), "unexpected timestamp {:?}", t);
    assert!(t.as_str() > "2020", "not the current year: {:?}", t);
}

#[test]
fn record_snapshot_uses_one_timestamp() {
    let mut state = TrackingState::new();
    let now = record_snapshot(&mut state, &snap(&[(1, "a"), (2, "b")])).unwrap();
    assert!(looks_like_timestamp(&now));
    assert_eq!(record(&state, 1).info.open_time, now);
    assert_eq!(record(&state, 2).info.open_time, now);
    let later = record_snapshot(&mut state, &snap(&[(2, "b")])).unwrap();
    assert_eq!(close_of(&state, 1), Some(later));
    assert_eq!(close_of(&state, 2), None);
}
