use process_usage::summary::{summarize_processes, NameUsage};
use process_usage::tracker::{process_analyze, ProcessInfo, ProcessRecord, TrackingState};

fn rec(pid: u32, name: &str, open: &str, close: Option<&str>) -> ProcessRecord {
    ProcessRecord {
        pid,
        info: ProcessInfo {
            name: name.to_string(),
            open_time: open.to_string(),
            close_time: close.map(|c| c.to_string()),
        },
    }
}

fn flat(summary: &[NameUsage]) -> Vec<(String, usize, Vec<(String, Option<String>)>)> {
    summary
        .iter()
        .map(|u| {
            let iv = u.intervals.iter().map(|i| (i.open.clone(), i.close.clone())).collect();
            (u.name.clone(), u.occurrences, iv)
        })
        .collect()
}

#[test]
fn summary_of_three_snapshot_scenario() {
    let mut state = TrackingState::new();
    let s1 = vec![(1, "a".to_string())];
    let s2 = vec![(1, "a".to_string()), (2, "b".to_string())];
    let s3 = vec![(2, "b".to_string())];
    process_analyze(&mut state, &s1, &"t1".to_string());
    process_analyze(&mut state, &s2, &"t2".to_string());
    process_analyze(&mut state, &s3, &"t3".to_string());
    let summary = summarize_processes(&state.records);
    assert_eq!(summary.len(), 2);
    let a = summary.iter().find(|u| u.name == "a").unwrap();
    assert_eq!(a.occurrences, 1);
    assert_eq!(a.intervals.len(), 1);
    assert_eq!(a.intervals[0].open, "t1");
    assert_eq!(a.intervals[0].close, Some("t3".to_string()));
    let b = summary.iter().find(|u| u.name == "b").unwrap();
    assert_eq!(b.occurrences, 1);
    assert_eq!(b.intervals[0].open, "t2");
    assert_eq!(b.intervals[0].close, None);
}

#[test]
fn summary_of_no_records_is_empty() {
    assert!(summarize_processes(&vec![]).is_empty());
}

#[test]
fn occurrences_count_records_by_name() {
    let recs = vec![
        rec(1, "sh", "t1", Some("t2")),
        rec(2, "vim", "t1", None),
        rec(3, "sh", "t2", None),
        rec(4, "sh", "t3", Some("t4")),
    ];
    let summary = summarize_processes(&recs);
    assert_eq!(
        flat(&summary),
        vec![
            (
                "sh".to_string(),
                3,
                vec![
                    ("t1".to_string(), Some("t2".to_string())),
                    ("t2".to_string(), None),
                    ("t3".to_string(), Some("t4".to_string())),
                ]
            ),
            ("vim".to_string(), 1, vec![("t1".to_string(), None)]),
        ]
    );
}

#[test]
fn summarize_twice_gives_same_report() {
    let recs = vec![rec(1, "a", "t1", None), rec(2, "b", "t1", Some("t2")), rec(3, "a", "t2", None)];
    let first = summarize_processes(&recs);
    let second = summarize_processes(&recs);
    assert_eq!(flat(&first), flat(&second));
    assert_eq!(recs.len(), 3);
}
