use process_usage::schedule::{accept_period, total_ticks, ReportCycle, Step};

#[test]
fn total_ticks_truncates() {
    assert_eq!(total_ticks(5, 17), 3);
    assert_eq!(total_ticks(5, 15), 3);
    assert_eq!(total_ticks(20, 17), 0);
    assert_eq!(total_ticks(1, i32::MAX), i32::MAX);
    assert_eq!(total_ticks(7, 0), 0);
}

#[test]
fn periods_must_be_positive() {
    assert_eq!(accept_period(5), Some(5));
    assert_eq!(accept_period(1), Some(1));
    assert_eq!(accept_period(0), None);
    assert_eq!(accept_period(-3), None);
}

#[test]
fn cycle_samples_then_reports() {
    let mut cycle = ReportCycle::new(5, 17);
    assert_eq!(cycle.total_ticks, 3);
    let mut steps = Vec::new();
    for _ in 0..8 {
        steps.push(matches!(cycle.next_step(), Step::Report));
    }
    assert_eq!(steps, vec![false, false, false, true, false, false, false, true]);
}

#[test]
fn cycle_without_samples_only_reports() {
    let mut cycle = ReportCycle::new(20, 17);
    assert!(matches!(cycle.next_step(), Step::Report));
    assert!(matches!(cycle.next_step(), Step::Report));
}
