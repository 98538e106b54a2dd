use log_reasoner::grouper::LogGrouper;
use log_reasoner::grouper::filter_errors_only;
use log_reasoner::grouper::filter_min_count;
use log_reasoner::ingest::LogParser;
use log_reasoner::models::LogEvent;
use log_reasoner::models::LogGroup;
use log_reasoner::models::LogLevel;

fn event(level: Option<LogLevel>, message: &str) -> LogEvent {
    LogEvent { timestamp: None, level, message: message.to_string(), raw: message.to_string() }
}

#[test]
fn normalize_masks_numbers_uuids_and_ips() {
    let g = LogGrouper::new();
    assert_eq!(g.normalize_message("conn to 10.0.0.1 failed"), "conn to <VAR> failed");
    assert_eq!(g.normalize_message("took 3.14 seconds"), "took <VAR> seconds");
    assert_eq!(
        g.normalize_message("req 550e8400-e29b-41d4-a716-446655440000 done"),
        "req <VAR> done"
    );
    assert_eq!(g.normalize_message("worker 17 exited"), "worker <VAR> exited");
}

#[test]
fn quad_of_four_digits_is_not_an_address() {
    let g = LogGrouper::new();
    // not a dotted quad: the numbers are masked one by one instead
    assert_eq!(g.normalize_message("addr 10.0.0.1234 x"), "addr <VAR>.<VAR> x");
}

#[test]
fn normalize_collapses_whitespace() {
    let g = LogGrouper::new();
    assert_eq!(g.normalize_message("  a   b  "), "a b");
}

#[test]
fn normalize_is_idempotent_on_samples() {
    let g = LogGrouper::new();
    for m in [
        "conn to 10.0.0.1 failed",
        "req 550e8400-e29b-41d4-a716-446655440000 done",
        "took 3.14  seconds",
        "v1.2.3 release",
        "   plain   words   ",
        "",
    ] {
        let once = g.normalize_message(m);
        let twice = g.normalize_message(&once);
        assert_eq!(once, twice);
    }
}

#[test]
fn messages_differing_in_variables_share_a_key() {
    let g = LogGrouper::new();
    let a = g.normalize_message("conn to 10.0.0.1 failed");
    let b = g.normalize_message("conn to 10.0.0.2 failed");
    assert_eq!(a, b);
    let c = g.normalize_message("req 550e8400-e29b-41d4-a716-446655440000 done");
    let d = g.normalize_message("req 123e4567-e89b-12d3-a456-426614174000 done");
    assert_eq!(c, d);
    let e = g.normalize_message("retry 3 of 5");
    let f = g.normalize_message("retry 4 of 5");
    assert_eq!(e, f);
}

#[test]
fn messages_differing_in_several_variables_share_a_key() {
    let g = LogGrouper::new();
    let a = g.normalize_message("user 17 from 10.0.0.1 failed after 1.5 s");
    let b = g.normalize_message("user 99 from 10.0.0.2 failed after 12.25 s");
    assert_eq!(a, b);
    assert_eq!(a, "user <VAR> from <VAR> failed after <VAR> s");
}

#[test]
fn group_counts_sum_to_event_count() {
    let g = LogGrouper::new();
    let events = vec![
        event(None, "conn to 10.0.0.1 failed"),
        event(None, "conn to 10.0.0.2 failed"),
        event(None, "heartbeat"),
        event(None, "disk 7 full"),
        event(None, "disk 8 full"),
        event(None, "disk 9 full"),
    ];
    let n = events.len();
    let groups = g.group_events(events);
    let total: usize = groups.iter().map(|x| x.count).sum();
    assert_eq!(total, n);
    assert_eq!(groups.len(), 3);
}

#[test]
fn groups_ranked_by_descending_count_ties_keep_first_encounter_order() {
    let g = LogGrouper::new();
    let events = vec![
        event(None, "single one"),
        event(None, "pair left"),
        event(None, "single two"),
        event(None, "pair left"),
    ];
    let groups = g.group_events(events);
    assert_eq!(groups.len(), 3);
    assert_eq!(groups[0].pattern, "pair left");
    assert_eq!(groups[0].count, 2);
    // equal counts: "single one" was encountered before "single two"
    assert_eq!(groups[1].pattern, "single one");
    assert_eq!(groups[2].pattern, "single two");
}

#[test]
fn dominant_level_ties_are_sticky() {
    // Warn reaches the running maximum first and is never strictly
    // exceeded, so it stays dominant over [Warn, Error, Warn].
    let mut g = LogGroup::new("p".to_string());
    g.add_event(event(Some(LogLevel::Warn), "m"));
    assert_eq!(g.dominant_level, Some(LogLevel::Warn));
    g.add_event(event(Some(LogLevel::Error), "m"));
    assert_eq!(g.dominant_level, Some(LogLevel::Warn));
    g.add_event(event(Some(LogLevel::Warn), "m"));
    assert_eq!(g.dominant_level, Some(LogLevel::Warn));
    assert_eq!(g.count, 3);
}

#[test]
fn dominant_level_changes_on_strict_majority() {
    let mut g = LogGroup::new("p".to_string());
    g.add_event(event(Some(LogLevel::Warn), "m"));
    g.add_event(event(Some(LogLevel::Error), "m"));
    g.add_event(event(Some(LogLevel::Error), "m"));
    assert_eq!(g.dominant_level, Some(LogLevel::Error));
}

#[test]
fn events_without_level_leave_dominant_absent() {
    let mut g = LogGroup::new("p".to_string());
    g.add_event(event(None, "m"));
    g.add_event(event(None, "m"));
    assert_eq!(g.dominant_level, None);
    assert_eq!(g.count, 2);
}

#[test]
fn time_window_expands_to_min_and_max() {
    let mut g = LogGroup::new("p".to_string());
    let mut e1 = event(None, "m");
    e1.timestamp = Some(50);
    let mut e2 = event(None, "m");
    e2.timestamp = Some(20);
    let mut e3 = event(None, "m");
    e3.timestamp = Some(80);
    g.add_event(e1);
    g.add_event(e2);
    g.add_event(e3);
    assert_eq!(g.time_window, Some((20, 80)));
}

#[test]
fn get_stats_of_empty_groups_is_all_zero() {
    let st = LogGrouper::get_stats(&[]);
    assert_eq!(st.total_events, 0);
    assert_eq!(st.unique_patterns, 0);
    assert_eq!(st.largest_group, 0);
}

#[test]
fn get_stats_totals() {
    let g = LogGrouper::new();
    let events = vec![
        event(None, "a 1"),
        event(None, "a 2"),
        event(None, "b"),
    ];
    let groups = g.group_events(events);
    let st = LogGrouper::get_stats(&groups);
    assert_eq!(st.total_events, 3);
    assert_eq!(st.unique_patterns, 2);
    assert_eq!(st.largest_group, 2);
}

#[test]
fn get_stats_largest_is_the_maximum_even_unranked() {
    // the largest group is the maximum count, wherever it stands
    let mut small = LogGroup::new("s".to_string());
    small.add_event(event(None, "s"));
    let mut big = LogGroup::new("b".to_string());
    big.add_event(event(None, "b"));
    big.add_event(event(None, "b"));
    let groups = vec![small, big];
    let st = LogGrouper::get_stats(&groups);
    assert_eq!(st.largest_group, 2);
    assert_eq!(st.total_events, 3);
}

#[test]
fn filter_errors_only_keeps_error_events() {
    let events = vec![
        event(Some(LogLevel::Error), "boom"),
        event(Some(LogLevel::Info), "ok"),
        event(None, "plain"),
        event(Some(LogLevel::Error), "bang"),
    ];
    let kept = filter_errors_only(events);
    assert_eq!(kept.len(), 2);
    assert_eq!(kept[0].message, "boom");
    assert_eq!(kept[1].message, "bang");
}

#[test]
fn filter_min_count_drops_small_groups() {
    let g = LogGrouper::new();
    let events = vec![
        event(None, "x 1"),
        event(None, "x 2"),
        event(None, "y"),
    ];
    let groups = g.group_events(events);
    let kept = filter_min_count(groups, 2);
    assert_eq!(kept.len(), 1);
    assert_eq!(kept[0].pattern, "x <VAR>");
}

#[test]
fn end_to_end_three_lines() {
    let p = LogParser::new();
    let lines = vec![
        "2024-01-05T12:00:00Z ERROR conn to 10.0.0.1 failed".to_string(),
        "2024-01-05T12:00:05Z ERROR conn to 10.0.0.2 failed".to_string(),
        "2024-01-05T12:00:10Z INFO heartbeat".to_string(),
    ];
    let events = p.parse_lines(&lines);
    let g = LogGrouper::new();
    let groups = g.group_events(events);
    assert_eq!(groups.len(), 2);
    assert_eq!(groups[0].pattern, "conn to <VAR> failed");
    assert_eq!(groups[0].count, 2);
    assert_eq!(groups[0].dominant_level, Some(LogLevel::Error));
    let (start, end) = groups[0].time_window.unwrap();
    assert_eq!(end - start, 5_000);
    assert_eq!(groups[1].pattern, "heartbeat");
    assert_eq!(groups[1].count, 1);
    let st = LogGrouper::get_stats(&groups);
    assert_eq!(st.total_events, 3);
    assert_eq!(st.unique_patterns, 2);
    assert_eq!(st.largest_group, 2);
}
