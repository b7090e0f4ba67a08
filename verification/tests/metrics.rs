use velocity_code::calendar::{civil_from_days, date_string};
use velocity_code::json::Json;
use velocity_code::metrics::{
    aggregate, format_human, metric_lines, metrics_date, percentile_nearest_rank, to_json,
    GainReport, MetricRecord, ReadSavings, VerbStats,
};

fn rec(
    verb: &str,
    ms: u64,
    refusal: Option<&str>,
    bytes_out: Option<u64>,
    naive_bytes: Option<u64>,
) -> MetricRecord {
    MetricRecord {
        date: "2026-08-28".to_string(),
        verb: verb.to_string(),
        ms,
        refusal: refusal.map(|r| r.to_string()),
        bytes_out,
        naive_bytes,
    }
}

fn parse(date: &str, line: &str) -> Option<MetricRecord> {
    let v: serde_json::Value = serde_json::from_str(line).ok()?;
    Some(MetricRecord {
        date: date.to_string(),
        verb: v.get("verb")?.as_str()?.to_string(),
        ms: v.get("ms").and_then(|m| m.as_u64()).unwrap_or(0),
        refusal: v.get("refusal").and_then(|r| r.as_str()).map(|r| r.to_string()),
        bytes_out: v.get("bytes_out").and_then(|b| b.as_u64()),
        naive_bytes: v.get("naive_bytes").and_then(|b| b.as_u64()),
    })
}

fn verb<'a>(report: &'a GainReport, name: &str) -> &'a VerbStats {
    report.verbs.get(&name.to_string()).unwrap()
}

fn number(j: &Json) -> u64 {
    match j {
        Json::Number(n) => *n,
        other => panic!("no number: {:?}", other),
    }
}

#[test]
fn civil_from_days_matches_known_anchors() {
    assert_eq!(civil_from_days(0), (1970, 1, 1));
    let ts_2026_08_28: u64 = 1_787_875_200;
    assert_eq!(date_string(ts_2026_08_28), "2026-08-28");
    assert_eq!(civil_from_days(11_017), (2000, 3, 1));
    assert_eq!(civil_from_days(-1), (1969, 12, 31));
}

#[test]
fn percentile_nearest_rank_examples() {
    let v = [1u64, 2, 3, 4, 5, 6, 7, 8, 9, 10];
    assert_eq!(percentile_nearest_rank(&v, 50), 5);
    assert_eq!(percentile_nearest_rank(&v, 95), 10);
    assert_eq!(percentile_nearest_rank(&[], 50), 0);
    assert_eq!(percentile_nearest_rank(&[42], 50), 42);
    assert_eq!(percentile_nearest_rank(&[42], 95), 42);
}

#[test]
fn record_then_aggregate_round_trips_count_and_refusals() {
    let records = vec![
        rec("apply", 10, None, None, None),
        rec("apply", 20, Some("stale"), None, None),
        rec("status", 5, None, None, None),
    ];
    let report = aggregate(&records, false);
    assert_eq!(verb(&report, "apply").count, 2);
    assert_eq!(verb(&report, "apply").refusals.get(&"stale".to_string()), Some(&1));
    assert_eq!(verb(&report, "status").count, 1);
    assert!(report.history.is_none());
}

#[test]
fn aggregate_on_missing_metrics_dir_is_empty_not_error() {
    let report = aggregate(&vec![], true);
    assert!(report.verbs.entries.is_empty());
    assert!(report.history.unwrap().entries.is_empty());
}

#[test]
fn malformed_lines_are_skipped_not_fatal() {
    assert_eq!(metrics_date(b"2026-08-28.jsonl"), Some("2026-08-28".to_string()));
    assert_eq!(metrics_date(b"2026-08-28.json"), None);
    let text = "not json at all\n{\"verb\":\"status\",\"ms\":7}\n\n";
    let records: Vec<MetricRecord> =
        metric_lines(text).iter().filter_map(|l| parse("2026-08-28", l)).collect();
    let report = aggregate(&records, false);
    assert_eq!(verb(&report, "status").count, 1);
    assert_eq!(verb(&report, "status").p50_ms, 7);
}

#[test]
fn record_with_read_gain_fields_aggregates_into_read_savings() {
    let records = vec![
        rec("query", 5, None, Some(40), Some(100)),
        rec("read", 3, None, Some(20), Some(50)),
        rec("status", 1, None, None, None),
    ];
    let report = aggregate(&records, false);
    assert_eq!(report.read_savings.calls, 2);
    assert_eq!(report.read_savings.naive, 150);
    assert_eq!(report.read_savings.saved, 90);
    assert_eq!(report.read_savings.pct(), 60);
}

#[test]
fn negative_per_line_delta_clamps_to_zero_not_the_whole_sum() {
    let records = vec![
        rec("query", 1, None, Some(120), Some(100)),
        rec("query", 1, None, Some(10), Some(50)),
    ];
    let report = aggregate(&records, false);
    assert_eq!(report.read_savings.calls, 2);
    assert_eq!(report.read_savings.saved, 40);
}

#[test]
fn old_format_line_without_read_gain_fields_still_parses() {
    let text = "{\"ts\":1,\"verb\":\"query\",\"ms\":5,\"files\":1,\"edits\":1,\"refusal\":null,\"epoch8\":\"e\",\"version\":\"0.0.1\"}\n";
    let records: Vec<MetricRecord> =
        metric_lines(text).iter().filter_map(|l| parse("2026-08-01", l)).collect();
    let report = aggregate(&records, false);
    assert_eq!(verb(&report, "query").count, 1);
    assert_eq!(report.read_savings.calls, 0);
}

#[test]
fn format_human_includes_read_savings_line() {
    let report = aggregate(&vec![rec("query", 1, None, Some(40), Some(100))], false);
    let human = format_human(&report);
    assert!(
        human.contains("read savings: 60 bytes (60%) across 1 read-verb calls"),
        "got: {}",
        human
    );
}

#[test]
fn to_json_includes_read_savings_object() {
    let report = aggregate(&vec![rec("outline", 1, None, Some(40), Some(100))], false);
    let json = to_json(&report);
    let savings = json.get("read_savings").unwrap();
    assert_eq!(number(savings.get("saved").unwrap()), 60);
    assert_eq!(number(savings.get("naive").unwrap()), 100);
    assert_eq!(number(savings.get("calls").unwrap()), 1);
    assert_eq!(number(savings.get("pct").unwrap()), 60);
    assert!(json.get("history").is_none());
    let stats = json.get("verbs").unwrap().get("outline").unwrap();
    assert_eq!(number(stats.get("count").unwrap()), 1);
}

#[test]
fn gain_table_has_a_row_per_verb_and_the_days_when_asked_for() {
    let mut records = vec![
        rec("apply", 10, None, None, None),
        rec("apply", 20, Some("stale"), None, None),
        rec("status", 5, None, None, None),
    ];
    records[2].date = "2026-08-29".to_string();
    let report = aggregate(&records, true);
    assert_eq!(
        format_human(&report),
        "verb        count   p50ms   p95ms  refusals\n\
         apply           2      10      20         1\n  refusal kinds: stale=1\n\
         status          1       5       5         0\n\
         read savings: 0 bytes (0%) across 0 read-verb calls\n\
         \nhistory (per-day totals):\n  2026-08-28: 2\n  2026-08-29: 1\n"
    );
    assert_eq!(
        format_human(&aggregate(&vec![], false)),
        "(no metrics recorded yet)\nread savings: 0 bytes (0%) across 0 read-verb calls\n"
    );
}

#[test]
fn a_saved_share_is_cut_off_and_not_wrapped() {
    let all = ReadSavings { saved: u64::MAX, naive: u64::MAX, calls: 1 };
    assert_eq!(all.pct(), 1);
    assert_eq!(ReadSavings { saved: 1, naive: 0, calls: 0 }.pct(), 0);
    assert_eq!(ReadSavings { saved: 1, naive: 3, calls: 1 }.pct(), 33);
}

#[test]
fn dates_cover_leap_years_and_centuries() {
    assert_eq!(date_string(951_782_400), "2000-02-29");
    assert_eq!(date_string(951_868_800), "2000-03-01");
    assert_eq!(date_string(4_107_542_400), "2100-03-01");
    assert_eq!(date_string(0), "1970-01-01");
}

#[test]
fn the_order_of_records_and_blank_lines_do_not_matter() {
    let mut records = vec![
        rec("query", 5, None, Some(10), Some(100)),
        rec("apply", 9, Some("stale"), None, None),
        rec("query", 1, Some("usage"), Some(7), Some(3)),
        rec("apply", 2, Some("io"), None, None),
        rec("query", 3, Some("usage"), None, None),
    ];
    records[1].date = "2026-08-27".to_string();
    let report = |rs: &Vec<MetricRecord>| format!("{:?}", aggregate(rs, true));
    let wanted = report(&records);
    for turn in 0..5 {
        let mut other = records.clone();
        other.rotate_left(turn);
        assert_eq!(report(&other), wanted);
        other.reverse();
        assert_eq!(report(&other), wanted);
    }
    let r = aggregate(&records, false);
    assert!(r.history.is_none());
    assert_eq!(verb(&r, "query").count + verb(&r, "apply").count, records.len());
    assert_eq!((verb(&r, "query").p50_ms, verb(&r, "query").p95_ms), (3, 5));
    assert_eq!(verb(&r, "query").refusals.get(&"usage".to_string()), Some(&2));
    assert_eq!(metric_lines("a\n\n b \n"), vec!["a", "b"]);
    assert_eq!(metric_lines("b\n   \n\na"), vec!["b", "a"]);
}
