use station_stats::decode::{decode_entry, decode_report};
use station_stats::aggregate::{aggregate, aggregate_range, summarize, Aggregate};
use station_stats::partition::partition;
use station_stats::report::{format_report, key_less, ReportEntry};
use station_stats::stats::CityStats;
use station_stats::tenths::{parse_temp, write_tenths};

fn text(v: i32) -> String {
    let mut out = Vec::new();
    write_tenths(&mut out, v);
    String::from_utf8(out).unwrap()
}

fn run(input: &str, workers: usize) -> String {
    String::from_utf8(summarize(input.as_bytes(), workers)).unwrap()
}

#[test]
fn parses_accepted_readings() {
    assert_eq!(parse_temp(b"0.0"), Some(0));
    assert_eq!(parse_temp(b"-3.4"), Some(-34));
    assert_eq!(parse_temp(b"12.3"), Some(123));
    assert_eq!(parse_temp(b"-0.5"), Some(-5));
    assert_eq!(parse_temp(b"99.9"), Some(999));
    assert_eq!(parse_temp(b"007.0"), Some(70));
}

#[test]
fn rejects_malformed_readings() {
    for bad in ["12", "", "-", "1.23", "1.", ".5", "--1.0", "-.5", "1,0", "+1.0", "1.0 ", "a.0", "1..0", "1.a"] {
        assert_eq!(parse_temp(bad.as_bytes()), None, "{bad}");
    }
}

#[test]
fn reading_magnitude_limit() {
    assert_eq!(parse_temp(b"214748364.7"), Some(2147483647));
    assert_eq!(parse_temp(b"-214748364.7"), Some(-2147483647));
    assert_eq!(parse_temp(b"214748364.8"), None);
    assert_eq!(parse_temp(b"-214748364.8"), Some(i32::MIN));
    assert_eq!(parse_temp(b"-214748364.9"), None);
    assert_eq!(parse_temp(b"-0214748364.8"), Some(i32::MIN));
    assert_eq!(parse_temp(b"99999999999999999999999.0"), None);
}

#[test]
fn renders_tenths() {
    assert_eq!(text(0), "0.0");
    assert_eq!(text(-34), "-3.4");
    assert_eq!(text(5), "0.5");
    assert_eq!(text(-5), "-0.5");
    assert_eq!(text(123), "12.3");
    assert_eq!(text(1000), "100.0");
    assert_eq!(text(i32::MIN), "-214748364.8");
}

#[test]
fn rendered_readings_parse_back() {
    for v in [0, 1, -1, 9, -9, 10, -10, 123, -345, 999, i32::MAX, -2147483647, i32::MIN] {
        assert_eq!(parse_temp(text(v).as_bytes()), Some(v));
    }
}

#[test]
fn two_workers_scenario() {
    let input = "Paris;12.3\nLondon;5.0\nParis;15.0\n";
    assert_eq!(run(input, 2), "{London=5.0/5.0/5.0, Paris=12.3/13.7/15.0}");
}

#[test]
fn malformed_lines_are_skipped() {
    let input = "BadLine\nParis;1.0\nCity;abc\nParis;3.0\n";
    assert_eq!(run(input, 1), "{Paris=1.0/2.0/3.0}");
    assert_eq!(run(input, 3), "{Paris=1.0/2.0/3.0}");
}

#[test]
fn worker_count_does_not_change_report() {
    let input = "b;1.0\na;-2.5\nccc;3.3\nb;4.4\na;0.0\nBadLine\nd;9.9\nb;-7.1\nccc;1.2";
    let one = run(input, 1);
    for n in 2..40 {
        assert_eq!(run(input, n), one, "{n} workers");
    }
    assert_eq!(one, "{a=-2.5/-1.3/0.0, b=-7.1/-0.6/4.4, ccc=1.2/2.3/3.3, d=9.9/9.9/9.9}");
}

#[test]
fn rerun_gives_identical_bytes() {
    let input = "x;1.0\ny;2.0\nx;3.0\n";
    assert_eq!(summarize(input.as_bytes(), 4), summarize(input.as_bytes(), 4));
}

#[test]
fn mean_rounds_ties_away_from_zero() {
    assert_eq!(run("a;-1.5\na;-1.0\n", 1), "{a=-1.5/-1.3/-1.0}");
    assert_eq!(run("a;1.5\na;1.0\n", 1), "{a=1.0/1.3/1.5}");
    assert_eq!(run("a;1.0\na;1.0\na;1.1\n", 1), "{a=1.0/1.0/1.1}");
    assert_eq!(
        run("a;-214748364.8\na;-214748364.8\n", 2),
        "{a=-214748364.8/-214748364.8/-214748364.8}"
    );
}

#[test]
fn last_line_without_newline_counts() {
    assert_eq!(run("a;1.0\nb;2.0", 2), "{a=1.0/1.0/1.0, b=2.0/2.0/2.0}");
}

#[test]
fn empty_input_gives_empty_report() {
    assert_eq!(run("", 1), "{}");
    assert_eq!(run("", 5), "{}");
    assert_eq!(run("\n\n", 2), "{}");
}

#[test]
fn keys_sorted_bytewise() {
    let input = "b;1.0\na;1.0\nB;1.0\nab;1.0\n";
    assert_eq!(run(input, 2), "{B=1.0/1.0/1.0, a=1.0/1.0/1.0, ab=1.0/1.0/1.0, b=1.0/1.0/1.0}");
    assert!(key_less(b"B", b"a"));
    assert!(key_less(b"a", b"ab"));
    assert!(!key_less(b"ab", b"ab"));
    assert!(!key_less(b"b", b"ab"));
}

#[test]
fn key_is_text_before_first_separator() {
    assert_eq!(run("a;b;1.0\na;1.0\n", 1), "{a=1.0/1.0/1.0}");
    assert_eq!(run(";1.0\n", 1), "{=1.0/1.0/1.0}");
}

#[test]
fn partition_boundaries_are_line_starts() {
    let buf = b"a;1.0\nb;2.0\nc;3.0\n";
    assert_eq!(partition(buf, 1), vec![0, 18]);
    assert_eq!(partition(buf, 2), vec![0, 12, 18]);
    assert_eq!(partition(buf, 3), vec![0, 12, 18, 18]);
    assert_eq!(partition(b"", 3), vec![0, 0, 0, 0]);
}

#[test]
fn report_min_mean_max_ordered() {
    let buf = b"k;-9.9\nk;0.1\nk;5.5\nz;2.0\nz;2.1\n";
    let entries = aggregate(buf, 2).report();
    assert_eq!(entries.len(), 2);
    for e in &entries {
        assert!(e.min <= e.mean && e.mean <= e.max);
    }
    assert_eq!(
        entries[0],
        ReportEntry { key: b"k".to_vec(), min: -99, mean: -14, max: 55 }
    );
}

#[test]
fn merging_partial_aggregates_matches_whole() {
    let buf = b"p;1.0\nq;2.0\np;3.0\nq;-4.0\n";
    let left = aggregate_range(buf, 0, 12);
    let right = aggregate_range(buf, 12, buf.len());
    assert!(left.can_merge(&right));
    let merged = left.merge(&right);
    assert_eq!(merged.span(), buf.len());
    assert_eq!(merged.report(), aggregate(buf, 1).report());
    let empty = Aggregate::new();
    assert_eq!(empty.span(), 0);
    assert_eq!(empty.report(), Vec::new());
}

#[test]
fn stats_merge_rule() {
    let a = CityStats::from_reading(-5);
    let b = CityStats::from_reading(20);
    let m = a.merged(&b).merged(&CityStats::from_reading(7));
    assert_eq!(m, CityStats { min: -5, max: 20, sum: 22, count: 3 });
    assert_eq!(m.mean(), 7);
    assert_eq!(a.merged(&b), b.merged(&a));
}

#[test]
fn formats_entries() {
    let entries = vec![
        ReportEntry { key: b"A".to_vec(), min: -12, mean: 3, max: 40 },
        ReportEntry { key: b"B".to_vec(), min: 0, mean: 0, max: 0 },
    ];
    assert_eq!(format_report(&entries), b"{A=-1.2/0.3/4.0, B=0.0/0.0/0.0}".to_vec());
    assert_eq!(format_report(&Vec::new()), b"{}".to_vec());
}

#[test]
fn decodes_rendered_entries() {
    let entries = vec![
        ReportEntry { key: b"Paris".to_vec(), min: 123, mean: 137, max: 150 },
        ReportEntry { key: b"a=b/c".to_vec(), min: -5, mean: 0, max: 2147483647 },
        ReportEntry { key: Vec::new(), min: -2147483647, mean: -10, max: 9 },
        ReportEntry { key: b"low".to_vec(), min: i32::MIN, mean: i32::MIN, max: i32::MIN },
    ];
    for e in entries {
        let text = format_report(&vec![e.clone()]);
        let inner = &text[1..text.len() - 1];
        assert_eq!(decode_entry(inner), Some(e));
    }
}

#[test]
fn rejects_malformed_entries() {
    for bad in ["", "k=1.0/2.0", "k1.0/2.0/3.0", "k=1.0/2.0/3", "k=1.0/x/3.0", "k=/1.0/2.0"] {
        assert_eq!(decode_entry(bad.as_bytes()), None, "{bad}");
    }
    assert_eq!(
        decode_entry(b"k=-1.0/0.5/3.0"),
        Some(ReportEntry { key: b"k".to_vec(), min: -10, mean: 5, max: 30 })
    );
}

#[test]
fn report_text_decodes_to_entries() {
    let buf = b"Paris;12.3\nLondon;5.0\nParis;15.0\nOslo;-3.4\n";
    let entries = aggregate(buf, 3).report();
    let text = format_report(&entries);
    assert_eq!(decode_report(&text), Some(entries));
    assert_eq!(decode_report(b"{}"), Some(Vec::new()));
    assert_eq!(
        decode_report(b"{a=1.0/2.0/3.0, b=-0.1/0.0/0.1}"),
        Some(vec![
            ReportEntry { key: b"a".to_vec(), min: 10, mean: 20, max: 30 },
            ReportEntry { key: b"b".to_vec(), min: -1, mean: 0, max: 1 },
        ])
    );
}

#[test]
fn rejects_malformed_reports() {
    for bad in ["", "{", "}", "a=1.0/1.0/1.0", "{a=1.0/1.0/1.0", "{, }", "{a=1.0/1.0/1.0, }"] {
        assert_eq!(decode_report(bad.as_bytes()), None, "{bad}");
    }
}
