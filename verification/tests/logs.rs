use rust_dns::decimal::{to_decimal, to_padded, to_padded_signed};
use rust_dns::qlog::{
    build_batch, flush_rows, flush_secs, has_segments, is_segment_name, query, schema,
    segment_name, ColumnKind, LogRecord, Retention, Search, Segment, LOG_CHANNEL_CAP,
};
use rust_dns::config::QlogConfig;

fn record(ts_ms: i64, domain: &str) -> LogRecord {
    LogRecord {
        ts_ms,
        client: "c".to_string(),
        domain: domain.to_string(),
        qtype: "A".to_string(),
        action: "blocked",
        latency_ms: 4,
    }
}

#[test]
fn records_become_columns() {
    let b = build_batch(&vec![record(1, "a"), record(-2, "b")]);
    assert_eq!(b.ts, vec![1, -2]);
    assert_eq!(b.client, vec!["c", "c"]);
    assert_eq!(b.domain, vec!["a", "b"]);
    assert_eq!(b.qtype, vec!["A", "A"]);
    assert_eq!(b.action, vec!["blocked", "blocked"]);
    assert_eq!(b.latency_ms, vec![4, 4]);
    assert!(build_batch(&vec![]).ts.is_empty());
}

#[test]
fn columns_are_described() {
    let s = schema();
    let names: Vec<&str> = s.iter().map(|c| c.name).collect();
    assert_eq!(names, vec!["ts", "client", "domain", "qtype", "action", "latency_ms"]);
    assert_eq!(s[0].kind, ColumnKind::TimestampMillis);
    assert_eq!(s[5].kind, ColumnKind::UInt32);
    let nullable: Vec<&str> = s.iter().filter(|c| c.nullable).map(|c| c.name).collect();
    assert_eq!(nullable, vec!["client"]);
}

#[test]
fn numbers_are_written_in_decimal() {
    assert_eq!(to_decimal(0), "0");
    assert_eq!(to_decimal(u64::MAX), u64::MAX.to_string());
    assert_eq!(to_padded(42, 6), format!("{:06}", 42));
    assert_eq!(to_padded(1234567, 6), "1234567");
    for x in [0i64, 7, -7, 1_700_000_000_123, i64::MIN, i64::MAX] {
        assert_eq!(to_padded_signed(x, 14), format!("{:014}", x));
    }
}

#[test]
fn segment_names_sort_by_time() {
    assert_eq!(segment_name(1_700_000_000_123, 42), "qlog-01700000000123-000042.parquet");
    assert!(segment_name(9, 5) < segment_name(10, 0));
    assert!(segment_name(10, 9) < segment_name(10, 10));
    assert!(segment_name(9, 12_345_678) < segment_name(10, 0));
}

#[test]
fn segments_are_told_by_extension() {
    assert!(is_segment_name(segment_name(1, 2).as_bytes()));
    assert!(is_segment_name(b"x.parquet"));
    assert!(!is_segment_name(b".parquet"));
    assert!(!is_segment_name(b"xparquet"));
    assert!(!is_segment_name(b"x.parquet.tmp"));
    assert!(!is_segment_name(b"x.Parquet"));
    assert!(!is_segment_name(b""));
    assert!(has_segments(&vec![b"a".to_vec(), b"b.parquet".to_vec()]));
    assert!(!has_segments(&vec![b"a".to_vec()]));
    assert!(!has_segments(&vec![]));
}

fn file(name: &str, size: u64) -> Segment {
    Segment { name: name.as_bytes().to_vec(), size }
}

fn deletions(listing: Vec<Segment>, max_bytes: u64, failing: &str) -> Vec<String> {
    let mut r = Retention::new(listing, max_bytes);
    let mut out = Vec::new();
    while let Some(name) = r.next() {
        let name = String::from_utf8(name).unwrap();
        r.advance(name != failing);
        out.push(name);
    }
    out
}

#[test]
fn oldest_segments_are_deleted_first() {
    let listing = || vec![file("c.parquet", 30), file("a.parquet", 10), file("notes", 500), file("b.parquet", 20)];
    assert!(deletions(listing(), 60, "").is_empty());
    assert_eq!(deletions(listing(), 59, ""), vec!["a.parquet"]);
    assert_eq!(deletions(listing(), 30, ""), vec!["a.parquet", "b.parquet"]);
    assert_eq!(deletions(listing(), 0, ""), vec!["a.parquet", "b.parquet", "c.parquet"]);
}

#[test]
fn segments_that_stay_still_count() {
    let listing = vec![file("a.parquet", 10), file("b.parquet", 20), file("c.parquet", 30)];
    assert_eq!(deletions(listing, 45, "a.parquet"), vec!["a.parquet", "b.parquet"]);
    assert!(deletions(vec![], 0, "").is_empty());
}

#[test]
fn large_directories_are_summed() {
    let listing = vec![file("a.parquet", u64::MAX), file("b.parquet", u64::MAX)];
    assert_eq!(deletions(listing, u64::MAX, ""), vec!["a.parquet"]);
}

#[test]
fn searches_are_built() {
    let names = vec![b"qlog-1.parquet".to_vec()];
    match query(&names, 1, "WHERE client = 'x'", 25) {
        Search::Run { sql, memory } => {
            assert_eq!(
                sql,
                "SELECT CAST(ts AS VARCHAR) AS ts, client, domain, qtype, action, latency_ms \
                 FROM logs WHERE client = 'x' ORDER BY ts DESC LIMIT 25"
            );
            assert_eq!(memory, 16 * 1024 * 1024);
        }
        Search::Nothing => panic!("nothing searched"),
    }
    match query(&names, 128, "", 1) {
        Search::Run { memory, .. } => assert_eq!(memory, 128 * 1024 * 1024),
        Search::Nothing => panic!("nothing searched"),
    }
    assert!(matches!(query(&vec![b"readme".to_vec()], 1, "", 1), Search::Nothing));
}

#[test]
fn flushing_has_floors() {
    let mut cfg = QlogConfig::default();
    assert_eq!((flush_rows(&cfg), flush_secs(&cfg)), (10_000, 5));
    cfg.flush_rows = 0;
    cfg.flush_secs = 0;
    assert_eq!((flush_rows(&cfg), flush_secs(&cfg)), (1, 1));
    assert_eq!(LOG_CHANNEL_CAP, 100_000);
}
