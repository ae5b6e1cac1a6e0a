use rust_dns::config::{config_path, token_of, Config};
use rust_dns::qlog::Search;
use rust_dns::stats::{Action, Stats};
use rust_dns::web::{
    auth, get_blocklist, get_config, get_logs, kept_servers, log_limit, log_where, set_blocklist,
    set_config, sql_escape, AppError, BlocklistUpdate, ConfigUpdate, LogQuery, ParsedUpdate,
};

#[test]
fn api_needs_the_token() {
    assert!(!auth("/api/stats", "tok", None, None));
    assert!(auth("/api/stats", "tok", Some("Bearer tok"), None));
    assert!(!auth("/api/stats", "tok", Some("Bearer Bearer  tok "), None));
    assert!(!auth("/api/stats", "tok", Some("tok"), None));
    assert!(!auth("/api/stats", "tok", Some("Bearer Bearer tok"), None));
    assert!(!auth("/api/stats", "tok", Some("bearer tok"), None));
    assert!(!auth("/api/stats", "tok", Some("Bearer tok "), None));
    assert!(auth("/api/stats", " tok ", Some("Bearer  tok "), None));
    assert!(auth("/api/stats", "Bearer tok", Some("Bearer Bearer tok"), None));
    assert!(!auth("/api/stats", "Bearer tok", Some("Bearer tok"), None));
    assert!(auth("/api/stats", "tok", None, Some("tok")));
    assert!(!auth("/api/stats", "tok", None, Some(" tok")));
    assert!(!auth("/api/stats", "tok", Some("Bearer nope"), Some("nope")));
    assert!(!auth("/api/stats?token=tok", "tok", None, None));
}

#[test]
fn other_paths_are_open() {
    assert!(auth("/", "tok", None, None));
    assert!(auth("/index.html", "tok", None, None));
    assert!(auth("/api/stats", "", None, None));
}

#[test]
fn blocklist_edits_are_applied() {
    let (list, file, response) = set_blocklist(&BlocklistUpdate {
        text: "b.test\n*.a.test\nB.TEST".to_string(),
    });
    assert!(list.is_blocked("x.b.test"));
    assert_eq!(file, "*.a.test\nb.test\n");
    assert_eq!(response.count, 2);
    assert_eq!(response.domains, vec!["*.a.test", "b.test"]);
    assert_eq!(get_blocklist(&list).domains, response.domains);
}

fn update(servers: &[&str]) -> ConfigUpdate {
    ConfigUpdate {
        upstream_servers: servers.iter().map(|s| s.to_string()).collect(),
        timeout_ms: 11,
        max_qps: 12,
        max_concurrent: 13,
        sinkhole_mode: "nxdomain".to_string(),
        sinkhole_ipv4: "10.0.0.1".to_string(),
        sinkhole_ipv6: "::1".to_string(),
    }
}

fn parsed(servers: &[bool]) -> ParsedUpdate {
    ParsedUpdate {
        servers: servers.to_vec(),
        sinkhole_ipv4: Some(0x0a00_0001),
        sinkhole_ipv6: Some(1),
    }
}

#[test]
fn servers_are_trimmed() {
    let servers: Vec<String> = vec![" 1.1.1.1:53 ".to_string(), "  ".to_string(), "b".to_string()];
    assert_eq!(kept_servers(&servers), vec!["1.1.1.1:53", "b"]);
}

#[test]
fn config_edits_are_applied() {
    let cfg = set_config(Config::default(), update(&[" 9.9.9.9:53", ""]), &parsed(&[true]));
    let cfg = match cfg {
        Ok(c) => c,
        Err(_) => panic!("refused"),
    };
    assert_eq!(cfg.upstream.servers, vec!["9.9.9.9:53"]);
    assert_eq!(cfg.upstream.timeout_ms, 11);
    assert_eq!(cfg.upstream.max_qps, 12);
    assert_eq!(cfg.upstream.max_concurrent, 13);
    assert_eq!(cfg.dns.sinkhole_mode, "nxdomain");
    assert_eq!(cfg.dns.sinkhole_ipv4, 0x0a00_0001);
    assert_eq!(cfg.dns.sinkhole_ipv6, 1);
    assert_eq!(cfg.dns.bind, "0.0.0.0:53");
    assert_eq!(cfg.cache.max_entries, 500_000);
    let view = get_config(&cfg, "10.0.0.1".to_string(), "::1".to_string());
    assert_eq!(view.upstream_servers, vec!["9.9.9.9:53"]);
    assert_eq!(view.timeout_ms, 11);
    assert_eq!(view.max_qps, 12);
    assert_eq!(view.max_concurrent, 13);
    assert_eq!(view.sinkhole_mode, "nxdomain");
    assert_eq!(view.sinkhole_ipv4, "10.0.0.1");
    assert_eq!(view.sinkhole_ipv6, "::1");
    assert_eq!(view.dns_bind, "0.0.0.0:53");
    assert_eq!(view.web_bind, "127.0.0.1:8080");
    assert!(view.qlog_enabled);
    assert_eq!(
        view.note,
        "Upstream servers + sinkhole apply live. Other fields persist and take effect on restart."
    );
}

fn refusal(servers: &[&str], parsed: &ParsedUpdate) -> String {
    match set_config(Config::default(), update(servers), parsed) {
        Ok(_) => panic!("accepted"),
        Err(e) => e.message,
    }
}

#[test]
fn bad_config_edits_are_refused() {
    assert_eq!(refusal(&[" ", ""], &parsed(&[])), "at least one upstream server is required");
    assert_eq!(
        refusal(&["1.1.1.1:53", " nope ", "worse"], &parsed(&[true, false, false])),
        "invalid upstream 'nope' (expected host:port)"
    );
    let mut p = parsed(&[true]);
    p.sinkhole_ipv6 = None;
    assert_eq!(refusal(&["1.1.1.1:53"], &p), "invalid sinkhole_ipv6");
    p.sinkhole_ipv4 = None;
    assert_eq!(refusal(&["1.1.1.1:53"], &p), "invalid sinkhole_ipv4");
}

#[test]
fn errors_carry_their_message() {
    assert_eq!(AppError::msg("no").message, "no");
}

fn log_query() -> LogQuery {
    LogQuery { limit: None, domain: None, client: None, action: None }
}

#[test]
fn values_are_escaped() {
    assert_eq!(sql_escape("o'brien; DROP\\x"), "o''brien DROPx");
    assert_eq!(sql_escape("'';"), "''''");
    assert_eq!(sql_escape(""), "");
}

#[test]
fn searches_have_conditions() {
    let mut q = log_query();
    assert_eq!(log_where(&q), "");
    q.domain = Some(String::new());
    assert_eq!(log_where(&q), "");
    q.action = Some("blocked".to_string());
    assert_eq!(log_where(&q), "WHERE action = 'blocked'");
    q.domain = Some("a'b".to_string());
    q.client = Some("10.0.0.1".to_string());
    assert_eq!(
        log_where(&q),
        "WHERE domain LIKE '%a''b%' AND client = '10.0.0.1' AND action = 'blocked'"
    );
}

#[test]
fn searches_are_limited() {
    let mut q = log_query();
    assert_eq!(log_limit(&q), 200);
    q.limit = Some(0);
    assert_eq!(log_limit(&q), 1);
    q.limit = Some(77);
    assert_eq!(log_limit(&q), 77);
    q.limit = Some(1_000_000);
    assert_eq!(log_limit(&q), 5000);
}

#[test]
fn logs_are_searched_where_logging_is_on() {
    let mut cfg = Config::default().qlog;
    let names = vec![b"qlog-1.parquet".to_vec()];
    let mut q = log_query();
    q.client = Some("c".to_string());
    match get_logs(&cfg, &q, &names) {
        Search::Run { sql, memory } => {
            assert!(sql.ends_with("FROM logs WHERE client = 'c' ORDER BY ts DESC LIMIT 200"));
            assert_eq!(memory, 128 * 1024 * 1024);
        }
        Search::Nothing => panic!("nothing searched"),
    }
    assert!(matches!(get_logs(&cfg, &q, &vec![]), Search::Nothing));
    cfg.enabled = false;
    assert!(matches!(get_logs(&cfg, &q, &names), Search::Nothing));
}

#[test]
fn defaults_are_safe() {
    let cfg = Config::default();
    assert_eq!(cfg.web.bind, "127.0.0.1:8080");
    assert_eq!(cfg.web.admin_token, "");
    assert_eq!(cfg.web.blocklist_path, "blocklist.txt");
    assert_eq!(cfg.dns.max_inflight, 8192);
    assert_eq!(cfg.dns.sinkhole_mode, "zero_ip");
    assert_eq!((cfg.dns.sinkhole_ipv4, cfg.dns.sinkhole_ipv6, cfg.dns.sinkhole_ttl), (0, 0, 60));
    assert_eq!(cfg.upstream.servers, vec!["1.1.1.1:53", "8.8.8.8:53"]);
    assert_eq!((cfg.cache.min_ttl, cfg.cache.max_ttl, cfg.cache.negative_ttl), (30, 86_400, 60));
    assert_eq!(cfg.cache.db_path, "cache.redb");
    assert_eq!(cfg.cache.flush_ms, 500);
    assert_eq!(cfg.qlog.max_bytes, 2_147_483_648);
    assert_eq!(cfg.qlog.dir, "logs");
}

#[test]
fn empty_tokens_are_replaced() {
    let mut cfg = Config::default();
    assert!(cfg.ensure_token(&[0, 0x1f, 0xa0]));
    assert_eq!(cfg.web.admin_token, "001fa0");
    assert!(!cfg.ensure_token(&[7]));
    assert_eq!(cfg.web.admin_token, "001fa0");
    assert_eq!(token_of(&[0xff; 32]).len(), 64);
    assert_ne!(token_of(&[1, 0]), token_of(&[0, 1]));
}

#[test]
fn addresses_that_cannot_be_read_are_skipped() {
    let mut cfg = Config::default();
    cfg.upstream.servers = vec!["a".to_string(), "b".to_string(), "c".to_string()];
    assert_eq!(cfg.upstream_addrs(&vec![Some(1), None, Some(3)]), vec![1, 3]);
}

#[test]
fn config_path_is_found() {
    let some = |s: &str| Some(s.to_string());
    assert_eq!(config_path(some("a"), some("b")), "a");
    assert_eq!(config_path(None, some("b")), "b");
    assert_eq!(config_path(None, None), "config.toml");
}

#[test]
fn counters_count_once() {
    let mut s = Stats::default();
    for a in [Action::Blocked, Action::Cached, Action::Cached, Action::Forwarded, Action::Error] {
        s.count_query();
        s.count_action(a);
    }
    s.count_drop();
    let snap = s.snapshot(9, 77);
    assert_eq!((snap.queries, snap.blocked, snap.cache_hits), (5, 1, 2));
    assert_eq!((snap.forwarded, snap.upstream_errors, snap.dropped), (1, 1, 1));
    assert_eq!((snap.lookups, snap.uptime_secs, snap.cache_entries), (3, 77, 9));
    let mut full = Stats { queries: u64::MAX, ..Stats::default() };
    full.count_query();
    assert_eq!(full.queries, 0);
    assert_eq!(Action::Cached.as_str(), "cached");
}
