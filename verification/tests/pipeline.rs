use std::sync::Arc;

use hickory_proto::op::{Message, MessageType, OpCode, Query, ResponseCode};
use hickory_proto::rr::rdata::{A, AAAA};
use hickory_proto::rr::{Name, RData, RecordType};
use rust_dns::blocklist::Blocklist;
use rust_dns::cache::CachedResponse;
use rust_dns::config::{Config, QlogConfig};
use rust_dns::dns::{
    build_blocked, build_response_code, decide, finish, frame, frame_len, head_request,
    patch_id, read_request, receive, worker_count, Inflight, Outcome, Request, Step,
};
use rust_dns::message::{Head, Question};
use rust_dns::qlog::log_record;
use rust_dns::stats::{Action, Stats};

fn query(id: u16, name: &str, rtype: RecordType) -> Vec<u8> {
    let mut m = Message::new(id, MessageType::Query, OpCode::Query);
    m.metadata.recursion_desired = true;
    m.add_query(Query::query(Name::from_ascii(name).unwrap(), rtype));
    m.to_vec().unwrap()
}

fn answer(step: Step) -> Message {
    match step {
        Step::Answer(a) => {
            assert_eq!(a.action, Action::Blocked);
            Message::from_vec(&a.response).unwrap()
        }
        Step::Lookup(_) => panic!("looked up"),
    }
}

#[test]
fn blocked_a_query_gets_the_sinkhole_address() {
    let bl = Blocklist::from_text("blocked.test\n*.wild.test\n");
    let mut cfg = Config::default().dns;
    cfg.sinkhole_ipv4 = 0x0a00_0102;
    let mut stats = Stats::default();
    for name in ["blocked.test.", "www.blocked.test.", "sub.wild.test.", "BLOCKED.Test."] {
        let data = query(0x1234, name, RecordType::A);
        let (request, step) = receive(&data, &bl, &cfg, &mut stats).unwrap();
        assert_eq!(request.id, 0x1234);
        let m = answer(step);
        assert_eq!(m.metadata.id, 0x1234);
        assert_eq!(m.metadata.message_type, MessageType::Response);
        assert_eq!(m.metadata.response_code, ResponseCode::NoError);
        assert!(m.metadata.recursion_desired);
        assert!(m.metadata.recursion_available);
        assert!(!m.metadata.authoritative && !m.metadata.truncation);
        assert!(!m.metadata.authentic_data && !m.metadata.checking_disabled);
        assert_eq!(m.queries[0].name().to_string(), name);
        assert_eq!(m.answers.len(), 1);
        assert_eq!(m.answers[0].ttl, 60);
        assert_eq!(m.answers[0].name.to_string(), name);
        assert_eq!(m.answers[0].data, RData::A(A::new(10, 0, 1, 2)));
    }
    assert_eq!(stats.queries, 4);
    assert_eq!(stats.blocked, 4);
    assert_eq!(stats.forwarded, 0);
}

#[test]
fn blocked_aaaa_query_gets_the_sinkhole_address() {
    let bl = Blocklist::from_text("blocked.test");
    let mut cfg = Config::default().dns;
    cfg.sinkhole_ipv6 = 1;
    cfg.sinkhole_ttl = 7;
    let mut stats = Stats::default();
    let data = query(9, "blocked.test.", RecordType::AAAA);
    let m = answer(receive(&data, &bl, &cfg, &mut stats).unwrap().1);
    assert_eq!(m.answers[0].ttl, 7);
    assert_eq!(m.answers[0].data, RData::AAAA(AAAA::new(0, 0, 0, 0, 0, 0, 0, 1)));
}

#[test]
fn blocked_query_of_another_type_gets_an_empty_answer() {
    let bl = Blocklist::from_text("blocked.test");
    let cfg = Config::default().dns;
    let mut stats = Stats::default();
    let data = query(9, "blocked.test.", RecordType::TXT);
    let m = answer(receive(&data, &bl, &cfg, &mut stats).unwrap().1);
    assert_eq!(m.metadata.response_code, ResponseCode::NoError);
    assert!(m.answers.is_empty());
    assert_eq!(m.queries[0].query_type(), RecordType::TXT);
}

#[test]
fn nxdomain_mode_answers_nxdomain() {
    let bl = Blocklist::from_text("blocked.test");
    let mut cfg = Config::default().dns;
    cfg.sinkhole_mode = "nxdomain".to_string();
    let mut stats = Stats::default();
    let data = query(9, "blocked.test.", RecordType::A);
    let m = answer(receive(&data, &bl, &cfg, &mut stats).unwrap().1);
    assert_eq!(m.metadata.response_code, ResponseCode::NXDomain);
    assert!(m.answers.is_empty());
}

#[test]
fn other_names_are_looked_up() {
    let bl = Blocklist::from_text("*.wild.test");
    let cfg = Config::default().dns;
    let mut stats = Stats::default();
    let data = query(9, "Wild.TEST.", RecordType::AAAA);
    let (request, step) = receive(&data, &bl, &cfg, &mut stats).unwrap();
    assert_eq!(request.name, "wild.test");
    match step {
        Step::Lookup(key) => {
            assert_eq!(key.name, "wild.test");
            assert_eq!(key.rtype, 28);
        }
        Step::Answer(_) => panic!("answered"),
    }
    assert_eq!(stats.queries, 1);
    assert_eq!(stats.blocked, 0);
}

#[test]
fn garbage_is_dropped_and_not_counted() {
    let bl = Blocklist::default();
    let cfg = Config::default().dns;
    let mut stats = Stats::default();
    assert!(receive(&[], &bl, &cfg, &mut stats).is_none());
    assert!(receive(&[1, 2, 3], &bl, &cfg, &mut stats).is_none());
    let empty = Message::new(1, MessageType::Query, OpCode::Query).to_vec().unwrap();
    assert!(receive(&empty, &bl, &cfg, &mut stats).is_none());
    assert_eq!(stats, Stats::default());
}

#[test]
fn root_and_escaped_names_are_read() {
    let root = read_request(&query(1, ".", RecordType::NS)).unwrap();
    assert_eq!(root.name, "");
    assert!(root.question.labels.is_empty());
    assert_eq!(root.question.rtype, 2);
    let name = Name::from_labels(vec![b"a b".to_vec(), b"test".to_vec()]).unwrap();
    let mut m = Message::new(1, MessageType::Query, OpCode::Query);
    m.add_query(Query::query(name.clone(), RecordType::A));
    let request = read_request(&m.to_vec().unwrap()).unwrap();
    let written = name.to_string().trim_end_matches('.').to_lowercase();
    assert_eq!(request.name, written);
    assert_eq!(request.name, "a\\040b.test");
}

#[test]
fn unusual_subdomains_are_blocked() {
    let bl = Blocklist::from_text("blocked.test");
    let cfg = Config::default().dns;
    let mut stats = Stats::default();
    let labels: [&[u8]; 6] = [b"-x", b"a*", b"a.b", &[0xff, 0x00], b"xn--mnchen-3ya", b"xn--4xa"];
    for label in labels {
        let name = vec![label.to_vec(), b"Blocked".to_vec(), b"test".to_vec()];
        let mut m = Message::new(1, MessageType::Query, OpCode::Query);
        m.add_query(Query::query(Name::from_labels(name).unwrap(), RecordType::A));
        let (_, step) = receive(&m.to_vec().unwrap(), &bl, &cfg, &mut stats).unwrap();
        assert!(matches!(step, Step::Answer(_)));
    }
}

#[test]
fn case_is_ignored_in_unusual_labels() {
    let name = |label: &[u8]| head_request(head(vec![label.to_vec()])).unwrap().name;
    assert_eq!(name(b"A B.-*"), name(b"a b.-*"));
    assert_eq!(name(b"X\xc4Y"), name(b"x\xc4y"));
    assert_ne!(name(b"x\xc4y"), name(b"x\xe4y"));
}

#[test]
fn unusual_labels_are_escaped() {
    let name = |label: &[u8]| head_request(head(vec![label.to_vec()])).unwrap().name;
    assert_eq!(name(b"*"), "*");
    assert_eq!(name(b"a*"), "a\\*");
    assert_eq!(name(b"-a-"), "\\-a-");
    assert_eq!(name(b"A.b"), "a\\.b");
    assert_eq!(name(b"\\"), "\\\\");
    assert_eq!(name(&[0x00, 0x7f, 0xff]), "\\000\\177\\377");
    assert_eq!(name(b"xn--mnchen-3ya"), "m\u{fc}nchen");
}

#[test]
fn failed_lookups_carry_the_packets_id() {
    let cfg = Config::default().dns;
    let mut stats = Stats::default();
    let data = query(0xbeef, "gone.test.", RecordType::A);
    let (request, _) = receive(&data, &Blocklist::default(), &cfg, &mut stats).unwrap();
    let failed = finish(&request, &Outcome::Failed, &mut stats);
    assert_eq!(&failed.response[..2], &data[..2]);
    assert_eq!(Message::from_vec(&failed.response).unwrap().metadata.id, 0xbeef);
}

#[test]
fn first_question_counts() {
    let mut m = Message::new(5, MessageType::Query, OpCode::Status);
    m.add_query(Query::query(Name::from_ascii("one.test.").unwrap(), RecordType::A));
    m.add_query(Query::query(Name::from_ascii("two.test.").unwrap(), RecordType::MX));
    let request = read_request(&m.to_vec().unwrap()).unwrap();
    assert_eq!(request.name, "one.test");
    assert_eq!(request.op_code, u8::from(OpCode::Status));
    assert!(!request.recursion_desired);
    assert_eq!(request.question.class, 1);
}

fn head(labels: Vec<Vec<u8>>) -> Head {
    Head {
        id: 3,
        is_response: false,
        op_code: 0,
        authoritative: false,
        truncated: false,
        recursion_desired: true,
        recursion_available: false,
        authentic_data: false,
        checking_disabled: false,
        response_code: 0,
        questions: vec![Question { labels, rtype: 1, class: 1 }],
    }
}

#[test]
fn requests_are_read_from_plain_values() {
    let request = head_request(head(vec![b"WWW".to_vec(), b"x-y".to_vec()])).unwrap();
    assert_eq!(request.name, "www.x-y");
    assert_eq!(request.id, 3);
    assert!(head_request(head(vec![vec![b'a'; 64]])).is_none());
    assert!(head_request(head(vec![vec![]])).is_none());
    let mut none = head(vec![]);
    none.questions.clear();
    assert!(head_request(none).is_none());
}

fn request(name: &str, rtype: u16) -> Request {
    Request {
        id: 0xabcd,
        op_code: 0,
        recursion_desired: true,
        question: Question {
            labels: name.split('.').map(|l| l.as_bytes().to_vec()).collect(),
            rtype,
            class: 1,
        },
        name: name.to_string(),
    }
}

#[test]
fn decisions_rest_on_the_name() {
    let bl = Blocklist::from_text("blocked.test");
    let cfg = Config::default().dns;
    let mut stats = Stats::default();
    assert!(matches!(decide(&request("a.blocked.test", 1), &bl, &cfg, &mut stats), Step::Answer(_)));
    assert!(matches!(decide(&request("ablocked.test", 1), &bl, &cfg, &mut stats), Step::Lookup(_)));
    assert_eq!((stats.queries, stats.blocked), (2, 1));
}

fn cached(wire: Vec<u8>) -> Arc<CachedResponse> {
    Arc::new(CachedResponse { wire, ttl_secs: 60, expires_unix: 100 })
}

#[test]
fn cached_and_forwarded_responses_get_the_clients_id() {
    let r = request("ok.test", 1);
    let mut stats = Stats::default();
    let hit = finish(&r, &Outcome::Hit(cached(vec![1, 2, 3, 4])), &mut stats);
    assert_eq!(hit.response, vec![0xab, 0xcd, 3, 4]);
    assert_eq!(hit.action, Action::Cached);
    let fwd = finish(&r, &Outcome::Resolved(cached(vec![1, 2, 3, 4])), &mut stats);
    assert_eq!(fwd.response, hit.response);
    assert_eq!(fwd.action, Action::Forwarded);
    assert_eq!((stats.cache_hits, stats.forwarded, stats.upstream_errors), (1, 1, 0));
}

#[test]
fn failures_are_answered_with_servfail() {
    let r = request("ok.test", 1);
    let mut stats = Stats::default();
    let failed = finish(&r, &Outcome::Failed, &mut stats);
    assert_eq!(failed.action, Action::Error);
    let m = Message::from_vec(&failed.response).unwrap();
    assert_eq!(m.metadata.id, 0xabcd);
    assert_eq!(m.metadata.response_code, ResponseCode::ServFail);
    assert_eq!(m.queries[0].name().to_string(), "ok.test.");
    assert!(m.answers.is_empty());
    assert_eq!(stats.upstream_errors, 1);
}

#[test]
fn replies_repeat_the_question() {
    let r = request("Mixed.Case", 1);
    let m = Message::from_vec(&build_response_code(&r, 5)).unwrap();
    assert_eq!(m.metadata.response_code, ResponseCode::Refused);
    assert_eq!(m.queries[0].name().to_string(), "Mixed.Case.");
    let b = Message::from_vec(&build_blocked(&r, &Config::default().dns)).unwrap();
    assert_eq!(b.answers[0].data, RData::A(A::new(0, 0, 0, 0)));
}

#[test]
fn reply_that_cannot_be_encoded_is_empty() {
    let mut r = request("x", 1);
    r.question.labels = vec![vec![b'a'; 64]];
    assert!(build_response_code(&r, 0).is_empty());
}

#[test]
fn ids_are_patched() {
    assert_eq!(patch_id(&[0, 0, 9], 0x1234), vec![0x12, 0x34, 9]);
    assert_eq!(patch_id(&[7], 0x1234), vec![7]);
    assert_eq!(patch_id(&[], 0x1234), Vec::<u8>::new());
    assert_eq!(patch_id(&patch_id(&[5, 6, 7], 1), 0x0506), vec![5, 6, 7]);
}

#[test]
fn frames_carry_their_length() {
    let f = frame(&[9, 8, 7]);
    assert_eq!(f, vec![0, 3, 9, 8, 7]);
    assert_eq!(frame_len(&f[..2]), 3);
    assert_eq!(frame_len(&[0xff, 0xff]), 65535);
    let long = frame(&vec![0u8; 65536 + 5]);
    assert_eq!(&long[..2], &[0, 5]);
}

#[test]
fn queries_over_the_cap_are_dropped() {
    let mut stats = Stats::default();
    let mut inflight = Inflight::new(2);
    assert!(inflight.enter(&mut stats));
    assert!(inflight.enter(&mut stats));
    assert!(!inflight.enter(&mut stats));
    assert_eq!(stats.dropped, 1);
    inflight.leave();
    assert!(inflight.enter(&mut stats));
    assert!(!inflight.enter(&mut stats));
    assert_eq!(stats.dropped, 2);
    let mut closed = Inflight::new(0);
    closed.leave();
    assert!(!closed.enter(&mut stats));
}

#[test]
fn workers_default_to_cores() {
    assert_eq!(worker_count(3, Some(8)), 3);
    assert_eq!(worker_count(0, Some(8)), 8);
    assert_eq!(worker_count(0, None), 1);
}

#[test]
fn queries_are_logged() {
    let mut cfg = QlogConfig::default();
    let r = request("ok.test", 28);
    let rec = log_record(&cfg, Some("10.0.0.1".to_string()), &r, Action::Forwarded, 17, 42);
    assert_eq!(rec.client, "10.0.0.1");
    assert_eq!(rec.domain, "ok.test");
    assert_eq!(rec.qtype, "AAAA");
    assert_eq!(rec.action, "forwarded");
    assert_eq!(rec.ts_ms, 17);
    assert_eq!(rec.latency_ms, 42);
    assert_eq!(log_record(&cfg, None, &r, Action::Error, 0, 0).client, "");
    cfg.log_client_ip = false;
    let hidden = log_record(&cfg, Some("10.0.0.1".to_string()), &r, Action::Blocked, 0, 1 << 32);
    assert_eq!(hidden.client, "");
    assert_eq!(hidden.action, "blocked");
    assert_eq!(hidden.latency_ms, 0);
}
