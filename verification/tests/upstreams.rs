use hickory_proto::op::{Message, MessageType, OpCode, Query, ResponseCode};
use hickory_proto::rr::rdata::A;
use hickory_proto::rr::{Name, RData, Record, RecordType};
use rust_dns::config::Config;
use rust_dns::message::{Answer, Question, Start};
use rust_dns::upstream::{is_truncated, starts_match, validate, Attempt, Upstream};

fn message(id: u16, kind: MessageType, name: &str, rtype: RecordType, ttls: &[u32]) -> Message {
    let name = Name::from_ascii(name).unwrap();
    let mut m = Message::new(id, kind, OpCode::Query);
    m.add_query(Query::query(name.clone(), rtype));
    for ttl in ttls {
        m.add_answer(Record::from_rdata(name.clone(), *ttl, RData::A(A::new(1, 2, 3, 4))));
    }
    m
}

fn wire(id: u16, kind: MessageType, name: &str, rtype: RecordType, ttls: &[u32]) -> Vec<u8> {
    message(id, kind, name, rtype, ttls).to_vec().unwrap()
}

fn upstream(servers: Vec<u8>) -> Upstream<u8> {
    Upstream::new(&Config::default().upstream, servers, 30, 100, 60)
}

#[test]
fn limits_are_at_least_one() {
    let mut cfg = Config::default().upstream;
    let u = Upstream::new(&cfg, vec![1u8], 1, 2, 3);
    assert_eq!((u.timeout_ms, u.max_qps, u.max_concurrent), (2000, 2000, 256));
    assert_eq!((u.min_ttl, u.max_ttl, u.negative_ttl), (1, 2, 3));
    cfg.max_qps = 0;
    cfg.max_concurrent = 0;
    let u = Upstream::new(&cfg, vec![1u8], 1, 2, 3);
    assert_eq!((u.max_qps, u.max_concurrent), (1, 1));
}

#[test]
fn servers_can_be_replaced() {
    let mut u = upstream(vec![1, 2]);
    u.set_servers(vec![3]);
    assert_eq!(u.servers, vec![3]);
    assert_eq!(u.timeout_ms, 2000);
}

#[test]
fn ttl_is_the_smallest_within_bounds() {
    let u = upstream(vec![]);
    let ttl = |ttls: &[u32]| u.effective_ttl(&wire(1, MessageType::Response, "a.", RecordType::A, ttls));
    assert_eq!(ttl(&[90, 50, 70]), 50);
    assert_eq!(ttl(&[45]), 45);
    assert_eq!(ttl(&[300, 200]), 100);
    assert_eq!(ttl(&[300, 3]), 30);
    assert_eq!(ttl(&[]), 60);
}

#[test]
fn negative_answers_have_their_own_ttl() {
    let mut u = upstream(vec![]);
    let mut m = message(1, MessageType::Response, "a.", RecordType::A, &[90]);
    m.metadata.response_code = ResponseCode::NXDomain;
    assert_eq!(u.effective_ttl(&m.to_vec().unwrap()), 60);
    assert_eq!(u.effective_ttl(&[1, 2, 3]), 60);
    u.negative_ttl = 5;
    assert_eq!(u.effective_ttl(&[]), 30);
}

#[test]
fn ttl_of_plain_values() {
    let u = upstream(vec![]);
    let answer = |ttl| Answer { labels: vec![], class: 1, ttl, address: None };
    let answers = vec![answer(80), answer(40)];
    assert_eq!(u.answers_ttl(&Some((0, answers.clone()))), 40);
    assert_eq!(u.answers_ttl(&Some((3, answers))), 60);
    assert_eq!(u.answers_ttl(&Some((0, vec![]))), 60);
    assert_eq!(u.answers_ttl(&None), 60);
}

#[test]
fn cached_responses_expire_after_their_ttl() {
    let u = upstream(vec![]);
    let w = wire(1, MessageType::Response, "a.", RecordType::A, &[50]);
    let c = u.to_cached(w.clone(), 1000);
    assert_eq!(c.wire, w);
    assert_eq!(c.ttl_secs, 50);
    assert_eq!(c.expires_unix, 1050);
}

#[test]
fn replies_have_to_match_the_query() {
    let q = wire(7, MessageType::Query, "ok.test.", RecordType::A, &[]);
    let reply = |id, kind, name: &str, rtype| validate(&q, &wire(id, kind, name, rtype, &[60]));
    assert!(reply(7, MessageType::Response, "ok.test.", RecordType::A));
    assert!(reply(7, MessageType::Response, "OK.Test.", RecordType::A));
    assert!(!reply(8, MessageType::Response, "ok.test.", RecordType::A));
    assert!(!reply(7, MessageType::Query, "ok.test.", RecordType::A));
    assert!(!reply(7, MessageType::Response, "no.test.", RecordType::A));
    assert!(!reply(7, MessageType::Response, "ok.test.", RecordType::AAAA));
    assert!(!reply(7, MessageType::Response, "x.ok.test.", RecordType::A));
    assert!(!validate(&q, &[7, 7, 7]));
    assert!(!validate(&[], &q));
    let bare = Message::new(7, MessageType::Response, OpCode::Query).to_vec().unwrap();
    assert!(!validate(&q, &bare));
}

#[test]
fn replies_are_taken_though_a_record_cannot_be_read() {
    let u = upstream(vec![10]);
    let q = wire(7, MessageType::Query, "ok.test.", RecordType::A, &[]);
    let mut reply = wire(7, MessageType::Response, "ok.test.", RecordType::A, &[]);
    reply[7] = 1;
    // A record of type 42, for the name asked, with no data.
    reply.extend_from_slice(&[0xc0, 12, 0, 42, 0, 1, 0, 0, 0, 90, 0, 0]);
    assert!(Message::from_vec(&reply).is_err());
    assert!(validate(&q, &reply));
    let mut r = u.resolve();
    let taken = r.advance(&q, Ok(reply.clone())).unwrap();
    assert_eq!(taken, reply);
    let c = u.to_cached(taken, 1000);
    assert_eq!((c.wire, c.ttl_secs, c.expires_unix), (reply.clone(), 60, 1060));
    reply[1] = 8;
    assert!(!validate(&q, &reply));
}

#[test]
fn starts_of_messages_are_compared() {
    let start = |id, is_response, question_count, label: &[u8]| Start {
        id,
        is_response,
        question_count,
        question: Question { labels: vec![label.to_vec()], rtype: 1, class: 1 },
    };
    let q = start(7, false, 1, b"ab");
    assert!(starts_match(&q, &start(7, true, 1, b"aB")));
    assert!(!starts_match(&q, &start(8, true, 1, b"ab")));
    assert!(!starts_match(&q, &start(7, false, 1, b"ab")));
    assert!(!starts_match(&q, &start(7, true, 0, b"ab")));
    assert!(!starts_match(&q, &start(7, true, 1, b"abc")));
}

#[test]
fn truncation_bit_is_read() {
    assert!(is_truncated(&[0, 0, 0x02]));
    assert!(is_truncated(&[0, 0, 0x87, 1]));
    assert!(!is_truncated(&[0, 0, 0x85]));
    assert!(!is_truncated(&[0, 0]));
}

fn failure(a: Attempt) -> String {
    match a {
        Attempt::Fail(e) => e,
        _ => panic!("goes on"),
    }
}

#[test]
fn no_servers_no_answer() {
    let r = upstream(vec![]).resolve();
    assert_eq!(failure(r.next()), "no upstream servers configured");
}

#[test]
fn servers_are_tried_in_order() {
    let u = upstream(vec![10, 20]);
    let q = wire(7, MessageType::Query, "ok.test.", RecordType::A, &[]);
    let mut r = u.resolve();
    assert!(matches!(r.next(), Attempt::Udp(0)));
    assert!(r.advance(&q, Err("timed out".to_string())).is_none());
    assert!(matches!(r.next(), Attempt::Udp(1)));
    let good = wire(7, MessageType::Response, "ok.test.", RecordType::A, &[50]);
    let taken = r.advance(&q, Ok(good.clone())).unwrap();
    assert_eq!(taken, good);
    let c = u.to_cached(taken, 5);
    assert_eq!((c.wire, c.ttl_secs, c.expires_unix), (good, 50, 55));
}

#[test]
fn last_error_is_given() {
    let u = upstream(vec![10, 20]);
    let q = wire(7, MessageType::Query, "ok.test.", RecordType::A, &[]);
    let mut r = u.resolve();
    assert!(r.advance(&q, Err("first".to_string())).is_none());
    assert!(r.advance(&q, Err("second".to_string())).is_none());
    assert_eq!(failure(r.next()), "second");
}

#[test]
fn replies_that_do_not_match_are_not_taken() {
    let u = upstream(vec![10]);
    let q = wire(7, MessageType::Query, "ok.test.", RecordType::A, &[]);
    let mut r = u.resolve();
    let spoofed = wire(8, MessageType::Response, "ok.test.", RecordType::A, &[50]);
    assert!(r.advance(&q, Ok(spoofed)).is_none());
    assert_eq!(failure(r.next()), "upstream reply does not match the query");
}

#[test]
fn bad_replies_need_no_ttl() {
    let mut u = upstream(vec![10]);
    u.min_ttl = 9;
    u.max_ttl = 3;
    let q = wire(7, MessageType::Query, "ok.test.", RecordType::A, &[]);
    let mut r = u.resolve();
    assert!(r.advance(&q, Ok(vec![1, 2, 0])).is_none());
    assert_eq!(failure(r.next()), "upstream reply does not match the query");
}

#[test]
fn truncated_replies_are_asked_for_over_tcp() {
    let u = upstream(vec![10, 20]);
    let q = wire(7, MessageType::Query, "ok.test.", RecordType::A, &[]);
    let mut m = message(7, MessageType::Response, "ok.test.", RecordType::A, &[50]);
    m.metadata.truncation = true;
    let short = m.to_vec().unwrap();
    let mut r = u.resolve();
    assert!(r.advance(&q, Ok(short.clone())).is_none());
    assert!(matches!(r.next(), Attempt::Tcp(0)));
    assert!(r.advance(&q, Err("refused".to_string())).is_none());
    assert!(matches!(r.next(), Attempt::Udp(1)));
    assert!(r.advance(&q, Ok(short.clone())).is_none());
    assert!(matches!(r.next(), Attempt::Tcp(1)));
    assert!(r.advance(&q, Ok(short)).is_some());
}
