//! The query pipeline: parse, check the blocklist, look in the cache, forward.
//!
//! Each step is a decision on plain values. Between the steps the caller looks
//! in the cache and asks the upstream servers.

use std::sync::Arc;

use vstd::prelude::*;
use vstd::seq_lib::*;
use vstd::string::*;
use vstd::utf8::*;

use crate::bigendian;
use crate::bigendian::{copy_from, decode_be, encode_be};
use crate::blocklist;
use crate::blocklist::Blocklist;
use crate::cache::{CacheKey, CachedResponse};
use crate::config::DnsConfig;
use crate::message;
use crate::message::{Address, Head, Question, Reply};
use crate::message::{NO_ERROR, NX_DOMAIN, SERV_FAIL, TYPE_A, TYPE_AAAA};
use crate::stats::{Action, Stats};
use crate::text;

verus! {

// ---------------------------------------------------------------------------
// Requests
// ---------------------------------------------------------------------------

/// What a query asks, and what a reply to it repeats.
pub struct Request {
    pub id: u16,
    pub op_code: u8,
    pub recursion_desired: bool,
    /// The first question.
    pub question: Question,
    /// The name asked for: lower case, without a trailing dot.
    pub name: String,
}

/// The values of a request.
#[verifier::ext_equal]
pub struct RequestModel {
    pub id: u16,
    pub op_code: u8,
    pub recursion_desired: bool,
    pub question: message::QuestionModel,
    pub name: Seq<char>,
}

impl View for Request {
    type V = RequestModel;

    open spec fn view(&self) -> RequestModel {
        RequestModel {
            id: self.id,
            op_code: self.op_code,
            recursion_desired: self.recursion_desired,
            question: self.question@,
            name: self.name@,
        }
    }
}

/// A domain name as it is written.
pub open spec fn written_name(labels: Seq<Seq<u8>>) -> Seq<char> {
    if labels.len() == 0 {
        seq!['.']
    } else {
        message::shown(labels)
    }
}

/// The name that a question asks for: lower case, without a trailing dot.
pub open spec fn asked_name(labels: Seq<Seq<u8>>) -> Seq<char> {
    text::lowercase(text::without_trailing(written_name(labels), '.'))
}

/// The request in a message's head: none without a question.
pub open spec fn request_in(m: message::HeadModel) -> Option<RequestModel> {
    if m.questions.len() > 0 && message::valid_name(m.questions[0].labels) {
        Some(
            RequestModel {
                id: m.id,
                op_code: m.op_code,
                recursion_desired: m.recursion_desired,
                question: m.questions[0],
                name: asked_name(m.questions[0].labels),
            },
        )
    } else {
        None
    }
}

/// The request that a packet holds: none where it cannot be parsed.
pub open spec fn request_of(data: Seq<u8>) -> Option<RequestModel> {
    match message::decoded_message(data) {
        Some(m) => request_in(m.head),
        None => None,
    }
}

/// The request in a message's head: none without a question.
pub fn head_request(m: Head) -> (r: Option<Request>)
    ensures
        match r {
            Some(request) => request_in(m@) == Some(request@),
            None => request_in(m@) is None,
        },
        r is Some <==> m@.questions.len() > 0 && message::valid_name(m@.questions[0].labels),
        r matches Some(request) ==> {
            &&& request@.id == m@.id
            &&& request@.op_code == m@.op_code
            &&& request@.recursion_desired == m@.recursion_desired
            &&& request@.question == m@.questions[0]
            &&& request@.name == asked_name(m@.questions[0].labels)
        },
{
    let mut questions: Vec<Question> = m.questions;
    if questions.len() == 0 {
        return None;
    }
    let question: Question = questions.remove(0);
    assert(m@.questions[0] == question@);
    match message::name_text(&question.labels) {
        Some(name) => {
            let name: String = text::to_lowercase(text::trim_end_char(name.as_str(), '.'));
            Some(
                Request {
                    id: m.id,
                    op_code: m.op_code,
                    recursion_desired: m.recursion_desired,
                    question,
                    name,
                },
            )
        },
        None => None,
    }
}

/// The request that a packet holds: none where it cannot be parsed or asks
/// nothing.
pub fn read_request(data: &[u8]) -> (r: Option<Request>)
    ensures
        match r {
            Some(request) => request_of(data@) == Some(request@),
            None => request_of(data@) is None,
        },
        r is Some <==> (message::decoded_message(data@) matches Some(m) && m.head.questions.len() > 0),
        r matches Some(request) ==> {
            let head = message::decoded_message(data@)->0.head;
            &&& data@.len() >= 12
            &&& data@.take(2) == bigendian::be_bytes(request@.id as nat, 2)
            &&& request@.op_code < 16
            &&& message::valid_name(request@.question.labels)
            &&& request@.id == head.id
            &&& request@.op_code == head.op_code
            &&& request@.recursion_desired == head.recursion_desired
            &&& request@.question == head.questions[0]
            &&& request@.name == asked_name(head.questions[0].labels)
        },
{
    match message::decode_head(data) {
        Some(m) => {
            proof {
                if m@.questions.len() > 0 {
                    assert(message::valid_name(m@.questions[0].labels));
                }
            }
            head_request(m)
        },
        None => None,
    }
}

// ---------------------------------------------------------------------------
// Replies
// ---------------------------------------------------------------------------

/// A reply without an answer, to a request. It offers recursion.
pub open spec fn coded_reply(request: RequestModel, code: u16) -> message::ReplyModel {
    message::ReplyModel {
        id: request.id,
        op_code: request.op_code,
        recursion_desired: request.recursion_desired,
        recursion_available: true,
        response_code: code,
        question: request.question,
        answer: None,
    }
}

/// The answer to a blocked query: NXDOMAIN in that mode. Else the configured
/// address for A and AAAA, and an empty answer for other types, so that
/// resolvers stop chasing the name.
pub open spec fn blocked_reply(request: RequestModel, dns: DnsConfig) -> message::ReplyModel {
    if dns.sinkhole_mode@ == "nxdomain"@ {
        coded_reply(request, NX_DOMAIN)
    } else {
        message::ReplyModel {
            answer: if request.question.rtype == TYPE_A {
                Some((dns.sinkhole_ttl, Address::V4(dns.sinkhole_ipv4)))
            } else if request.question.rtype == TYPE_AAAA {
                Some((dns.sinkhole_ttl, Address::V6(dns.sinkhole_ipv6)))
            } else {
                None
            },
            ..coded_reply(request, NO_ERROR)
        }
    }
}

/// The bytes of a reply, none where it cannot be encoded.
pub open spec fn reply_bytes(r: message::ReplyModel) -> Seq<u8> {
    match message::encoded_reply(r) {
        Some(bytes) => bytes,
        None => Seq::empty(),
    }
}

/// Whether bytes are a reply that its receiver reads as `r`.
pub open spec fn carries(bytes: Seq<u8>, r: message::ReplyModel) -> bool {
    &&& bytes == reply_bytes(r)
    &&& message::encodable(r) ==> {
        &&& message::decoded_message(bytes) == Some(message::reply_message(r))
        &&& bytes.take(2) == bigendian::be_bytes(r.id as nat, 2)
    }
}

/// A reply to a request: no error, and no answer.
fn base_response(request: &Request) -> (r: Reply)
    ensures
        r@ == coded_reply(request@, NO_ERROR),
{
    Reply {
        id: request.id,
        op_code: request.op_code,
        recursion_desired: request.recursion_desired,
        recursion_available: true,
        response_code: NO_ERROR,
        question: request.question.copy(),
        answer: None,
    }
}

/// The bytes of a reply, none where it cannot be encoded.
fn to_bytes(reply: &Reply) -> (r: Vec<u8>)
    ensures
        carries(r@, reply@),
{
    match message::encode(reply) {
        Some(bytes) => bytes,
        None => Vec::new(),
    }
}

/// The answer to a blocked query.
pub fn build_blocked(request: &Request, dns: &DnsConfig) -> (r: Vec<u8>)
    ensures
        carries(r@, blocked_reply(request@, *dns)),
        request@.op_code < 16 && message::valid_name(request@.question.labels) ==> {
            let head = message::decoded_message(r@)->0.head;
            &&& message::decoded_message(r@) is Some
            &&& head.id == request@.id && head.is_response
            &&& head.op_code == request@.op_code
            &&& head.recursion_desired == request@.recursion_desired
            &&& head.recursion_available
            &&& !head.authoritative && !head.truncated
            &&& !head.authentic_data && !head.checking_disabled
            &&& head.questions == seq![request@.question]
        },
        request@.op_code < 16 && message::valid_name(request@.question.labels) ==> {
            let answers = message::decoded_message(r@)->0.answers;
            let code = message::decoded_message(r@)->0.head.response_code;
            let asked = request@.question;
            if dns.sinkhole_mode@ == "nxdomain"@ {
                code == 3 && answers.len() == 0
            } else if asked.rtype == 1 {
                code == 0 && answers == seq![
                    message::AnswerModel {
                        labels: asked.labels,
                        class: 1,
                        ttl: dns.sinkhole_ttl,
                        address: Some(Address::V4(dns.sinkhole_ipv4)),
                    },
                ]
            } else if asked.rtype == 28 {
                code == 0 && answers == seq![
                    message::AnswerModel {
                        labels: asked.labels,
                        class: 1,
                        ttl: dns.sinkhole_ttl,
                        address: Some(Address::V6(dns.sinkhole_ipv6)),
                    },
                ]
            } else {
                code == 0 && answers.len() == 0
            }
        },
{
    let mut reply: Reply = base_response(request);
    if text::same(dns.sinkhole_mode.as_str(), "nxdomain") {
        reply.response_code = NX_DOMAIN;
    } else if request.question.rtype == TYPE_A {
        reply.answer = Some((dns.sinkhole_ttl, Address::V4(dns.sinkhole_ipv4)));
    } else if request.question.rtype == TYPE_AAAA {
        reply.answer = Some((dns.sinkhole_ttl, Address::V6(dns.sinkhole_ipv6)));
    }
    to_bytes(&reply)
}

/// A reply that holds a response code alone.
pub fn build_response_code(request: &Request, code: u16) -> (r: Vec<u8>)
    ensures
        carries(r@, coded_reply(request@, code)),
        request@.op_code < 16 && code < 16 && message::valid_name(request@.question.labels) ==> {
            &&& message::decoded_message(r@)->0.head.response_code == code
            &&& message::decoded_message(r@)->0.answers.len() == 0
        },
        request@.op_code < 16 && code < 16 && message::valid_name(request@.question.labels) ==> {
            let head = message::decoded_message(r@)->0.head;
            &&& message::decoded_message(r@) is Some
            &&& head.id == request@.id && head.is_response
            &&& head.op_code == request@.op_code
            &&& head.recursion_desired == request@.recursion_desired
            &&& head.recursion_available
            &&& !head.authoritative && !head.truncated
            &&& !head.authentic_data && !head.checking_disabled
            &&& head.questions == seq![request@.question]
        },
{
    let mut reply: Reply = base_response(request);
    reply.response_code = code;
    to_bytes(&reply)
}

/// A message with its transaction id replaced.
pub open spec fn patched(wire: Seq<u8>, id: u16) -> Seq<u8> {
    if wire.len() >= 2 {
        bigendian::be_bytes(id as nat, 2) + wire.skip(2)
    } else {
        wire
    }
}

/// Overwrites the transaction id, so that a cached response matches a client.
pub fn patch_id(wire: &[u8], id: u16) -> (r: Vec<u8>)
    ensures
        r@ == patched(wire@, id),
        wire@.len() >= 2 ==> r@.take(2) == bigendian::be_bytes(id as nat, 2),
        r@ == if wire@.len() >= 2 {
            seq![(id / 256) as u8, (id % 256) as u8] + wire@.skip(2)
        } else {
            wire@
        },
{
    proof {
        bigendian::law_highest_byte_first(id as nat, Seq::empty());
        assert(id as nat / 256 % 256 == id / 256);
    }
    if wire.len() >= 2 {
        let mut out: Vec<u8> = encode_be(id as u64, 2);
        let mut rest: Vec<u8> = copy_from(wire, 2);
        out.append(&mut rest);
        proof {
            bigendian::lemma_be_bytes_len(id as nat, 2);
            assert(out@.take(2) == bigendian::be_bytes(id as nat, 2));
        }
        out
    } else {
        assert(wire@.skip(0) == wire@);
        copy_from(wire, 0)
    }
}

// ---------------------------------------------------------------------------
// Steps
// ---------------------------------------------------------------------------

/// An answer to send.
pub struct Answered {
    pub response: Vec<u8>,
    pub action: Action,
}

/// What is to be done for a request.
pub enum Step {
    /// Send this answer.
    Answer(Answered),
    /// Look in the cache under this key, and on a miss ask upstream.
    Lookup(CacheKey),
}

/// What came of looking a key up.
pub enum Outcome {
    /// The cache held a response.
    Hit(Arc<CachedResponse>),
    /// An upstream server gave a response.
    Resolved(Arc<CachedResponse>),
    /// No upstream server gave a response.
    Failed,
}

/// Decides on a request: a blocked name is answered at once, whatever the cache
/// holds. Other names are looked up.
pub fn decide(
    request: &Request,
    blocklist: &Blocklist,
    dns: &DnsConfig,
    stats: &mut Stats,
) -> (r: Step)
    ensures
        match r {
            Step::Answer(answered) => {
                &&& blocklist::blocks(blocklist@, request@.name)
                &&& answered.action == Action::Blocked
                &&& carries(answered.response@, blocked_reply(request@, *dns))
                &&& *final(stats) == old(stats).with_query().with_action(Action::Blocked)
            },
            Step::Lookup(key) => {
                &&& !blocklist::blocks(blocklist@, request@.name)
                &&& key@.name == request@.name
                &&& key@.rtype == request@.question.rtype
                &&& *final(stats) == old(stats).with_query()
            },
        },
{
    stats.count_query();
    if blocklist.is_blocked(request.name.as_str()) {
        stats.count_action(Action::Blocked);
        Step::Answer(
            Answered { response: build_blocked(request, dns), action: Action::Blocked },
        )
    } else {
        Step::Lookup(
            CacheKey { name: request.name.as_str().to_owned(), rtype: request.question.rtype },
        )
    }
}

/// Takes in a packet: one that cannot be parsed or asks nothing is dropped
/// silently and not counted.
pub fn receive(
    data: &[u8],
    blocklist: &Blocklist,
    dns: &DnsConfig,
    stats: &mut Stats,
) -> (r: Option<(Request, Step)>)
    ensures
        r is Some <==> (message::decoded_message(data@) matches Some(m) && m.head.questions.len() > 0),
        match r {
            None => request_of(data@) is None && *final(stats) == *old(stats),
            Some((request, step)) => {
                let head = message::decoded_message(data@)->0.head;
                let labels = head.questions[0].labels;
                &&& request_of(data@) == Some(request@)
                &&& request@.id == head.id
                &&& request@.op_code == head.op_code
                &&& request@.recursion_desired == head.recursion_desired
                &&& request@.question == head.questions[0]
                &&& request@.name == asked_name(labels)
                &&& labels.len() > 0 && (forall|i: int, j: int|
                0 <= i < labels.len() && 0 <= j < labels[i].len() ==> {
                    ||| 48 <= #[trigger] labels[i][j] <= 57
                    ||| 65 <= labels[i][j] <= 90
                    ||| 97 <= labels[i][j] <= 122
                    ||| labels[i][j] == 95
                    ||| labels[i][j] == 45 && j > 0
                }) && (forall|i: int|
                0 <= i < labels.len() ==> !((#[trigger] labels[i]).len() >= 4 && labels[i][0] == 120 && labels[i][1] == 110
                    && labels[i][2] == 45 && labels[i][3] == 45))
                    ==> request@.name == labels.map_values(
                    |l: Seq<u8>|
                        l.map_values(
                            |b: u8|
                                if 65 <= b <= 90 {
                                    (b + 32) as char
                                } else {
                                    b as char
                                },
                        ).push('.'),
                ).flatten().drop_last()
                &&& data@.take(2) == bigendian::be_bytes(request@.id as nat, 2)
                &&& request@.op_code < 16
                &&& message::valid_name(request@.question.labels)
                &&& match step {
                    Step::Answer(answered) => {
                        let reply = blocked_reply(request@, *dns);
                        &&& blocklist::blocks(blocklist@, request@.name)
                        &&& answered.action == Action::Blocked
                        &&& answered.response@ == reply_bytes(reply)
                        &&& message::decoded_message(answered.response@) == Some(
                            message::reply_message(reply),
                        )
                        &&& answered.response@.take(2) == data@.take(2)
                        &&& {
                            let replied = message::decoded_message(answered.response@)->0.head;
                            &&& message::decoded_message(answered.response@) is Some
                            &&& replied.id == head.id && replied.is_response
                            &&& replied.op_code == head.op_code
                            &&& replied.recursion_desired == head.recursion_desired
                            &&& replied.recursion_available
                            &&& !replied.authoritative && !replied.truncated
                            &&& !replied.authentic_data && !replied.checking_disabled
                            &&& replied.questions == seq![head.questions[0]]
                        }
                        &&& {
                            let answers = message::decoded_message(answered.response@)->0.answers;
                            let code = message::decoded_message(answered.response@)->0.head.response_code;
                            let asked = head.questions[0];
                            if dns.sinkhole_mode@ == "nxdomain"@ {
                                code == 3 && answers.len() == 0
                            } else if asked.rtype == 1 {
                                code == 0 && answers == seq![
                                    message::AnswerModel {
                                        labels: asked.labels,
                                        class: 1,
                                        ttl: dns.sinkhole_ttl,
                                        address: Some(Address::V4(dns.sinkhole_ipv4)),
                                    },
                                ]
                            } else if asked.rtype == 28 {
                                code == 0 && answers == seq![
                                    message::AnswerModel {
                                        labels: asked.labels,
                                        class: 1,
                                        ttl: dns.sinkhole_ttl,
                                        address: Some(Address::V6(dns.sinkhole_ipv6)),
                                    },
                                ]
                            } else {
                                code == 0 && answers.len() == 0
                            }
                        }
                        &&& *final(stats) == old(stats).with_query().with_action(Action::Blocked)
                    },
                    Step::Lookup(key) => {
                        &&& !blocklist::blocks(blocklist@, request@.name)
                        &&& key@.name == request@.name
                        &&& key@.rtype == request@.question.rtype
                        &&& *final(stats) == old(stats).with_query()
                    },
                }
            },
        },
{
    match read_request(data) {
        Some(request) => {
            proof {
                let labels = message::decoded_message(data@)->0.head.questions[0].labels;
                lemma_asked_of_plain(labels);
                law_sinkhole_answers(request@, *dns);
            }
            let step: Step = decide(&request, blocklist, dns, stats);
            Some((request, step))
        },
        None => None,
    }
}

/// Answers a request once its key was looked up. A response from the cache or
/// from upstream gets the client's transaction id.
pub fn finish(request: &Request, outcome: &Outcome, stats: &mut Stats) -> (r: Answered)
    ensures
        match *outcome {
            Outcome::Hit(cached) => {
                &&& r.action == Action::Cached
                &&& r.response@ == patched(cached@.wire, request@.id)
            },
            Outcome::Resolved(cached) => {
                &&& r.action == Action::Forwarded
                &&& r.response@ == patched(cached@.wire, request@.id)
            },
            Outcome::Failed => {
                &&& r.action == Action::Error
                &&& carries(r.response@, coded_reply(request@, SERV_FAIL))
            },
        },
        match *outcome {
            Outcome::Failed => request@.op_code < 16 && message::valid_name(
                request@.question.labels,
            ) ==> {
                let m = message::decoded_message(r.response@)->0;
                &&& message::decoded_message(r.response@) is Some
                &&& m.head.response_code == 2 && m.answers.len() == 0
                &&& m.head.id == request@.id && m.head.is_response
                &&& m.head.questions == seq![request@.question]
            },
            Outcome::Hit(cached) | Outcome::Resolved(cached) => r.response@
                == if cached@.wire.len() >= 2 {
                seq![(request@.id / 256) as u8, (request@.id % 256) as u8] + cached@.wire.skip(2)
            } else {
                cached@.wire
            },
        },
        *final(stats) == old(stats).with_action(r.action),
{
    match outcome {
        Outcome::Hit(cached) => {
            stats.count_action(Action::Cached);
            Answered {
                response: patch_id(cached.wire.as_slice(), request.id),
                action: Action::Cached,
            }
        },
        Outcome::Resolved(cached) => {
            stats.count_action(Action::Forwarded);
            Answered {
                response: patch_id(cached.wire.as_slice(), request.id),
                action: Action::Forwarded,
            }
        },
        Outcome::Failed => {
            stats.count_action(Action::Error);
            Answered {
                response: build_response_code(request, SERV_FAIL),
                action: Action::Error,
            }
        },
    }
}

// ---------------------------------------------------------------------------
// Listeners
// ---------------------------------------------------------------------------

/// Queries that are being handled, and the cap on them.
pub struct Inflight {
    limit: usize,
    active: usize,
}

impl Inflight {
    #[verifier::type_invariant]
    spec fn within_limit(self) -> bool {
        self.active <= self.limit
    }

    /// The cap.
    pub closed spec fn limit(self) -> usize {
        self.limit
    }

    /// Queries being handled.
    pub closed spec fn active(self) -> usize {
        self.active
    }

    /// No query is being handled.
    pub fn new(limit: usize) -> (r: Inflight)
        ensures
            r.limit() == limit,
            r.active() == 0,
    {
        Inflight { limit, active: 0 }
    }

    /// Takes a query in where the cap allows, and says whether it did. A query
    /// that is not taken in is counted as dropped.
    pub fn enter(&mut self, stats: &mut Stats) -> (r: bool)
        ensures
            old(self).active() <= old(self).limit(),
            r <==> old(self).active() < old(self).limit(),
            final(self).limit() == old(self).limit(),
            final(self).active() == if r {
                old(self).active() + 1
            } else {
                old(self).active() as int
            },
            final(self).active() <= final(self).limit(),
            *final(stats) == if r {
                *old(stats)
            } else {
                old(stats).with_drop()
            },
    {
        proof {
            use_type_invariant(&*self);
        }
        if self.active < self.limit {
            self.active = self.active + 1;
            true
        } else {
            stats.count_drop();
            false
        }
    }

    /// A query that was taken in is done.
    pub fn leave(&mut self)
        ensures
            final(self).limit() == old(self).limit(),
            final(self).active() == if old(self).active() > 0 {
                old(self).active() - 1
            } else {
                0
            },
            final(self).active() <= final(self).limit(),
    {
        proof {
            use_type_invariant(&*self);
        }
        if self.active > 0 {
            self.active = self.active - 1;
        }
    }
}

/// Number of receive loops: as configured, and where that is zero one for each
/// core, or one where the number of cores is not known.
pub fn worker_count(configured: usize, cores: Option<usize>) -> (r: usize)
    ensures
        r == if configured > 0 {
            configured
        } else {
            match cores {
                Some(n) => n,
                None => 1,
            }
        },
{
    if configured > 0 {
        configured
    } else {
        match cores {
            Some(n) => n,
            None => 1,
        }
    }
}

/// A message as it goes over TCP: its length in two bytes, then the message.
/// Of a length that takes more, the two low bytes are sent.
pub open spec fn framed(payload: Seq<u8>) -> Seq<u8> {
    bigendian::be_bytes(payload.len(), 2) + payload
}

/// A message as it goes over TCP.
pub fn frame(payload: &[u8]) -> (r: Vec<u8>)
    ensures
        r@ == framed(payload@),
        r@ == seq![(payload@.len() / 256 % 256) as u8, (payload@.len() % 256) as u8] + payload@,
{
    proof {
        bigendian::law_highest_byte_first(payload@.len(), Seq::empty());
    }
    let mut out: Vec<u8> = encode_be(payload.len() as u64, 2);
    let mut rest: Vec<u8> = copy_from(payload, 0);
    assert(payload@.skip(0) == payload@);
    out.append(&mut rest);
    out
}

/// The length of the message that follows two length bytes.
pub fn frame_len(header: &[u8]) -> (r: usize)
    requires
        header@.len() == 2,
    ensures
        r == bigendian::be_value(header@),
        r == header@[0] * 256 + header@[1],
        r <= 0xffff,
{
    proof {
        bigendian::law_highest_byte_first(0, header@);
    }
    let n: u64 = decode_be(header, 0, 2);
    proof {
        bigendian::lemma_pow256();
        bigendian::lemma_bytes_of_value(header@);
        assert(header@.subrange(0, 2) == header@);
    }
    n as usize
}

// ---------------------------------------------------------------------------
// Laws
// ---------------------------------------------------------------------------

/// A message that fits is read back from its frame.
pub proof fn law_frames_read_back(payload: Seq<u8>)
    requires
        payload.len() <= 0xffff,
    ensures
        framed(payload).len() == payload.len() + 2,
        bigendian::be_value(framed(payload).take(2)) == payload.len(),
        framed(payload).skip(2) == payload,
{
    bigendian::lemma_pow256();
    bigendian::lemma_value_of_bytes(payload.len(), 2);
    assert(framed(payload).take(2) == bigendian::be_bytes(payload.len(), 2));
    assert(framed(payload).skip(2) == payload);
}

/// Serving a response to one client and then to another is serving it to the
/// other: nothing of a client stays in it.
pub proof fn law_patching_leaves_no_trace(wire: Seq<u8>, a: u16, b: u16)
    ensures
        patched(patched(wire, a), b) == patched(wire, b),
        patched(wire, a).len() == wire.len(),
        wire.len() >= 2 ==> patched(wire, a).skip(2) == wire.skip(2),
{
    bigendian::lemma_be_bytes_len(a as nat, 2);
    bigendian::lemma_be_bytes_len(b as nat, 2);
    if wire.len() >= 2 {
        assert(patched(wire, a).skip(2) == wire.skip(2));
    }
}

/// A response with the id that it has already is served as it is: the client
/// whose query was forwarded gets the bytes that the upstream server sent.
pub proof fn law_own_id_changes_nothing(wire: Seq<u8>, id: u16)
    requires
        wire.len() >= 2,
        wire.take(2) == bigendian::be_bytes(id as nat, 2),
    ensures
        patched(wire, id) == wire,
{
    assert(wire == wire.take(2) + wire.skip(2));
}

/// Written labels are the first ones followed by the others.
proof fn lemma_shown_split(labels: Seq<Seq<u8>>, k: int)
    requires
        0 <= k <= labels.len(),
    ensures
        message::shown(labels) == message::shown(labels.take(k)) + message::shown(labels.skip(k)),
    decreases labels.len(),
{
    if k == labels.len() {
        assert(labels.take(k) == labels);
        assert(message::shown(labels.skip(k)) == Seq::<char>::empty());
    } else {
        let rest = labels.drop_last();
        lemma_shown_split(rest, k);
        assert(labels.skip(k).drop_last() == rest.skip(k));
        assert(labels.take(k) == rest.take(k));
        assert(labels.skip(k).last() == labels.last());
        assert(message::shown(labels) == message::shown(labels.take(k)) + message::shown(
            labels.skip(k),
        ));
    }
}

/// A label that is not international is written in ASCII, and not with a dot
/// first.
proof fn lemma_written_label(l: Seq<u8>)
    ensures
        is_ascii_chars(message::written_label(l)),
        l.len() > 0 ==> message::written_label(l).len() > 0 && message::written_label(l)[0] != '.',
    decreases l.len(),
{
    if l.len() > 0 {
        lemma_written_label(l.drop_last());
        let (w, head) = (message::written_label(l), message::written_label(l.drop_last()));
        let b = message::written_byte(l.last(), l.len() == 1);
        assert forall|i: int| 0 <= i < w.len() implies '\0' <= #[trigger] w[i] <= '\u{7f}' by {
            if i < head.len() {
                assert(w[i] == head[i]);
            } else {
                assert(w[i] == b[i - head.len()]);
            }
        }
        if l.len() == 1 {
            assert(head.len() == 0);
            assert(w[0] == b[0]);
        } else {
            assert(w[0] == head[0]);
        }
    }
}

/// Labels that are not international are written in ASCII, and not with dots
/// alone.
proof fn lemma_shown_ascii(labels: Seq<Seq<u8>>)
    requires
        message::valid_name(labels),
        !message::some_international(labels),
    ensures
        is_ascii_chars(message::shown(labels)),
        labels.len() > 0 ==> message::shown(labels).len() > 0 && message::shown(labels)[0] != '.',
    decreases labels.len(),
{
    if labels.len() > 0 {
        let (rest, last) = (labels.drop_last(), labels.last());
        assert(last == labels[labels.len() - 1]);
        assert forall|i: int| 0 <= i < rest.len() implies 1 <= (#[trigger] rest[i]).len() <= 63
            && !message::is_international(rest[i]) by {
            assert(rest[i] == labels[i]);
        }
        lemma_shown_ascii(rest);
        lemma_written_label(last);
        let (d, head, t) = (
            message::shown(labels),
            message::shown(rest),
            message::written_label(last),
        );
        assert forall|i: int| 0 <= i < d.len() implies '\0' <= #[trigger] d[i] <= '\u{7f}' by {
            if i < head.len() {
                assert(d[i] == head[i]);
            } else if i < head.len() + t.len() {
                assert(d[i] == t[i - head.len()]);
            }
        }
        if rest.len() > 0 {
            assert(d[0] == head[0]);
        } else {
            assert(head.len() == 0);
            assert(d[0] == t[0]);
        }
    }
}

/// A text that does not begin with a character is not all a run of it.
proof fn lemma_not_all_dots(s: Seq<char>)
    requires
        s.len() > 0,
        s[0] != '.',
    ensures
        text::without_trailing(s, '.').len() > 0,
    decreases s.len(),
{
    if s.last() == '.' {
        lemma_not_all_dots(s.drop_last());
    }
}

/// Plain labels are written in ASCII, with a dot at the end.
proof fn lemma_dotted_plain(labels: Seq<Seq<u8>>)
    requires
        message::is_plain_name(labels),
    ensures
        is_ascii_chars(message::dotted(labels)),
        labels.len() > 0 ==> message::dotted(labels).len() > 0 && message::dotted(labels).last()
            == '.',
        labels.len() > 0 && labels.last().len() > 0 ==> message::dotted(labels).len() > 1
            && message::dotted(labels)[message::dotted(labels).len() - 2] != '.',
    decreases labels.len(),
{
    if labels.len() > 0 {
        let rest = labels.drop_last();
        let last = labels.last();
        assert(message::is_plain_label(labels[labels.len() - 1]));
        assert forall|i: int| 0 <= i < rest.len() implies message::is_plain_label(
            #[trigger] rest[i],
        ) by {
            assert(rest[i] == labels[i]);
        }
        lemma_dotted_plain(rest);
        let t = message::label_text(last);
        assert forall|i: int| 0 <= i < t.len() implies '\0' <= #[trigger] t[i] <= '\u{7f}' && t[i]
            != '.' by {
            assert(message::is_plain_char(last[i] as char, i == 0));
        }
        let d = message::dotted(labels);
        let head = message::dotted(rest);
        assert forall|i: int| 0 <= i < d.len() implies '\0' <= #[trigger] d[i] <= '\u{7f}' by {
            if i < head.len() {
                assert(d[i] == head[i]);
            } else if i < head.len() + t.len() {
                assert(d[i] == t[i - head.len()]);
            }
        }
        if last.len() > 0 {
            assert(d[d.len() - 2] == t[t.len() - 1]);
        }
    }
}

/// The name asked for by plain labels is the labels in lower case with dots
/// between them.
proof fn lemma_asked_name(labels: Seq<Seq<u8>>)
    requires
        labels.len() > 0,
        message::valid_name(labels),
        message::is_plain_name(labels),
    ensures
        asked_name(labels) == message::dotted(labels).drop_last().map_values(
            |c: char| text::ascii_lower(c),
        ),
{
    let d = message::dotted(labels);
    assert(labels[labels.len() - 1].len() >= 1);
    message::lemma_plain_is_shown(labels);
    lemma_dotted_plain(labels);
    assert(d.drop_last().last() == d[d.len() - 2]);
    text::lemma_without_trailing(d.drop_last(), '.');
    assert(text::without_trailing(d, '.') == d.drop_last());
    assert forall|i: int| 0 <= i < d.drop_last().len() implies '\0' <= #[trigger] d.drop_last()[i]
        <= '\u{7f}' by {
        assert('\0' <= d[i] <= '\u{7f}');
    }
    assert(is_ascii_chars(d.drop_last()));
}

/// A part of a domain name is a domain name.
proof fn lemma_valid_suffix(labels: Seq<Seq<u8>>, k: int)
    requires
        message::valid_name(labels),
        0 <= k <= labels.len(),
    ensures
        message::valid_name(labels.skip(k)),
{
    let suffix = labels.skip(k);
    assert forall|i: int| 0 <= i < suffix.len() implies 1 <= (#[trigger] suffix[i]).len() <= 63 by {
        assert(suffix[i] == labels[i + k]);
    }
    lemma_name_len_suffix(labels, k);
}

/// A part of a name takes no more bytes than the name.
proof fn lemma_name_len_suffix(labels: Seq<Seq<u8>>, k: int)
    requires
        0 <= k <= labels.len(),
    ensures
        message::name_len(labels.skip(k)) <= message::name_len(labels),
    decreases labels.len(),
{
    if k < labels.len() {
        lemma_name_len_suffix(labels.drop_last(), k);
        assert(labels.skip(k).drop_last() == labels.drop_last().skip(k));
    } else {
        assert(message::name_len(labels.skip(k)) == 0);
    }
}

/// A query is blocked where the list names what it asks for or one of its
/// parents, and where a wildcard names one of its parents. The labels in front of
/// the parent may hold anything.
pub proof fn law_listed_parent_blocks_query(
    labels: Seq<Seq<u8>>,
    k: int,
    list: blocklist::BlocklistModel,
)
    requires
        message::valid_name(labels),
        0 <= k < labels.len(),
        k > 0 ==> !message::some_international(labels.skip(k)),
        list.exact.contains(asked_name(labels.skip(k))) || k > 0 && list.wildcard.contains(
            asked_name(labels.skip(k)),
        ),
    ensures
        blocklist::blocks(list, asked_name(labels)),
{
    let parent = labels.skip(k);
    let head = labels.take(k);
    assert(labels.skip(0) == labels);
    if k > 0 {
        lemma_valid_suffix(labels, k);
        lemma_shown_split(labels, k);
        lemma_shown_ascii(parent);
        let (h, p) = (message::shown(head), message::shown(parent));
        lemma_not_all_dots(p);
        text::lemma_without_trailing_end(h, p, '.');
        let tail = text::without_trailing(p, '.');
        text::lemma_without_trailing(p, '.');
        text::lemma_drawn_ascii(tail, p);
        assert(h.last() == '.');
        let end = seq!['.'] + tail;
        assert forall|i: int| 0 <= i < end.len() implies '\0' <= #[trigger] end[i] <= '\u{7f}' by {
            if i > 0 {
                assert(end[i] == tail[i - 1]);
            }
        }
        assert(h + tail == h.drop_last() + end);
        text::lemma_lowercase_end(h.drop_last(), end);
        let (name, domain) = (asked_name(labels), asked_name(parent));
        let low = text::lowercase(end);
        assert(low.len() == domain.len() + 1);
        assert(low[0] == '.');
        assert(low.skip(1) == domain);
        assert(name.skip(name.len() - low.len()) == low);
        assert(name[name.len() - low.len()] == name.skip(name.len() - low.len())[0]);
        assert(name.skip(name.len() - domain.len()) == low.skip(1));
        assert(blocklist::is_subdomain(name, domain));
    }
}

/// A character of a plain domain name.
spec fn is_name_char(c: char) -> bool {
    c == '.' || c == '-' || message::is_plain_char(c, true)
}

/// The characters of plain labels.
proof fn lemma_dotted_chars(labels: Seq<Seq<u8>>)
    requires
        message::is_plain_name(labels),
    ensures
        forall|i: int|
            0 <= i < message::dotted(labels).len() ==> is_name_char(
                #[trigger] message::dotted(labels)[i],
            ),
    decreases labels.len(),
{
    if labels.len() > 0 {
        let rest = labels.drop_last();
        let last = labels.last();
        assert(message::is_plain_label(labels[labels.len() - 1]));
        assert forall|i: int| 0 <= i < rest.len() implies message::is_plain_label(
            #[trigger] rest[i],
        ) by {
            assert(rest[i] == labels[i]);
        }
        lemma_dotted_chars(rest);
        let (d, head, t) = (
            message::dotted(labels),
            message::dotted(rest),
            message::label_text(last),
        );
        assert forall|i: int| 0 <= i < d.len() implies is_name_char(#[trigger] d[i]) by {
            if i < head.len() {
                assert(d[i] == head[i]);
            } else if i < head.len() + t.len() {
                assert(message::is_plain_char(last[i - head.len()] as char, i == head.len()));
                assert(d[i] == t[i - head.len()]);
            }
        }
    }
}

/// A plain domain name as it is written in a list: its labels with dots between
/// them.
pub open spec fn domain_text(labels: Seq<Seq<u8>>) -> Seq<char> {
    message::dotted(labels).drop_last()
}

/// A line with a plain domain name lists the name that queries for it ask for.
proof fn lemma_domain_line(labels: Seq<Seq<u8>>)
    requires
        labels.len() > 0,
        message::valid_name(labels),
        message::is_plain_name(labels),
    ensures
        asked_name(labels).len() > 0,
        !domain_text(labels).contains('\n'),
        blocklist::line_entry(domain_text(labels)) == blocklist::Entry::Exact(asked_name(labels)),
        blocklist::line_entry(blocklist::wildcard_line(domain_text(labels)))
            == blocklist::Entry::Wildcard(asked_name(labels)),
{
    let w = domain_text(labels);
    let d = message::dotted(labels);
    lemma_asked_name(labels);
    lemma_dotted_chars(labels);
    lemma_dotted_plain(labels);
    assert(labels[labels.len() - 1].len() >= 1);
    assert(w.last() == d[d.len() - 2]);
    assert forall|i: int| 0 <= i < w.len() implies is_name_char(#[trigger] w[i]) && '\0' <= w[i]
        <= '\u{7f}' by {
        assert(w[i] == d[i]);
    }
    let lower = text::lowercase(w);
    assert(lower == asked_name(labels));
    assert forall|i: int| 0 <= i < lower.len() implies is_name_char(#[trigger] lower[i]) by {
        assert(lower[i] == text::ascii_lower(w[i]));
        assert(is_name_char(w[i]));
    }
    assert(lower.last() == text::ascii_lower(w.last()));
    assert(is_name_char(w[0]) && is_name_char(w.last()));
    assert(is_name_char(lower[0]) && is_name_char(lower.last()));
    text::lemma_trimmed(w);
    text::lemma_no_pattern(lower, seq![':', '/', '/']);
    text::lemma_before(lower, '/');
    text::lemma_before(lower, ':');
    text::lemma_without_trailing(lower, '.');
    text::lemma_trimmed(lower);
    assert(blocklist::normalized(w) == lower);
    if text::begins_with(w, seq!['*', '.']) {
        assert(w.take(2)[0] == w[0]);
    }
    let star = blocklist::wildcard_line(w);
    text::lemma_trimmed(star);
    assert(star.take(2) == seq!['*', '.']);
    assert(star.skip(2) == w);
}

/// A list with a plain domain on a line of its own blocks queries for the domain
/// and for every subdomain, whatever the case of letters in either, the labels
/// in front of the domain, and the other lines. With a wildcard for the domain,
/// it blocks queries for every subdomain.
pub proof fn law_listing_a_domain_blocks_its_queries(
    list: Seq<char>,
    domain: Seq<Seq<u8>>,
    labels: Seq<Seq<u8>>,
    k: int,
)
    requires
        message::valid_name(labels),
        0 <= k < labels.len(),
        domain == labels.skip(k),
        message::is_plain_name(domain),
        text::pieces(list, '\n').contains(domain_text(domain)) || k > 0 && text::pieces(
            list,
            '\n',
        ).contains(blocklist::wildcard_line(domain_text(domain))),
    ensures
        blocklist::blocks(blocklist::parsed(list), asked_name(labels)),
{
    let lines = text::pieces(list, '\n');
    let m = blocklist::parsed(list);
    lemma_valid_suffix(labels, k);
    message::lemma_plain_is_shown(domain);
    lemma_domain_line(domain);
    if lines.contains(domain_text(domain)) {
        let i = choose|i: int| 0 <= i < lines.len() && lines[i] == domain_text(domain);
        assert(blocklist::line_entry(lines[i]) == blocklist::Entry::Exact(asked_name(domain)));
        assert(m.exact.contains(asked_name(domain)));
    } else {
        let i = choose|i: int|
            0 <= i < lines.len() && lines[i] == blocklist::wildcard_line(domain_text(domain));
        assert(blocklist::line_entry(lines[i]) == blocklist::Entry::Wildcard(asked_name(domain)));
        assert(m.wildcard.contains(asked_name(domain)));
    }
    law_listed_parent_blocks_query(labels, k, m);
}

/// A list that holds a wildcard for a domain and nothing else lets queries for
/// the domain itself through.
pub proof fn law_wildcard_leaves_the_apex(domain: Seq<Seq<u8>>)
    requires
        domain.len() > 0,
        message::valid_name(domain),
        message::is_plain_name(domain),
    ensures
        !blocklist::blocks(
            blocklist::parsed(blocklist::wildcard_line(domain_text(domain))),
            asked_name(domain),
        ),
{
    let line = blocklist::wildcard_line(domain_text(domain));
    lemma_domain_line(domain);
    assert(!line.contains('\n')) by {
        if line.contains('\n') {
            let i = choose|i: int| 0 <= i < line.len() && line[i] == '\n';
            assert(domain_text(domain)[i - 2] == '\n');
        }
    }
    text::lemma_no_char(line, '\n');
    let lines = text::pieces(line, '\n');
    assert(lines == seq![line]);
    let m = blocklist::parsed(line);
    let name = asked_name(domain);
    assert forall|d: Seq<char>| #[trigger] m.exact.contains(d) implies false by {
        let i = choose|i: int|
            0 <= i < lines.len() && #[trigger] blocklist::line_entry(lines[i])
                == blocklist::Entry::Exact(d);
    }
    assert forall|d: Seq<char>| #[trigger] m.wildcard.contains(d) implies d == name by {
        let i = choose|i: int|
            0 <= i < lines.len() && #[trigger] blocklist::line_entry(lines[i])
                == blocklist::Entry::Wildcard(d);
    }
}

/// Labels that differ in the case of letters only ask for one name, so that one
/// entry blocks them and one cache key holds them.
pub proof fn law_case_is_ignored(a: Seq<Seq<u8>>, b: Seq<Seq<u8>>)
    requires
        message::valid_name(a),
        message::valid_name(b),
        !message::some_international(a),
        !message::some_international(b),
        a.len() == b.len(),
        forall|i: int| 0 <= i < a.len() ==> message::same_label(#[trigger] a[i], b[i]),
    ensures
        asked_name(a) == asked_name(b),
{
    if a.len() > 0 {
        let lower = |c: char| text::ascii_lower(c);
        let (x, y) = (message::shown(a), message::shown(b));
        lemma_shown_ascii(a);
        lemma_shown_ascii(b);
        lemma_same_shown(a, b);
        lemma_same_trailing(x, y);
        let (p, q) = (text::without_trailing(x, '.'), text::without_trailing(y, '.'));
        text::lemma_without_trailing(x, '.');
        text::lemma_without_trailing(y, '.');
        text::lemma_drawn_ascii(p, x);
        text::lemma_drawn_ascii(q, y);
        assert(p.map_values(lower) == q.map_values(lower));
    }
}

/// Bytes equal in lower case are written equally in lower case.
proof fn lemma_same_written(a: Seq<u8>, b: Seq<u8>)
    requires
        message::same_label(a, b),
    ensures
        message::written_label(a).map_values(|c: char| text::ascii_lower(c))
            == message::written_label(b).map_values(|c: char| text::ascii_lower(c)),
    decreases a.len(),
{
    let lower = |c: char| text::ascii_lower(c);
    let f = |x: u8| message::lower_byte(x);
    assert(a.map_values(f).len() == b.map_values(f).len());
    if a.len() > 0 {
        let (p, q) = (a.drop_last(), b.drop_last());
        assert(p.map_values(f) == a.map_values(f).drop_last());
        assert(q.map_values(f) == b.map_values(f).drop_last());
        lemma_same_written(p, q);
        let first = a.len() == 1;
        assert(a.map_values(f)[a.len() - 1] == b.map_values(f)[a.len() - 1]);
        assert(message::lower_byte(a.last()) == message::lower_byte(b.last()));
        let (x, y) = (
            message::written_byte(a.last(), first),
            message::written_byte(b.last(), first),
        );
        assert(x.map_values(lower) == y.map_values(lower)) by {
            if a.last() != b.last() {
                assert(x == seq![a.last() as char]);
                assert(y == seq![b.last() as char]);
            }
        }
        let (s, t) = (message::written_label(p), message::written_label(q));
        assert((s + x).map_values(lower) == s.map_values(lower) + x.map_values(lower));
        assert((t + y).map_values(lower) == t.map_values(lower) + y.map_values(lower));
    }
}

/// Labels equal in lower case are written equally in lower case.
proof fn lemma_same_shown(a: Seq<Seq<u8>>, b: Seq<Seq<u8>>)
    requires
        !message::some_international(a),
        !message::some_international(b),
        a.len() == b.len(),
        forall|i: int| 0 <= i < a.len() ==> message::same_label(#[trigger] a[i], b[i]),
    ensures
        message::shown(a).map_values(|c: char| text::ascii_lower(c)) == message::shown(
            b,
        ).map_values(|c: char| text::ascii_lower(c)),
    decreases a.len(),
{
    let lower = |c: char| text::ascii_lower(c);
    if a.len() > 0 {
        let (p, q) = (a.drop_last(), b.drop_last());
        assert forall|i: int| 0 <= i < p.len() implies message::same_label(#[trigger] p[i], q[i])
            && !message::is_international(p[i]) by {
            assert(p[i] == a[i]);
            assert(q[i] == b[i]);
        }
        assert forall|i: int| 0 <= i < q.len() implies !message::is_international(
            #[trigger] q[i],
        ) by {
            assert(q[i] == b[i]);
        }
        lemma_same_shown(p, q);
        assert(message::same_label(a[a.len() - 1], b[a.len() - 1]));
        assert(!message::is_international(b[b.len() - 1]));
        lemma_same_written(a.last(), b.last());
        let (s, t) = (message::written_label(a.last()), message::written_label(b.last()));
        let (x, y) = (message::shown(p), message::shown(q));
        assert((x + s + seq!['.']).map_values(lower) == x.map_values(lower) + s.map_values(lower)
            + seq![lower('.')]);
        assert((y + t + seq!['.']).map_values(lower) == y.map_values(lower) + t.map_values(lower)
            + seq![lower('.')]);
    }
}

/// Texts equal in lower case are so without the dots at their ends.
proof fn lemma_same_trailing(x: Seq<char>, y: Seq<char>)
    requires
        x.map_values(|c: char| text::ascii_lower(c)) == y.map_values(
            |c: char| text::ascii_lower(c),
        ),
    ensures
        text::without_trailing(x, '.').map_values(|c: char| text::ascii_lower(c))
            == text::without_trailing(y, '.').map_values(|c: char| text::ascii_lower(c)),
    decreases x.len(),
{
    let lower = |c: char| text::ascii_lower(c);
    assert(x.map_values(lower).len() == y.map_values(lower).len());
    if x.len() > 0 {
        assert(x.map_values(lower)[x.len() - 1] == y.map_values(lower)[x.len() - 1]);
        assert(lower(x.last()) == lower(y.last()));
        if x.last() == '.' {
            assert(x.drop_last().map_values(lower) == x.map_values(lower).drop_last());
            assert(y.drop_last().map_values(lower) == y.map_values(lower).drop_last());
            lemma_same_trailing(x.drop_last(), y.drop_last());
        }
    }
}

/// The name that a question asks for is the whole of its name as that is
/// written, in lower case, without the dots at its end and nothing else left out.
pub proof fn law_whole_name_is_asked(labels: Seq<Seq<u8>>) -> (n: int)
    ensures
        ({
            let t = if labels.len() == 0 {
                seq!['.']
            } else {
                message::shown(labels)
            };
            &&& 0 <= n <= t.len()
            &&& asked_name(labels) == text::lowercase(t.take(n))
            &&& forall|i: int| n <= i < t.len() ==> #[trigger] t[i] == '.'
            &&& n > 0 ==> t[n - 1] != '.'
        }),
{
    text::law_trailing_run_goes(written_name(labels), '.')
}

/// Of plain labels the name asked for is all labels in lower case, with single
/// dots between them.
pub proof fn law_plain_name_is_asked_whole(labels: Seq<Seq<u8>>)
    requires
        labels.len() > 0,
        message::valid_name(labels),
        (forall|i: int, j: int|
                0 <= i < labels.len() && 0 <= j < labels[i].len() ==> {
                    ||| 48 <= #[trigger] labels[i][j] <= 57
                    ||| 65 <= labels[i][j] <= 90
                    ||| 97 <= labels[i][j] <= 122
                    ||| labels[i][j] == 95
                    ||| labels[i][j] == 45 && j > 0
                }),
        (forall|i: int|
                0 <= i < labels.len() ==> !((#[trigger] labels[i]).len() >= 4 && labels[i][0] == 120 && labels[i][1] == 110
                    && labels[i][2] == 45 && labels[i][3] == 45)),
    ensures
        asked_name(labels) == labels.map_values(
                    |l: Seq<u8>|
                        l.map_values(
                            |b: u8|
                                if 65 <= b <= 90 {
                                    (b + 32) as char
                                } else {
                                    b as char
                                },
                        ).push('.'),
                ).flatten().drop_last(),
{
    lemma_asked_of_plain(labels);
}

/// Labels of plain bytes are plain.
proof fn lemma_bytes_make_plain(labels: Seq<Seq<u8>>)
    requires
        (forall|i: int, j: int|
                0 <= i < labels.len() && 0 <= j < labels[i].len() ==> {
                    ||| 48 <= #[trigger] labels[i][j] <= 57
                    ||| 65 <= labels[i][j] <= 90
                    ||| 97 <= labels[i][j] <= 122
                    ||| labels[i][j] == 95
                    ||| labels[i][j] == 45 && j > 0
                }),
        (forall|i: int|
                0 <= i < labels.len() ==> !((#[trigger] labels[i]).len() >= 4 && labels[i][0] == 120 && labels[i][1] == 110
                    && labels[i][2] == 45 && labels[i][3] == 45)),
    ensures
        message::is_plain_name(labels),
{
    assert forall|i: int| 0 <= i < labels.len() implies message::is_plain_label(
        #[trigger] labels[i],
    ) by {
        let l = labels[i];
        assert forall|j: int| 0 <= j < l.len() implies message::is_plain_char(
            #[trigger] l[j] as char,
            j == 0,
        ) by {
            assert(labels[i][j] == l[j]);
        }
        let t = message::label_text(l);
        let x = seq!['x', 'n', '-', '-'];
        if text::begins_with(t, x) {
            assert(t.take(4)[0] == t[0] && t.take(4)[1] == t[1]);
            assert(t.take(4)[2] == t[2] && t.take(4)[3] == t[3]);
            assert(t[0] == l[0] as char && t[1] == l[1] as char);
            assert(t[2] == l[2] as char && t[3] == l[3] as char);
        }
    }
}

proof fn lemma_asked_of_plain(labels: Seq<Seq<u8>>)
    requires
        message::valid_name(labels),
    ensures
        labels.len() > 0 && (forall|i: int, j: int|
                0 <= i < labels.len() && 0 <= j < labels[i].len() ==> {
                    ||| 48 <= #[trigger] labels[i][j] <= 57
                    ||| 65 <= labels[i][j] <= 90
                    ||| 97 <= labels[i][j] <= 122
                    ||| labels[i][j] == 95
                    ||| labels[i][j] == 45 && j > 0
                }) && (forall|i: int|
                0 <= i < labels.len() ==> !((#[trigger] labels[i]).len() >= 4 && labels[i][0] == 120 && labels[i][1] == 110
                    && labels[i][2] == 45 && labels[i][3] == 45))
            ==> asked_name(labels) == labels.map_values(
                    |l: Seq<u8>|
                        l.map_values(
                            |b: u8|
                                if 65 <= b <= 90 {
                                    (b + 32) as char
                                } else {
                                    b as char
                                },
                        ).push('.'),
                ).flatten().drop_last(),
{
    if labels.len() > 0 && (forall|i: int, j: int|
                0 <= i < labels.len() && 0 <= j < labels[i].len() ==> {
                    ||| 48 <= #[trigger] labels[i][j] <= 57
                    ||| 65 <= labels[i][j] <= 90
                    ||| 97 <= labels[i][j] <= 122
                    ||| labels[i][j] == 95
                    ||| labels[i][j] == 45 && j > 0
                }) && (forall|i: int|
                0 <= i < labels.len() ==> !((#[trigger] labels[i]).len() >= 4 && labels[i][0] == 120 && labels[i][1] == 110
                    && labels[i][2] == 45 && labels[i][3] == 45)) {
        lemma_bytes_make_plain(labels);
        lemma_asked_name(labels);
        lemma_lower_dotted(labels);
        let lower = |c: char| text::ascii_lower(c);
        let d = message::dotted(labels);
        assert(d.drop_last().map_values(lower) == d.map_values(lower).drop_last());
    }
}

/// Plain labels in lower case, each followed by a dot.
proof fn lemma_lower_dotted(labels: Seq<Seq<u8>>)
    ensures
        message::dotted(labels).map_values(|c: char| text::ascii_lower(c)) == labels.map_values(
            |l: Seq<u8>|
                l.map_values(
                    |b: u8|
                        if 65 <= b <= 90 {
                            (b + 32) as char
                        } else {
                            b as char
                        },
                ).push('.'),
        ).flatten(),
    decreases labels.len(),
{
    let lower = |c: char| text::ascii_lower(c);
    let g = |b: u8|
        if 65 <= b <= 90 {
            (b + 32) as char
        } else {
            b as char
        };
    let f = |l: Seq<u8>| l.map_values(g).push('.');
    if labels.len() > 0 {
        let rest = labels.drop_last();
        lemma_lower_dotted(rest);
        let t = message::label_text(labels.last());
        let x = message::dotted(rest);
        assert(t.map_values(lower) == labels.last().map_values(g));
        assert((x + t + seq!['.']).map_values(lower) == x.map_values(lower) + (t.map_values(
            lower,
        ).push('.')));
        assert(labels.map_values(f) == rest.map_values(f).push(f(labels.last())));
        rest.map_values(f).lemma_flatten_push(f(labels.last()));
    } else {
        assert(labels.map_values(f) == Seq::<Seq<char>>::empty());
        assert(Seq::<Seq<char>>::empty().flatten() == Seq::<char>::empty());
        assert(message::dotted(labels).map_values(lower) == Seq::<char>::empty());
    }
}

/// Plain names that differ in more than the case of letters are asked for under
/// different names, so that they never share a cache entry.
pub proof fn law_different_names_are_kept_apart(a: Seq<Seq<u8>>, b: Seq<Seq<u8>>, i: int, j: int)
    requires
        a.len() > 0,
        b.len() > 0,
        message::valid_name(a),
        message::valid_name(b),
        (forall|i: int, j: int|
                0 <= i < a.len() && 0 <= j < a[i].len() ==> {
                    ||| 48 <= #[trigger] a[i][j] <= 57
                    ||| 65 <= a[i][j] <= 90
                    ||| 97 <= a[i][j] <= 122
                    ||| a[i][j] == 95
                    ||| a[i][j] == 45 && j > 0
                }),
        (forall|i: int|
                0 <= i < a.len() ==> !((#[trigger] a[i]).len() >= 4 && a[i][0] == 120 && a[i][1] == 110
                    && a[i][2] == 45 && a[i][3] == 45)),
        (forall|i: int, j: int|
                0 <= i < b.len() && 0 <= j < b[i].len() ==> {
                    ||| 48 <= #[trigger] b[i][j] <= 57
                    ||| 65 <= b[i][j] <= 90
                    ||| 97 <= b[i][j] <= 122
                    ||| b[i][j] == 95
                    ||| b[i][j] == 45 && j > 0
                }),
        (forall|i: int|
                0 <= i < b.len() ==> !((#[trigger] b[i]).len() >= 4 && b[i][0] == 120 && b[i][1] == 110
                    && b[i][2] == 45 && b[i][3] == 45)),
        asked_name(a) == asked_name(b),
    ensures
        a.len() == b.len(),
        0 <= i < a.len() ==> a[i].len() == b[i].len(),
        0 <= i < a.len() && 0 <= j < a[i].len() ==> {
            ||| a[i][j] == b[i][j]
            ||| 65 <= a[i][j] <= 90 && b[i][j] == a[i][j] + 32
            ||| 65 <= b[i][j] <= 90 && a[i][j] == b[i][j] + 32
        },
{
    let g = |b: u8|
        if 65 <= b <= 90 {
            (b + 32) as char
        } else {
            b as char
        };
    let f = |l: Seq<u8>| l.map_values(g);
    let (p, q) = (a.map_values(f), b.map_values(f));
    lemma_asked_is_joined(a);
    lemma_asked_is_joined(b);
    assert(text::joined(p, seq!['.']) == text::joined(q, seq!['.']));
    assert(p == q);
    if 0 <= i < a.len() {
        assert(p[i] == q[i]);
        assert(a[i].map_values(g).len() == b[i].map_values(g).len());
        if 0 <= j < a[i].len() {
            assert(a[i].map_values(g)[j] == b[i].map_values(g)[j]);
        }
    }
}

/// The name asked for gives back the labels when it is split at its dots.
proof fn lemma_asked_is_joined(labels: Seq<Seq<u8>>)
    requires
        labels.len() > 0,
        message::valid_name(labels),
        (forall|i: int, j: int|
                0 <= i < labels.len() && 0 <= j < labels[i].len() ==> {
                    ||| 48 <= #[trigger] labels[i][j] <= 57
                    ||| 65 <= labels[i][j] <= 90
                    ||| 97 <= labels[i][j] <= 122
                    ||| labels[i][j] == 95
                    ||| labels[i][j] == 45 && j > 0
                }),
        (forall|i: int|
                0 <= i < labels.len() ==> !((#[trigger] labels[i]).len() >= 4 && labels[i][0] == 120 && labels[i][1] == 110
                    && labels[i][2] == 45 && labels[i][3] == 45)),
    ensures
        ({
            let parts = labels.map_values(
                |l: Seq<u8>|
                    l.map_values(
                        |b: u8|
                            if 65 <= b <= 90 {
                                (b + 32) as char
                            } else {
                                b as char
                            },
                    ),
            );
            &&& asked_name(labels) == text::joined(parts, seq!['.'])
            &&& text::pieces(asked_name(labels), '.') == parts
        }),
{
    let g = |b: u8|
        if 65 <= b <= 90 {
            (b + 32) as char
        } else {
            b as char
        };
    let f = |l: Seq<u8>| l.map_values(g);
    let h = |l: Seq<u8>| l.map_values(g).push('.');
    let parts = labels.map_values(f);
    let dot = |p: Seq<char>| p + seq!['.'];
    lemma_asked_of_plain(labels);
    lemma_lower_dotted(labels);
    lemma_bytes_make_plain(labels);
    lemma_dotted_plain(labels);
    text::law_joining_keeps_every_part(parts, seq!['.']);
    assert(parts.map_values(dot) == labels.map_values(h)) by {
        assert forall|i: int| 0 <= i < labels.len() implies #[trigger] parts.map_values(dot)[i]
            == labels.map_values(h)[i] by {
            assert(labels[i].map_values(g) + seq!['.'] == labels[i].map_values(g).push('.'));
        }
    }
    let all = labels.map_values(h).flatten();
    let joined = text::joined(parts, seq!['.']);
    assert(joined + seq!['.'] == all);
    assert((joined + seq!['.']).drop_last() == joined);
    assert forall|i: int| 0 <= i < parts.len() implies !(#[trigger] parts[i]).contains('.') by {
        assert forall|j: int| 0 <= j < parts[i].len() implies parts[i][j] != '.' by {
            assert(parts[i][j] == g(labels[i][j]));
            let x = labels[i][j];
            assert(48 <= x <= 57 || 65 <= x <= 90 || 97 <= x <= 122 || x == 95 || x == 45);
        }
    }
    text::lemma_pieces_of_joined(parts, '.');
}

/// In NXDOMAIN mode a blocked query is answered so and with nothing else,
/// whatever its type. In every other mode it is answered without an error: with
/// one answer, the configured address, for A and AAAA, and with none for other
/// types.
pub proof fn law_sinkhole_answers(request: RequestModel, dns: DnsConfig)
    ensures
        ({
            let reply = blocked_reply(request, dns);
            let m = message::reply_message(reply);
            let asked = request.question;
            &&& request.op_code < 16 && message::valid_name(asked.labels) ==> message::encodable(
                reply,
            )
            &&& m.head.id == request.id && m.head.is_response
            &&& m.head.questions == seq![asked]
            &&& dns.sinkhole_mode@ == "nxdomain"@ ==> m.head.response_code == 3
                && m.answers.len() == 0
            &&& dns.sinkhole_mode@ != "nxdomain"@ ==> m.head.response_code == 0 && m.answers.len()
                == if asked.rtype == 1 || asked.rtype == 28 {
                1nat
            } else {
                0
            }
            &&& m.answers.len() > 0 ==> {
                &&& m.answers[0].labels == asked.labels
                &&& m.answers[0].class == 1
                &&& m.answers[0].ttl == dns.sinkhole_ttl
                &&& m.answers[0].address == if asked.rtype == 1 {
                    Some(Address::V4(dns.sinkhole_ipv4))
                } else {
                    Some(Address::V6(dns.sinkhole_ipv6))
                }
            }
        }),
{
}

/// A response that is served differs from the stored one in its first two bytes
/// alone, and these are the client's id, the higher byte first. A frame is the
/// length in two bytes, the higher first, and the message.
pub proof fn law_ids_and_lengths_go_in_front(wire: Seq<u8>, id: u16)
    ensures
        wire.len() >= 2 ==> patched(wire, id) == seq![(id / 256) as u8, (id % 256) as u8]
            + wire.skip(2),
        wire.len() < 2 ==> patched(wire, id) == wire,
        framed(wire) == seq![(wire.len() / 256 % 256) as u8, (wire.len() % 256) as u8] + wire,
{
    bigendian::law_highest_byte_first(id as nat, Seq::empty());
    bigendian::law_highest_byte_first(wire.len(), Seq::empty());
    assert(id as nat / 256 % 256 == id / 256);
}

/// A request is what a message's head says of it and of its first question.
/// There is one wherever there is a question whose name can be written.
pub proof fn law_request_is_the_first_question(m: message::HeadModel, data: Seq<u8>)
    ensures
        request_in(m) is Some <==> m.questions.len() > 0 && message::valid_name(
            m.questions[0].labels,
        ),
        request_in(m) matches Some(request) ==> {
            &&& request.id == m.id
            &&& request.op_code == m.op_code
            &&& request.recursion_desired == m.recursion_desired
            &&& request.question == m.questions[0]
            &&& request.name == asked_name(m.questions[0].labels)
        },
        match message::decoded_message(data) {
            Some(decoded) => request_of(data) == request_in(decoded.head),
            None => request_of(data) is None,
        },
{
}

/// A reply takes the transaction id, the opcode, the wish for recursion and the
/// question from its request. It offers recursion, and its bytes are what the
/// encoder gives, or none.
pub proof fn law_replies_answer_their_request(
    request: RequestModel,
    code: u16,
    dns: DnsConfig,
    reply: message::ReplyModel,
)
    ensures
        coded_reply(request, code).response_code == code,
        coded_reply(request, code).answer is None,
        reply == coded_reply(request, code) || reply == blocked_reply(request, dns) ==> {
            &&& reply.id == request.id
            &&& reply.op_code == request.op_code
            &&& reply.recursion_desired == request.recursion_desired
            &&& reply.recursion_available
            &&& reply.question == request.question
        },
        match message::encoded_reply(reply) {
            Some(bytes) => reply_bytes(reply) == bytes,
            None => reply_bytes(reply).len() == 0,
        },
{
}

} // verus!
