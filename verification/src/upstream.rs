//! Upstream forwarding: which server is asked next, which replies are taken,
//! and how long they are cached.
//!
//! Servers are asked in order over UDP, and once more over TCP where a reply
//! comes back truncated.

use vstd::prelude::*;
use vstd::string::*;

use crate::cache::CachedResponse;
use crate::config::UpstreamConfig;
use crate::message;
use crate::message::{Answer, Question, Start, NX_DOMAIN};

verus! {

/// The upstream servers, with addresses of type `A`, and the limits that hold
/// toward them.
#[derive(Clone)]
pub struct Upstream<A> {
    pub servers: Vec<A>,
    pub timeout_ms: u64,
    pub max_qps: u32,
    pub max_concurrent: usize,
    pub min_ttl: u32,
    pub max_ttl: u32,
    pub negative_ttl: u32,
}

// ---------------------------------------------------------------------------
// Lifetime of replies
// ---------------------------------------------------------------------------

/// The smallest TTL of some answers.
pub open spec fn smallest_ttl(answers: Seq<message::AnswerModel>) -> u32
    recommends
        answers.len() > 0,
    decreases answers.len(),
{
    if answers.len() <= 1 {
        answers[0].ttl
    } else {
        let rest = smallest_ttl(answers.drop_last());
        if answers.last().ttl < rest {
            answers.last().ttl
        } else {
            rest
        }
    }
}

/// `x` moved into the range from `lo` to `hi`.
pub open spec fn clamped(x: u32, lo: u32, hi: u32) -> u32 {
    if x < lo {
        lo
    } else if x > hi {
        hi
    } else {
        x
    }
}

impl<A> Upstream<A> {
    /// How long a reply with this response code and these answers is cached: as
    /// long as its smallest answer TTL, and a negative answer or a reply that
    /// cannot be parsed for `negative_ttl`, within the configured bounds.
    pub open spec fn lifetime(self, reply: Option<(u16, Seq<message::AnswerModel>)>) -> u32 {
        let ttl = match reply {
            Some((code, answers)) => if code == NX_DOMAIN || answers.len() == 0 {
                self.negative_ttl
            } else {
                smallest_ttl(answers)
            },
            None => self.negative_ttl,
        };
        clamped(ttl, self.min_ttl, self.max_ttl)
    }

    /// How long a message is cached.
    pub open spec fn ttl_of(self, m: Option<message::MessageModel>) -> u32 {
        self.lifetime(
            match m {
                Some(m) => Some((m.head.response_code, m.answers)),
                None => None,
            },
        )
    }

    /// Upstream servers under a configuration. The limits are at least one.
    pub fn new(
        cfg: &UpstreamConfig,
        servers: Vec<A>,
        min_ttl: u32,
        max_ttl: u32,
        negative_ttl: u32,
    ) -> (r: Upstream<A>)
        ensures
            r.servers == servers,
            r.timeout_ms == cfg.timeout_ms,
            r.max_qps == if cfg.max_qps == 0 {
                1
            } else {
                cfg.max_qps
            },
            r.max_concurrent == if cfg.max_concurrent == 0 {
                1
            } else {
                cfg.max_concurrent
            },
            r.min_ttl == min_ttl,
            r.max_ttl == max_ttl,
            r.negative_ttl == negative_ttl,
    {
        Upstream {
            servers,
            timeout_ms: cfg.timeout_ms,
            max_qps: if cfg.max_qps == 0 {
                1
            } else {
                cfg.max_qps
            },
            max_concurrent: if cfg.max_concurrent == 0 {
                1
            } else {
                cfg.max_concurrent
            },
            min_ttl,
            max_ttl,
            negative_ttl,
        }
    }

    /// Replaces the server list.
    pub fn set_servers(&mut self, servers: Vec<A>)
        ensures
            *final(self) == (Upstream { servers, ..*old(self) }),
    {
        self.servers = servers;
    }

    /// How long a reply with this response code and these answers is cached.
    pub fn answers_ttl(&self, reply: &Option<(u16, Vec<Answer>)>) -> (r: u32)
        requires
            self.min_ttl <= self.max_ttl,
        ensures
            r == self.lifetime(
                match *reply {
                    Some((code, answers)) => Some((code, message::answer_values(answers@))),
                    None => None,
                },
            ),
            match *reply {
                Some((code, answers)) => code != 3 && answers@.len() > 0 ==> exists|i: int|
                    0 <= i < answers@.len() && r == (if (#[trigger] answers@[i]).ttl
                        < self.min_ttl {
                        self.min_ttl
                    } else if answers@[i].ttl > self.max_ttl {
                        self.max_ttl
                    } else {
                        answers@[i].ttl
                    }) && forall|j: int|
                        0 <= j < answers@.len() ==> answers@[i].ttl <= (#[trigger] answers@[j]).ttl,
                None => true,
            },
            (match *reply {
                Some((code, answers)) => code == 3 || answers@.len() == 0,
                None => true,
            }) ==> r == if self.negative_ttl < self.min_ttl {
                self.min_ttl
            } else if self.negative_ttl > self.max_ttl {
                self.max_ttl
            } else {
                self.negative_ttl
            },
    {
        proof {
            if let Some((_, answers)) = reply {
                let all = message::answer_values(answers@);
                if answers@.len() > 0 {
                    law_smallest_ttl_is_the_least(all);
                    let k = choose|i: int|
                        0 <= i < all.len() && (#[trigger] all[i]).ttl == smallest_ttl(all);
                    assert(answers@[k].ttl == all[k].ttl);
                    assert forall|j: int| 0 <= j < answers@.len() implies answers@[k].ttl <= (
                    #[trigger] answers@[j]).ttl by {
                        assert(all[j].ttl == answers@[j].ttl);
                    }
                }
            }
        }
        let ttl: u32 = match reply {
            Some((code, answers)) => if *code == NX_DOMAIN || answers.len() == 0 {
                self.negative_ttl
            } else {
                let mut smallest: u32 = answers[0].ttl;
                let mut i: usize = 1;
                while i < answers.len()
                    invariant
                        1 <= i <= answers@.len(),
                        smallest == smallest_ttl(message::answer_values(answers@).take(i as int)),
                    decreases answers@.len() - i,
                {
                    proof {
                        let all = message::answer_values(answers@);
                        assert(all.take(i + 1).drop_last() == all.take(i as int));
                    }
                    if answers[i].ttl < smallest {
                        smallest = answers[i].ttl;
                    }
                    i = i + 1;
                }
                assert(message::answer_values(answers@).take(i as int) == message::answer_values(
                    answers@,
                ));
                smallest
            },
            None => self.negative_ttl,
        };
        if ttl < self.min_ttl {
            self.min_ttl
        } else if ttl > self.max_ttl {
            self.max_ttl
        } else {
            ttl
        }
    }

    /// How long a reply is cached.
    pub fn effective_ttl(&self, wire: &[u8]) -> (r: u32)
        requires
            self.min_ttl <= self.max_ttl,
        ensures
            r == self.ttl_of(message::decoded_message(wire@)),
            match message::decoded_message(wire@) {
                Some(m) => if m.head.response_code == 3 || m.answers.len() == 0 {
                    r == if self.negative_ttl < self.min_ttl {
                        self.min_ttl
                    } else if self.negative_ttl > self.max_ttl {
                        self.max_ttl
                    } else {
                        self.negative_ttl
                    }
                } else {
                    exists|i: int|
                        0 <= i < m.answers.len() && r == (if (#[trigger] m.answers[i]).ttl
                            < self.min_ttl {
                            self.min_ttl
                        } else if m.answers[i].ttl > self.max_ttl {
                            self.max_ttl
                        } else {
                            m.answers[i].ttl
                        }) && forall|j: int|
                            0 <= j < m.answers.len() ==> m.answers[i].ttl <= (
                            #[trigger] m.answers[j]).ttl
                },
                None => r == if self.negative_ttl < self.min_ttl {
                    self.min_ttl
                } else if self.negative_ttl > self.max_ttl {
                    self.max_ttl
                } else {
                    self.negative_ttl
                },
            },
    {
        proof {
            law_cached_for_the_least_ttl(*self, message::decoded_message(wire@));
        }
        self.answers_ttl(&message::decode_answers(wire))
    }

    /// A reply as it is cached at time `now`.
    pub fn to_cached(&self, wire: Vec<u8>, now: u64) -> (r: CachedResponse)
        requires
            self.min_ttl <= self.max_ttl,
            now + self.max_ttl <= u64::MAX,
        ensures
            r@.wire == wire@,
            r@.ttl_secs == self.ttl_of(message::decoded_message(wire@)),
            r@.expires_unix == now + r@.ttl_secs,
            match message::decoded_message(wire@) {
                Some(m) => if m.head.response_code == 3 || m.answers.len() == 0 {
                    r@.ttl_secs == if self.negative_ttl < self.min_ttl {
                        self.min_ttl
                    } else if self.negative_ttl > self.max_ttl {
                        self.max_ttl
                    } else {
                        self.negative_ttl
                    }
                } else {
                    exists|i: int|
                        0 <= i < m.answers.len() && r@.ttl_secs == (if (#[trigger] m.answers[i]).ttl
                            < self.min_ttl {
                            self.min_ttl
                        } else if m.answers[i].ttl > self.max_ttl {
                            self.max_ttl
                        } else {
                            m.answers[i].ttl
                        }) && forall|j: int|
                            0 <= j < m.answers.len() ==> m.answers[i].ttl <= (
                            #[trigger] m.answers[j]).ttl
                },
                None => r@.ttl_secs == if self.negative_ttl < self.min_ttl {
                    self.min_ttl
                } else if self.negative_ttl > self.max_ttl {
                    self.max_ttl
                } else {
                    self.negative_ttl
                },
            },
    {
        let ttl: u32 = self.effective_ttl(wire.as_slice());
        CachedResponse { wire, ttl_secs: ttl, expires_unix: now + ttl as u64 }
    }
}

// ---------------------------------------------------------------------------
// Validation of replies
// ---------------------------------------------------------------------------

/// Whether a message that starts so is a reply to a query that starts so: a
/// response with its transaction id and its question.
pub open spec fn answers_query(query: message::StartModel, reply: message::StartModel) -> bool {
    &&& reply.is_response
    &&& reply.id == query.id
    &&& query.question_count > 0
    &&& reply.question_count > 0
    &&& message::same_question(query.question, reply.question)
}

/// Whether bytes are a reply to a query's bytes. What follows the first question
/// has no part in it.
pub open spec fn is_reply(query: Seq<u8>, reply: Seq<u8>) -> bool {
    match (message::decoded_start(query), message::decoded_start(reply)) {
        (Some(q), Some(r)) => answers_query(q, r),
        _ => false,
    }
}

/// A byte in lower case.
fn to_lower(b: u8) -> (r: u8)
    ensures
        r == message::lower_byte(b),
{
    if 65 <= b && b <= 90 {
        b + 32
    } else {
        b
    }
}

/// Whether two labels are equal but for the case of letters.
fn labels_match(a: &Vec<u8>, b: &Vec<u8>) -> (r: bool)
    ensures
        r == message::same_label(a@, b@),
{
    let ghost f = |x: u8| message::lower_byte(x);
    if a.len() != b.len() {
        assert(a@.map_values(f).len() != b@.map_values(f).len());
        return false;
    }
    let mut i: usize = 0;
    while i < a.len()
        invariant
            i <= a@.len(),
            a@.len() == b@.len(),
            f == (|x: u8| message::lower_byte(x)),
            forall|k: int| 0 <= k < i ==> message::lower_byte(#[trigger] a@[k]) == message::lower_byte(b@[k]),
        decreases a@.len() - i,
    {
        if to_lower(a[i]) != to_lower(b[i]) {
            assert(a@.map_values(f)[i as int] != b@.map_values(f)[i as int]);
            return false;
        }
        i = i + 1;
    }
    assert(a@.map_values(f) == b@.map_values(f));
    true
}

/// Whether two questions ask for the same name, type and class.
fn questions_match(a: &Question, b: &Question) -> (r: bool)
    ensures
        r == message::same_question(a@, b@),
{
    if a.rtype != b.rtype || a.class != b.class || a.labels.len() != b.labels.len() {
        return false;
    }
    let mut i: usize = 0;
    while i < a.labels.len()
        invariant
            i <= a.labels@.len(),
            a.labels@.len() == b.labels@.len(),
            forall|k: int| 0 <= k < i ==> message::same_label(#[trigger] a@.labels[k], b@.labels[k]),
        decreases a.labels@.len() - i,
    {
        if !labels_match(&a.labels[i], &b.labels[i]) {
            assert(!message::same_label(a@.labels[i as int], b@.labels[i as int]));
            return false;
        }
        i = i + 1;
    }
    true
}

/// Whether a message that starts so is a reply to a query that starts so.
pub fn starts_match(query: &Start, reply: &Start) -> (r: bool)
    ensures
        r == answers_query(query@, reply@),
        r <==> reply@.is_response && reply@.id == query@.id && query@.question_count > 0
            && reply@.question_count > 0 && message::same_question(query@.question, reply@.question),
{
    reply.is_response && reply.id == query.id && query.question_count > 0
        && reply.question_count > 0 && questions_match(&query.question, &reply.question)
}

/// Whether bytes are a reply to a query's bytes.
pub fn validate(query: &[u8], reply: &[u8]) -> (r: bool)
    ensures
        r == is_reply(query@, reply@),
        match (message::decoded_start(query@), message::decoded_start(reply@)) {
            (Some(q), Some(m)) => r <==> m.is_response && m.id == q.id && q.question_count > 0
                && m.question_count > 0 && message::same_question(q.question, m.question),
            _ => !r,
        },
        match (message::decoded_message(query@), message::decoded_message(reply@)) {
            (Some(q), Some(m)) => q.head.questions.len() > 0 && m.head.questions.len() > 0 ==> r
                == (m.head.is_response && m.head.id == q.head.id && message::same_question(
                q.head.questions[0],
                m.head.questions[0],
            )),
            _ => true,
        },
        r ==> reply@.len() >= 12 && reply@.take(2) == query@.take(2),
{
    match (message::decode_start(query), message::decode_start(reply)) {
        (Some(q), Some(r)) => starts_match(&q, &r),
        _ => false,
    }
}

// ---------------------------------------------------------------------------
// Asking the servers
// ---------------------------------------------------------------------------

/// Whether a reply has the truncation bit set.
pub open spec fn truncated(wire: Seq<u8>) -> bool {
    wire.len() >= 3 && wire[2] & 0x02 != 0
}

/// Whether a reply has the truncation bit set.
pub fn is_truncated(wire: &[u8]) -> (r: bool)
    ensures
        r == truncated(wire@),
        r <==> wire@.len() >= 3 && wire@[2] / 2 % 2 == 1,
{
    proof {
        law_second_bit_marks_truncation(wire@);
    }
    wire.len() >= 3 && wire[2] & 0x02 != 0
}

/// What is to be done next to resolve a query.
pub enum Attempt {
    /// Ask the server at this place over UDP.
    Udp(usize),
    /// Ask the server at this place over TCP.
    Tcp(usize),
    /// Give up, for this reason.
    Fail(String),
}

/// How far a query's resolution has come.
pub struct Resolution {
    server: usize,
    count: usize,
    over_tcp: bool,
    last_error: String,
}

/// The values of a resolution.
#[verifier::ext_equal]
pub struct ResolutionModel {
    /// The server that is being asked; `count` where all have failed.
    pub server: nat,
    /// Number of servers.
    pub count: nat,
    /// Whether the server's reply over UDP was truncated.
    pub over_tcp: bool,
    /// Why the last server failed.
    pub last_error: Seq<char>,
}

impl View for Resolution {
    type V = ResolutionModel;

    closed spec fn view(&self) -> ResolutionModel {
        ResolutionModel {
            server: self.server as nat,
            count: self.count as nat,
            over_tcp: self.over_tcp,
            last_error: self.last_error@,
        }
    }
}

impl ResolutionModel {
    /// A resolution that starts with the first of `count` servers.
    pub open spec fn start(count: nat) -> ResolutionModel {
        ResolutionModel { server: 0, count, over_tcp: false, last_error: "upstream unreachable"@ }
    }

    /// Whether there is a server to ask.
    pub open spec fn is_open(self) -> bool {
        self.server < self.count
    }

    /// The resolution once the server has failed.
    pub open spec fn failed(self, error: Seq<char>) -> ResolutionModel {
        ResolutionModel {
            server: self.server + 1,
            over_tcp: false,
            last_error: error,
            ..self
        }
    }

    /// The resolution once the server's reply was truncated.
    pub open spec fn retried(self) -> ResolutionModel {
        ResolutionModel { over_tcp: true, ..self }
    }

    /// Why the resolution fails, once there is no server to ask.
    pub open spec fn failure(self) -> Seq<char> {
        if self.count == 0 {
            "no upstream servers configured"@
        } else {
            self.last_error
        }
    }
}

impl<A> Upstream<A> {
    /// Starts to resolve a query, with the first server.
    pub fn resolve(&self) -> (r: Resolution)
        ensures
            r@ == ResolutionModel::start(self.servers@.len()),
            r@.server == 0 && r@.count == self.servers@.len() && !r@.over_tcp,
            r@.last_error == "upstream unreachable"@,
    {
        Resolution {
            server: 0,
            count: self.servers.len(),
            over_tcp: false,
            last_error: "upstream unreachable".to_owned(),
        }
    }
}

impl Resolution {
    #[verifier::type_invariant]
    spec fn in_range(self) -> bool {
        self.server <= self.count
    }

    /// What is to be done next.
    pub fn next(&self) -> (r: Attempt)
        ensures
            match r {
                Attempt::Udp(i) => self@.is_open() && !self@.over_tcp && i == self@.server,
                Attempt::Tcp(i) => self@.is_open() && self@.over_tcp && i == self@.server,
                Attempt::Fail(error) => !self@.is_open() && error@ == self@.failure(),
            },
            match r {
                Attempt::Udp(i) => i == self@.server && i < self@.count && !self@.over_tcp,
                Attempt::Tcp(i) => i == self@.server && i < self@.count && self@.over_tcp,
                Attempt::Fail(error) => self@.server >= self@.count && error@ == if self@.count
                    == 0 {
                    "no upstream servers configured"@
                } else {
                    self@.last_error
                },
            },
    {
        if self.server < self.count {
            if self.over_tcp {
                Attempt::Tcp(self.server)
            } else {
                Attempt::Udp(self.server)
            }
        } else if self.count == 0 {
            Attempt::Fail("no upstream servers configured".to_owned())
        } else {
            Attempt::Fail(self.last_error.as_str().to_owned())
        }
    }

    /// Takes what came of the attempt, and gives the reply to cache where there
    /// is one. A reply over UDP that is truncated is asked for again over TCP.
    /// Any other is taken only where it is a reply to the query.
    pub fn advance(&mut self, query: &[u8], reply: Result<Vec<u8>, String>) -> (r: Option<Vec<u8>>)
        requires
            old(self)@.is_open(),
        ensures
            match reply {
                Err(error) => r is None && final(self)@ == old(self)@.failed(error@),
                Ok(wire) => if !old(self)@.over_tcp && truncated(wire@) {
                    r is None && final(self)@ == old(self)@.retried()
                } else if is_reply(query@, wire@) {
                    &&& r is Some
                    &&& r->0@ == wire@
                    &&& wire@.len() >= 12 && wire@.take(2) == query@.take(2)
                    &&& final(self)@ == old(self)@
                } else {
                    &&& r is None
                    &&& final(self)@ == old(self)@.failed(
                        "upstream reply does not match the query"@,
                    )
                },
            },
            final(self)@.count == old(self)@.count,
            match reply {
                Err(error) => {
                    &&& r is None
                    &&& final(self)@.server == old(self)@.server + 1
                    &&& !final(self)@.over_tcp
                    &&& final(self)@.last_error == error@
                },
                Ok(wire) => {
                    let retry = !old(self)@.over_tcp && wire@.len() >= 3 && wire@[2] / 2 % 2 == 1;
                    let matching = match (
                        message::decoded_start(query@),
                        message::decoded_start(wire@),
                    ) {
                        (Some(q), Some(m)) => m.is_response && m.id == q.id && q.question_count > 0
                            && m.question_count > 0 && message::same_question(
                            q.question,
                            m.question,
                        ),
                        _ => false,
                    };
                    &&& r is Some <==> !retry && matching
                    &&& r is Some ==> r->0@ == wire@ && final(self)@ == old(self)@
                    &&& retry ==> {
                        &&& final(self)@.over_tcp
                        &&& final(self)@.server == old(self)@.server
                        &&& final(self)@.last_error == old(self)@.last_error
                    }
                    &&& !retry && !matching ==> {
                        &&& final(self)@.server == old(self)@.server + 1
                        &&& !final(self)@.over_tcp
                        &&& final(self)@.last_error == "upstream reply does not match the query"@
                    }
                },
            },
    {
        match reply {
            Ok(wire) => {
                proof {
                    law_second_bit_marks_truncation(wire@);
                }
                if !self.over_tcp && is_truncated(wire.as_slice()) {
                    self.over_tcp = true;
                    None
                } else if validate(query, wire.as_slice()) {
                    Some(wire)
                } else {
                    self.server = self.server + 1;
                    self.over_tcp = false;
                    self.last_error = "upstream reply does not match the query".to_owned();
                    None
                }
            },
            Err(error) => {
                self.server = self.server + 1;
                self.over_tcp = false;
                self.last_error = error;
                None
            },
        }
    }
}

// ---------------------------------------------------------------------------
// Laws
// ---------------------------------------------------------------------------

/// The smallest TTL is that of some answer, and no answer's is smaller.
pub proof fn law_smallest_ttl_is_the_least(answers: Seq<message::AnswerModel>)
    requires
        answers.len() > 0,
    ensures
        exists|i: int| 0 <= i < answers.len() && (#[trigger] answers[i]).ttl == smallest_ttl(answers),
        forall|i: int| 0 <= i < answers.len() ==> smallest_ttl(answers) <= (#[trigger] answers[i]).ttl,
    decreases answers.len(),
{
    if answers.len() == 1 {
        assert(answers[0].ttl == smallest_ttl(answers));
    } else {
        let rest = answers.drop_last();
        law_smallest_ttl_is_the_least(rest);
        let k = choose|i: int| 0 <= i < rest.len() && (#[trigger] rest[i]).ttl == smallest_ttl(rest);
        assert(answers[k] == rest[k]);
        assert(answers[answers.len() - 1] == answers.last());
        assert forall|i: int| 0 <= i < answers.len() implies smallest_ttl(answers)
            <= (#[trigger] answers[i]).ttl by {
            if i < rest.len() {
                assert(answers[i] == rest[i]);
            }
        }
    }
}

/// Whatever a reply holds, it is cached for a time within the configured
/// bounds.
pub proof fn law_ttl_is_within_bounds<A>(u: Upstream<A>, m: Option<message::MessageModel>)
    requires
        u.min_ttl <= u.max_ttl,
    ensures
        u.min_ttl <= u.ttl_of(m) <= u.max_ttl,
{
}

/// What can happen to an attempt that gives no response.
pub enum Setback {
    /// The server failed, for this reason.
    Failure(Seq<char>),
    /// The reply was truncated.
    Truncation,
}

/// A resolution after some setbacks.
pub open spec fn after_setbacks(s: ResolutionModel, setbacks: Seq<Setback>) -> ResolutionModel
    decreases setbacks.len(),
{
    if setbacks.len() == 0 {
        s
    } else {
        let before = after_setbacks(s, setbacks.drop_last());
        match setbacks.last() {
            Setback::Failure(error) => before.failed(error),
            Setback::Truncation => before.retried(),
        }
    }
}

/// Whether setbacks can follow one another: each comes of an attempt, and only
/// a reply over UDP counts as truncated.
pub open spec fn can_follow(s: ResolutionModel, setbacks: Seq<Setback>) -> bool {
    forall|k: int|
        0 <= k < setbacks.len() ==> {
            let before = #[trigger] after_setbacks(s, setbacks.take(k));
            before.is_open() && (setbacks[k] is Truncation ==> !before.over_tcp)
        }
}

/// Number of servers that failed.
pub open spec fn failures(setbacks: Seq<Setback>) -> nat
    decreases setbacks.len(),
{
    if setbacks.len() == 0 {
        0
    } else {
        failures(setbacks.drop_last()) + if setbacks.last() is Failure {
            1nat
        } else {
            0
        }
    }
}

/// Servers are asked in order: the one being asked is as far down the list as
/// servers have failed. Each is asked at most twice, and the query fails only
/// once every server has failed, for the reason that the last one gave.
pub proof fn law_servers_are_tried_in_order(count: nat, setbacks: Seq<Setback>)
    requires
        can_follow(ResolutionModel::start(count), setbacks),
    ensures
        ({
            let s = after_setbacks(ResolutionModel::start(count), setbacks);
            &&& s.count == count
            &&& s.server == failures(setbacks) <= count
            &&& setbacks.len() <= 2 * count
            &&& !s.is_open() ==> failures(setbacks) == count
            &&& !s.is_open() && count > 0 ==> setbacks.len() > 0 && setbacks.last()
                == Setback::Failure(s.failure())
        }),
{
    lemma_setbacks(count, setbacks);
}

proof fn lemma_setbacks(count: nat, setbacks: Seq<Setback>)
    requires
        can_follow(ResolutionModel::start(count), setbacks),
    ensures
        ({
            let s = after_setbacks(ResolutionModel::start(count), setbacks);
            &&& s.count == count
            &&& s.server == failures(setbacks) <= count
            &&& s.over_tcp ==> s.is_open()
            &&& setbacks.len() <= 2 * s.server + if s.over_tcp {
                1int
            } else {
                0
            }
            &&& !s.is_open() && count > 0 ==> setbacks.len() > 0 && setbacks.last()
                == Setback::Failure(s.last_error)
        }),
    decreases setbacks.len(),
{
    let start = ResolutionModel::start(count);
    if setbacks.len() > 0 {
        let rest = setbacks.drop_last();
        assert forall|k: int| 0 <= k < rest.len() implies {
            let before = #[trigger] after_setbacks(start, rest.take(k));
            before.is_open() && (rest[k] is Truncation ==> !before.over_tcp)
        } by {
            assert(rest.take(k) == setbacks.take(k));
            assert(rest[k] == setbacks[k]);
        }
        lemma_setbacks(count, rest);
        assert(setbacks.take(setbacks.len() - 1) == rest);
        assert(after_setbacks(start, setbacks.take(setbacks.len() - 1)).is_open());
    }
}

/// A reply is cached for the least TTL of its answers, moved into the bounds: no
/// answer is served much longer than its own TTL allows. A negative answer, and
/// a reply that cannot be read, is cached for the time set for these.
pub proof fn law_cached_for_the_least_ttl<A>(u: Upstream<A>, reply: Option<message::MessageModel>)
    ensures
        match reply {
                Some(m) => if m.head.response_code == 3 || m.answers.len() == 0 {
                    u.ttl_of(reply) == if u.negative_ttl < u.min_ttl {
                        u.min_ttl
                    } else if u.negative_ttl > u.max_ttl {
                        u.max_ttl
                    } else {
                        u.negative_ttl
                    }
                } else {
                    exists|i: int|
                        0 <= i < m.answers.len() && u.ttl_of(reply) == (if (#[trigger] m.answers[i]).ttl
                            < u.min_ttl {
                            u.min_ttl
                        } else if m.answers[i].ttl > u.max_ttl {
                            u.max_ttl
                        } else {
                            m.answers[i].ttl
                        }) && forall|j: int|
                            0 <= j < m.answers.len() ==> m.answers[i].ttl <= (
                            #[trigger] m.answers[j]).ttl
                },
                None => u.ttl_of(reply) == if u.negative_ttl < u.min_ttl {
                    u.min_ttl
                } else if u.negative_ttl > u.max_ttl {
                    u.max_ttl
                } else {
                    u.negative_ttl
                },
            },
        reply matches Some(r) ==> r.head.response_code != 3 ==> forall|i: int|
            0 <= i < r.answers.len() && u.min_ttl <= u.max_ttl ==> u.ttl_of(reply) <= u.min_ttl
                || u.ttl_of(reply) <= (#[trigger] r.answers[i]).ttl,
{
    if let Some(r) = reply {
        if r.answers.len() > 0 {
            law_smallest_ttl_is_the_least(r.answers);
            let k = choose|i: int|
                0 <= i < r.answers.len() && (#[trigger] r.answers[i]).ttl == smallest_ttl(
                    r.answers,
                );
            assert(r.answers[k].ttl == smallest_ttl(r.answers));
        }
    }
}

/// The truncation flag is the bit of weight two in the third byte, whatever the
/// other flags are.
pub proof fn law_second_bit_marks_truncation(wire: Seq<u8>)
    ensures
        truncated(wire) <==> wire.len() >= 3 && wire[2] / 2 % 2 == 1,
{
    if wire.len() >= 3 {
        let b = wire[2];
        assert((b & 0x02 != 0) <==> (b / 2 % 2 == 1)) by (bit_vector);
    }
}

/// A reply over UDP with the truncation flag is asked for again from the same
/// server over TCP; one without it never is.
pub proof fn law_truncated_replies_go_over_tcp(s: ResolutionModel, wire: Seq<u8>)
    requires
        s.is_open(),
        !s.over_tcp,
    ensures
        wire.len() >= 3 && wire[2] / 2 % 2 == 1 ==> truncated(wire),
        wire.len() < 3 || wire[2] / 2 % 2 == 0 ==> !truncated(wire),
        s.retried().is_open() && s.retried().over_tcp && s.retried().server == s.server,
{
    law_second_bit_marks_truncation(wire);
}

/// A reply belongs to a query where it starts as a response with the query's id
/// and question, whatever follows; either missing a start or a question, it does
/// not.
pub proof fn law_reply_has_bit_id_and_question(query: Seq<u8>, reply: Seq<u8>)
    ensures
        match (message::decoded_start(query), message::decoded_start(reply)) {
            (Some(q), Some(m)) => is_reply(query, reply) <==> m.is_response && m.id == q.id
                && q.question_count > 0 && m.question_count > 0 && message::same_question(
                q.question,
                m.question,
            ),
            _ => !is_reply(query, reply),
        },
{
}

/// A server that fails hands over to the next one, over UDP, and the last
/// failure is what is reported in the end. Without servers, that is reported.
pub proof fn law_last_failure_is_reported(r: ResolutionModel, error: Seq<char>, count: nat)
    ensures
        r.count > 0 ==> r.failed(error).failure() == error,
        r.failed(error).server == r.server + 1,
        r.failed(error).count == r.count,
        !r.failed(error).over_tcp,
        r.retried().over_tcp,
        r.retried().server == r.server && r.retried().count == r.count,
        r.is_open() <==> r.server < r.count,
        ResolutionModel::start(0).failure() == "no upstream servers configured"@,
        ResolutionModel::start(count).server == 0 && ResolutionModel::start(count).count == count,
        !ResolutionModel::start(count).over_tcp,
{
}

} // verus!
