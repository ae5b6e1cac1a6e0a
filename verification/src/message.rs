//! DNS messages: what the resolver reads from them and what it answers.
//!
//! The wire format is hickory-proto's. Its messages are held here as plain
//! values.

use hickory_proto::op::{Header, Message, MessageType, OpCode, Query};
use hickory_proto::rr::rdata::{A, AAAA};
use hickory_proto::rr::{Name, RData, Record, RecordType};
use hickory_proto::serialize::binary::{BinDecodable, BinDecoder};
use vstd::prelude::*;

use crate::bigendian;
use crate::bigendian::copy_from;
use crate::text;

verus! {

/// Code of the record type `A`.
pub const TYPE_A: u16 = 1;

/// Code of the record type `AAAA`.
pub const TYPE_AAAA: u16 = 28;

/// Code of the class `IN`.
pub const CLASS_IN: u16 = 1;

/// Code of the response `NOERROR`.
pub const NO_ERROR: u16 = 0;

/// Code of the response `SERVFAIL`.
pub const SERV_FAIL: u16 = 2;

/// Code of the response `NXDOMAIN`.
pub const NX_DOMAIN: u16 = 3;

/// An address in an answer, as a number.
#[derive(Clone, Copy, PartialEq, Eq, Structural)]
pub enum Address {
    /// An IPv4 address.
    V4(u32),
    /// An IPv6 address.
    V6(u128),
}

/// What an answer record holds.
#[derive(Clone)]
pub struct Answer {
    /// The labels of the name that the record is for.
    pub labels: Vec<Vec<u8>>,
    pub class: u16,
    /// Time to live, in seconds.
    pub ttl: u32,
    /// The address of an `A` or `AAAA` record.
    pub address: Option<Address>,
}

/// The values of an answer.
#[verifier::ext_equal]
pub struct AnswerModel {
    pub labels: Seq<Seq<u8>>,
    pub class: u16,
    pub ttl: u32,
    pub address: Option<Address>,
}

impl View for Answer {
    type V = AnswerModel;

    open spec fn view(&self) -> AnswerModel {
        AnswerModel {
            labels: label_bytes(self.labels@),
            class: self.class,
            ttl: self.ttl,
            address: self.address,
        }
    }
}

/// The values of each answer.
pub open spec fn answer_values(answers: Seq<Answer>) -> Seq<AnswerModel> {
    answers.map_values(|a: Answer| a@)
}

/// A question: the labels of a name, a record type and a class.
pub struct Question {
    pub labels: Vec<Vec<u8>>,
    pub rtype: u16,
    pub class: u16,
}

/// The values of a question.
#[verifier::ext_equal]
pub struct QuestionModel {
    pub labels: Seq<Seq<u8>>,
    pub rtype: u16,
    pub class: u16,
}

/// The bytes of each label.
pub open spec fn label_bytes(labels: Seq<Vec<u8>>) -> Seq<Seq<u8>> {
    labels.map_values(|l: Vec<u8>| l@)
}

impl View for Question {
    type V = QuestionModel;

    open spec fn view(&self) -> QuestionModel {
        QuestionModel {
            labels: label_bytes(self.labels@),
            rtype: self.rtype,
            class: self.class,
        }
    }
}

impl Question {
    /// A copy of the question.
    pub fn copy(&self) -> (r: Question)
        ensures
            r@ == self@,
    {
        let mut labels: Vec<Vec<u8>> = Vec::new();
        let mut i: usize = 0;
        while i < self.labels.len()
            invariant
                i <= self.labels@.len(),
                label_bytes(labels@) == label_bytes(self.labels@).take(i as int),
            decreases self.labels@.len() - i,
        {
            let label: Vec<u8> = copy_from(self.labels[i].as_slice(), 0);
            assert(label@ == self.labels@[i as int]@);
            assert(label_bytes(labels@.push(label)) == label_bytes(labels@).push(
                label@,
            ));
            labels.push(label);
            i = i + 1;
            assert(label_bytes(labels@) == label_bytes(self.labels@).take(
                i as int,
            ));
        }
        assert(label_bytes(labels@) == label_bytes(self.labels@));
        Question { labels, rtype: self.rtype, class: self.class }
    }
}

/// A byte in lower case.
pub open spec fn lower_byte(b: u8) -> u8 {
    if 65 <= b <= 90 {
        (b + 32) as u8
    } else {
        b
    }
}

/// Whether two labels are equal but for the case of letters.
pub open spec fn same_label(a: Seq<u8>, b: Seq<u8>) -> bool {
    a.map_values(|x: u8| lower_byte(x)) == b.map_values(|x: u8| lower_byte(x))
}

/// Whether two questions ask for the same name, type and class.
pub open spec fn same_question(a: QuestionModel, b: QuestionModel) -> bool {
    &&& a.rtype == b.rtype
    &&& a.class == b.class
    &&& a.labels.len() == b.labels.len()
    &&& forall|i: int|
        0 <= i < a.labels.len() ==> same_label(#[trigger] a.labels[i], b.labels[i])
}

/// The head of a message that was read: its header and its questions.
pub struct Head {
    pub id: u16,
    pub is_response: bool,
    pub op_code: u8,
    pub authoritative: bool,
    pub truncated: bool,
    pub recursion_desired: bool,
    pub recursion_available: bool,
    pub authentic_data: bool,
    pub checking_disabled: bool,
    pub response_code: u16,
    pub questions: Vec<Question>,
}

/// The values of a head.
#[verifier::ext_equal]
pub struct HeadModel {
    pub id: u16,
    pub is_response: bool,
    pub op_code: u8,
    pub authoritative: bool,
    pub truncated: bool,
    pub recursion_desired: bool,
    pub recursion_available: bool,
    pub authentic_data: bool,
    pub checking_disabled: bool,
    pub response_code: u16,
    pub questions: Seq<QuestionModel>,
}

impl View for Head {
    type V = HeadModel;

    open spec fn view(&self) -> HeadModel {
        HeadModel {
            id: self.id,
            is_response: self.is_response,
            op_code: self.op_code,
            authoritative: self.authoritative,
            truncated: self.truncated,
            recursion_desired: self.recursion_desired,
            recursion_available: self.recursion_available,
            authentic_data: self.authentic_data,
            checking_disabled: self.checking_disabled,
            response_code: self.response_code,
            questions: self.questions@.map_values(|q: Question| q@),
        }
    }
}

/// The start of a message: what tells which query it belongs to. It can be read
/// where a later part of the message cannot.
pub struct Start {
    pub id: u16,
    pub is_response: bool,
    pub question_count: u16,
    /// The first question, if there is one.
    pub question: Question,
}

/// The values of a start.
#[verifier::ext_equal]
pub struct StartModel {
    pub id: u16,
    pub is_response: bool,
    pub question_count: u16,
    pub question: QuestionModel,
}

impl View for Start {
    type V = StartModel;

    open spec fn view(&self) -> StartModel {
        StartModel {
            id: self.id,
            is_response: self.is_response,
            question_count: self.question_count,
            question: self.question@,
        }
    }
}

/// Whether this is the start of a message with a question.
pub open spec fn is_start_of(start: StartModel, head: HeadModel) -> bool {
    &&& start.id == head.id
    &&& start.is_response == head.is_response
    &&& start.question_count == head.questions.len()
    &&& start.question == head.questions[0]
}

/// The values of a message.
#[verifier::ext_equal]
pub struct MessageModel {
    pub head: HeadModel,
    pub answers: Seq<AnswerModel>,
}

/// A reply to a request: its question, and at most one answer to it.
pub struct Reply {
    pub id: u16,
    pub op_code: u8,
    pub recursion_desired: bool,
    pub recursion_available: bool,
    pub response_code: u16,
    pub question: Question,
    pub answer: Option<(u32, Address)>,
}

/// The values of a reply.
#[verifier::ext_equal]
pub struct ReplyModel {
    pub id: u16,
    pub op_code: u8,
    pub recursion_desired: bool,
    pub recursion_available: bool,
    pub response_code: u16,
    pub question: QuestionModel,
    pub answer: Option<(u32, Address)>,
}

impl View for Reply {
    type V = ReplyModel;

    open spec fn view(&self) -> ReplyModel {
        ReplyModel {
            id: self.id,
            op_code: self.op_code,
            recursion_desired: self.recursion_desired,
            recursion_available: self.recursion_available,
            response_code: self.response_code,
            question: self.question@,
            answer: self.answer,
        }
    }
}

/// The message that a reply is. Its answer is for the name in the question, in
/// the class `IN`. No other flags are set.
pub open spec fn reply_message(r: ReplyModel) -> MessageModel {
    MessageModel {
        head: HeadModel {
            id: r.id,
            is_response: true,
            op_code: r.op_code,
            authoritative: false,
            truncated: false,
            recursion_desired: r.recursion_desired,
            recursion_available: r.recursion_available,
            authentic_data: false,
            checking_disabled: false,
            response_code: r.response_code,
            questions: seq![r.question],
        },
        answers: match r.answer {
            Some((ttl, address)) => seq![
                AnswerModel {
                    labels: r.question.labels,
                    class: CLASS_IN,
                    ttl,
                    address: Some(address),
                },
            ],
            None => Seq::empty(),
        },
    }
}

/// Bytes that the labels take, each with its length byte.
pub open spec fn name_len(labels: Seq<Seq<u8>>) -> nat
    decreases labels.len(),
{
    if labels.len() == 0 {
        0
    } else {
        name_len(labels.drop_last()) + labels.last().len() + 1
    }
}

/// Whether the labels are a domain name: 1 to 63 bytes each, and with the
/// closing root label at most 255 in all.
pub open spec fn valid_name(labels: Seq<Seq<u8>>) -> bool {
    &&& forall|i: int| 0 <= i < labels.len() ==> 1 <= (#[trigger] labels[i]).len() <= 63
    &&& name_len(labels) <= 254
}

/// Whether a reply's fields fit the fields of a message without extensions.
pub open spec fn encodable(r: ReplyModel) -> bool {
    &&& valid_name(r.question.labels)
    &&& r.op_code < 16
    &&& r.response_code < 16
}

/// A letter, a digit, an underscore, or a hyphen that does not come first.
pub open spec fn is_plain_char(c: char, first: bool) -> bool {
    ||| '0' <= c <= '9'
    ||| 'A' <= c <= 'Z'
    ||| 'a' <= c <= 'z'
    ||| c == '_'
    ||| c == '-' && !first
}

/// Whether a label is marked as an encoded international label.
pub open spec fn is_international(l: Seq<u8>) -> bool {
    text::begins_with(label_text(l), seq!['x', 'n', '-', '-'])
}

/// Whether some label is marked as international.
pub open spec fn some_international(labels: Seq<Seq<u8>>) -> bool {
    exists|i: int| 0 <= i < labels.len() && is_international(#[trigger] labels[i])
}

/// Whether a label is written as it is: plain bytes that are no encoded
/// international label.
pub open spec fn is_plain_label(l: Seq<u8>) -> bool {
    &&& forall|i: int| 0 <= i < l.len() ==> is_plain_char(#[trigger] l[i] as char, i == 0)
    &&& !is_international(l)
}

/// A byte of a label as it is written: a plain one, or an asterisk that comes
/// first, as it is; another visible one after a backslash; and any other as a
/// backslash and three octal digits.
pub open spec fn written_byte(b: u8, first: bool) -> Seq<char> {
    let c = b as char;
    if is_plain_char(c, first) || c == '*' && first {
        seq![c]
    } else if 0x20 < b < 0x7f {
        seq!['\\', c]
    } else {
        seq!['\\', octal_digit(b as int / 64), octal_digit(b as int / 8), octal_digit(b as int)]
    }
}

/// The last octal digit of a number.
pub open spec fn octal_digit(n: int) -> char {
    ('0' as int + n % 8) as char
}

/// A label that is not international as it is written.
pub open spec fn written_label(l: Seq<u8>) -> Seq<char>
    decreases l.len(),
{
    if l.len() == 0 {
        Seq::empty()
    } else {
        written_label(l.drop_last()) + written_byte(l.last(), l.len() == 1)
    }
}

/// A label as it is written.
pub open spec fn shown_label(l: Seq<u8>) -> Seq<char> {
    if is_international(l) {
        international_label(l)
    } else {
        written_label(l)
    }
}

/// The labels as they are written, each followed by a dot.
pub open spec fn shown(labels: Seq<Seq<u8>>) -> Seq<char>
    decreases labels.len(),
{
    if labels.len() == 0 {
        Seq::empty()
    } else {
        shown(labels.drop_last()) + shown_label(labels.last()) + seq!['.']
    }
}

/// Whether every label is written as it is.
pub open spec fn is_plain_name(labels: Seq<Seq<u8>>) -> bool {
    forall|i: int| 0 <= i < labels.len() ==> is_plain_label(#[trigger] labels[i])
}

/// The bytes of a label as characters.
pub open spec fn label_text(l: Seq<u8>) -> Seq<char> {
    l.map_values(|b: u8| b as char)
}

/// The labels in order, each followed by a dot.
pub open spec fn dotted(labels: Seq<Seq<u8>>) -> Seq<char>
    decreases labels.len(),
{
    if labels.len() == 0 {
        Seq::empty()
    } else {
        dotted(labels.drop_last()) + label_text(labels.last()) + seq!['.']
    }
}

/// Plain labels are written as they are.
pub proof fn lemma_plain_is_shown(labels: Seq<Seq<u8>>)
    requires
        is_plain_name(labels),
    ensures
        !some_international(labels),
        shown(labels) == dotted(labels),
    decreases labels.len(),
{
    if labels.len() > 0 {
        let rest = labels.drop_last();
        assert forall|i: int| 0 <= i < rest.len() implies is_plain_label(#[trigger] rest[i]) by {
            assert(rest[i] == labels[i]);
        }
        lemma_plain_is_shown(rest);
        assert(is_plain_label(labels[labels.len() - 1]));
        lemma_plain_bytes(labels.last());
    }
}

/// Plain bytes are written as they are.
proof fn lemma_plain_bytes(l: Seq<u8>)
    requires
        forall|i: int| 0 <= i < l.len() ==> is_plain_char(#[trigger] l[i] as char, i == 0),
    ensures
        written_label(l) == label_text(l),
    decreases l.len(),
{
    if l.len() > 0 {
        assert forall|i: int| 0 <= i < l.drop_last().len() implies is_plain_char(
            #[trigger] l.drop_last()[i] as char,
            i == 0,
        ) by {
            assert(l.drop_last()[i] == l[i]);
        }
        lemma_plain_bytes(l.drop_last());
        assert(is_plain_char(l[l.len() - 1] as char, l.len() == 1));
        assert(written_label(l) == label_text(l));
    } else {
        assert(written_label(l) == label_text(l));
    }
}

// ---------------------------------------------------------------------------
// What hickory-proto provides
// ---------------------------------------------------------------------------

/// What `Message::from_vec` reads from some bytes.
pub uninterp spec fn decoded_message(wire: Seq<u8>) -> Option<MessageModel>;

/// What `Header::read` and `Query::read` read from the start of some bytes.
pub uninterp spec fn decoded_start(wire: Seq<u8>) -> Option<StartModel>;

/// What `Message::to_vec` writes for a reply.
pub uninterp spec fn encoded_reply(r: ReplyModel) -> Option<Seq<u8>>;

/// What `Label`'s `Display` writes for a label that is marked as international.
pub uninterp spec fn international_label(l: Seq<u8>) -> Seq<char>;

/// What `RecordType`'s `Display` writes for a type's code.
pub uninterp spec fn record_type_name(code: u16) -> Seq<char>;

/// `Message::from_vec`, of which this hands out the head: the message is a
/// function of the bytes. The header takes twelve of them and starts with the
/// id. The operation code has four bits, and the names read are domain names.
#[verifier::external_body]
pub(crate) fn decode_head(wire: &[u8]) -> (r: Option<Head>)
    ensures
        match (r, decoded_message(wire@)) {
            (Some(head), Some(m)) => head@ == m.head,
            (None, None) => true,
            _ => false,
        },
        r matches Some(m) ==> wire@.len() >= 12 && wire@.take(2) == bigendian::be_bytes(
            m@.id as nat,
            2,
        ),
        r matches Some(m) ==> m@.op_code < 16 && forall|i: int|
            0 <= i < m@.questions.len() ==> valid_name((#[trigger] m@.questions[i]).labels),
{
    let m = Message::from_vec(wire).ok()?;
    let h = m.metadata;
    let labels = |n: &Name| n.iter().map(|l| l.to_vec()).collect();
    let question = |q: &Query| Question { labels: labels(&q.name), rtype: q.query_type.into(), class: q.query_class.into() };
    Some(Head {
        id: h.id,
        is_response: matches!(h.message_type, MessageType::Response),
        op_code: h.op_code.into(),
        authoritative: h.authoritative, truncated: h.truncation,
        recursion_desired: h.recursion_desired, recursion_available: h.recursion_available,
        authentic_data: h.authentic_data, checking_disabled: h.checking_disabled,
        response_code: h.response_code.into(),
        questions: m.queries.iter().map(question).collect(),
    })
}

/// `Header::read` and `Query::read` on the bytes in turn: what they read is a
/// function of the bytes. The header takes twelve of them and starts with the
/// id. Where `Message::from_vec` reads the whole and finds a question, it finds
/// the same id, response bit, number of questions and first question.
#[verifier::external_body]
pub(crate) fn decode_start(wire: &[u8]) -> (r: Option<Start>)
    ensures
        match (r, decoded_start(wire@)) {
            (Some(start), Some(m)) => start@ == m,
            (None, None) => true,
            _ => false,
        },
        r matches Some(m) ==> wire@.len() >= 12 && wire@.take(2) == bigendian::be_bytes(
            m@.id as nat,
            2,
        ),
        decoded_message(wire@) matches Some(m) ==> m.head.questions.len() > 0 ==> r is Some
            && is_start_of(r->0@, m.head),
{
    let mut d = BinDecoder::new(wire);
    let h = Header::read(&mut d).ok()?;
    let q = Query::read(&mut d).ok()?;
    let labels = q.name.iter().map(|l| l.to_vec()).collect();
    Some(Start {
        id: h.metadata.id,
        is_response: matches!(h.metadata.message_type, MessageType::Response),
        question_count: h.counts.queries,
        question: Question { labels, rtype: q.query_type.into(), class: q.query_class.into() },
    })
}

/// `Message::from_vec`, of which this hands out the response code and the
/// answers: the message is a function of the bytes.
#[verifier::external_body]
pub(crate) fn decode_answers(wire: &[u8]) -> (r: Option<(u16, Vec<Answer>)>)
    ensures
        match (r, decoded_message(wire@)) {
            (Some((code, answers)), Some(m)) => code == m.head.response_code
                && answer_values(answers@) == m.answers,
            (None, None) => true,
            _ => false,
        },
{
    let m = Message::from_vec(wire).ok()?;
    let address = |d: &RData| match d {
        RData::A(a) => Some(Address::V4(a.to_bits())),
        RData::AAAA(a) => Some(Address::V6(a.to_bits())),
        _ => None,
    };
    let labels = |n: &Name| n.iter().map(|l| l.to_vec()).collect();
    let answer = |r: &Record| Answer { labels: labels(&r.name), class: r.dns_class.into(), ttl: r.ttl, address: address(&r.data) };
    Some((m.metadata.response_code.into(), m.answers.iter().map(answer).collect()))
}

/// The reply that its parts make.
pub open spec fn reply_of(
    id: u16,
    op_code: u8,
    recursion: (bool, bool),
    response_code: u16,
    question: QuestionModel,
    answer: Option<(u32, Address)>,
) -> ReplyModel {
    ReplyModel {
        id,
        op_code,
        recursion_desired: recursion.0,
        recursion_available: recursion.1,
        response_code,
        question,
        answer,
    }
}

/// `Message::response` and `Message::to_vec`: the bytes are a function of the
/// reply, and start with a header of twelve bytes whose first two are the id. A
/// reply whose fields fit is written, and read back as it was.
#[verifier::external_body]
fn encode_parts(
    id: u16,
    op_code: u8,
    recursion: (bool, bool),
    response_code: u16,
    question: &Question,
    answer: Option<(u32, Address)>,
) -> (wire: Option<Vec<u8>>)
    ensures
        match wire {
            Some(w) => encoded_reply(
                reply_of(id, op_code, recursion, response_code, question@, answer),
            ) == Some(w@),
            None => encoded_reply(
                reply_of(id, op_code, recursion, response_code, question@, answer),
            ) is None,
        },
        wire matches Some(w) ==> w@.len() >= 12 && w@.take(2) == bigendian::be_bytes(id as nat, 2),
        encodable(reply_of(id, op_code, recursion, response_code, question@, answer)) ==> wire
            is Some && decoded_message(wire->0@) == Some(
            reply_message(reply_of(id, op_code, recursion, response_code, question@, answer)),
        ),
{
    let name = Name::from_labels(question.labels.clone()).ok()?;
    let mut m = Message::response(id, OpCode::from_u8(op_code));
    (m.metadata.recursion_desired, m.metadata.recursion_available) = recursion;
    m.metadata.response_code = response_code.into();
    let mut q = Query::query(name.clone(), question.rtype.into());
    q.set_query_class(question.class.into());
    m.add_query(q);
    m.add_answers(answer.map(|(ttl, address)| Record::from_rdata(name, ttl, match address {
        Address::V4(a) => RData::A(A(a.into())),
        Address::V6(a) => RData::AAAA(AAAA(a.into())),
    })));
    m.to_vec().ok()
}

/// The bytes of a reply, none where it cannot be encoded.
pub(crate) fn encode(r: &Reply) -> (wire: Option<Vec<u8>>)
    ensures
        match wire {
            Some(w) => encoded_reply(r@) == Some(w@),
            None => encoded_reply(r@) is None,
        },
        wire matches Some(w) ==> w@.len() >= 12 && w@.take(2) == bigendian::be_bytes(
            r@.id as nat,
            2,
        ),
        encodable(r@) ==> wire is Some && decoded_message(wire->0@) == Some(reply_message(r@)),
{
    encode_parts(
        r.id,
        r.op_code,
        (r.recursion_desired, r.recursion_available),
        r.response_code,
        &r.question,
        r.answer,
    )
}

/// `Name::from_labels` and `Name`'s `Display`: labels that make a domain name
/// are written one by one, with a dot after each. What an international label
/// becomes is a function of that label.
#[verifier::external_body]
pub(crate) fn name_text(labels: &Vec<Vec<u8>>) -> (r: Option<String>)
    ensures
        r is Some <==> valid_name(label_bytes(labels@)),
        r matches Some(t) ==> t@ == if labels@.len() == 0 {
            seq!['.']
        } else {
            shown(label_bytes(labels@))
        },
        r matches Some(t) ==> labels@.len() == 1 && is_international(label_bytes(labels@)[0])
            ==> t@ == international_label(label_bytes(labels@)[0]) + seq!['.'],
{
    Name::from_labels(labels.clone()).ok().map(|n| n.to_string())
}

/// `RecordType`'s `Display`: the text is a function of the code.
#[verifier::external_body]
pub(crate) fn rtype_text(code: u16) -> (r: String)
    ensures
        r@ == record_type_name(code),
{
    RecordType::from(code).to_string()
}

// ---------------------------------------------------------------------------
// Laws
// ---------------------------------------------------------------------------

/// Two questions are the same where type and class are, and the names have the
/// same labels byte by byte but for the case of ASCII letters.
pub proof fn law_same_question(a: QuestionModel, b: QuestionModel)
    ensures
        same_question(a, b) <==> {
            &&& a.rtype == b.rtype
            &&& a.class == b.class
            &&& a.labels.len() == b.labels.len()
            &&& forall|i: int|
                0 <= i < a.labels.len() ==> (#[trigger] a.labels[i]).len() == b.labels[i].len()
            &&& forall|i: int, j: int|
                0 <= i < a.labels.len() && 0 <= j < a.labels[i].len() ==> {
                    ||| #[trigger] a.labels[i][j] == b.labels[i][j]
                    ||| 65 <= a.labels[i][j] <= 90 && b.labels[i][j] == a.labels[i][j] + 32
                    ||| 65 <= b.labels[i][j] <= 90 && a.labels[i][j] == b.labels[i][j] + 32
                }
        },
{
    let f = |x: u8| lower_byte(x);
    assert forall|x: Seq<u8>, y: Seq<u8>| #[trigger] same_label(x, y) <==> x.len() == y.len() && (
    forall|j: int|
        0 <= j < x.len() ==> {
            ||| #[trigger] x[j] == y[j]
            ||| 65 <= x[j] <= 90 && y[j] == x[j] + 32
            ||| 65 <= y[j] <= 90 && x[j] == y[j] + 32
        }) by {
        if same_label(x, y) {
            assert(x.map_values(f).len() == y.map_values(f).len());
            assert forall|j: int| 0 <= j < x.len() implies {
                ||| #[trigger] x[j] == y[j]
                ||| 65 <= x[j] <= 90 && y[j] == x[j] + 32
                ||| 65 <= y[j] <= 90 && x[j] == y[j] + 32
            } by {
                assert(x.map_values(f)[j] == y.map_values(f)[j]);
            }
        } else if x.len() == y.len() && (forall|j: int|
            0 <= j < x.len() ==> {
                ||| #[trigger] x[j] == y[j]
                ||| 65 <= x[j] <= 90 && y[j] == x[j] + 32
                ||| 65 <= y[j] <= 90 && x[j] == y[j] + 32
            }) {
            assert(x.map_values(f) == y.map_values(f));
        }
    }
    if same_question(a, b) {
        assert forall|i: int| 0 <= i < a.labels.len() implies same_label(
            #[trigger] a.labels[i],
            b.labels[i],
        ) by {}
    }
    if a.labels.len() == b.labels.len() && (forall|i: int|
        0 <= i < a.labels.len() ==> (#[trigger] a.labels[i]).len() == b.labels[i].len()) && (
    forall|i: int, j: int|
        0 <= i < a.labels.len() && 0 <= j < a.labels[i].len() ==> {
            ||| #[trigger] a.labels[i][j] == b.labels[i][j]
            ||| 65 <= a.labels[i][j] <= 90 && b.labels[i][j] == a.labels[i][j] + 32
            ||| 65 <= b.labels[i][j] <= 90 && a.labels[i][j] == b.labels[i][j] + 32
        }) {
        assert forall|i: int| 0 <= i < a.labels.len() implies same_label(
            #[trigger] a.labels[i],
            b.labels[i],
        ) by {
            let (x, y) = (a.labels[i], b.labels[i]);
            assert forall|j: int| 0 <= j < x.len() implies {
                ||| #[trigger] x[j] == y[j]
                ||| 65 <= x[j] <= 90 && y[j] == x[j] + 32
                ||| 65 <= y[j] <= 90 && x[j] == y[j] + 32
            } by {
                assert(a.labels[i][j] == x[j]);
            }
        }
    }
}

/// A question, an answer and a head are taken field by field as they are.
pub proof fn law_values_are_the_fields(q: Question, a: Answer, h: Head, s: Start, i: int)
    ensures
        q@.rtype == q.rtype && q@.class == q.class && q@.labels.len() == q.labels@.len(),
        0 <= i < q.labels@.len() ==> q@.labels[i] == q.labels@[i]@,
        a@.ttl == a.ttl && a@.class == a.class && a@.address == a.address,
        h@.id == h.id && h@.op_code == h.op_code && h@.is_response == h.is_response,
        h@.questions.len() == h.questions@.len(),
        0 <= i < h.questions@.len() ==> h@.questions[i] == h.questions@[i]@,
        s@.id == s.id && s@.is_response == s.is_response,
        s@.question_count == s.question_count && s@.question == s.question@,
{
}

} // verus!
