use vstd::prelude::*;
use crate::cache::{cache_after_get, cache_insert, cache_lookup, Cache};
use crate::dns::{
    is_supported, type_code, type_of_code, Mx, RecordClass, RecordType, ResourceData, ResourceRecord, Soa,
};
use crate::message::{
    lemma_parsed_header_small, parse_spec, questions_view, record_view, records_view, u16_at, DataModel, Message, MessageModel, Question,
    QuestionModel, RecordModel,
};
use crate::name::{copy_range, name_error, split, ParseError};
use crate::wire::{random_pair, read_be16};
use crate::writer::{
    canon, data_fits, header_fits, message_canon, message_ok, question_ok, questions_canon, record_ok,
    records_canon, SerializeError,
};

verus! {

/// Response code: no error.
pub const NOERROR: u32 = 0;
/// Response code: the query could not be read.
pub const FORMERR: u32 = 1;
/// Response code: the server failed to answer.
pub const SERVFAIL: u32 = 2;
/// Response code: the query type is not supported.
pub const NOTIMP: u32 = 4;
/// Response code: the upstream resolver did not answer.
pub const REFUSED: u32 = 5;

/// A record that the codec can write: its data has the shape its type calls for.
pub open spec fn model_fits(rm: RecordModel) -> bool {
    match (rm.rtype, rm.data) {
        (RecordType::A, DataModel::IPv4(_)) => true,
        (RecordType::AAAA, DataModel::IPv6(_)) => true,
        (RecordType::NS, DataModel::Ns(_)) => true,
        (RecordType::CNAME, DataModel::CName(_)) => true,
        (RecordType::PTR, DataModel::Ptr(_)) => true,
        (RecordType::SOA, DataModel::Soa(..)) => true,
        (RecordType::MX, DataModel::Mx(..)) => true,
        (RecordType::TXT, DataModel::Txt(_)) => true,
        _ => false,
    }
}

/// The records of a section that a response carries on: the others
/// (unknown types, HTTPS, data without a wire form) are left out.
pub open spec fn emitted(rs: Seq<ResourceRecord>) -> Seq<RecordModel> {
    records_view(rs).filter(|rm: RecordModel| model_fits(rm))
}

proof fn lemma_fits_view(r: ResourceRecord)
    ensures
        data_fits(r.rtype, r.data) == model_fits(record_view(r)),
{
}

fn copy_bytes(v: &Vec<u8>) -> (r: Vec<u8>)
    ensures
        r@ == v@,
{
    let r = copy_range(v.as_slice(), 0, v.len());
    assert(v@.subrange(0, v@.len() as int) =~= v@);
    r
}

/// A copy of a record whose data the codec can write.
fn copy_record(r: &ResourceRecord) -> (c: ResourceRecord)
    requires
        data_fits(r.rtype, r.data),
    ensures
        record_view(c) == record_view(*r),
        data_fits(c.rtype, c.data),
{
    let data = match &r.data {
        ResourceData::IPv4(a) => ResourceData::IPv4(*a),
        ResourceData::IPv6(a) => ResourceData::IPv6(*a),
        ResourceData::Ns(n) => ResourceData::Ns(copy_bytes(n)),
        ResourceData::CName(n) => ResourceData::CName(copy_bytes(n)),
        ResourceData::Ptr(n) => ResourceData::Ptr(copy_bytes(n)),
        ResourceData::Soa(s) => ResourceData::Soa(Soa {
            mname: copy_bytes(&s.mname),
            rname: copy_bytes(&s.rname),
            serial: s.serial,
            refresh: s.refresh,
            retry: s.retry,
            expire: s.expire,
            minimum: s.minimum,
        }),
        ResourceData::Mx(m) => ResourceData::Mx(Mx { preference: m.preference, exchange: copy_bytes(&m.exchange) }),
        ResourceData::Txt(t) => ResourceData::Txt(copy_bytes(t)),
        ResourceData::Https(_) => ResourceData::Unimplemented(65),
        ResourceData::Unimplemented(n) => ResourceData::Unimplemented(*n),
    };
    ResourceRecord { name: copy_bytes(&r.name), rtype: r.rtype, class: RecordClass::IN, ttl: r.ttl, data }
}

/// Copies the records that a response carries on, in order.
fn filter_records(rs: &Vec<ResourceRecord>) -> (out: Vec<ResourceRecord>)
    ensures
        records_view(out@) == emitted(rs@),
        forall|i: int| 0 <= i < out@.len() ==> data_fits(#[trigger] out@[i].rtype, out@[i].data),
{
    let mut out: Vec<ResourceRecord> = Vec::new();
    let mut i: usize = 0;
    assert(records_view(rs@).take(0) =~= seq![]);
    proof {
        reveal(Seq::filter);
        assert(records_view(out@) =~= records_view(rs@).take(0).filter(|rm: RecordModel| model_fits(rm)));
    }
    while i < rs.len()
        invariant
            i <= rs@.len(),
            records_view(out@) == records_view(rs@).take(i as int).filter(|rm: RecordModel| model_fits(rm)),
            forall|j: int| 0 <= j < out@.len() ==> data_fits(#[trigger] out@[j].rtype, out@[j].data),
        decreases rs@.len() - i,
    {
        let r = &rs[i];
        let ghost before = records_view(out@);
        let ghost rv = records_view(rs@);
        proof {
            reveal(Seq::filter);
            lemma_fits_view(*r);
            assert(rv.take(i + 1).drop_last() =~= rv.take(i as int));
            assert(rv.take(i + 1).last() == record_view(*r));
        }
        if fits_record(r) {
            let c = copy_record(r);
            out.push(c);
            assert(records_view(out@) =~= before.push(record_view(c)));
        }
        i = i + 1;
    }
    assert(records_view(rs@).take(i as int) =~= records_view(rs@));
    out
}

fn fits_record(r: &ResourceRecord) -> (b: bool)
    ensures
        b == data_fits(r.rtype, r.data),
{
    match (r.rtype, &r.data) {
        (RecordType::A, ResourceData::IPv4(_)) => true,
        (RecordType::AAAA, ResourceData::IPv6(_)) => true,
        (RecordType::NS, ResourceData::Ns(_)) => true,
        (RecordType::CNAME, ResourceData::CName(_)) => true,
        (RecordType::PTR, ResourceData::Ptr(_)) => true,
        (RecordType::SOA, ResourceData::Soa(_)) => true,
        (RecordType::MX, ResourceData::Mx(_)) => true,
        (RecordType::TXT, ResourceData::Txt(_)) => true,
        _ => false,
    }
}

fn copy_question(q: &Question) -> (c: Question)
    ensures
        c.view() == q.view(),
{
    Question { name: copy_bytes(&q.name), qtype: q.qtype, class: RecordClass::IN }
}

/// The response to the query `q`, with `rcode` and the upstream sections,
/// less the records that cannot be written.
pub fn create_response(q: &Message, rcode: u32, ans: &Vec<ResourceRecord>, ns: &Vec<ResourceRecord>,
    ads: &Vec<ResourceRecord>) -> (r: Message)
    requires
        q.questions@.len() == 1,
    ensures
        r.id == q.id,
        r.qr == 1,
        r.opcode == q.opcode,
        r.aa == 1,
        r.tc == 0,
        r.rd == q.rd,
        r.ra == 1,
        r.ad == 0,
        r.cd == 0,
        r.rcode == rcode,
        questions_view(r.questions@) == seq![q.questions@[0].view()],
        records_view(r.answers@) == emitted(ans@),
        records_view(r.nameservers@) == emitted(ns@),
        records_view(r.additional@) == emitted(ads@),
        forall|i: int| 0 <= i < r.answers@.len() ==> data_fits(#[trigger] r.answers@[i].rtype, r.answers@[i].data),
        forall|i: int| 0 <= i < r.nameservers@.len() ==> data_fits(#[trigger] r.nameservers@[i].rtype, r.nameservers@[i].data),
        forall|i: int| 0 <= i < r.additional@.len() ==> data_fits(#[trigger] r.additional@[i].rtype, r.additional@[i].data),
{
    let mut questions: Vec<Question> = Vec::new();
    let qc = copy_question(&q.questions[0]);
    questions.push(qc);
    assert(questions_view(questions@) =~= seq![q.questions@[0].view()]);
    Message {
        id: q.id,
        qr: 1,
        opcode: q.opcode,
        aa: 1,
        tc: 0,
        rd: q.rd,
        ra: 1,
        ad: 0,
        cd: 0,
        rcode,
        questions,
        answers: filter_records(ans),
        nameservers: filter_records(ns),
        additional: filter_records(ads),
    }
}

/// What the forwarder hands back for one query.
pub struct FwdrAnswer {
    pub rcode: u32,
    pub answers: Vec<ResourceRecord>,
    pub nameservers: Vec<ResourceRecord>,
    pub additional: Vec<ResourceRecord>,
}

/// `r` answers `q` with `rcode` and the given sections, as `create_response`
/// builds it.
pub open spec fn is_response(r: Message, q: Message, rcode: u32, an: Seq<RecordModel>, ns: Seq<RecordModel>,
    ar: Seq<RecordModel>) -> bool {
    &&& r.id == q.id
    &&& r.qr == 1
    &&& r.opcode == q.opcode
    &&& r.aa == 1
    &&& r.tc == 0
    &&& r.rd == q.rd
    &&& r.ra == 1
    &&& r.ad == 0
    &&& r.cd == 0
    &&& r.rcode == rcode
    &&& questions_view(r.questions@) == seq![q.questions@[0].view()]
    &&& records_view(r.answers@) == an
    &&& records_view(r.nameservers@) == ns
    &&& records_view(r.additional@) == ar
}

/// The forwarder's answer from the upstream reply, if one came: a reply that
/// reads as a message gives its response code and sections; no reply (a
/// timeout or an I/O error), or one that does not read, gives REFUSED and no
/// records.
pub fn forward_answer(reply: Option<&[u8]>) -> (r: FwdrAnswer)
    ensures
        match reply {
            Some(b) => match parse_spec(b@) {
                Ok(m) => r.rcode == m.rcode && records_view(r.answers@) == m.answers
                    && records_view(r.nameservers@) == m.nameservers && records_view(r.additional@) == m.additional,
                Err(_) => r.rcode == REFUSED && r.answers@.len() == 0 && r.nameservers@.len() == 0 && r.additional@.len() == 0,
            },
            None => r.rcode == REFUSED && r.answers@.len() == 0 && r.nameservers@.len() == 0 && r.additional@.len() == 0,
        },
{
    let refused = FwdrAnswer { rcode: REFUSED, answers: Vec::new(), nameservers: Vec::new(), additional: Vec::new() };
    match reply {
        None => refused,
        Some(b) => match Message::from(b) {
            Ok(m) => FwdrAnswer { rcode: m.rcode, answers: m.answers, nameservers: m.nameservers, additional: m.additional },
            Err(_) => refused,
        },
    }
}

/// What the dispatcher does with a query that reads.
pub enum Step {
    /// Answer the client with this message.
    Respond(Message),
    /// Ask the upstream resolver, then `complete`.
    Forward,
}

/// The answer record for a cached address: the question's name, type A,
/// class IN, the remaining time to live (at most the largest 32-bit value).
pub open spec fn cached_record(name: Seq<u8>, a: [u8; 4], ttl: u64) -> RecordModel {
    RecordModel {
        name,
        rtype: RecordType::A,
        ttl: if ttl > u32::MAX as u64 { u32::MAX } else { ttl as u32 },
        data: DataModel::IPv4(a@),
    }
}

/// Decides what to do with the query `q` at `now`: a query without exactly
/// one question gets SERVFAIL; a question type without a wire form here gets
/// NOTIMP; a type A question whose name the cache holds is answered from the
/// cache; any other goes upstream. Only the cache lookup changes the cache.
pub fn dispatch(cache: &mut Cache, q: &Message, now: u64) -> (r: Step)
    requires
        old(cache).wf(),
    ensures
        final(cache).wf(),
        q.questions@.len() != 1 ==> final(cache)@ == old(cache)@ && (r matches Step::Respond(m)
            && m.id == q.id && m.qr == 1 && m.opcode == q.opcode && m.aa == 0 && m.tc == 0 && m.rd == q.rd
            && m.ra == 1 && m.ad == 0 && m.cd == 0 && m.rcode == SERVFAIL && m.questions@.len() == 0
            && m.answers@.len() == 0 && m.nameservers@.len() == 0 && m.additional@.len() == 0),
        q.questions@.len() == 1 && !is_supported(q.questions@[0].qtype) ==> final(cache)@ == old(cache)@
            && (r matches Step::Respond(m) && is_response(m, *q, NOTIMP, seq![], seq![], seq![])),
        q.questions@.len() == 1 && q.questions@[0].qtype == RecordType::A ==> {
            let n = q.questions@[0].name@;
            &&& final(cache)@ == cache_after_get(old(cache)@, n, now)
            &&& match cache_lookup(old(cache)@, n, now) {
                Some((a, t)) => r matches Step::Respond(m) && is_response(m, *q, NOERROR, seq![cached_record(n, a, t)], seq![], seq![]),
                None => r is Forward,
            }
        },
        q.questions@.len() == 1 && is_supported(q.questions@[0].qtype) && q.questions@[0].qtype != RecordType::A
            ==> final(cache)@ == old(cache)@ && r is Forward,
        r matches Step::Respond(m) ==> m.questions@.len() <= 1 && m.answers@.len() <= 1
            && m.nameservers@.len() == 0 && m.additional@.len() == 0
            && (m.questions@.len() == 1 ==> q.questions@.len() == 1 && m.questions@[0].name@ == q.questions@[0].name@)
            && (m.answers@.len() == 1 ==> q.questions@.len() == 1 && m.answers@[0].name@ == q.questions@[0].name@
                && (name_error(split(q.questions@[0].name@)) is None ==> record_ok(m.answers@[0]))),
{
    if q.questions.len() != 1 {
        let mut m = Message::new();
        m.id = q.id;
        m.qr = 1;
        m.opcode = q.opcode;
        m.rd = q.rd;
        m.ra = 1;
        m.rcode = SERVFAIL;
        return Step::Respond(m);
    }
    let question = &q.questions[0];
    if !question.qtype.is_supported() {
        let none: Vec<ResourceRecord> = Vec::new();
        let m = create_response(q, NOTIMP, &none, &none, &none);
        proof {
            reveal(Seq::filter);
            assert(records_view(none@) =~= seq![]);
            assert(emitted(none@) =~= seq![]);
            assert(questions_view(m.questions@)[0] == q.questions@[0].view());
            assert(questions_view(m.questions@).len() == m.questions@.len());
            assert(records_view(m.answers@).len() == m.answers@.len());
            assert(records_view(m.nameservers@).len() == m.nameservers@.len());
            assert(records_view(m.additional@).len() == m.additional@.len());
        }
        return Step::Respond(m);
    }
    match question.qtype {
        RecordType::A => {
            match cache.get_at(question.name.as_slice(), now) {
                Some((a, t)) => {
                    let ttl: u32 = if t > u32::MAX as u64 {
                        u32::MAX
                    } else {
                        t as u32
                    };
                    let rec = ResourceRecord {
                        name: copy_bytes(&question.name),
                        rtype: RecordType::A,
                        class: RecordClass::IN,
                        ttl,
                        data: ResourceData::IPv4(a),
                    };
                    let ghost rv = record_view(rec);
                    let mut ans: Vec<ResourceRecord> = Vec::new();
                    ans.push(rec);
                    let none: Vec<ResourceRecord> = Vec::new();
                    let m = create_response(q, NOERROR, &ans, &none, &none);
                    proof {
                        reveal(Seq::filter);
                        assert(records_view(none@) =~= seq![]);
                        assert(emitted(none@) =~= seq![]);
                        assert(records_view(ans@) =~= seq![rv]);
                        assert(records_view(ans@).drop_last() =~= seq![]);
                        assert(emitted(ans@) =~= seq![rv]);
                        assert(records_view(m.answers@) == seq![rv]);
                        assert(record_view(m.answers@[0]) == rv);
                        assert(data_fits(m.answers@[0].rtype, m.answers@[0].data));
                        assert(questions_view(m.questions@)[0] == q.questions@[0].view());
                        assert(questions_view(m.questions@).len() == m.questions@.len());
                        assert(records_view(m.nameservers@).len() == m.nameservers@.len());
                        assert(records_view(m.additional@).len() == m.additional@.len());
                    }
                    Step::Respond(m)
                },
                None => Step::Forward,
            }
        },
        _ => Step::Forward,
    }
}

/// The first answer's address, where the first answer is an IPv4 record.
pub open spec fn first_ipv4(rs: Seq<ResourceRecord>) -> Option<[u8; 4]> {
    if rs.len() > 0 {
        match rs[0].data {
            ResourceData::IPv4(a) => Some(a),
            _ => None,
        }
    } else {
        None
    }
}

/// Completes the query `q` with the forwarder's answer at `now`: where the
/// upstream answered NOERROR to a type A question and its first answer is
/// an IPv4 record, the cache takes that address with that record's time to
/// live. The response carries the upstream response code and sections.
pub fn complete(cache: &mut Cache, q: &Message, fa: &FwdrAnswer, now: u64) -> (r: Message)
    requires
        old(cache).wf(),
        q.questions@.len() == 1,
    ensures
        final(cache).wf(),
        is_response(r, *q, fa.rcode, emitted(fa.answers@), emitted(fa.nameservers@), emitted(fa.additional@)),
        forall|i: int| 0 <= i < r.answers@.len() ==> data_fits(#[trigger] r.answers@[i].rtype, r.answers@[i].data),
        forall|i: int| 0 <= i < r.nameservers@.len() ==> data_fits(#[trigger] r.nameservers@[i].rtype, r.nameservers@[i].data),
        forall|i: int| 0 <= i < r.additional@.len() ==> data_fits(#[trigger] r.additional@[i].rtype, r.additional@[i].data),
        final(cache)@ == (if fa.rcode == NOERROR && q.questions@[0].qtype == RecordType::A
            && first_ipv4(fa.answers@) is Some {
            cache_insert(old(cache)@, q.questions@[0].name@, first_ipv4(fa.answers@)->Some_0,
                fa.answers@[0].ttl as u64, now)
        } else {
            old(cache)@
        }),
{
    let question = &q.questions[0];
    if fa.rcode == NOERROR && question.qtype == RecordType::A && fa.answers.len() > 0 {
        match &fa.answers[0].data {
            ResourceData::IPv4(a) => {
                cache.insert_at(question.name.as_slice(), a, fa.answers[0].ttl as u64, now);
            },
            _ => {},
        }
    }
    create_response(q, fa.rcode, &fa.answers, &fa.nameservers, &fa.additional)
}

/// A 16-bit identifier from two bytes, most significant first.
pub fn id_from(hi: u8, lo: u8) -> (r: u16)
    ensures
        r as int == hi as int * 256 + lo as int,
{
    (hi as u16) * 256 + (lo as u16)
}

/// A random query identifier, or `None` where the system's source of
/// randomness fails.
pub fn genid() -> (r: Option<u16>)
{
    match random_pair() {
        Some((hi, lo)) => Some(id_from(hi, lo)),
        None => None,
    }
}

/// The query sent upstream: the given id, a standard query with recursion
/// desired, and one question of class IN.
pub fn build_query(id: u16, name: &[u8], qtype: RecordType) -> (m: Message)
    ensures
        m.id == id as u32 && m.qr == 0 && m.opcode == 0 && m.aa == 0 && m.tc == 0 && m.rd == 1,
        m.ra == 0 && m.ad == 0 && m.cd == 0 && m.rcode == 0,
        questions_view(m.questions@) == seq![QuestionModel { name: name@, qtype }],
        m.answers@.len() == 0 && m.nameservers@.len() == 0 && m.additional@.len() == 0,
{
    let mut m = Message::new();
    m.id = id as u32;
    m.rd = 1;
    let name_copy = copy_range(name, 0, name.len());
    assert(name@.subrange(0, name@.len() as int) =~= name@);
    m.questions.push(Question { name: name_copy, qtype, class: RecordClass::IN });
    assert(questions_view(m.questions@) =~= seq![QuestionModel { name: name@, qtype }]);
    m
}

/// The upstream query as it reads back.
pub open spec fn query_model(id: u16, name: Seq<u8>, qtype: RecordType) -> MessageModel {
    MessageModel {
        id: id as u32,
        qr: 0,
        opcode: 0,
        aa: 0,
        tc: 0,
        rd: 1,
        ra: 0,
        ad: 0,
        cd: 0,
        rcode: 0,
        questions: seq![QuestionModel { name: canon(name), qtype: type_of_code(type_code(qtype)) }],
        answers: seq![],
        nameservers: seq![],
        additional: seq![],
    }
}

/// The wire form of the upstream query; it reads back as the query, its
/// name in canonical form.
pub fn upstream_query(id: u16, name: &[u8], qtype: RecordType) -> (r: Result<Vec<u8>, SerializeError>)
    ensures
        r matches Ok(b) ==> parse_spec(b@) == Ok::<MessageModel, ParseError>(query_model(id, name@, qtype)),
        name_error(split(name@)) is None ==> r is Ok,
{
    let m = build_query(id, name, qtype);
    proof {
        assert(questions_view(m.questions@).len() == 1);
        assert(m.questions@.len() == 1);
        assert(m.questions@[0].view() == questions_view(m.questions@)[0]);
        assert(m.questions@[0].name@ == name@);
        assert(questions_canon(m.questions@) =~= seq![QuestionModel { name: canon(name@), qtype: type_of_code(type_code(qtype)) }]);
        assert(records_canon(m.answers@) =~= seq![]);
        assert(records_canon(m.nameservers@) =~= seq![]);
        assert(records_canon(m.additional@) =~= seq![]);
        assert(header_fits(m));
        if name_error(split(name@)) is None {
            assert(question_ok(m.questions@[0]));
            assert(message_ok(m));
        }
    }
    m.into_bytes()
}

/// What the server does with one query datagram.
pub enum Outcome {
    /// Send these bytes back to the client.
    Reply(Vec<u8>),
    /// Ask the upstream resolver about this query, then `complete` it.
    Forward(Message),
    /// Send nothing.
    Drop,
}

/// The reply to a query that cannot be read: FORMERR, no sections, and the
/// query's id where its header is complete, else 0.
pub fn formerr_reply(data: &[u8]) -> (m: Message)
    ensures
        m.id == (if data@.len() >= 12 { u16_at(data@, 0) as u32 } else { 0 }),
        m.qr == 1 && m.opcode == 0 && m.aa == 0 && m.tc == 0 && m.rd == 0,
        m.ra == 1 && m.ad == 0 && m.cd == 0 && m.rcode == FORMERR,
        m.questions@.len() == 0 && m.answers@.len() == 0,
        m.nameservers@.len() == 0 && m.additional@.len() == 0,
{
    let mut m = Message::new();
    if data.len() >= 12 {
        m.id = read_be16(data, 0) as u32;
    }
    m.qr = 1;
    m.ra = 1;
    m.rcode = FORMERR;
    m
}

/// Handles one query datagram at `now`: one that does not read gets
/// FORMERR; one that reads goes through `dispatch`, and a response is sent
/// in its wire form, or nothing where it cannot be written.
pub fn handle_query(cache: &mut Cache, data: &[u8], now: u64) -> (r: Outcome)
    requires
        old(cache).wf(),
    ensures
        final(cache).wf(),
        parse_spec(data@) is Err ==> final(cache)@ == old(cache)@ && (r matches Outcome::Reply(b)
            && parse_spec(b@) is Ok && parse_spec(b@)->Ok_0.rcode == FORMERR
            && parse_spec(b@)->Ok_0.id == (if data@.len() >= 12 { u16_at(data@, 0) as u32 } else { 0 })
            && parse_spec(b@)->Ok_0.questions.len() == 0 && parse_spec(b@)->Ok_0.answers.len() == 0),
        r matches Outcome::Forward(q) ==> parse_spec(data@) == Ok::<MessageModel, ParseError>(q.view())
            && q.questions@.len() == 1 && is_supported(q.questions@[0].qtype),
        parse_spec(data@) matches Ok(mm) ==> {
            &&& mm.questions.len() != 1 ==> final(cache)@ == old(cache)@ && (r matches Outcome::Reply(b) && parse_spec(b@) is Ok && parse_spec(b@)->Ok_0.rcode == SERVFAIL
                    && parse_spec(b@)->Ok_0.id == mm.id)
            &&& mm.questions.len() == 1 && !is_supported(mm.questions[0].qtype) ==> final(cache)@ == old(cache)@
                && !(r is Forward) && (name_error(split(mm.questions[0].name)) is None ==> r is Reply)
                && (r matches Outcome::Reply(b) ==> parse_spec(b@) is Ok
                    && parse_spec(b@)->Ok_0.rcode == NOTIMP && parse_spec(b@)->Ok_0.id == mm.id
                    && parse_spec(b@)->Ok_0.answers.len() == 0)
            &&& mm.questions.len() == 1 && mm.questions[0].qtype == RecordType::A ==> {
                &&& final(cache)@ == cache_after_get(old(cache)@, mm.questions[0].name, now)
                &&& cache_lookup(old(cache)@, mm.questions[0].name, now) is None ==> r is Forward
                &&& cache_lookup(old(cache)@, mm.questions[0].name, now) is Some ==> !(r is Forward)
                    && (name_error(split(mm.questions[0].name)) is None ==> r is Reply)
                    && (r matches Outcome::Reply(b) ==> parse_spec(b@) is Ok && parse_spec(b@)->Ok_0.rcode == NOERROR
                        && parse_spec(b@)->Ok_0.id == mm.id && parse_spec(b@)->Ok_0.answers.len() == 1)
            }
            &&& mm.questions.len() == 1 && is_supported(mm.questions[0].qtype) && mm.questions[0].qtype != RecordType::A
                ==> final(cache)@ == old(cache)@ && r is Forward
        },
{
    match Message::from(data) {
        Err(_) => {
            let m = formerr_reply(data);
            proof {
                assert(questions_canon(m.questions@) =~= seq![]);
                assert(records_canon(m.answers@) =~= seq![]);
                assert(records_canon(m.nameservers@) =~= seq![]);
                assert(records_canon(m.additional@) =~= seq![]);
                assert(header_fits(m));
                assert(message_ok(m));
            }
            match m.into_bytes() {
                Ok(b) => Outcome::Reply(b),
                Err(_) => Outcome::Drop,
            }
        },
        Ok(q) => {
            proof {
                lemma_parsed_header_small(data@);
                assert(q.questions@.len() == questions_view(q.questions@).len());
                if q.questions@.len() == 1 {
                    assert(q.questions@[0].view() == questions_view(q.questions@)[0]);
                }
            }
            match dispatch(cache, &q, now) {
                Step::Respond(m) => {
                    proof {
                        assert(header_fits(m));
                        if m.questions@.len() == 1 {
                            assert(m.questions@[0].name@ == q.questions@[0].name@);
                        }
                        assert(message_canon(m).answers.len() == m.answers@.len());
                        assert(records_view(m.answers@).len() == m.answers@.len());
                    }
                    match m.into_bytes() {
                        Ok(b) => Outcome::Reply(b),
                        Err(_) => Outcome::Drop,
                    }
                },
                Step::Forward => Outcome::Forward(q),
            }
        },
    }
}

} // verus!
