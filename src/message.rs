use vstd::prelude::*;
use crate::dns::{
    type_code, type_of_code, Mx, RecordClass, RecordType, ResourceData, ResourceRecord, Soa,
};
use crate::name::{lemma_read_name_prefix, read_name, read_name_spec, ParseError};
use crate::wire::{be16, be32, read_be16, read_be32};

verus! {

/// A question as the codec sees it; the class is always IN.
pub struct QuestionModel {
    pub name: Seq<u8>,
    pub qtype: RecordType,
}

/// Record data as the codec sees it.
pub enum DataModel {
    IPv4(Seq<u8>),
    IPv6(Seq<u8>),
    Ns(Seq<u8>),
    CName(Seq<u8>),
    Soa(Seq<u8>, Seq<u8>, u32, u32, u32, u32, u32),
    Ptr(Seq<u8>),
    Mx(u16, Seq<u8>),
    Txt(Seq<u8>),
    Https,
    Unimplemented(u32),
}

/// A resource record as the codec sees it; the class is always IN.
pub struct RecordModel {
    pub name: Seq<u8>,
    pub rtype: RecordType,
    pub ttl: u32,
    pub data: DataModel,
}

/// A message as the codec sees it.
pub struct MessageModel {
    pub id: u32,
    pub qr: u8,
    pub opcode: u32,
    pub aa: u8,
    pub tc: u8,
    pub rd: u8,
    pub ra: u8,
    pub ad: u8,
    pub cd: u8,
    pub rcode: u32,
    pub questions: Seq<QuestionModel>,
    pub answers: Seq<RecordModel>,
    pub nameservers: Seq<RecordModel>,
    pub additional: Seq<RecordModel>,
}

/// A question of a message.
#[derive(Debug, Clone)]
pub struct Question {
    pub name: Vec<u8>,
    pub qtype: RecordType,
    pub class: RecordClass,
}

/// A DNS message: header fields and the four sections.
#[derive(Debug, Clone)]
pub struct Message {
    pub id: u32,
    pub qr: u8,
    pub opcode: u32,
    pub aa: u8,
    pub tc: u8,
    pub rd: u8,
    pub ra: u8,
    pub ad: u8,
    pub cd: u8,
    pub rcode: u32,
    pub questions: Vec<Question>,
    pub answers: Vec<ResourceRecord>,
    pub nameservers: Vec<ResourceRecord>,
    pub additional: Vec<ResourceRecord>,
}

impl Question {
    pub open spec fn view(&self) -> QuestionModel {
        QuestionModel { name: self.name@, qtype: self.qtype }
    }
}

/// The model of record data.
pub open spec fn data_view(d: ResourceData) -> DataModel {
    match d {
        ResourceData::IPv4(a) => DataModel::IPv4(a@),
        ResourceData::IPv6(a) => DataModel::IPv6(a@),
        ResourceData::Ns(n) => DataModel::Ns(n@),
        ResourceData::CName(n) => DataModel::CName(n@),
        ResourceData::Soa(s) => DataModel::Soa(s.mname@, s.rname@, s.serial, s.refresh, s.retry, s.expire, s.minimum),
        ResourceData::Ptr(n) => DataModel::Ptr(n@),
        ResourceData::Mx(m) => DataModel::Mx(m.preference, m.exchange@),
        ResourceData::Txt(t) => DataModel::Txt(t@),
        ResourceData::Https(_) => DataModel::Https,
        ResourceData::Unimplemented(n) => DataModel::Unimplemented(n),
    }
}

/// The model of a record.
pub open spec fn record_view(r: ResourceRecord) -> RecordModel {
    RecordModel { name: r.name@, rtype: r.rtype, ttl: r.ttl, data: data_view(r.data) }
}

/// The models of a sequence of records.
pub open spec fn records_view(rs: Seq<ResourceRecord>) -> Seq<RecordModel> {
    rs.map_values(|r: ResourceRecord| record_view(r))
}

/// The models of a sequence of questions.
pub open spec fn questions_view(qs: Seq<Question>) -> Seq<QuestionModel> {
    qs.map_values(|q: Question| q.view())
}

impl Message {
    pub open spec fn view(&self) -> MessageModel {
        MessageModel {
            id: self.id,
            qr: self.qr,
            opcode: self.opcode,
            aa: self.aa,
            tc: self.tc,
            rd: self.rd,
            ra: self.ra,
            ad: self.ad,
            cd: self.cd,
            rcode: self.rcode,
            questions: questions_view(self.questions@),
            answers: records_view(self.answers@),
            nameservers: records_view(self.nameservers@),
            additional: records_view(self.additional@),
        }
    }
}

/// `bits` bits of `value`, ending `cur` bits from its low end.
pub open spec fn bits_at(value: u8, cur: u8, bits: u8) -> u8 {
    (value >> ((cur - bits) as u8)) & ((((1u8 << bits) as int) - 1) as u8)
}

/// Reads the bits of one byte, most significant first.
struct BitCursor {
    value: u8,
    cur: u8,
}

impl BitCursor {
    fn new(msg: &[u8], pos: usize) -> (r: BitCursor)
        requires
            pos < msg@.len(),
        ensures
            r.value == msg@[pos as int],
            r.cur == 8,
    {
        BitCursor { value: msg[pos], cur: 8 }
    }

    /// The next `bits` bits, most significant first; an error, with
    /// nothing read, where fewer bits are left.
    fn read(&mut self, bits: u8) -> (r: Result<u8, ()>)
        requires
            1 <= bits <= 8,
            old(self).cur <= 8,
        ensures
            bits > old(self).cur ==> r is Err && *final(self) == *old(self),
            bits <= old(self).cur ==> final(self).value == old(self).value
                && final(self).cur == old(self).cur - bits
                && r == Ok::<u8, ()>(if bits == 8 { old(self).value } else { bits_at(old(self).value, old(self).cur, bits) }),
    {
        if bits > self.cur {
            return Err(());
        }
        if bits == 8 {
            self.cur = 0;
            return Ok(self.value);
        }
        assert(1u8 << bits >= 1u8) by (bit_vector)
            requires bits < 8u8;
        let mask: u8 = (1u8 << bits) - 1;
        let r = (self.value >> (self.cur - bits)) & mask;
        self.cur = self.cur - bits;
        Ok(r)
    }
}

/// The 16-bit value at `pos`.
pub open spec fn u16_at(msg: Seq<u8>, pos: nat) -> u16 {
    be16(msg[pos as int], msg[pos as int + 1]) as u16
}

/// The 32-bit value at `pos`.
pub open spec fn u32_at(msg: Seq<u8>, pos: nat) -> u32 {
    be32(msg[pos as int], msg[pos as int + 1], msg[pos as int + 2], msg[pos as int + 3]) as u32
}

/// The question at `pos` and the offset after it.
pub open spec fn question_spec(msg: Seq<u8>, pos: nat) -> Result<(QuestionModel, nat), ParseError> {
    match read_name_spec(msg, pos) {
        Err(e) => Err(e),
        Ok((n, p)) => if p + 4 > msg.len() {
            Err(ParseError::Truncated)
        } else if u16_at(msg, p + 2) != 1 {
            Err(ParseError::UnsupportedClass)
        } else {
            Ok((QuestionModel { name: n, qtype: type_of_code(u16_at(msg, p)) }, p + 4))
        },
    }
}

/// `count` more questions from `pos`, after those in `acc`.
#[verifier::opaque]
pub open spec fn questions_spec(msg: Seq<u8>, pos: nat, count: nat, acc: Seq<QuestionModel>)
    -> Result<(Seq<QuestionModel>, nat), ParseError>
    decreases count,
{
    if count == 0 {
        Ok((acc, pos))
    } else {
        match question_spec(msg, pos) {
            Err(e) => Err(e),
            Ok((q, p)) => questions_spec(msg, p, (count - 1) as nat, acc.push(q)),
        }
    }
}

/// A name that fills the record data from `start` to `end` exactly.
pub open spec fn rdata_name(msg: Seq<u8>, start: nat, end: nat) -> Result<Seq<u8>, ParseError> {
    match read_name_spec(msg, start) {
        Err(e) => Err(e),
        Ok((n, p)) => if p != end { Err(ParseError::BadLength) } else { Ok(n) },
    }
}

/// The record data of type `t` in `msg[start..start + len]`.
pub open spec fn rdata_spec(msg: Seq<u8>, t: RecordType, start: nat, len: nat) -> Result<DataModel, ParseError> {
    let end = start + len;
    match t {
        RecordType::A => if len != 4 {
            Err(ParseError::BadLength)
        } else {
            Ok(DataModel::IPv4(msg.subrange(start as int, end as int)))
        },
        RecordType::AAAA => if len != 16 {
            Err(ParseError::BadLength)
        } else {
            Ok(DataModel::IPv6(msg.subrange(start as int, end as int)))
        },
        RecordType::NS => match rdata_name(msg, start, end) {
            Ok(n) => Ok(DataModel::Ns(n)),
            Err(e) => Err(e),
        },
        RecordType::CNAME => match rdata_name(msg, start, end) {
            Ok(n) => Ok(DataModel::CName(n)),
            Err(e) => Err(e),
        },
        RecordType::PTR => match rdata_name(msg, start, end) {
            Ok(n) => Ok(DataModel::Ptr(n)),
            Err(e) => Err(e),
        },
        RecordType::MX => if len < 2 {
            Err(ParseError::BadLength)
        } else {
            match rdata_name(msg, start + 2, end) {
                Ok(n) => Ok(DataModel::Mx(u16_at(msg, start), n)),
                Err(e) => Err(e),
            }
        },
        RecordType::SOA => match read_name_spec(msg, start) {
            Err(e) => Err(e),
            Ok((m, p1)) => match read_name_spec(msg, p1) {
                Err(e) => Err(e),
                Ok((r, p2)) => if p2 + 20 != end {
                    Err(ParseError::BadLength)
                } else {
                    Ok(DataModel::Soa(m, r, u32_at(msg, p2), u32_at(msg, p2 + 4), u32_at(msg, p2 + 8),
                        u32_at(msg, p2 + 12), u32_at(msg, p2 + 16)))
                },
            },
        },
        RecordType::TXT => if len < 1 || 1 + msg[start as int] > len {
            Err(ParseError::BadLength)
        } else {
            Ok(DataModel::Txt(msg.subrange(start as int + 1, start as int + 1 + msg[start as int])))
        },
        _ => Ok(DataModel::Unimplemented(type_code(t) as u32)),
    }
}

/// The record at `pos` and the offset after it.
pub open spec fn record_spec(msg: Seq<u8>, pos: nat) -> Result<(RecordModel, nat), ParseError> {
    match read_name_spec(msg, pos) {
        Err(e) => Err(e),
        Ok((n, p)) => if p + 10 > msg.len() {
            Err(ParseError::Truncated)
        } else {
            let t = type_of_code(u16_at(msg, p));
            let ttl = u32_at(msg, p + 4);
            let len = u16_at(msg, p + 8) as nat;
            let start = p + 10;
            if start + len > msg.len() {
                Err(ParseError::Truncated)
            } else {
                match rdata_spec(msg, t, start, len) {
                    Err(e) => Err(e),
                    Ok(d) => Ok((RecordModel { name: n, rtype: t, ttl, data: d }, start + len)),
                }
            }
        },
    }
}

/// `count` more records from `pos`, after those in `acc`.
#[verifier::opaque]
pub open spec fn records_spec(msg: Seq<u8>, pos: nat, count: nat, acc: Seq<RecordModel>)
    -> Result<(Seq<RecordModel>, nat), ParseError>
    decreases count,
{
    if count == 0 {
        Ok((acc, pos))
    } else {
        match record_spec(msg, pos) {
            Err(e) => Err(e),
            Ok((r, p)) => records_spec(msg, p, (count - 1) as nat, acc.push(r)),
        }
    }
}

/// The message that `msg` holds.
#[verifier::opaque]
pub open spec fn parse_spec(msg: Seq<u8>) -> Result<MessageModel, ParseError> {
    if msg.len() < 12 {
        Err(ParseError::Truncated)
    } else {
        let f1 = msg[2];
        let f2 = msg[3];
        match questions_spec(msg, 12, u16_at(msg, 4) as nat, seq![]) {
            Err(e) => Err(e),
            Ok((qs, p1)) => match records_spec(msg, p1, u16_at(msg, 6) as nat, seq![]) {
                Err(e) => Err(e),
                Ok((an, p2)) => match records_spec(msg, p2, u16_at(msg, 8) as nat, seq![]) {
                    Err(e) => Err(e),
                    Ok((ns, p3)) => match records_spec(msg, p3, u16_at(msg, 10) as nat, seq![]) {
                        Err(e) => Err(e),
                        Ok((ar, _)) => Ok(MessageModel {
                            id: u16_at(msg, 0) as u32,
                            qr: bits_at(f1, 8, 1),
                            opcode: bits_at(f1, 7, 4) as u32,
                            aa: bits_at(f1, 3, 1),
                            tc: bits_at(f1, 2, 1),
                            rd: bits_at(f1, 1, 1),
                            ra: bits_at(f2, 8, 1),
                            ad: bits_at(f2, 6, 1),
                            cd: bits_at(f2, 5, 1),
                            rcode: bits_at(f2, 4, 4) as u32,
                            questions: qs,
                            answers: an,
                            nameservers: ns,
                            additional: ar,
                        }),
                    },
                },
            },
        }
    }
}

fn parse_question(msg: &[u8], pos: usize) -> (r: Result<(Question, usize), ParseError>)
    ensures
        match r {
            Ok((q, p)) => question_spec(msg@, pos as nat) == Ok::<(QuestionModel, nat), ParseError>((q.view(), p as nat)),
            Err(e) => question_spec(msg@, pos as nat) == Err::<(QuestionModel, nat), ParseError>(e),
        },
{
    let (name, p) = match read_name(msg, pos) {
        Ok(x) => x,
        Err(e) => return Err(e),
    };
    if msg.len() < 4 || p > msg.len() - 4 {
        return Err(ParseError::Truncated);
    }
    let qtype = read_be16(msg, p);
    let class = read_be16(msg, p + 2);
    match RecordClass::try_from(class) {
        Ok(class) => {
            let qtype = match RecordType::try_from(qtype) {
                Ok(t) => t,
                Err(()) => RecordType::UNKNOWN(qtype),
            };
            Ok((Question { name, qtype, class }, p + 4))
        },
        Err(()) => Err(ParseError::UnsupportedClass),
    }
}

fn parse_questions(msg: &[u8], pos: usize, count: u16) -> (r: Result<(Vec<Question>, usize), ParseError>)
    ensures
        match r {
            Ok((qs, p)) => questions_spec(msg@, pos as nat, count as nat, seq![])
                == Ok::<(Seq<QuestionModel>, nat), ParseError>((questions_view(qs@), p as nat)),
            Err(e) => questions_spec(msg@, pos as nat, count as nat, seq![])
                == Err::<(Seq<QuestionModel>, nat), ParseError>(e),
        },
{
    reveal(questions_spec);
    let mut qs: Vec<Question> = Vec::new();
    let mut p = pos;
    let mut i: u16 = 0;
    assert(questions_view(qs@) =~= seq![]);
    while i < count
        invariant
            i <= count,
            questions_spec(msg@, pos as nat, count as nat, seq![])
                == questions_spec(msg@, p as nat, (count - i) as nat, questions_view(qs@)),
        decreases count - i,
    {
        reveal(questions_spec);
        match parse_question(msg, p) {
            Ok((q, np)) => {
                let ghost before = questions_view(qs@);
                qs.push(q);
                assert(questions_view(qs@) =~= before.push(q.view()));
                p = np;
            },
            Err(e) => return Err(e),
        }
        i = i + 1;
    }
    Ok((qs, p))
}

fn copy_array4(msg: &[u8], start: usize) -> (r: [u8; 4])
    requires
        start + 4 <= msg@.len(),
    ensures
        r@ == msg@.subrange(start as int, start + 4),
{
    let n = msg.len();
    let mut a = [0u8; 4];
    let mut i: usize = 0;
    while i < 4
        invariant
            n == msg@.len(),
            i <= 4,
            start + 4 <= msg@.len(),
            forall|j: int| 0 <= j < i ==> a@[j] == msg@[start + j],
        decreases 4 - i,
    {
        a[i] = msg[start + i];
        i = i + 1;
    }
    assert(a@ =~= msg@.subrange(start as int, start + 4));
    a
}

fn copy_array16(msg: &[u8], start: usize) -> (r: [u8; 16])
    requires
        start + 16 <= msg@.len(),
    ensures
        r@ == msg@.subrange(start as int, start + 16),
{
    let n = msg.len();
    let mut a = [0u8; 16];
    let mut i: usize = 0;
    while i < 16
        invariant
            n == msg@.len(),
            i <= 16,
            start + 16 <= msg@.len(),
            forall|j: int| 0 <= j < i ==> a@[j] == msg@[start + j],
        decreases 16 - i,
    {
        a[i] = msg[start + i];
        i = i + 1;
    }
    assert(a@ =~= msg@.subrange(start as int, start + 16));
    a
}

fn parse_ipv4(msg: &[u8], start: usize, len: usize) -> (r: Result<[u8; 4], ParseError>)
    requires
        start + len <= msg@.len(),
    ensures
        match r {
            Ok(a) => len == 4 && a@ == msg@.subrange(start as int, start + 4),
            Err(e) => len != 4 && e == ParseError::BadLength,
        },
{
    if len != 4 {
        return Err(ParseError::BadLength);
    }
    Ok(copy_array4(msg, start))
}

fn parse_ipv6(msg: &[u8], start: usize, len: usize) -> (r: Result<[u8; 16], ParseError>)
    requires
        start + len <= msg@.len(),
    ensures
        match r {
            Ok(a) => len == 16 && a@ == msg@.subrange(start as int, start + 16),
            Err(e) => len != 16 && e == ParseError::BadLength,
        },
{
    if len != 16 {
        return Err(ParseError::BadLength);
    }
    Ok(copy_array16(msg, start))
}

/// A name that fills the record data; serves NS, CNAME and PTR.
fn parse_rdata_name(msg: &[u8], start: usize, end: usize) -> (r: Result<Vec<u8>, ParseError>)
    ensures
        match r {
            Ok(n) => rdata_name(msg@, start as nat, end as nat) == Ok::<Seq<u8>, ParseError>(n@),
            Err(e) => rdata_name(msg@, start as nat, end as nat) == Err::<Seq<u8>, ParseError>(e),
        },
{
    match read_name(msg, start) {
        Ok((n, p)) => if p != end {
            Err(ParseError::BadLength)
        } else {
            Ok(n)
        },
        Err(e) => Err(e),
    }
}

fn parse_soa(msg: &[u8], start: usize, end: usize) -> (r: Result<Soa, ParseError>)
    requires
        start <= end <= msg@.len(),
    ensures
        match r {
            Ok(s) => rdata_spec(msg@, RecordType::SOA, start as nat, (end - start) as nat)
                == Ok::<DataModel, ParseError>(data_view(ResourceData::Soa(s))),
            Err(e) => rdata_spec(msg@, RecordType::SOA, start as nat, (end - start) as nat)
                == Err::<DataModel, ParseError>(e),
        },
{
    let (mname, p1) = match read_name(msg, start) {
        Ok(x) => x,
        Err(e) => return Err(e),
    };
    let (rname, p2) = match read_name(msg, p1) {
        Ok(x) => x,
        Err(e) => return Err(e),
    };
    if p2 > end || end - p2 != 20 {
        return Err(ParseError::BadLength);
    }
    let serial = read_be32(msg, p2);
    let refresh = read_be32(msg, p2 + 4);
    let retry = read_be32(msg, p2 + 8);
    let expire = read_be32(msg, p2 + 12);
    let minimum = read_be32(msg, p2 + 16);
    Ok(Soa { mname, rname, serial, refresh, retry, expire, minimum })
}

fn parse_mx(msg: &[u8], start: usize, end: usize) -> (r: Result<Mx, ParseError>)
    requires
        start <= end <= msg@.len(),
    ensures
        match r {
            Ok(m) => rdata_spec(msg@, RecordType::MX, start as nat, (end - start) as nat)
                == Ok::<DataModel, ParseError>(data_view(ResourceData::Mx(m))),
            Err(e) => rdata_spec(msg@, RecordType::MX, start as nat, (end - start) as nat)
                == Err::<DataModel, ParseError>(e),
        },
{
    if end - start < 2 {
        return Err(ParseError::BadLength);
    }
    let preference = read_be16(msg, start);
    match parse_rdata_name(msg, start + 2, end) {
        Ok(exchange) => Ok(Mx { preference, exchange }),
        Err(e) => Err(e),
    }
}

fn parse_txt(msg: &[u8], start: usize, end: usize) -> (r: Result<Vec<u8>, ParseError>)
    requires
        start <= end <= msg@.len(),
    ensures
        match r {
            Ok(t) => rdata_spec(msg@, RecordType::TXT, start as nat, (end - start) as nat)
                == Ok::<DataModel, ParseError>(DataModel::Txt(t@)),
            Err(e) => rdata_spec(msg@, RecordType::TXT, start as nat, (end - start) as nat)
                == Err::<DataModel, ParseError>(e),
        },
{
    if end - start < 1 {
        return Err(ParseError::BadLength);
    }
    let n = msg[start] as usize;
    if 1 + n > end - start {
        return Err(ParseError::BadLength);
    }
    Ok(crate::name::copy_range(msg, start + 1, start + 1 + n))
}

fn parse_unknown(rtype: RecordType) -> (r: u32)
    ensures
        r == type_code(rtype) as u32,
{
    rtype.code() as u32
}

fn parse_rdata(msg: &[u8], rtype: RecordType, start: usize, len: usize) -> (r: Result<ResourceData, ParseError>)
    requires
        start + len <= msg@.len(),
    ensures
        match r {
            Ok(d) => rdata_spec(msg@, rtype, start as nat, len as nat) == Ok::<DataModel, ParseError>(data_view(d)),
            Err(e) => rdata_spec(msg@, rtype, start as nat, len as nat) == Err::<DataModel, ParseError>(e),
        },
{
    let n = msg.len();
    assert(start + len <= n);
    let end = start + len;
    match rtype {
        RecordType::A => match parse_ipv4(msg, start, len) {
            Ok(a) => Ok(ResourceData::IPv4(a)),
            Err(e) => Err(e),
        },
        RecordType::AAAA => match parse_ipv6(msg, start, len) {
            Ok(a) => Ok(ResourceData::IPv6(a)),
            Err(e) => Err(e),
        },
        RecordType::NS => match parse_rdata_name(msg, start, end) {
            Ok(n) => Ok(ResourceData::Ns(n)),
            Err(e) => Err(e),
        },
        RecordType::CNAME => match parse_rdata_name(msg, start, end) {
            Ok(n) => Ok(ResourceData::CName(n)),
            Err(e) => Err(e),
        },
        RecordType::PTR => match parse_rdata_name(msg, start, end) {
            Ok(n) => Ok(ResourceData::Ptr(n)),
            Err(e) => Err(e),
        },
        RecordType::SOA => match parse_soa(msg, start, end) {
            Ok(s) => Ok(ResourceData::Soa(s)),
            Err(e) => Err(e),
        },
        RecordType::MX => match parse_mx(msg, start, end) {
            Ok(m) => Ok(ResourceData::Mx(m)),
            Err(e) => Err(e),
        },
        RecordType::TXT => match parse_txt(msg, start, end) {
            Ok(t) => Ok(ResourceData::Txt(t)),
            Err(e) => Err(e),
        },
        _ => Ok(ResourceData::Unimplemented(parse_unknown(rtype))),
    }
}

fn parse_resource(msg: &[u8], pos: usize) -> (r: Result<(ResourceRecord, usize), ParseError>)
    ensures
        match r {
            Ok((rr, p)) => record_spec(msg@, pos as nat) == Ok::<(RecordModel, nat), ParseError>((record_view(rr), p as nat)),
            Err(e) => record_spec(msg@, pos as nat) == Err::<(RecordModel, nat), ParseError>(e),
        },
{
    let (name, p) = match read_name(msg, pos) {
        Ok(x) => x,
        Err(e) => return Err(e),
    };
    if msg.len() < 10 || p > msg.len() - 10 {
        return Err(ParseError::Truncated);
    }
    let code = read_be16(msg, p);
    let rtype = match RecordType::try_from(code) {
        Ok(t) => t,
        Err(()) => RecordType::UNKNOWN(code),
    };
    let ttl = read_be32(msg, p + 4);
    let len = read_be16(msg, p + 8) as usize;
    let start = p + 10;
    if len > msg.len() - start {
        return Err(ParseError::Truncated);
    }
    match parse_rdata(msg, rtype, start, len) {
        Ok(data) => Ok((ResourceRecord { name, rtype, class: RecordClass::IN, ttl, data }, start + len)),
        Err(e) => Err(e),
    }
}

fn parse_resources(msg: &[u8], pos: usize, count: u16) -> (r: Result<(Vec<ResourceRecord>, usize), ParseError>)
    ensures
        match r {
            Ok((rs, p)) => records_spec(msg@, pos as nat, count as nat, seq![])
                == Ok::<(Seq<RecordModel>, nat), ParseError>((records_view(rs@), p as nat)),
            Err(e) => records_spec(msg@, pos as nat, count as nat, seq![])
                == Err::<(Seq<RecordModel>, nat), ParseError>(e),
        },
{
    reveal(records_spec);
    let mut rs: Vec<ResourceRecord> = Vec::new();
    let mut p = pos;
    let mut i: u16 = 0;
    assert(records_view(rs@) =~= seq![]);
    while i < count
        invariant
            i <= count,
            records_spec(msg@, pos as nat, count as nat, seq![])
                == records_spec(msg@, p as nat, (count - i) as nat, records_view(rs@)),
        decreases count - i,
    {
        reveal(records_spec);
        match parse_resource(msg, p) {
            Ok((rr, np)) => {
                let ghost before = records_view(rs@);
                let ghost rv = record_view(rr);
                rs.push(rr);
                assert(records_view(rs@) =~= before.push(rv));
                p = np;
            },
            Err(e) => return Err(e),
        }
        i = i + 1;
    }
    Ok((rs, p))
}

impl Message {
    /// Reads a message from its wire form. Any input gives a message or an
    /// error; nothing is read outside `data`.
    pub fn from(data: &[u8]) -> (r: Result<Message, ParseError>)
        ensures
            match r {
                Ok(m) => parse_spec(data@) == Ok::<MessageModel, ParseError>(m.view()),
                Err(e) => parse_spec(data@) == Err::<MessageModel, ParseError>(e),
            },
    {
        reveal(parse_spec);
        if data.len() < 12 {
            return Err(ParseError::Truncated);
        }
        let id = read_be16(data, 0) as u32;
        let mut flags = BitCursor::new(data, 2);
        let qr = match flags.read(1) {
            Ok(v) => v,
            Err(()) => return Err(ParseError::Truncated),
        };
        let opcode = match flags.read(4) {
            Ok(v) => v as u32,
            Err(()) => return Err(ParseError::Truncated),
        };
        let aa = match flags.read(1) {
            Ok(v) => v,
            Err(()) => return Err(ParseError::Truncated),
        };
        let tc = match flags.read(1) {
            Ok(v) => v,
            Err(()) => return Err(ParseError::Truncated),
        };
        let rd = match flags.read(1) {
            Ok(v) => v,
            Err(()) => return Err(ParseError::Truncated),
        };
        let mut flags = BitCursor::new(data, 3);
        let ra = match flags.read(1) {
            Ok(v) => v,
            Err(()) => return Err(ParseError::Truncated),
        };
        let _z = match flags.read(1) {
            Ok(v) => v,
            Err(()) => return Err(ParseError::Truncated),
        };
        let ad = match flags.read(1) {
            Ok(v) => v,
            Err(()) => return Err(ParseError::Truncated),
        };
        let cd = match flags.read(1) {
            Ok(v) => v,
            Err(()) => return Err(ParseError::Truncated),
        };
        let rcode = match flags.read(4) {
            Ok(v) => v as u32,
            Err(()) => return Err(ParseError::Truncated),
        };
        let qdcount = read_be16(data, 4);
        let ancount = read_be16(data, 6);
        let nscount = read_be16(data, 8);
        let arcount = read_be16(data, 10);
        let (questions, p1) = match parse_questions(data, 12, qdcount) {
            Ok(x) => x,
            Err(e) => return Err(e),
        };
        let (answers, p2) = match parse_resources(data, p1, ancount) {
            Ok(x) => x,
            Err(e) => return Err(e),
        };
        let (nameservers, p3) = match parse_resources(data, p2, nscount) {
            Ok(x) => x,
            Err(e) => return Err(e),
        };
        let (additional, _) = match parse_resources(data, p3, arcount) {
            Ok(x) => x,
            Err(e) => return Err(e),
        };
        Ok(Message { id, qr, opcode, aa, tc, rd, ra, ad, cd, rcode, questions, answers, nameservers, additional })
    }
}

/// Reading a 16-bit or 32-bit value is unchanged by appended bytes.
pub proof fn lemma_ints_prefix(buf: Seq<u8>, ext: Seq<u8>, p: nat)
    ensures
        p + 2 <= buf.len() ==> u16_at(buf + ext, p) == u16_at(buf, p),
        p + 4 <= buf.len() ==> u32_at(buf + ext, p) == u32_at(buf, p),
{
    if p + 2 <= buf.len() {
        assert((buf + ext)[p as int] == buf[p as int]);
        assert((buf + ext)[p as int + 1] == buf[p as int + 1]);
    }
    if p + 4 <= buf.len() {
        assert((buf + ext)[p as int + 2] == buf[p as int + 2]);
        assert((buf + ext)[p as int + 3] == buf[p as int + 3]);
    }
}

/// Record data that reads in a buffer reads the same once bytes are appended.
pub proof fn lemma_rdata_prefix(buf: Seq<u8>, ext: Seq<u8>, t: RecordType, start: nat, len: nat)
    requires
        start + len <= buf.len(),
        rdata_spec(buf, t, start, len) is Ok,
    ensures
        rdata_spec(buf + ext, t, start, len) == rdata_spec(buf, t, start, len),
{
    let b2 = buf + ext;
    let end = start + len;
    assert(b2.subrange(start as int, end as int) =~= buf.subrange(start as int, end as int));
    match t {
        RecordType::NS | RecordType::CNAME | RecordType::PTR => {
            lemma_read_name_prefix(buf, ext, start);
        },
        RecordType::MX => {
            lemma_ints_prefix(buf, ext, start);
            lemma_read_name_prefix(buf, ext, start + 2);
        },
        RecordType::SOA => {
            lemma_read_name_prefix(buf, ext, start);
            let p1 = read_name_spec(buf, start)->Ok_0.1;
            lemma_read_name_prefix(buf, ext, p1);
            let p2 = read_name_spec(buf, p1)->Ok_0.1;
            lemma_ints_prefix(buf, ext, p2);
            lemma_ints_prefix(buf, ext, p2 + 4);
            lemma_ints_prefix(buf, ext, p2 + 8);
            lemma_ints_prefix(buf, ext, p2 + 12);
            lemma_ints_prefix(buf, ext, p2 + 16);
        },
        RecordType::TXT => {
            assert(b2[start as int] == buf[start as int]);
            let n = buf[start as int] as int;
            assert(b2.subrange(start as int + 1, start as int + 1 + n) =~= buf.subrange(start as int + 1, start as int + 1 + n));
        },
        _ => {},
    }
}

/// A record that reads in a buffer reads the same once bytes are appended.
pub proof fn lemma_record_prefix(buf: Seq<u8>, ext: Seq<u8>, pos: nat)
    requires
        record_spec(buf, pos) is Ok,
    ensures
        record_spec(buf + ext, pos) == record_spec(buf, pos),
        record_spec(buf, pos)->Ok_0.1 <= buf.len(),
{
    lemma_read_name_prefix(buf, ext, pos);
    let p = read_name_spec(buf, pos)->Ok_0.1;
    lemma_ints_prefix(buf, ext, p);
    lemma_ints_prefix(buf, ext, p + 4);
    lemma_ints_prefix(buf, ext, p + 8);
    let len = u16_at(buf, p + 8) as nat;
    lemma_rdata_prefix(buf, ext, type_of_code(u16_at(buf, p)), p + 10, len);
}

/// A question that reads in a buffer reads the same once bytes are appended.
pub proof fn lemma_question_prefix(buf: Seq<u8>, ext: Seq<u8>, pos: nat)
    requires
        question_spec(buf, pos) is Ok,
    ensures
        question_spec(buf + ext, pos) == question_spec(buf, pos),
        question_spec(buf, pos)->Ok_0.1 <= buf.len(),
{
    lemma_read_name_prefix(buf, ext, pos);
    let p = read_name_spec(buf, pos)->Ok_0.1;
    lemma_ints_prefix(buf, ext, p);
    lemma_ints_prefix(buf, ext, p + 2);
}

/// Questions that read in a buffer read the same once bytes are appended.
pub proof fn lemma_questions_prefix(buf: Seq<u8>, ext: Seq<u8>, pos: nat, count: nat, acc: Seq<QuestionModel>)
    requires
        questions_spec(buf, pos, count, acc) is Ok,
        pos <= buf.len(),
    ensures
        questions_spec(buf + ext, pos, count, acc) == questions_spec(buf, pos, count, acc),
        questions_spec(buf, pos, count, acc)->Ok_0.1 <= buf.len(),
    decreases count,
{
    reveal(questions_spec);
    if count > 0 {
        lemma_question_prefix(buf, ext, pos);
        let (q, p) = question_spec(buf, pos)->Ok_0;
        lemma_questions_prefix(buf, ext, p, (count - 1) as nat, acc.push(q));
    }
}

/// Records that read in a buffer read the same once bytes are appended.
pub proof fn lemma_records_prefix(buf: Seq<u8>, ext: Seq<u8>, pos: nat, count: nat, acc: Seq<RecordModel>)
    requires
        records_spec(buf, pos, count, acc) is Ok,
        pos <= buf.len(),
    ensures
        records_spec(buf + ext, pos, count, acc) == records_spec(buf, pos, count, acc),
        records_spec(buf, pos, count, acc)->Ok_0.1 <= buf.len(),
    decreases count,
{
    reveal(records_spec);
    if count > 0 {
        lemma_record_prefix(buf, ext, pos);
        let (r, p) = record_spec(buf, pos)->Ok_0;
        lemma_records_prefix(buf, ext, p, (count - 1) as nat, acc.push(r));
    }
}

/// One more question read after `count` of them.
pub proof fn lemma_questions_snoc(buf: Seq<u8>, pos: nat, count: nat, acc: Seq<QuestionModel>)
    requires
        questions_spec(buf, pos, count, acc) is Ok,
    ensures
        questions_spec(buf, pos, count + 1, acc) == (match question_spec(buf, questions_spec(buf, pos, count, acc)->Ok_0.1) {
            Ok((q, p)) => Ok::<(Seq<QuestionModel>, nat), ParseError>((questions_spec(buf, pos, count, acc)->Ok_0.0.push(q), p)),
            Err(e) => Err(e),
        }),
    decreases count,
{
    reveal_with_fuel(questions_spec, 2);
    if count > 0 {
        let (q, p) = question_spec(buf, pos)->Ok_0;
        lemma_questions_snoc(buf, p, (count - 1) as nat, acc.push(q));
    }
}

/// One more record read after `count` of them.
pub proof fn lemma_records_snoc(buf: Seq<u8>, pos: nat, count: nat, acc: Seq<RecordModel>)
    requires
        records_spec(buf, pos, count, acc) is Ok,
    ensures
        records_spec(buf, pos, count + 1, acc) == (match record_spec(buf, records_spec(buf, pos, count, acc)->Ok_0.1) {
            Ok((r, p)) => Ok::<(Seq<RecordModel>, nat), ParseError>((records_spec(buf, pos, count, acc)->Ok_0.0.push(r), p)),
            Err(e) => Err(e),
        }),
    decreases count,
{
    reveal_with_fuel(records_spec, 2);
    if count > 0 {
        let (r, p) = record_spec(buf, pos)->Ok_0;
        lemma_records_snoc(buf, p, (count - 1) as nat, acc.push(r));
    }
}

impl Message {
    /// A message with every field zero and every section empty.
    pub fn new() -> (m: Message)
        ensures
            m.id == 0 && m.qr == 0 && m.opcode == 0 && m.aa == 0 && m.tc == 0 && m.rd == 0,
            m.ra == 0 && m.ad == 0 && m.cd == 0 && m.rcode == 0,
            m.questions@.len() == 0 && m.answers@.len() == 0,
            m.nameservers@.len() == 0 && m.additional@.len() == 0,
    {
        Message {
            id: 0,
            qr: 0,
            opcode: 0,
            aa: 0,
            tc: 0,
            rd: 0,
            ra: 0,
            ad: 0,
            cd: 0,
            rcode: 0,
            questions: Vec::new(),
            answers: Vec::new(),
            nameservers: Vec::new(),
            additional: Vec::new(),
        }
    }
}

/// Header fields read from the wire fit their widths.
pub proof fn lemma_parsed_header_small(b: Seq<u8>)
    requires
        parse_spec(b) is Ok,
    ensures
        parse_spec(b)->Ok_0.id <= 0xffff,
        parse_spec(b)->Ok_0.qr <= 1,
        parse_spec(b)->Ok_0.opcode <= 15,
        parse_spec(b)->Ok_0.rd <= 1,
        parse_spec(b)->Ok_0.rcode <= 15,
{
    reveal(parse_spec);
    assert((1u8 << 1u8) == 2u8) by (bit_vector);
    assert((1u8 << 4u8) == 16u8) by (bit_vector);
    let f1 = b[2];
    let f2 = b[3];
    assert((f1 >> 7u8) & 1u8 <= 1u8 && (f1 >> 0u8) & 1u8 <= 1u8 && (f1 >> 3u8) & 15u8 <= 15u8
        && (f2 >> 0u8) & 15u8 <= 15u8) by (bit_vector);
}

} // verus!
