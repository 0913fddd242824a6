use vstd::prelude::*;
use crate::dns::{
    is_canonical_type, is_supported, type_code, type_of_code, Mx, RecordType, ResourceData,
    ResourceRecord, Soa,
};
use crate::message::{
    bits_at, lemma_ints_prefix, lemma_question_prefix, lemma_questions_prefix, lemma_questions_snoc,
    lemma_record_prefix, lemma_records_prefix, lemma_records_snoc, parse_spec, question_spec,
    questions_spec, rdata_name, rdata_spec, record_spec, records_spec, u16_at, u32_at, DataModel,
    Message, MessageModel, Question, QuestionModel, RecordModel, questions_view, records_view,
};
use crate::name::{
    after_write, canonical, check_name, copy_range, dotted, lemma_read_name_prefix, name_error,
    read_name_spec, split, written_len, lemma_written_len_bound, NameError, NameWriter, ParseError,
    MAX_NAME_WIRE,
};
use crate::wire::{be16, be32, push_be16, push_be32};

verus! {

/// Why a message could not be written.
#[derive(Debug, Clone, Copy, PartialEq, Eq, Structural)]
pub enum SerializeError {
    /// A name that cannot be encoded.
    BadName(NameError),
    /// A record whose type has no wire form here (HTTPS, unknown types).
    Unsupported,
    /// Record data that does not fit the record's type.
    Mismatch,
    /// Text longer than 255 octets.
    TextTooLong,
    /// A section with more than 65535 entries.
    TooMany,
    /// A message longer than 65535 bytes.
    TooLong,
}

/// The longest message written.
pub const MAX_MESSAGE: usize = 65535;

/// The most that one question or record adds to a message: a name of at
/// most 256 bytes, the fixed fields, and data of at most 534 bytes.
pub const ENTRY_ROOM: usize = 1024;

/// The canonical dotted form of a name.
pub open spec fn canon(n: Seq<u8>) -> Seq<u8> {
    dotted(split(n))
}

/// Record data as it reads back: names in canonical form.
pub open spec fn data_canon(d: ResourceData) -> DataModel {
    match d {
        ResourceData::IPv4(a) => DataModel::IPv4(a@),
        ResourceData::IPv6(a) => DataModel::IPv6(a@),
        ResourceData::Ns(n) => DataModel::Ns(canon(n@)),
        ResourceData::CName(n) => DataModel::CName(canon(n@)),
        ResourceData::Soa(s) => DataModel::Soa(canon(s.mname@), canon(s.rname@), s.serial, s.refresh, s.retry, s.expire, s.minimum),
        ResourceData::Ptr(n) => DataModel::Ptr(canon(n@)),
        ResourceData::Mx(m) => DataModel::Mx(m.preference, canon(m.exchange@)),
        ResourceData::Txt(t) => DataModel::Txt(t@),
        ResourceData::Https(_) => DataModel::Https,
        ResourceData::Unimplemented(n) => DataModel::Unimplemented(n),
    }
}

/// A record as it reads back.
pub open spec fn record_canon(r: ResourceRecord) -> RecordModel {
    RecordModel { name: canon(r.name@), rtype: r.rtype, ttl: r.ttl, data: data_canon(r.data) }
}

/// A question as it reads back.
pub open spec fn question_canon(q: Question) -> QuestionModel {
    QuestionModel { name: canon(q.name@), qtype: type_of_code(type_code(q.qtype)) }
}

/// Whether the data has the shape that the record type calls for.
pub open spec fn data_fits(t: RecordType, d: ResourceData) -> bool {
    match (t, d) {
        (RecordType::A, ResourceData::IPv4(_)) => true,
        (RecordType::AAAA, ResourceData::IPv6(_)) => true,
        (RecordType::NS, ResourceData::Ns(_)) => true,
        (RecordType::CNAME, ResourceData::CName(_)) => true,
        (RecordType::PTR, ResourceData::Ptr(_)) => true,
        (RecordType::SOA, ResourceData::Soa(_)) => true,
        (RecordType::MX, ResourceData::Mx(_)) => true,
        (RecordType::TXT, ResourceData::Txt(_)) => true,
        _ => false,
    }
}

/// An error other than running out of room: something in the input cannot
/// be written.
pub open spec fn fault(r: Result<(), SerializeError>) -> bool {
    r matches Err(e) && e != SerializeError::TooLong
}

/// The names and text of the data can be written.
pub open spec fn data_ok(d: ResourceData) -> bool {
    match d {
        ResourceData::Ns(n) => name_error(split(n@)) is None,
        ResourceData::CName(n) => name_error(split(n@)) is None,
        ResourceData::Ptr(n) => name_error(split(n@)) is None,
        ResourceData::Soa(s) => name_error(split(s.mname@)) is None && name_error(split(s.rname@)) is None,
        ResourceData::Mx(m) => name_error(split(m.exchange@)) is None,
        ResourceData::Txt(t) => t@.len() <= 255,
        _ => true,
    }
}

/// The record can be written: its type has a wire form, its data fits the
/// type, and its names and text can be encoded.
pub open spec fn record_ok(r: ResourceRecord) -> bool {
    is_supported(r.rtype) && data_fits(r.rtype, r.data) && name_error(split(r.name@)) is None && data_ok(r.data)
}

/// The question's name can be encoded.
pub open spec fn question_ok(q: Question) -> bool {
    name_error(split(q.name@)) is None
}

/// Every question and record can be written and no section has more than
/// 65535 entries.
pub open spec fn message_ok(m: Message) -> bool {
    &&& m.questions@.len() <= 0xffff
    &&& m.answers@.len() <= 0xffff
    &&& m.nameservers@.len() <= 0xffff
    &&& m.additional@.len() <= 0xffff
    &&& forall|i: int| 0 <= i < m.questions@.len() ==> question_ok(#[trigger] m.questions@[i])
    &&& forall|i: int| 0 <= i < m.answers@.len() ==> record_ok(#[trigger] m.answers@[i])
    &&& forall|i: int| 0 <= i < m.nameservers@.len() ==> record_ok(#[trigger] m.nameservers@[i])
    &&& forall|i: int| 0 <= i < m.additional@.len() ==> record_ok(#[trigger] m.additional@[i])
}

/// A length field at `s`, then record data of type `t` that fills the rest
/// of `buf` and reads as `dm`.
pub open spec fn rdata_at(buf: Seq<u8>, s: nat, t: RecordType, dm: DataModel) -> bool {
    &&& buf.len() >= s + 2
    &&& u16_at(buf, s) as int == buf.len() - s - 2
    &&& rdata_spec(buf, t, s + 2, (buf.len() - s - 2) as nat) == Ok::<DataModel, ParseError>(dm)
}

/// `b` extends `a`.
pub open spec fn extends(b: Seq<u8>, a: Seq<u8>) -> bool {
    a.len() <= b.len() && b.subrange(0, a.len() as int) == a
}

/// Every sequence extends itself.
pub proof fn lemma_extends_refl(b: Seq<u8>)
    ensures
        extends(b, b),
{
    assert(b.subrange(0, b.len() as int) =~= b);
}

/// Extension is transitive.
pub proof fn lemma_extends_trans(c: Seq<u8>, b: Seq<u8>, a: Seq<u8>)
    requires
        extends(c, b),
        extends(b, a),
    ensures
        extends(c, a),
{
    assert(c.subrange(0, a.len() as int) =~= b.subrange(0, a.len() as int));
}

/// What an extension keeps: names and integers read the same.
pub proof fn lemma_extends_keeps(b: Seq<u8>, a: Seq<u8>, p: nat)
    requires
        extends(b, a),
    ensures
        p + 2 <= a.len() ==> u16_at(b, p) == u16_at(a, p),
        p + 4 <= a.len() ==> u32_at(b, p) == u32_at(a, p),
        read_name_spec(a, p) is Ok ==> read_name_spec(b, p) == read_name_spec(a, p),
{
    let ext = b.subrange(a.len() as int, b.len() as int);
    assert(a + ext =~= b);
    lemma_ints_prefix(a, ext, p);
    if read_name_spec(a, p) is Ok {
        lemma_read_name_prefix(a, ext, p);
    }
}

proof fn lemma_soa_readback(b: Seq<u8>, s: int, b1: Seq<u8>, b2: Seq<u8>, b3: Seq<u8>, b4: Seq<u8>, b5: Seq<u8>,
    b6: Seq<u8>, b7: Seq<u8>, m: Seq<u8>, r: Seq<u8>, size: u16, serial: u32, refresh: u32, retry: u32,
    expire: u32, minimum: u32)
    requires
        0 <= s,
        extends(b, b1), extends(b, b2), extends(b, b3), extends(b, b4), extends(b, b5), extends(b, b6), extends(b, b7),
        b1.len() == s + 2,
        u16_at(b1, s as nat) == size,
        read_name_spec(b2, (s + 2) as nat) == Ok::<(Seq<u8>, nat), ParseError>((m, b2.len())),
        read_name_spec(b3, b2.len()) == Ok::<(Seq<u8>, nat), ParseError>((r, b3.len())),
        b4.len() == b3.len() + 4, u32_at(b4, b3.len()) == serial,
        b5.len() == b4.len() + 4, u32_at(b5, b4.len()) == refresh,
        b6.len() == b5.len() + 4, u32_at(b6, b5.len()) == retry,
        b7.len() == b6.len() + 4, u32_at(b7, b6.len()) == expire,
        b.len() == b7.len() + 4, u32_at(b, b7.len()) == minimum,
        size as int == b.len() - s - 2,
    ensures
        rdata_at(b, s as nat, RecordType::SOA, DataModel::Soa(m, r, serial, refresh, retry, expire, minimum)),
{
    lemma_extends_keeps(b, b1, s as nat);
    lemma_extends_keeps(b, b2, (s + 2) as nat);
    lemma_extends_keeps(b, b3, b2.len());
    lemma_extends_keeps(b, b4, b3.len());
    lemma_extends_keeps(b, b5, b4.len());
    lemma_extends_keeps(b, b6, b5.len());
    lemma_extends_keeps(b, b7, b6.len());
}

/// Writes one message: the bytes so far and the compression dictionary.
pub struct MessageWriter {
    nw: NameWriter,
    out: Vec<u8>,
}

impl MessageWriter {
    /// The bytes written so far.
    pub closed spec fn bytes(&self) -> Seq<u8> {
        self.out@
    }

    /// The suffixes that later names may point to.
    pub closed spec fn suffixes(&self) -> Seq<Seq<Seq<u8>>> {
        self.nw.suffixes()
    }

    /// The dictionary matches the bytes, which fit in a message.
    pub closed spec fn wf(&self) -> bool {
        self.nw.valid_for(self.out@) && self.out@.len() <= MAX_MESSAGE
    }

    /// A writer that has written nothing.
    pub fn new() -> (r: MessageWriter)
        ensures
            r.wf(),
            r.bytes() == Seq::<u8>::empty(),
    {
        MessageWriter { nw: NameWriter::new(), out: Vec::new() }
    }

    fn put_u8(&mut self, b: u8)
        requires
            old(self).wf(),
            old(self).bytes().len() < MAX_MESSAGE,
        ensures
            final(self).wf(),
            final(self).bytes() == old(self).bytes().push(b),
            final(self).bytes().len() == old(self).bytes().len() + 1,
            extends(final(self).bytes(), old(self).bytes()),
            final(self).suffixes() == old(self).suffixes(),
    {
        let ghost before = self.out@;
        self.out.push(b);
        proof {
            self.nw.lemma_valid_extend(before, seq![b]);
            assert(before + seq![b] =~= self.out@);
            assert(self.out@.subrange(0, before.len() as int) =~= before);
        }
    }

    fn put_u16(&mut self, n: u16)
        requires
            old(self).wf(),
            old(self).bytes().len() + 2 <= MAX_MESSAGE,
        ensures
            final(self).wf(),
            final(self).bytes().len() == old(self).bytes().len() + 2,
            extends(final(self).bytes(), old(self).bytes()),
            u16_at(final(self).bytes(), old(self).bytes().len()) == n,
            final(self).suffixes() == old(self).suffixes(),
    {
        let ghost before = self.out@;
        push_be16(&mut self.out, n);
        proof {
            let ext = self.out@.subrange(before.len() as int, self.out@.len() as int);
            assert(before + ext =~= self.out@);
            self.nw.lemma_valid_extend(before, ext);
        }
    }

    fn put_u32(&mut self, n: u32)
        requires
            old(self).wf(),
            old(self).bytes().len() + 4 <= MAX_MESSAGE,
        ensures
            final(self).wf(),
            final(self).bytes().len() == old(self).bytes().len() + 4,
            extends(final(self).bytes(), old(self).bytes()),
            u32_at(final(self).bytes(), old(self).bytes().len()) == n,
            final(self).suffixes() == old(self).suffixes(),
    {
        let ghost before = self.out@;
        push_be32(&mut self.out, n);
        proof {
            let ext = self.out@.subrange(before.len() as int, self.out@.len() as int);
            assert(before + ext =~= self.out@);
            self.nw.lemma_valid_extend(before, ext);
        }
    }

    fn name_size(&self, name: &[u8]) -> (r: usize)
        requires
            name_error(split(name@)) is None,
        ensures
            r == written_len(self.suffixes(), split(name@)),
            r <= MAX_NAME_WIRE + 1,
    {
        proof {
            lemma_written_len_bound(self.suffixes(), split(name@));
        }
        self.nw.size_of(name)
    }

    fn put_name(&mut self, name: &[u8])
        requires
            old(self).wf(),
            name_error(split(name@)) is None,
            old(self).bytes().len() + MAX_NAME_WIRE + 2 <= MAX_MESSAGE,
        ensures
            final(self).wf(),
            extends(final(self).bytes(), old(self).bytes()),
            final(self).bytes().len() == old(self).bytes().len() + written_len(old(self).suffixes(), split(name@)),
            final(self).suffixes() == after_write(old(self).suffixes(), split(name@), old(self).bytes().len() as int),
            read_name_spec(final(self).bytes(), old(self).bytes().len()) == Ok::<(Seq<u8>, nat), ParseError>((canon(name@), final(self).bytes().len())),
    {
        let r = self.nw.write(&mut self.out, name);
        proof {
            lemma_written_len_bound(old(self).suffixes(), split(name@));
        }
    }
}

impl MessageWriter {
    /// Writes the length and data of an A record.
    pub fn write_a(&mut self, addr: &[u8; 4]) -> (r: Result<(), SerializeError>)
        requires
            old(self).wf(),
        ensures
            final(self).wf(),
            extends(final(self).bytes(), old(self).bytes()),
            r matches Err(e) ==> e == SerializeError::TooLong,
            r is Ok ==> rdata_at(final(self).bytes(), old(self).bytes().len(), RecordType::A, DataModel::IPv4(addr@)),
            !fault(r),
            r == Err::<(), SerializeError>(SerializeError::TooLong) ==> old(self).bytes().len() > MAX_MESSAGE - 6,
            r is Ok ==> final(self).bytes().len() <= old(self).bytes().len() + 6,
    {
        proof {
            lemma_extends_refl(self.out@);
        }
        if self.out.len() > MAX_MESSAGE - 6 {
            return Err(SerializeError::TooLong);
        }
        let ghost s: int = self.out@.len() as int;
        self.put_u16(4);
        let ghost b1 = self.out@;
        self.put_u8(addr[0]);
        self.put_u8(addr[1]);
        self.put_u8(addr[2]);
        self.put_u8(addr[3]);
        proof {
            let b = self.out@;
            assert(b.subrange(0, b1.len() as int) =~= b1);
            lemma_ints_prefix(b1, b.subrange(b1.len() as int, b.len() as int), s as nat);
            assert(b1 + b.subrange(b1.len() as int, b.len() as int) =~= b);
            assert(b.subrange(s + 2, s + 6) =~= addr@);
            assert(b.subrange(0, old(self).out@.len() as int) =~= old(self).out@);
        }
        Ok(())
    }

    /// Writes the length and data of an AAAA record.
    pub fn write_aaaa(&mut self, addr: &[u8; 16]) -> (r: Result<(), SerializeError>)
        requires
            old(self).wf(),
        ensures
            final(self).wf(),
            extends(final(self).bytes(), old(self).bytes()),
            r matches Err(e) ==> e == SerializeError::TooLong,
            r is Ok ==> rdata_at(final(self).bytes(), old(self).bytes().len(), RecordType::AAAA, DataModel::IPv6(addr@)),
            !fault(r),
            r == Err::<(), SerializeError>(SerializeError::TooLong) ==> old(self).bytes().len() > MAX_MESSAGE - 18,
            r is Ok ==> final(self).bytes().len() <= old(self).bytes().len() + 18,
    {
        proof {
            lemma_extends_refl(self.out@);
        }
        if self.out.len() > MAX_MESSAGE - 18 {
            return Err(SerializeError::TooLong);
        }
        let ghost s: int = self.out@.len() as int;
        self.put_u16(16);
        let ghost b1 = self.out@;
        let mut i: usize = 0;
        while i < 16
            invariant
                i <= 16,
                self.wf(),
                b1.len() == s + 2,
                s + 18 <= MAX_MESSAGE,
                self.bytes() == b1 + addr@.take(i as int),
            decreases 16 - i,
        {
            self.put_u8(addr[i]);
            assert(self.bytes() =~= b1 + addr@.take(i + 1));
            i = i + 1;
        }
        proof {
            let b = self.out@;
            assert(b.subrange(0, b1.len() as int) =~= b1);
            lemma_ints_prefix(b1, b.subrange(b1.len() as int, b.len() as int), s as nat);
            assert(b1 + b.subrange(b1.len() as int, b.len() as int) =~= b);
            assert(b.subrange(s + 2, s + 18) =~= addr@);
            assert(b.subrange(0, old(self).out@.len() as int) =~= old(self).out@);
        }
        Ok(())
    }

    /// Writes the length and a name that fills the data: NS, CNAME and PTR.
    fn write_name_data(&mut self, name: &[u8]) -> (r: Result<(), SerializeError>)
        requires
            old(self).wf(),
        ensures
            final(self).wf(),
            extends(final(self).bytes(), old(self).bytes()),
            r matches Err(e) ==> e == SerializeError::TooLong || (name_error(split(name@)) matches Some(ne) && e == SerializeError::BadName(ne)),
            r is Ok ==> final(self).bytes().len() >= old(self).bytes().len() + 2
                && u16_at(final(self).bytes(), old(self).bytes().len()) as int == final(self).bytes().len() - old(self).bytes().len() - 2
                && rdata_name(final(self).bytes(), old(self).bytes().len() + 2, final(self).bytes().len())
                    == Ok::<Seq<u8>, ParseError>(canon(name@)),
            fault(r) <==> name_error(split(name@)) is Some,
            r == Err::<(), SerializeError>(SerializeError::TooLong) ==> old(self).bytes().len() > MAX_MESSAGE - (MAX_NAME_WIRE + 4),
            r is Ok ==> final(self).bytes().len() <= old(self).bytes().len() + (MAX_NAME_WIRE + 3),
    {
        proof {
            lemma_extends_refl(self.out@);
        }
        match check_name(name) {
            Some(e) => return Err(SerializeError::BadName(e)),
            None => {},
        }
        if self.out.len() > MAX_MESSAGE - (MAX_NAME_WIRE + 4) {
            return Err(SerializeError::TooLong);
        }
        let ghost s: int = self.out@.len() as int;
        let size = self.name_size(name);
        self.put_u16(size as u16);
        let ghost b1 = self.out@;
        self.put_name(name);
        proof {
            let b = self.out@;
            lemma_ints_prefix(b1, b.subrange(b1.len() as int, b.len() as int), s as nat);
            assert(b1 + b.subrange(b1.len() as int, b.len() as int) =~= b);
            assert(b.subrange(0, old(self).out@.len() as int) =~= old(self).out@);
        }
        Ok(())
    }

    /// Writes the length and data of an NS record.
    pub fn write_ns(&mut self, name: &Vec<u8>) -> (r: Result<(), SerializeError>)
        requires
            old(self).wf(),
        ensures
            final(self).wf(),
            extends(final(self).bytes(), old(self).bytes()),
            r matches Err(e) ==> e == SerializeError::TooLong || (name_error(split(name@)) matches Some(ne) && e == SerializeError::BadName(ne)),
            r is Ok ==> rdata_at(final(self).bytes(), old(self).bytes().len(), RecordType::NS, DataModel::Ns(canon(name@))),
            fault(r) <==> name_error(split(name@)) is Some,
            r == Err::<(), SerializeError>(SerializeError::TooLong) ==> old(self).bytes().len() > MAX_MESSAGE - (MAX_NAME_WIRE + 4),
            r is Ok ==> final(self).bytes().len() <= old(self).bytes().len() + (MAX_NAME_WIRE + 3),
    {
        self.write_name_data(name.as_slice())
    }

    /// Writes the length and data of a CNAME record.
    pub fn write_cname(&mut self, name: &Vec<u8>) -> (r: Result<(), SerializeError>)
        requires
            old(self).wf(),
        ensures
            final(self).wf(),
            extends(final(self).bytes(), old(self).bytes()),
            r matches Err(e) ==> e == SerializeError::TooLong || (name_error(split(name@)) matches Some(ne) && e == SerializeError::BadName(ne)),
            r is Ok ==> rdata_at(final(self).bytes(), old(self).bytes().len(), RecordType::CNAME, DataModel::CName(canon(name@))),
            fault(r) <==> name_error(split(name@)) is Some,
            r == Err::<(), SerializeError>(SerializeError::TooLong) ==> old(self).bytes().len() > MAX_MESSAGE - (MAX_NAME_WIRE + 4),
            r is Ok ==> final(self).bytes().len() <= old(self).bytes().len() + (MAX_NAME_WIRE + 3),
    {
        self.write_name_data(name.as_slice())
    }

    /// Writes the length and data of a PTR record.
    pub fn write_ptr(&mut self, name: &Vec<u8>) -> (r: Result<(), SerializeError>)
        requires
            old(self).wf(),
        ensures
            final(self).wf(),
            extends(final(self).bytes(), old(self).bytes()),
            r matches Err(e) ==> e == SerializeError::TooLong || (name_error(split(name@)) matches Some(ne) && e == SerializeError::BadName(ne)),
            r is Ok ==> rdata_at(final(self).bytes(), old(self).bytes().len(), RecordType::PTR, DataModel::Ptr(canon(name@))),
            fault(r) <==> name_error(split(name@)) is Some,
            r == Err::<(), SerializeError>(SerializeError::TooLong) ==> old(self).bytes().len() > MAX_MESSAGE - (MAX_NAME_WIRE + 4),
            r is Ok ==> final(self).bytes().len() <= old(self).bytes().len() + (MAX_NAME_WIRE + 3),
    {
        self.write_name_data(name.as_slice())
    }

    /// Writes the length and data of an MX record.
    pub fn write_mx(&mut self, mx: &Mx) -> (r: Result<(), SerializeError>)
        requires
            old(self).wf(),
        ensures
            final(self).wf(),
            extends(final(self).bytes(), old(self).bytes()),
            r matches Err(e) ==> e == SerializeError::TooLong || (name_error(split(mx.exchange@)) matches Some(ne) && e == SerializeError::BadName(ne)),
            r is Ok ==> rdata_at(final(self).bytes(), old(self).bytes().len(), RecordType::MX, DataModel::Mx(mx.preference, canon(mx.exchange@))),
            fault(r) <==> name_error(split(mx.exchange@)) is Some,
            r == Err::<(), SerializeError>(SerializeError::TooLong) ==> old(self).bytes().len() > MAX_MESSAGE - (MAX_NAME_WIRE + 6),
            r is Ok ==> final(self).bytes().len() <= old(self).bytes().len() + (MAX_NAME_WIRE + 5),
    {
        proof {
            lemma_extends_refl(self.out@);
        }
        match check_name(mx.exchange.as_slice()) {
            Some(e) => return Err(SerializeError::BadName(e)),
            None => {},
        }
        if self.out.len() > MAX_MESSAGE - (MAX_NAME_WIRE + 6) {
            return Err(SerializeError::TooLong);
        }
        let ghost s: int = self.out@.len() as int;
        let size = self.name_size(mx.exchange.as_slice()) + 2;
        self.put_u16(size as u16);
        let ghost b1 = self.out@;
        self.put_u16(mx.preference);
        let ghost b2 = self.out@;
        self.put_name(mx.exchange.as_slice());
        proof {
            let b = self.out@;
            assert(b.subrange(0, b1.len() as int) =~= b1);
            lemma_ints_prefix(b1, b.subrange(b1.len() as int, b.len() as int), s as nat);
            assert(b1 + b.subrange(b1.len() as int, b.len() as int) =~= b);
            lemma_ints_prefix(b2, b.subrange(b2.len() as int, b.len() as int), (s + 2) as nat);
            assert(b2 + b.subrange(b2.len() as int, b.len() as int) =~= b);
            assert(b.subrange(0, old(self).out@.len() as int) =~= old(self).out@);
        }
        Ok(())
    }

    /// Writes the length and data of a TXT record: one length-prefixed string.
    pub fn write_txt(&mut self, txt: &Vec<u8>) -> (r: Result<(), SerializeError>)
        requires
            old(self).wf(),
        ensures
            final(self).wf(),
            extends(final(self).bytes(), old(self).bytes()),
            r matches Err(e) ==> (e == SerializeError::TextTooLong && txt@.len() > 255) || e == SerializeError::TooLong,
            r is Ok ==> rdata_at(final(self).bytes(), old(self).bytes().len(), RecordType::TXT, DataModel::Txt(txt@)),
            fault(r) <==> txt@.len() > 255,
            r == Err::<(), SerializeError>(SerializeError::TooLong) ==> old(self).bytes().len() > MAX_MESSAGE - (txt@.len() + 3),
            r is Ok ==> final(self).bytes().len() <= old(self).bytes().len() + 258,
    {
        proof {
            lemma_extends_refl(self.out@);
        }
        if txt.len() > 255 {
            return Err(SerializeError::TextTooLong);
        }
        if self.out.len() > MAX_MESSAGE - (txt.len() + 3) {
            return Err(SerializeError::TooLong);
        }
        let ghost s: int = self.out@.len() as int;
        self.put_u16((txt.len() + 1) as u16);
        let ghost b1 = self.out@;
        self.put_u8(txt.len() as u8);
        let ghost b2 = self.out@;
        let mut i: usize = 0;
        while i < txt.len()
            invariant
                i <= txt@.len() <= 255,
                self.wf(),
                b2.len() == s + 3,
                s + txt@.len() + 3 <= MAX_MESSAGE,
                self.bytes() == b2 + txt@.take(i as int),
            decreases txt@.len() - i,
        {
            self.put_u8(txt[i]);
            assert(self.bytes() =~= b2 + txt@.take(i + 1));
            i = i + 1;
        }
        proof {
            let b = self.out@;
            assert(b.subrange(0, b1.len() as int) =~= b1);
            lemma_ints_prefix(b1, b.subrange(b1.len() as int, b.len() as int), s as nat);
            assert(b1 + b.subrange(b1.len() as int, b.len() as int) =~= b);
            assert(b[s + 2] == txt@.len() as u8);
            assert(b.subrange(s + 3, s + 3 + txt@.len()) =~= txt@);
            assert(b.subrange(0, old(self).out@.len() as int) =~= old(self).out@);
        }
        Ok(())
    }

    /// Writes the length and data of an SOA record. The length comes before
    /// the two names, and the second name compresses against the first, so
    /// a copy of the writer measures the names first.
    #[verifier::rlimit(60)]
    pub fn write_soa(&mut self, soa: &Soa) -> (r: Result<(), SerializeError>)
        requires
            old(self).wf(),
        ensures
            final(self).wf(),
            extends(final(self).bytes(), old(self).bytes()),
            r matches Err(e) ==> e == SerializeError::TooLong
                || (name_error(split(soa.mname@)) matches Some(ne) && e == SerializeError::BadName(ne))
                || (name_error(split(soa.rname@)) matches Some(ne) && e == SerializeError::BadName(ne)),
            r is Ok ==> rdata_at(final(self).bytes(), old(self).bytes().len(), RecordType::SOA,
                DataModel::Soa(canon(soa.mname@), canon(soa.rname@), soa.serial, soa.refresh, soa.retry, soa.expire, soa.minimum)),
            fault(r) <==> !(name_error(split(soa.mname@)) is None && name_error(split(soa.rname@)) is None),
            r == Err::<(), SerializeError>(SerializeError::TooLong) ==> old(self).bytes().len() > MAX_MESSAGE - (2 * MAX_NAME_WIRE + 26),
            r is Ok ==> final(self).bytes().len() <= old(self).bytes().len() + (2 * MAX_NAME_WIRE + 24),
    {
        proof {
            lemma_extends_refl(self.out@);
        }
        match check_name(soa.mname.as_slice()) {
            Some(e) => return Err(SerializeError::BadName(e)),
            None => {},
        }
        match check_name(soa.rname.as_slice()) {
            Some(e) => return Err(SerializeError::BadName(e)),
            None => {},
        }
        if self.out.len() > MAX_MESSAGE - (2 * MAX_NAME_WIRE + 26) {
            return Err(SerializeError::TooLong);
        }
        let ghost s: int = self.out@.len() as int;
        // measure the two names on a copy
        let mut trial_names = self.nw.copy();
        let mut trial = copy_range(self.out.as_slice(), 0, self.out.len());
        assert(self.out@.subrange(0, self.out@.len() as int) =~= self.out@);
        trial.push(0);
        trial.push(0);
        proof {
            assert(self.out@ + seq![0u8, 0u8] =~= trial@);
            trial_names.lemma_valid_extend(self.out@, seq![0u8, 0u8]);
        }
        proof {
            lemma_written_len_bound(old(self).suffixes(), split(soa.mname@));
            lemma_written_len_bound(after_write(old(self).suffixes(), split(soa.mname@), s + 2), split(soa.rname@));
        }
        let _ = trial_names.write(&mut trial, soa.mname.as_slice());
        let _ = trial_names.write(&mut trial, soa.rname.as_slice());
        let s0 = self.out.len();
        let size = trial.len() - s0 - 2 + 20;
        self.put_u16(size as u16);
        let ghost b1 = self.out@;
        assert(u16_at(b1, s as nat) == size as u16);
        self.put_name(soa.mname.as_slice());
        let ghost b2 = self.out@;
        self.put_name(soa.rname.as_slice());
        let ghost b3 = self.out@;
        self.put_u32(soa.serial);
        let ghost b4 = self.out@;
        self.put_u32(soa.refresh);
        let ghost b5 = self.out@;
        self.put_u32(soa.retry);
        let ghost b6 = self.out@;
        self.put_u32(soa.expire);
        let ghost b7 = self.out@;
        self.put_u32(soa.minimum);
        proof {
            let b = self.out@;
            lemma_extends_trans(b, b7, b6);
            lemma_extends_trans(b, b6, b5);
            lemma_extends_trans(b, b5, b4);
            lemma_extends_trans(b, b4, b3);
            lemma_extends_trans(b, b3, b2);
            lemma_extends_trans(b, b2, b1);
            lemma_extends_trans(b, b1, old(self).out@);
            lemma_soa_readback(b, s, b1, b2, b3, b4, b5, b6, b7, canon(soa.mname@), canon(soa.rname@), size as u16,
                soa.serial, soa.refresh, soa.retry, soa.expire, soa.minimum);
        }
        Ok(())
    }
}

/// A supported type reads back as itself.
pub proof fn lemma_supported_canonical(t: RecordType)
    requires
        is_supported(t),
    ensures
        type_of_code(type_code(t)) == t,
{
}

/// What writing the data's names and text would fail with, if anything.
fn data_error(d: &ResourceData) -> (r: Option<SerializeError>)
    ensures
        r is Some <==> !data_ok(*d),
        r matches Some(e) ==> e == SerializeError::TextTooLong || e is BadName,
{
    match d {
        ResourceData::Ns(n) | ResourceData::CName(n) | ResourceData::Ptr(n) => match check_name(n.as_slice()) {
            Some(e) => Some(SerializeError::BadName(e)),
            None => None,
        },
        ResourceData::Soa(soa) => match check_name(soa.mname.as_slice()) {
            Some(e) => Some(SerializeError::BadName(e)),
            None => match check_name(soa.rname.as_slice()) {
                Some(e) => Some(SerializeError::BadName(e)),
                None => None,
            },
        },
        ResourceData::Mx(mx) => match check_name(mx.exchange.as_slice()) {
            Some(e) => Some(SerializeError::BadName(e)),
            None => None,
        },
        ResourceData::Txt(t) => if t.len() > 255 {
            Some(SerializeError::TextTooLong)
        } else {
            None
        },
        _ => None,
    }
}

/// Whether the data has the shape that the record type calls for.
fn fits_type(t: RecordType, d: &ResourceData) -> (r: bool)
    ensures
        r == data_fits(t, *d),
{
    match (t, d) {
        (RecordType::A, ResourceData::IPv4(_)) => true,
        (RecordType::AAAA, ResourceData::IPv6(_)) => true,
        (RecordType::NS, ResourceData::Ns(_)) => true,
        (RecordType::CNAME, ResourceData::CName(_)) => true,
        (RecordType::PTR, ResourceData::Ptr(_)) => true,
        (RecordType::SOA, ResourceData::Soa(_)) => true,
        (RecordType::MX, ResourceData::Mx(_)) => true,
        (RecordType::TXT, ResourceData::Txt(_)) => true,
        _ => false,
    }
}

/// The questions as they read back.
pub open spec fn questions_canon(qs: Seq<Question>) -> Seq<QuestionModel> {
    qs.map_values(|q: Question| question_canon(q))
}

/// The records as they read back.
pub open spec fn records_canon(rs: Seq<ResourceRecord>) -> Seq<RecordModel> {
    rs.map_values(|r: ResourceRecord| record_canon(r))
}

/// Header fields that fit their widths on the wire.
pub open spec fn header_fits(m: Message) -> bool {
    &&& m.id <= 0xffff
    &&& m.qr <= 1
    &&& m.opcode <= 15
    &&& m.aa <= 1
    &&& m.tc <= 1
    &&& m.rd <= 1
    &&& m.ra <= 1
    &&& m.ad <= 1
    &&& m.cd <= 1
    &&& m.rcode <= 15
}

/// A message as it reads back: names in canonical form.
pub open spec fn message_canon(m: Message) -> MessageModel {
    MessageModel {
        id: m.id,
        qr: m.qr,
        opcode: m.opcode,
        aa: m.aa,
        tc: m.tc,
        rd: m.rd,
        ra: m.ra,
        ad: m.ad,
        cd: m.cd,
        rcode: m.rcode,
        questions: questions_canon(m.questions@),
        answers: records_canon(m.answers@),
        nameservers: records_canon(m.nameservers@),
        additional: records_canon(m.additional@),
    }
}

proof fn lemma_flags(a: u8, b4: u8, c: u8, d: u8, e: u8)
    requires
        a <= 1, b4 <= 15, c <= 1, d <= 1, e <= 1,
    ensures
        bits_at(((a << 7u8) | (b4 << 3u8) | (c << 2u8) | (d << 1u8) | e) as u8, 8, 1) == a,
        bits_at(((a << 7u8) | (b4 << 3u8) | (c << 2u8) | (d << 1u8) | e) as u8, 7, 4) == b4,
        bits_at(((a << 7u8) | (b4 << 3u8) | (c << 2u8) | (d << 1u8) | e) as u8, 3, 1) == c,
        bits_at(((a << 7u8) | (b4 << 3u8) | (c << 2u8) | (d << 1u8) | e) as u8, 2, 1) == d,
        bits_at(((a << 7u8) | (b4 << 3u8) | (c << 2u8) | (d << 1u8) | e) as u8, 1, 1) == e,
        bits_at(((a << 7u8) | (c << 5u8) | (d << 4u8) | b4) as u8, 8, 1) == a,
        bits_at(((a << 7u8) | (c << 5u8) | (d << 4u8) | b4) as u8, 6, 1) == c,
        bits_at(((a << 7u8) | (c << 5u8) | (d << 4u8) | b4) as u8, 5, 1) == d,
        bits_at(((a << 7u8) | (c << 5u8) | (d << 4u8) | b4) as u8, 4, 4) == b4,
{
    assert((1u8 << 1u8) == 2u8) by (bit_vector);
    assert((1u8 << 4u8) == 16u8) by (bit_vector);
    let f = ((a << 7u8) | (b4 << 3u8) | (c << 2u8) | (d << 1u8) | e) as u8;
    let g = ((a << 7u8) | (c << 5u8) | (d << 4u8) | b4) as u8;
    assert((f >> 7u8) & 1u8 == a && (f >> 3u8) & 15u8 == b4 && (f >> 2u8) & 1u8 == c
        && (f >> 1u8) & 1u8 == d && (f >> 0u8) & 1u8 == e) by (bit_vector)
        requires
            a <= 1, b4 <= 15, c <= 1, d <= 1, e <= 1,
            f == ((a << 7u8) | (b4 << 3u8) | (c << 2u8) | (d << 1u8) | e);
    assert((g >> 7u8) & 1u8 == a && (g >> 5u8) & 1u8 == c && (g >> 4u8) & 1u8 == d
        && (g >> 0u8) & 15u8 == b4) by (bit_vector)
        requires
            a <= 1, b4 <= 15, c <= 1, d <= 1,
            g == ((a << 7u8) | (c << 5u8) | (d << 4u8) | b4);
}

proof fn lemma_mask_bit(x: u8)
    ensures
        x & 1u8 <= 1,
        x <= 1 ==> x & 1u8 == x,
{
    assert(x & 1u8 <= 1) by (bit_vector);
    assert(x <= 1 ==> x & 1u8 == x) by (bit_vector);
}

proof fn lemma_mask_nibble(x: u32)
    ensures
        x & 15u32 <= 15,
        x <= 15 ==> x & 15u32 == x,
{
    assert(x & 15u32 <= 15) by (bit_vector);
    assert(x <= 15 ==> x & 15u32 == x) by (bit_vector);
}

proof fn lemma_mask_id(x: u32)
    ensures
        x & 0xffffu32 <= 0xffff,
        x <= 0xffff ==> x & 0xffffu32 == x,
{
    assert(x & 0xffffu32 <= 0xffff) by (bit_vector);
    assert(x <= 0xffff ==> x & 0xffffu32 == x) by (bit_vector);
}

impl MessageWriter {
    /// Writes one question. It reads back at the old end as the question,
    /// with its name in canonical form.
    pub fn write_question(&mut self, q: &Question) -> (r: Result<(), SerializeError>)
        requires
            old(self).wf(),
        ensures
            final(self).wf(),
            extends(final(self).bytes(), old(self).bytes()),
            r matches Err(e) ==> e == SerializeError::TooLong || (name_error(split(q.name@)) matches Some(ne) && e == SerializeError::BadName(ne)),
            r is Ok ==> question_spec(final(self).bytes(), old(self).bytes().len())
                == Ok::<(QuestionModel, nat), ParseError>((question_canon(*q), final(self).bytes().len())),
            fault(r) <==> !question_ok(*q),
            r == Err::<(), SerializeError>(SerializeError::TooLong) ==> old(self).bytes().len() > MAX_MESSAGE - ENTRY_ROOM,
            r is Ok ==> final(self).bytes().len() <= old(self).bytes().len() + ENTRY_ROOM,
    {
        proof {
            lemma_extends_refl(self.out@);
        }
        match check_name(q.name.as_slice()) {
            Some(e) => return Err(SerializeError::BadName(e)),
            None => {},
        }
        if self.out.len() > MAX_MESSAGE - ENTRY_ROOM {
            return Err(SerializeError::TooLong);
        }
        let ghost s: int = self.out@.len() as int;
        proof {
            lemma_written_len_bound(self.suffixes(), split(q.name@));
        }
        self.put_name(q.name.as_slice());
        let ghost b1 = self.out@;
        self.put_u16(q.qtype.code());
        let ghost b2 = self.out@;
        self.put_u16(1);
        proof {
            let b = self.out@;
            lemma_extends_trans(b, b2, b1);
            lemma_extends_trans(b, b1, old(self).out@);
            lemma_extends_keeps(b, b1, s as nat);
            lemma_extends_keeps(b, b2, b1.len());
        }
        Ok(())
    }

    /// Writes one record. It reads back at the old end as the record, with
    /// its names in canonical form.
    #[verifier::rlimit(100)]
    pub fn write_record(&mut self, rr: &ResourceRecord) -> (r: Result<(), SerializeError>)
        requires
            old(self).wf(),
        ensures
            final(self).wf(),
            extends(final(self).bytes(), old(self).bytes()),
            r == Err::<(), SerializeError>(SerializeError::Unsupported) <==> !is_supported(rr.rtype),
            r == Err::<(), SerializeError>(SerializeError::Mismatch) <==> is_supported(rr.rtype) && !data_fits(rr.rtype, rr.data),
            r != Err::<(), SerializeError>(SerializeError::TooMany),
            r is Ok ==> record_spec(final(self).bytes(), old(self).bytes().len())
                == Ok::<(RecordModel, nat), ParseError>((record_canon(*rr), final(self).bytes().len())),
            fault(r) <==> !record_ok(*rr),
            r == Err::<(), SerializeError>(SerializeError::TooLong) ==> old(self).bytes().len() > MAX_MESSAGE - ENTRY_ROOM,
            r is Ok ==> final(self).bytes().len() <= old(self).bytes().len() + ENTRY_ROOM,
    {
        proof {
            lemma_extends_refl(self.out@);
        }
        if !rr.rtype.is_supported() {
            return Err(SerializeError::Unsupported);
        }
        if !fits_type(rr.rtype, &rr.data) {
            return Err(SerializeError::Mismatch);
        }
        match check_name(rr.name.as_slice()) {
            Some(e) => return Err(SerializeError::BadName(e)),
            None => {},
        }
        match data_error(&rr.data) {
            Some(e) => return Err(e),
            None => {},
        }
        if self.out.len() > MAX_MESSAGE - ENTRY_ROOM {
            return Err(SerializeError::TooLong);
        }
        let ghost s: int = self.out@.len() as int;
        proof {
            lemma_written_len_bound(self.suffixes(), split(rr.name@));
            lemma_supported_canonical(rr.rtype);
        }
        self.put_name(rr.name.as_slice());
        let ghost b1 = self.out@;
        self.put_u16(rr.rtype.code());
        let ghost b2 = self.out@;
        self.put_u16(1);
        let ghost b3 = self.out@;
        self.put_u32(rr.ttl);
        let ghost b4 = self.out@;
        let res = match &rr.data {
            ResourceData::IPv4(a) => self.write_a(a),
            ResourceData::IPv6(a) => self.write_aaaa(a),
            ResourceData::Ns(n) => self.write_ns(n),
            ResourceData::CName(n) => self.write_cname(n),
            ResourceData::Ptr(n) => self.write_ptr(n),
            ResourceData::Soa(soa) => self.write_soa(soa),
            ResourceData::Mx(mx) => self.write_mx(mx),
            ResourceData::Txt(t) => self.write_txt(t),
            _ => Err(SerializeError::Mismatch),
        };
        proof {
            let b = self.out@;
            lemma_extends_trans(b, b4, b3);
            lemma_extends_trans(b, b3, b2);
            lemma_extends_trans(b, b2, b1);
            lemma_extends_trans(b, b1, old(self).out@);
            lemma_extends_keeps(b, b1, s as nat);
            lemma_extends_keeps(b, b2, b1.len());
            lemma_extends_keeps(b, b4, b3.len());
        }
        match res {
            Ok(()) => Ok(()),
            Err(e) => Err(e),
        }
    }

    /// Writes the questions one after the other; they read back as a run of
    /// questions from the old end.
    pub fn write_questions(&mut self, qs: &Vec<Question>) -> (r: Result<(), SerializeError>)
        requires
            old(self).wf(),
        ensures
            final(self).wf(),
            extends(final(self).bytes(), old(self).bytes()),
            r != Err::<(), SerializeError>(SerializeError::TooMany),
            r is Ok ==> questions_spec(final(self).bytes(), old(self).bytes().len(), qs@.len(), seq![])
                == Ok::<(Seq<QuestionModel>, nat), ParseError>((questions_canon(qs@), final(self).bytes().len())),
            fault(r) ==> exists|i: int| 0 <= i < qs@.len() && !question_ok(#[trigger] qs@[i]),
            (r is Ok || !fault(r)) <== (forall|i: int| 0 <= i < qs@.len() ==> question_ok(#[trigger] qs@[i])),
            r is Ok ==> forall|i: int| 0 <= i < qs@.len() ==> question_ok(#[trigger] qs@[i]),
            r == Err::<(), SerializeError>(SerializeError::TooLong) ==> old(self).bytes().len() + qs@.len() * ENTRY_ROOM > MAX_MESSAGE,
            r is Ok ==> final(self).bytes().len() <= old(self).bytes().len() + qs@.len() * ENTRY_ROOM,
    {
        proof {
            lemma_extends_refl(self.out@);
        }
        reveal(questions_spec);
        let ghost start = self.out@.len();
        let ghost qc = questions_canon(qs@);
        let mut i: usize = 0;
        assert(qc.take(0) =~= seq![]);
        while i < qs.len()
            invariant
                i <= qs@.len(),
                self.wf(),
                qc == questions_canon(qs@),
                start == old(self).out@.len(),
                extends(self.bytes(), old(self).bytes()),
                forall|j: int| 0 <= j < i ==> question_ok(#[trigger] qs@[j]),
                self.bytes().len() <= old(self).bytes().len() + i * ENTRY_ROOM,
                questions_spec(self.bytes(), start, i as nat, seq![])
                    == Ok::<(Seq<QuestionModel>, nat), ParseError>((qc.take(i as int), self.bytes().len())),
            decreases qs@.len() - i,
        {
            let ghost before = self.out@;
            let res = self.write_question(&qs[i]);
            match res {
                Ok(()) => {},
                Err(e) => {
                    proof {
                        lemma_extends_trans(self.out@, before, old(self).out@);
                        if fault(res) {
                            assert(!question_ok(qs@[i as int]));
                        }
                    }
                    return Err(e);
                },
            }
            proof {
                let b = self.out@;
                let ext = b.subrange(before.len() as int, b.len() as int);
                assert(before + ext =~= b);
                lemma_extends_trans(b, before, old(self).out@);
                lemma_questions_prefix(before, ext, start, i as nat, seq![]);
                lemma_questions_snoc(b, start, i as nat, seq![]);
                assert(qc.take(i as int).push(question_canon(qs@[i as int])) =~= qc.take(i + 1));
            }
            i = i + 1;
        }
        assert(qc.take(i as int) =~= qc);
        Ok(())
    }

    /// Writes the records one after the other; they read back as a run of
    /// records from the old end.
    #[verifier::rlimit(100)]
    pub fn write_records(&mut self, rs: &Vec<ResourceRecord>) -> (r: Result<(), SerializeError>)
        requires
            old(self).wf(),
        ensures
            final(self).wf(),
            extends(final(self).bytes(), old(self).bytes()),
            r != Err::<(), SerializeError>(SerializeError::TooMany),
            r is Ok ==> records_spec(final(self).bytes(), old(self).bytes().len(), rs@.len(), seq![])
                == Ok::<(Seq<RecordModel>, nat), ParseError>((records_canon(rs@), final(self).bytes().len())),
            fault(r) ==> exists|i: int| 0 <= i < rs@.len() && !record_ok(#[trigger] rs@[i]),
            (r is Ok || !fault(r)) <== (forall|i: int| 0 <= i < rs@.len() ==> record_ok(#[trigger] rs@[i])),
            r is Ok ==> forall|i: int| 0 <= i < rs@.len() ==> record_ok(#[trigger] rs@[i]),
            r == Err::<(), SerializeError>(SerializeError::TooLong) ==> old(self).bytes().len() + rs@.len() * ENTRY_ROOM > MAX_MESSAGE,
            r is Ok ==> final(self).bytes().len() <= old(self).bytes().len() + rs@.len() * ENTRY_ROOM,
    {
        proof {
            lemma_extends_refl(self.out@);
        }
        reveal(records_spec);
        let ghost start = self.out@.len();
        let ghost rc = records_canon(rs@);
        let mut i: usize = 0;
        assert(rc.take(0) =~= seq![]);
        while i < rs.len()
            invariant
                i <= rs@.len(),
                self.wf(),
                rc == records_canon(rs@),
                start == old(self).out@.len(),
                extends(self.bytes(), old(self).bytes()),
                forall|j: int| 0 <= j < i ==> record_ok(#[trigger] rs@[j]),
                self.bytes().len() <= old(self).bytes().len() + i * ENTRY_ROOM,
                records_spec(self.bytes(), start, i as nat, seq![])
                    == Ok::<(Seq<RecordModel>, nat), ParseError>((rc.take(i as int), self.bytes().len())),
            decreases rs@.len() - i,
        {
            let ghost before = self.out@;
            let res = self.write_record(&rs[i]);
            match res {
                Ok(()) => {},
                Err(e) => {
                    proof {
                        lemma_extends_trans(self.out@, before, old(self).out@);
                        if fault(res) {
                            assert(!record_ok(rs@[i as int]));
                        }
                    }
                    return Err(e);
                },
            }
            proof {
                let b = self.out@;
                let ext = b.subrange(before.len() as int, b.len() as int);
                assert(before + ext =~= b);
                lemma_extends_trans(b, before, old(self).out@);
                lemma_records_prefix(before, ext, start, i as nat, seq![]);
                lemma_records_snoc(b, start, i as nat, seq![]);
                assert(rc.take(i as int).push(record_canon(rs@[i as int])) =~= rc.take(i + 1));
            }
            i = i + 1;
        }
        assert(rc.take(i as int) =~= rc);
        Ok(())
    }

    /// The bytes written.
    pub fn into_bytes(self) -> (r: Vec<u8>)
        ensures
            r@ == self.bytes(),
    {
        self.out
    }
}

/// The names in the record data are in canonical form.
pub open spec fn data_names_canonical(d: ResourceData) -> bool {
    match d {
        ResourceData::Ns(n) => canonical(n@),
        ResourceData::CName(n) => canonical(n@),
        ResourceData::Ptr(n) => canonical(n@),
        ResourceData::Soa(s) => canonical(s.mname@) && canonical(s.rname@),
        ResourceData::Mx(m) => canonical(m.exchange@),
        _ => true,
    }
}

/// The record's names are in canonical form.
pub open spec fn record_names_canonical(r: ResourceRecord) -> bool {
    canonical(r.name@) && data_names_canonical(r.data)
}

/// Every name of the message is in canonical form and every question type
/// is the one its code names.
pub open spec fn names_canonical(m: Message) -> bool {
    &&& forall|i: int| 0 <= i < m.questions@.len() ==> canonical((#[trigger] m.questions@[i]).name@)
        && is_canonical_type(m.questions@[i].qtype)
    &&& forall|i: int| 0 <= i < m.answers@.len() ==> record_names_canonical(#[trigger] m.answers@[i])
    &&& forall|i: int| 0 <= i < m.nameservers@.len() ==> record_names_canonical(#[trigger] m.nameservers@[i])
    &&& forall|i: int| 0 <= i < m.additional@.len() ==> record_names_canonical(#[trigger] m.additional@[i])
}

proof fn lemma_records_canon_view(rs: Seq<ResourceRecord>)
    requires
        forall|i: int| 0 <= i < rs.len() ==> record_names_canonical(#[trigger] rs[i]),
    ensures
        records_canon(rs) == records_view(rs),
{
    assert forall|i: int| 0 <= i < rs.len() implies records_canon(rs)[i] == records_view(rs)[i] by {
        let r = rs[i];
        assert(record_names_canonical(r));
    }
    assert(records_canon(rs) =~= records_view(rs));
}

/// For a message whose names are canonical, what reads back is the message
/// itself.
pub proof fn lemma_canon_is_view(m: Message)
    requires
        names_canonical(m),
    ensures
        message_canon(m) == m@,
{
    assert forall|i: int| 0 <= i < m.questions@.len() implies questions_canon(m.questions@)[i] == questions_view(m.questions@)[i] by {
        assert(canonical(m.questions@[i].name@) && is_canonical_type(m.questions@[i].qtype));
    }
    assert(questions_canon(m.questions@) =~= questions_view(m.questions@));
    lemma_records_canon_view(m.answers@);
    lemma_records_canon_view(m.nameservers@);
    lemma_records_canon_view(m.additional@);
}

/// The number of questions and records.
pub open spec fn entries(m: Message) -> nat {
    m.questions@.len() + m.answers@.len() + m.nameservers@.len() + m.additional@.len()
}

/// The first flag byte: qr, opcode, aa, tc and rd, each cut to its width.
pub open spec fn flags1(m: Message) -> u8 {
    ((m.qr & 1u8) << 7u8) | (((m.opcode & 15u32) as u8) << 3u8) | ((m.aa & 1u8) << 2u8) | ((m.tc & 1u8) << 1u8)
        | (m.rd & 1u8)
}

/// The second flag byte: ra, z = 0, ad, cd and the four-bit rcode.
pub open spec fn flags2(m: Message) -> u8 {
    ((m.ra & 1u8) << 7u8) | ((m.ad & 1u8) << 5u8) | ((m.cd & 1u8) << 4u8) | ((m.rcode & 15u32) as u8)
}

/// A message as it reads back from its wire form: header fields cut to
/// their widths, names in canonical form.
pub open spec fn message_wire(m: Message) -> MessageModel {
    MessageModel {
        id: m.id & 0xffffu32,
        qr: m.qr & 1u8,
        opcode: m.opcode & 15u32,
        aa: m.aa & 1u8,
        tc: m.tc & 1u8,
        rd: m.rd & 1u8,
        ra: m.ra & 1u8,
        ad: m.ad & 1u8,
        cd: m.cd & 1u8,
        rcode: m.rcode & 15u32,
        questions: questions_canon(m.questions@),
        answers: records_canon(m.answers@),
        nameservers: records_canon(m.nameservers@),
        additional: records_canon(m.additional@),
    }
}

/// Where the header fields fit their widths, cutting them changes nothing.
pub proof fn lemma_wire_is_canon(m: Message)
    requires
        header_fits(m),
    ensures
        message_wire(m) == message_canon(m),
{
    lemma_mask_id(m.id);
    lemma_mask_nibble(m.opcode);
    lemma_mask_nibble(m.rcode);
    lemma_mask_bit(m.qr);
    lemma_mask_bit(m.aa);
    lemma_mask_bit(m.tc);
    lemma_mask_bit(m.rd);
    lemma_mask_bit(m.ra);
    lemma_mask_bit(m.ad);
    lemma_mask_bit(m.cd);
}

/// Bytes that extend a header keep its fields.
proof fn lemma_header_kept(b: Seq<u8>, h: Seq<u8>)
    requires
        h.len() == 12,
        extends(b, h),
    ensures
        b.len() >= 12,
        b[2] == h[2],
        b[3] == h[3],
        u16_at(b, 0) == u16_at(h, 0),
        u16_at(b, 4) == u16_at(h, 4),
        u16_at(b, 6) == u16_at(h, 6),
        u16_at(b, 8) == u16_at(h, 8),
        u16_at(b, 10) == u16_at(h, 10),
{
    lemma_extends_keeps(b, h, 0);
    lemma_extends_keeps(b, h, 4);
    lemma_extends_keeps(b, h, 6);
    lemma_extends_keeps(b, h, 8);
    lemma_extends_keeps(b, h, 10);
    assert(b.subrange(0, 12)[2] == h[2]);
    assert(b.subrange(0, 12)[3] == h[3]);
}

/// The header bytes and the sections, read from a message that extends
/// them, give the message with its fields cut to their widths.
proof fn lemma_message_readback(b: Seq<u8>, h: Seq<u8>, b1: Seq<u8>, b2: Seq<u8>, b3: Seq<u8>, m: Message)
    requires
        m.questions@.len() <= 0xffff,
        m.answers@.len() <= 0xffff,
        m.nameservers@.len() <= 0xffff,
        m.additional@.len() <= 0xffff,
        h.len() == 12,
        extends(b1, h), extends(b2, b1), extends(b3, b2), extends(b, b3),
        u16_at(h, 0) as u32 == m.id & 0xffffu32,
        bits_at(h[2], 8, 1) == m.qr & 1u8,
        bits_at(h[2], 7, 4) as u32 == m.opcode & 15u32,
        bits_at(h[2], 3, 1) == m.aa & 1u8,
        bits_at(h[2], 2, 1) == m.tc & 1u8,
        bits_at(h[2], 1, 1) == m.rd & 1u8,
        bits_at(h[3], 8, 1) == m.ra & 1u8,
        bits_at(h[3], 6, 1) == m.ad & 1u8,
        bits_at(h[3], 5, 1) == m.cd & 1u8,
        bits_at(h[3], 4, 4) as u32 == m.rcode & 15u32,
        u16_at(h, 4) == m.questions@.len(),
        u16_at(h, 6) == m.answers@.len(),
        u16_at(h, 8) == m.nameservers@.len(),
        u16_at(h, 10) == m.additional@.len(),
        questions_spec(b1, 12, m.questions@.len(), seq![])
            == Ok::<(Seq<QuestionModel>, nat), ParseError>((questions_canon(m.questions@), b1.len())),
        records_spec(b2, b1.len(), m.answers@.len(), seq![])
            == Ok::<(Seq<RecordModel>, nat), ParseError>((records_canon(m.answers@), b2.len())),
        records_spec(b3, b2.len(), m.nameservers@.len(), seq![])
            == Ok::<(Seq<RecordModel>, nat), ParseError>((records_canon(m.nameservers@), b3.len())),
        records_spec(b, b3.len(), m.additional@.len(), seq![])
            == Ok::<(Seq<RecordModel>, nat), ParseError>((records_canon(m.additional@), b.len())),
    ensures
        parse_spec(b) == Ok::<MessageModel, ParseError>(message_wire(m)),
{
    reveal(parse_spec);
    lemma_extends_trans(b, b3, b2);
    lemma_extends_trans(b, b2, b1);
    lemma_extends_trans(b, b1, h);
    lemma_header_kept(b, h);
    let e1 = b.subrange(b1.len() as int, b.len() as int);
    assert(b1 + e1 =~= b);
    lemma_questions_prefix(b1, e1, 12, m.questions@.len(), seq![]);
    let e2 = b.subrange(b2.len() as int, b.len() as int);
    assert(b2 + e2 =~= b);
    lemma_records_prefix(b2, e2, b1.len(), m.answers@.len(), seq![]);
    let e3 = b.subrange(b3.len() as int, b.len() as int);
    assert(b3 + e3 =~= b);
    lemma_records_prefix(b3, e3, b2.len(), m.nameservers@.len(), seq![]);
    assert(message_wire(m).questions == questions_canon(m.questions@));
}

impl Message {
    /// Writes the message in its wire form, names compressed. Section
    /// counts are the section lengths. Where the header fields fit their
    /// widths, the bytes read back as the message with its names in
    /// canonical form.
    pub fn into_bytes(&self) -> (r: Result<Vec<u8>, SerializeError>)
        ensures
            r matches Ok(b) ==> b@.len() <= MAX_MESSAGE && b@.len() >= 12
                && u16_at(b@, 0) as u32 == self.id & 0xffffu32
                && b@[2] == flags1(*self)
                && b@[3] == flags2(*self)
                && u16_at(b@, 4) == self.questions@.len()
                && u16_at(b@, 6) == self.answers@.len()
                && u16_at(b@, 8) == self.nameservers@.len()
                && u16_at(b@, 10) == self.additional@.len()
                && parse_spec(b@) == Ok::<MessageModel, ParseError>(message_wire(*self)),
            r matches Ok(b) ==> (header_fits(*self) ==> parse_spec(b@) == Ok::<MessageModel, ParseError>(message_canon(*self))),
            r matches Ok(b) ==> (header_fits(*self) && names_canonical(*self)
                ==> parse_spec(b@) == Ok::<MessageModel, ParseError>(self@)),
            r == Err::<Vec<u8>, SerializeError>(SerializeError::TooMany) <==> (self.questions@.len() > 0xffff
                || self.answers@.len() > 0xffff || self.nameservers@.len() > 0xffff || self.additional@.len() > 0xffff),
            r is Ok ==> message_ok(*self),
            r matches Err(e) ==> e == SerializeError::TooLong || !message_ok(*self),
            r == Err::<Vec<u8>, SerializeError>(SerializeError::TooLong) ==> 12 + entries(*self) * ENTRY_ROOM > MAX_MESSAGE,
            message_ok(*self) && 12 + entries(*self) * ENTRY_ROOM <= MAX_MESSAGE ==> r is Ok,
    {
        if self.questions.len() > 0xffff || self.answers.len() > 0xffff || self.nameservers.len() > 0xffff
            || self.additional.len() > 0xffff {
            return Err(SerializeError::TooMany);
        }
        let mut w = MessageWriter::new();
        proof {
            lemma_mask_id(self.id);
            lemma_mask_nibble(self.opcode);
            lemma_mask_nibble(self.rcode);
        }
        let id = (self.id & 0xffff) as u16;
        let qr = self.qr & 1;
        let opcode = (self.opcode & 15) as u8;
        let aa = self.aa & 1;
        let tc = self.tc & 1;
        let rd = self.rd & 1;
        let ra = self.ra & 1;
        let ad = self.ad & 1;
        let cd = self.cd & 1;
        let rcode = (self.rcode & 15) as u8;
        proof {
            lemma_mask_bit(self.qr);
            lemma_mask_bit(self.aa);
            lemma_mask_bit(self.tc);
            lemma_mask_bit(self.rd);
            lemma_mask_bit(self.ra);
            lemma_mask_bit(self.ad);
            lemma_mask_bit(self.cd);
            lemma_flags(qr, opcode, aa, tc, rd);
            lemma_flags(ra, rcode, ad, cd, 0);
        }
        let f1: u8 = (qr << 7u8) | (opcode << 3u8) | (aa << 2u8) | (tc << 1u8) | rd;
        let f2: u8 = (ra << 7u8) | (ad << 5u8) | (cd << 4u8) | rcode;
        let ghost h0 = w.out@;
        w.put_u16(id);
        let ghost h1 = w.out@;
        w.put_u8(f1);
        let ghost hm = w.out@;
        w.put_u8(f2);
        let ghost h2 = w.out@;
        w.put_u16(self.questions.len() as u16);
        let ghost h3 = w.out@;
        w.put_u16(self.answers.len() as u16);
        let ghost h4 = w.out@;
        w.put_u16(self.nameservers.len() as u16);
        let ghost h5 = w.out@;
        w.put_u16(self.additional.len() as u16);
        let ghost h = w.out@;
        proof {
            lemma_extends_trans(h, h5, h4);
            lemma_extends_trans(h, h4, h3);
            lemma_extends_trans(h, h3, h2);
            lemma_extends_trans(h, h2, hm);
            lemma_extends_trans(h, hm, h1);
            lemma_extends_keeps(h, h1, 0);
            lemma_extends_keeps(h, h3, 4);
            lemma_extends_keeps(h, h4, 6);
            lemma_extends_keeps(h, h5, 8);
            assert(h[2] == h2[2] && h[3] == h2[3]) by {
                assert(h.subrange(0, h2.len() as int)[2] == h2[2]);
                assert(h.subrange(0, h2.len() as int)[3] == h2[3]);
            }
        }
        let res = w.write_questions(&self.questions);
        match res {
            Ok(()) => {},
            Err(e) => {
                proof {
                    if fault(res) {
                        let i = choose|i: int| 0 <= i < self.questions@.len() && !question_ok(#[trigger] self.questions@[i]);
                    }
                }
                return Err(e);
            },
        }
        let ghost b1 = w.out@;
        let res = w.write_records(&self.answers);
        match res {
            Ok(()) => {},
            Err(e) => {
                proof {
                    if fault(res) {
                        let i = choose|i: int| 0 <= i < self.answers@.len() && !record_ok(#[trigger] self.answers@[i]);
                    }
                }
                return Err(e);
            },
        }
        let ghost b2 = w.out@;
        let res = w.write_records(&self.nameservers);
        match res {
            Ok(()) => {},
            Err(e) => {
                proof {
                    if fault(res) {
                        let i = choose|i: int| 0 <= i < self.nameservers@.len() && !record_ok(#[trigger] self.nameservers@[i]);
                    }
                }
                return Err(e);
            },
        }
        let ghost b3 = w.out@;
        let res = w.write_records(&self.additional);
        match res {
            Ok(()) => {},
            Err(e) => {
                proof {
                    if fault(res) {
                        let i = choose|i: int| 0 <= i < self.additional@.len() && !record_ok(#[trigger] self.additional@[i]);
                    }
                }
                return Err(e);
            },
        }
        proof {
            lemma_message_readback(w.out@, h, b1, b2, b3, *self);
            lemma_extends_trans(w.out@, b3, b2);
            lemma_extends_trans(w.out@, b2, b1);
            lemma_extends_trans(w.out@, b1, h);
            lemma_header_kept(w.out@, h);
            if header_fits(*self) {
                lemma_wire_is_canon(*self);
                if names_canonical(*self) {
                    lemma_canon_is_view(*self);
                }
            }
        }
        Ok(w.into_bytes())
    }
}

} // verus!
