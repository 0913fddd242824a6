use dnsfwd::dns::{Mx, RecordClass, RecordType, ResourceData, ResourceRecord, Soa};
use dnsfwd::message::{Message, Question};
use dnsfwd::name::{read_name, ParseError};
use dnsfwd::writer::{MessageWriter, SerializeError};

fn query(id: u32, name: &str, qtype: RecordType) -> Message {
    let mut m = Message::new();
    m.id = id;
    m.rd = 1;
    m.questions.push(Question { name: name.as_bytes().to_vec(), qtype, class: RecordClass::IN });
    m
}

fn record(name: &str, rtype: RecordType, ttl: u32, data: ResourceData) -> ResourceRecord {
    ResourceRecord { name: name.as_bytes().to_vec(), rtype, class: RecordClass::IN, ttl, data }
}

fn same_data(a: &ResourceData, b: &ResourceData) -> bool {
    match (a, b) {
        (ResourceData::IPv4(x), ResourceData::IPv4(y)) => x == y,
        (ResourceData::IPv6(x), ResourceData::IPv6(y)) => x == y,
        (ResourceData::Ns(x), ResourceData::Ns(y)) => x == y,
        (ResourceData::CName(x), ResourceData::CName(y)) => x == y,
        (ResourceData::Ptr(x), ResourceData::Ptr(y)) => x == y,
        (ResourceData::Txt(x), ResourceData::Txt(y)) => x == y,
        (ResourceData::Mx(x), ResourceData::Mx(y)) => x.preference == y.preference && x.exchange == y.exchange,
        (ResourceData::Soa(x), ResourceData::Soa(y)) => {
            x.mname == y.mname && x.rname == y.rname && x.serial == y.serial && x.refresh == y.refresh
                && x.retry == y.retry && x.expire == y.expire && x.minimum == y.minimum
        }
        (ResourceData::Unimplemented(x), ResourceData::Unimplemented(y)) => x == y,
        _ => false,
    }
}

fn same_records(a: &[ResourceRecord], b: &[ResourceRecord]) -> bool {
    a.len() == b.len()
        && a.iter().zip(b.iter()).all(|(x, y)| {
            x.name == y.name && x.rtype == y.rtype && x.ttl == y.ttl && same_data(&x.data, &y.data)
        })
}

fn same_message(a: &Message, b: &Message) -> bool {
    a.id == b.id && a.qr == b.qr && a.opcode == b.opcode && a.aa == b.aa && a.tc == b.tc && a.rd == b.rd
        && a.ra == b.ra && a.ad == b.ad && a.cd == b.cd && a.rcode == b.rcode
        && a.questions.len() == b.questions.len()
        && a.questions.iter().zip(b.questions.iter()).all(|(x, y)| x.name == y.name && x.qtype == y.qtype)
        && same_records(&a.answers, &b.answers)
        && same_records(&a.nameservers, &b.nameservers)
        && same_records(&a.additional, &b.additional)
}

fn all_kinds() -> Vec<ResourceRecord> {
    vec![
        record("example.com.", RecordType::A, 60, ResourceData::IPv4([93, 184, 216, 34])),
        record("example.com.", RecordType::NS, 3600, ResourceData::Ns(b"ns1.example.com.".to_vec())),
        record("www.example.com.", RecordType::CNAME, 300, ResourceData::CName(b"example.com.".to_vec())),
        record(
            "example.com.",
            RecordType::SOA,
            900,
            ResourceData::Soa(Soa {
                mname: b"ns1.example.com.".to_vec(),
                rname: b"hostmaster.example.com.".to_vec(),
                serial: 2024010101,
                refresh: 7200,
                retry: 3600,
                expire: 1209600,
                minimum: 300,
            }),
        ),
        record("34.216.184.93.in-addr.arpa.", RecordType::PTR, 86400, ResourceData::Ptr(b"example.com.".to_vec())),
        record("example.com.", RecordType::MX, 60, ResourceData::Mx(Mx { preference: 10, exchange: b"mail.example.com.".to_vec() })),
        record("example.com.", RecordType::TXT, 60, ResourceData::Txt(b"v=spf1 -all".to_vec())),
        record(
            "ipv6.example.",
            RecordType::AAAA,
            30,
            ResourceData::IPv6([0x20, 0x01, 0x0d, 0xb8, 0, 0, 0, 0, 0, 0, 0, 0, 0, 0, 0, 1]),
        ),
    ]
}

#[test]
fn round_trip_each_record_kind() {
    for r in all_kinds() {
        let mut m = query(0x1234, "example.com.", RecordType::A);
        m.qr = 1;
        m.ra = 1;
        m.answers.push(r);
        let bytes = m.into_bytes().expect("writes");
        let back = Message::from(&bytes).expect("reads");
        assert!(same_message(&m, &back));
    }
}

#[test]
fn round_trip_all_sections() {
    let mut m = query(7, "example.com.", RecordType::SOA);
    m.answers = all_kinds();
    m.nameservers = vec![record("example.com.", RecordType::NS, 10, ResourceData::Ns(b"ns2.example.net.".to_vec()))];
    m.additional = vec![record("ns2.example.net.", RecordType::A, 10, ResourceData::IPv4([10, 0, 0, 1]))];
    let bytes = m.into_bytes().expect("writes");
    assert_eq!(&bytes[4..12], &[0, 1, 0, 8, 0, 1, 0, 1]);
    let back = Message::from(&bytes).expect("reads");
    assert!(same_message(&m, &back));
}

#[test]
fn header_fields_on_the_wire() {
    let mut m = query(0xabcd, "a.", RecordType::A);
    m.qr = 1;
    m.opcode = 2;
    m.aa = 1;
    m.tc = 0;
    m.rd = 1;
    m.ra = 1;
    m.ad = 1;
    m.cd = 1;
    m.rcode = 3;
    let bytes = m.into_bytes().expect("writes");
    assert_eq!(&bytes[0..4], &[0xab, 0xcd, 0b1001_0101, 0b1011_0011]);
    let back = Message::from(&bytes).expect("reads");
    assert!(same_message(&m, &back));
}

#[test]
fn compression_is_transparent() {
    let mut m = query(1, "www.example.com.", RecordType::A);
    m.questions.push(Question { name: b"mail.example.com.".to_vec(), qtype: RecordType::MX, class: RecordClass::IN });
    let bytes = m.into_bytes().expect("writes");
    // first name: 3www7example3com0 = 17 bytes; second: 4mail + pointer = 7 bytes
    assert_eq!(bytes.len(), 12 + 17 + 4 + 7 + 4);
    assert_eq!(&bytes[33..40], &[4, b'm', b'a', b'i', b'l', 0xc0, 16]);
    let back = Message::from(&bytes).expect("reads");
    assert_eq!(back.questions[0].name, b"www.example.com.".to_vec());
    assert_eq!(back.questions[1].name, b"mail.example.com.".to_vec());
}

#[test]
fn whole_name_compresses_to_a_pointer() {
    let mut w = MessageWriter::new();
    let q = Question { name: b"example.org.".to_vec(), qtype: RecordType::A, class: RecordClass::IN };
    w.write_question(&q).expect("first");
    w.write_question(&q).expect("second");
    let bytes = w.into_bytes();
    assert_eq!(bytes.len(), 13 + 4 + 2 + 4);
    assert_eq!(&bytes[17..19], &[0xc0, 0]);
    assert_eq!(read_name(&bytes, 17), Ok((b"example.org.".to_vec(), 19)));
}

#[test]
fn root_name_reads_as_dot() {
    assert_eq!(read_name(&[0], 0), Ok((b".".to_vec(), 1)));
}

#[test]
fn pointer_cycle_is_refused() {
    // two pointers naming each other, and one naming itself
    let msg = [0xc0, 2, 0xc0, 0];
    assert_eq!(read_name(&msg, 0), Err(ParseError::PointerLoop));
    assert_eq!(read_name(&msg, 2), Err(ParseError::PointerLoop));
    let own = [0xc0, 0];
    assert_eq!(read_name(&own, 0), Err(ParseError::PointerLoop));
}

#[test]
fn pointer_must_point_before_its_label_run() {
    // label "a" then a pointer back to it: a cycle through the label
    let msg = [1, b'a', 0xc0, 0];
    assert_eq!(read_name(&msg, 0), Err(ParseError::PointerLoop));
}

#[test]
fn ill_formed_label_bytes() {
    assert_eq!(read_name(&[0x40, 0], 0), Err(ParseError::BadLabel));
    assert_eq!(read_name(&[3, b'a', b'b'], 0), Err(ParseError::Truncated));
    assert_eq!(read_name(&[0xc0], 0), Err(ParseError::Truncated));
}

#[test]
fn overlong_name_is_refused() {
    let mut msg = Vec::new();
    for _ in 0..5 {
        msg.push(63u8);
        msg.extend(std::iter::repeat(b'x').take(63));
    }
    msg.push(0);
    assert_eq!(read_name(&msg, 0), Err(ParseError::NameTooLong));
}

#[test]
fn truncated_header_is_a_parse_error() {
    assert!(matches!(Message::from(&[0x12, 0x34, 0x01]), Err(ParseError::Truncated)));
    assert!(matches!(Message::from(&[]), Err(ParseError::Truncated)));
}

#[test]
fn unsupported_class_is_refused() {
    let mut bytes = query(1, "a.", RecordType::A).into_bytes().expect("writes");
    let n = bytes.len();
    bytes[n - 1] = 3;
    assert!(matches!(Message::from(&bytes), Err(ParseError::UnsupportedClass)));
}

#[test]
fn record_length_is_checked() {
    let mut m = query(1, "a.", RecordType::A);
    m.answers.push(record("a.", RecordType::A, 5, ResourceData::IPv4([1, 2, 3, 4])));
    let mut bytes = m.into_bytes().expect("writes");
    let n = bytes.len();
    // the A record's length field says 3
    bytes[n - 5] = 3;
    assert!(matches!(Message::from(&bytes), Err(ParseError::BadLength)));
}

#[test]
fn unknown_types_are_kept_when_read() {
    let mut m = query(1, "a.", RecordType::A);
    m.answers.push(record("a.", RecordType::A, 5, ResourceData::IPv4([1, 2, 3, 4])));
    let mut bytes = m.into_bytes().expect("writes");
    let n = bytes.len();
    // retype the answer as type 99 (two bytes before class, ttl and length)
    bytes[n - 14] = 0;
    bytes[n - 13] = 99;
    let back = Message::from(&bytes).expect("reads");
    assert_eq!(back.answers[0].rtype, RecordType::UNKNOWN(99));
    assert!(matches!(back.answers[0].data, ResourceData::Unimplemented(99)));
    assert_eq!(back.answers[0].ttl, 5);
}

#[test]
fn serializer_refuses_what_it_cannot_write() {
    let mut m = query(1, "a.", RecordType::A);
    m.answers.push(record("a.", RecordType::UNKNOWN(99), 5, ResourceData::Unimplemented(99)));
    assert!(matches!(m.into_bytes(), Err(SerializeError::Unsupported)));
    let mut m = query(1, "a.", RecordType::A);
    m.answers.push(record("a.", RecordType::A, 5, ResourceData::Txt(b"x".to_vec())));
    assert!(matches!(m.into_bytes(), Err(SerializeError::Mismatch)));
    let mut m = query(1, "a.", RecordType::A);
    m.answers.push(record("a.", RecordType::TXT, 5, ResourceData::Txt(vec![b'x'; 256])));
    assert!(matches!(m.into_bytes(), Err(SerializeError::TextTooLong)));
    let long_label = format!("{}.", "y".repeat(64));
    let m = query(1, &long_label, RecordType::A);
    assert!(matches!(m.into_bytes(), Err(SerializeError::BadName(dnsfwd::name::NameError::LabelTooLong))));
}

#[test]
fn random_inputs_never_panic() {
    let mut seed: u64 = 0x9e37_79b9_7f4a_7c15;
    for round in 0..2000 {
        let len = (round % 513) as usize;
        let mut buf = Vec::with_capacity(len);
        for _ in 0..len {
            seed = seed.wrapping_mul(6364136223846793005).wrapping_add(1442695040888963407);
            buf.push((seed >> 56) as u8);
        }
        // a plausible header now and then, so the sections get read too
        if round % 3 == 0 && len >= 12 {
            buf[4] = 0;
            buf[5] = 1;
            buf[6] = 0;
            buf[7] = (seed % 4) as u8;
        }
        let _ = Message::from(&buf);
    }
}

#[test]
fn type_codes_convert_both_ways() {
    assert_eq!(u16::from(RecordType::AAAA), 28);
    assert_eq!(u16::from(RecordType::UNKNOWN(99)), 99);
    assert_eq!(u16::from(RecordClass::IN), 1);
    assert_eq!(RecordType::try_from(65), Ok(RecordType::HTTPS));
    assert_eq!(RecordType::try_from(41), Ok(RecordType::UNKNOWN(41)));
    assert!(RecordClass::try_from(3).is_err());
    assert!(dnsfwd::dns::SvcbParamKey::try_from(0).is_err());
    assert_eq!(u16::from(dnsfwd::dns::SvcbParamKey::try_from(7).expect("key")), 7);
}

#[test]
fn overlong_name_is_not_written() {
    let name = format!("{}.", vec!["z".repeat(60); 5].join("."));
    let m = query(1, &name, RecordType::A);
    assert!(matches!(m.into_bytes(), Err(SerializeError::BadName(dnsfwd::name::NameError::NameTooLong))));
}

#[test]
fn too_many_entries_in_a_section() {
    let mut m = query(1, "a.", RecordType::A);
    let q = Question { name: b"a.".to_vec(), qtype: RecordType::A, class: RecordClass::IN };
    for _ in 0..65536 {
        m.questions.push(Question { name: q.name.clone(), qtype: q.qtype, class: RecordClass::IN });
    }
    assert!(matches!(m.into_bytes(), Err(SerializeError::TooMany)));
}

#[test]
fn message_over_the_size_limit() {
    let mut m = query(1, "a.", RecordType::A);
    for _ in 0..300 {
        m.answers.push(record("a.", RecordType::TXT, 1, ResourceData::Txt(vec![b't'; 255])));
    }
    assert!(matches!(m.into_bytes(), Err(SerializeError::TooLong)));
}

#[test]
fn longer_pointer_cycle_is_refused() {
    // 0 -> 4 -> 2 -> 0
    let msg = [0xc0, 4, 0xc0, 0, 0xc0, 2];
    assert_eq!(read_name(&msg, 0), Err(ParseError::PointerLoop));
    assert_eq!(read_name(&msg, 2), Err(ParseError::PointerLoop));
    assert_eq!(read_name(&msg, 4), Err(ParseError::PointerLoop));
}

#[test]
fn oversized_header_fields_are_cut_to_width() {
    let mut m = query(0x1_0001, "a.", RecordType::A);
    m.rcode = 0x13;
    m.opcode = 0x12;
    m.qr = 3;
    let bytes = m.into_bytes().expect("writes");
    assert_eq!(&bytes[0..4], &[0x00, 0x01, 0b1001_0001, 0x03]);
    let back = Message::from(&bytes).expect("reads");
    assert_eq!((back.id, back.opcode, back.rcode, back.qr), (1, 2, 3, 1));
}
