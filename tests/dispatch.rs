use dnsfwd::cache::Cache;
use dnsfwd::dispatch::{
    complete, create_response, dispatch, forward_answer, genid, handle_query, id_from,
    upstream_query, FwdrAnswer, Outcome, Step,
};
use dnsfwd::dns::{RecordClass, RecordType, ResourceData, ResourceRecord};
use dnsfwd::message::{Message, Question};

fn query_bytes(id: u32, name: &str, qtype: RecordType) -> Vec<u8> {
    let mut m = Message::new();
    m.id = id;
    m.rd = 1;
    m.questions.push(Question { name: name.as_bytes().to_vec(), qtype, class: RecordClass::IN });
    m.into_bytes().expect("writes")
}

fn upstream_reply(q: &Message, rcode: u32, answers: Vec<ResourceRecord>) -> Vec<u8> {
    let mut r = Message::new();
    r.id = 0x4242;
    r.qr = 1;
    r.rd = 1;
    r.ra = 1;
    r.rcode = rcode;
    r.questions.push(Question { name: q.questions[0].name.clone(), qtype: q.questions[0].qtype, class: RecordClass::IN });
    r.answers = answers;
    r.into_bytes().expect("writes")
}

fn a_record(name: &str, ttl: u32, a: [u8; 4]) -> ResourceRecord {
    ResourceRecord { name: name.as_bytes().to_vec(), rtype: RecordType::A, class: RecordClass::IN, ttl, data: ResourceData::IPv4(a) }
}

fn forwarded(out: Outcome) -> Message {
    match out {
        Outcome::Forward(q) => q,
        _ => panic!("expected the query to go upstream"),
    }
}

fn replied(out: Outcome) -> Message {
    match out {
        Outcome::Reply(b) => Message::from(&b).expect("reply reads"),
        _ => panic!("expected a reply"),
    }
}

#[test]
fn a_query_goes_upstream_and_fills_the_cache() {
    let mut cache = Cache::new();
    let q = forwarded(handle_query(&mut cache, &query_bytes(0x1111, "example.com.", RecordType::A), 100));
    let reply = upstream_reply(&q, 0, vec![a_record("example.com.", 60, [93, 184, 216, 34])]);
    let fa = forward_answer(Some(&reply));
    let resp = complete(&mut cache, &q, &fa, 100);
    assert_eq!(resp.id, 0x1111);
    assert_eq!(resp.rcode, 0);
    assert_eq!(resp.answers.len(), 1);
    assert_eq!(resp.answers[0].ttl, 60);
    assert!(matches!(resp.answers[0].data, ResourceData::IPv4([93, 184, 216, 34])));
    assert_eq!(cache.get_at(b"example.com.", 100), Some(([93, 184, 216, 34], 60)));
}

#[test]
fn repeated_query_is_answered_from_the_cache() {
    let mut cache = Cache::new();
    let q = forwarded(handle_query(&mut cache, &query_bytes(1, "example.com.", RecordType::A), 100));
    let reply = upstream_reply(&q, 0, vec![a_record("example.com.", 60, [93, 184, 216, 34])]);
    complete(&mut cache, &q, &forward_answer(Some(&reply)), 100);
    let r = replied(handle_query(&mut cache, &query_bytes(2, "example.com.", RecordType::A), 103));
    assert_eq!(r.id, 2);
    assert_eq!(r.rcode, 0);
    assert_eq!(r.answers.len(), 1);
    assert!(r.answers[0].ttl <= 60);
    assert_eq!(r.answers[0].ttl, 57);
    assert!(matches!(r.answers[0].data, ResourceData::IPv4([93, 184, 216, 34])));
}

#[test]
fn aaaa_answer_leaves_the_cache_alone() {
    let mut cache = Cache::new();
    let q = forwarded(handle_query(&mut cache, &query_bytes(3, "ipv6.example.", RecordType::AAAA), 0));
    let aaaa = ResourceRecord {
        name: b"ipv6.example.".to_vec(),
        rtype: RecordType::AAAA,
        class: RecordClass::IN,
        ttl: 30,
        data: ResourceData::IPv6([0x20, 0x01, 0x0d, 0xb8, 0, 0, 0, 0, 0, 0, 0, 0, 0, 0, 0, 1]),
    };
    let reply = upstream_reply(&q, 0, vec![aaaa]);
    let resp = complete(&mut cache, &q, &forward_answer(Some(&reply)), 0);
    assert_eq!(resp.answers.len(), 1);
    assert_eq!(resp.answers[0].rtype, RecordType::AAAA);
    assert!(!cache.contains(b"ipv6.example."));
}

#[test]
fn https_query_gets_notimp() {
    let mut cache = Cache::new();
    let r = replied(handle_query(&mut cache, &query_bytes(4, "svc.example.", RecordType::HTTPS), 0));
    assert_eq!(r.rcode, 4);
    assert_eq!(r.answers.len(), 0);
    assert_eq!(r.questions[0].qtype, RecordType::HTTPS);
}

#[test]
fn silent_upstream_gives_refused() {
    let mut cache = Cache::new();
    let q = forwarded(handle_query(&mut cache, &query_bytes(5, "slow.example.", RecordType::A), 0));
    let fa = forward_answer(None);
    assert_eq!(fa.rcode, 5);
    let resp = complete(&mut cache, &q, &fa, 2);
    assert_eq!(resp.rcode, 5);
    assert_eq!(resp.answers.len(), 0);
    assert!(!cache.contains(b"slow.example."));
}

#[test]
fn truncated_datagram_gets_formerr_and_serving_goes_on() {
    let mut cache = Cache::new();
    match handle_query(&mut cache, &[0x12, 0x34, 0x01], 0) {
        Outcome::Reply(b) => {
            let r = Message::from(&b).expect("reads");
            assert_eq!(r.rcode, 1);
            assert_eq!(r.id, 0);
        }
        Outcome::Drop => {}
        Outcome::Forward(_) => panic!("a truncated datagram went upstream"),
    }
    let q = forwarded(handle_query(&mut cache, &query_bytes(6, "next.example.", RecordType::A), 0));
    assert_eq!(q.id, 6);
}

#[test]
fn unreadable_upstream_reply_gives_refused() {
    let fa = forward_answer(Some(&[1, 2, 3]));
    assert_eq!(fa.rcode, 5);
    assert!(fa.answers.is_empty());
}

#[test]
fn response_keeps_identity_and_filters_records() {
    let mut q = Message::new();
    q.id = 0xbeef;
    q.opcode = 0;
    q.rd = 1;
    q.cd = 1;
    q.ad = 1;
    q.questions.push(Question { name: b"example.com.".to_vec(), qtype: RecordType::A, class: RecordClass::IN });
    let unknown = ResourceRecord {
        name: b"example.com.".to_vec(),
        rtype: RecordType::UNKNOWN(41),
        class: RecordClass::IN,
        ttl: 0,
        data: ResourceData::Unimplemented(41),
    };
    let https = ResourceRecord {
        name: b"example.com.".to_vec(),
        rtype: RecordType::HTTPS,
        class: RecordClass::IN,
        ttl: 0,
        data: ResourceData::Unimplemented(65),
    };
    let ans = vec![a_record("example.com.", 60, [1, 2, 3, 4]), unknown, a_record("example.com.", 60, [5, 6, 7, 8])];
    let ads = vec![https];
    let r = create_response(&q, 3, &ans, &Vec::new(), &ads);
    assert_eq!(r.id, 0xbeef);
    assert_eq!((r.qr, r.aa, r.tc, r.ad, r.cd, r.ra, r.rd), (1, 1, 0, 0, 0, 1, 1));
    assert_eq!(r.rcode, 3);
    assert_eq!(r.questions.len(), 1);
    assert_eq!(r.questions[0].name, b"example.com.".to_vec());
    assert_eq!(r.answers.len(), 2);
    assert!(matches!(r.answers[1].data, ResourceData::IPv4([5, 6, 7, 8])));
    assert_eq!(r.additional.len(), 0);
    assert!(r.into_bytes().is_ok());
}

#[test]
fn several_questions_get_servfail() {
    let mut cache = Cache::new();
    let mut q = Message::new();
    q.id = 9;
    match dispatch(&mut cache, &q, 0) {
        Step::Respond(m) => {
            assert_eq!(m.rcode, 2);
            assert_eq!(m.id, 9);
        }
        Step::Forward => panic!("no question went upstream"),
    }
}

#[test]
fn upstream_query_reads_back() {
    let b = upstream_query(0x0102, b"example.com.", RecordType::MX).expect("writes");
    assert_eq!(&b[0..4], &[0x01, 0x02, 0x01, 0x00]);
    let m = Message::from(&b).expect("reads");
    assert_eq!(m.id, 0x0102);
    assert_eq!(m.rd, 1);
    assert_eq!(m.qr, 0);
    assert_eq!(m.questions[0].name, b"example.com.".to_vec());
    assert_eq!(m.questions[0].qtype, RecordType::MX);
}

#[test]
fn ids_from_bytes_and_randomness() {
    assert_eq!(id_from(0x12, 0x34), 0x1234);
    assert!(genid().is_some());
}

#[test]
fn forwarded_answer_keeps_sections() {
    let mut m = Message::new();
    m.questions.push(Question { name: b"a.".to_vec(), qtype: RecordType::A, class: RecordClass::IN });
    let reply = upstream_reply(&m, 3, vec![a_record("a.", 7, [1, 1, 1, 1])]);
    let fa: FwdrAnswer = forward_answer(Some(&reply));
    assert_eq!(fa.rcode, 3);
    assert_eq!(fa.answers.len(), 1);
    assert_eq!(fa.answers[0].ttl, 7);
}
