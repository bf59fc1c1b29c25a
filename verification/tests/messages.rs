use sand::dns::addr::{Ipv4Addr, Ipv6Addr};
use sand::dns::message::{
    Header, Message, ParseError, Question, RecordData, RecordType, ResourceRecord, CLASS_IN,
    RCODE_FORMERR, RCODE_NOERROR, RCODE_NOTIMP, RCODE_NXDOMAIN, RCODE_REFUSED, RCODE_SERVFAIL,
};

fn header(flags: u16) -> Header {
    Header { id: 0x1234, flags, qdcount: 0, ancount: 0, nscount: 0, arcount: 0 }
}

fn message(flags: u16, names: &[&str]) -> Message {
    Message {
        header: header(flags),
        questions: names
            .iter()
            .map(|n| Question { name: n.to_string(), qtype: 1, qclass: CLASS_IN })
            .collect(),
        answers: vec![],
        authority: vec![],
        additional: vec![],
    }
}

fn data_bytes(data: &RecordData) -> Vec<u8> {
    let mut buf: Vec<u8> = Vec::new();
    data.encode(&mut buf);
    buf
}

#[test]
fn type_numbers() {
    let known = [
        (RecordType::A, 1u16),
        (RecordType::Ns, 2),
        (RecordType::Cname, 5),
        (RecordType::Soa, 6),
        (RecordType::Ptr, 12),
        (RecordType::Mx, 15),
        (RecordType::Txt, 16),
        (RecordType::Aaaa, 28),
        (RecordType::Any, 255),
    ];
    for (t, n) in known {
        assert_eq!(RecordType::from_u16(n), Some(t));
        assert_eq!(u16::from(t), n);
    }
    let count = (0..=u16::MAX).filter(|n| RecordType::from_u16(*n).is_some()).count();
    assert_eq!(count, known.len());
}

#[test]
fn response_codes() {
    assert_eq!(
        [
            RCODE_NOERROR,
            RCODE_FORMERR,
            RCODE_SERVFAIL,
            RCODE_NXDOMAIN,
            RCODE_NOTIMP,
            RCODE_REFUSED
        ],
        [0, 1, 2, 3, 4, 5]
    );
}

#[test]
fn header_flags() {
    assert!(header(0x8000).qr());
    assert!(!header(0x7fff).qr());
    assert!(header(0x0100).rd());
    assert!(!header(0xfeff).rd());
    assert_eq!(header(0x7800).opcode(), 15);
    assert_eq!(header(0x2800).opcode(), 5);
    assert_eq!(header(0x87ff).opcode(), 0);
}

#[test]
fn a_query_is_read() {
    let mut buf = vec![0x12, 0x34, 0x01, 0x00, 0, 1, 0, 2, 0, 3, 0, 4];
    buf.extend([3, b'W', b'w', b'w', 2, b'd', b'e', 0, 0, 28, 0, 1]);
    let m = Message::parse(&buf).unwrap();
    assert_eq!(m.header.id, 0x1234);
    assert_eq!(m.header.flags, 0x0100);
    assert_eq!(m.header.qdcount, 1);
    assert_eq!(m.header.ancount, 2);
    assert_eq!(m.header.nscount, 3);
    assert_eq!(m.header.arcount, 4);
    assert_eq!(m.questions.len(), 1);
    assert_eq!(m.questions[0].name, "www.de");
    assert_eq!(m.questions[0].qtype, 28);
    assert_eq!(m.questions[0].qclass, 1);
    assert!(m.answers.is_empty() && m.authority.is_empty() && m.additional.is_empty());
}

#[test]
fn a_second_question_may_point_into_the_first() {
    let mut buf = vec![0, 1, 0, 0, 0, 2, 0, 0, 0, 0, 0, 0];
    buf.extend([1, b'a', 2, b'd', b'e', 0, 0, 1, 0, 1]);
    buf.extend([1, b'b', 0xC0, 14, 0, 16, 0, 3]);
    let m = Message::parse(&buf).unwrap();
    assert_eq!(m.questions[0].name, "a.de");
    assert_eq!(m.questions[1].name, "b.de");
    assert_eq!(m.questions[1].qtype, 16);
    assert_eq!(m.questions[1].qclass, 3);
}

#[test]
fn messages_that_end_too_soon() {
    assert_eq!(Message::parse(&[]).err(), Some(ParseError::Truncated));
    assert_eq!(Message::parse(&[0; 11]).err(), Some(ParseError::Truncated));
    assert!(Message::parse(&[0; 12]).is_ok());
    let mut buf = vec![0, 1, 0, 0, 0, 1, 0, 0, 0, 0, 0, 0];
    assert_eq!(Message::parse(&buf).err(), Some(ParseError::Truncated));
    buf.extend([0, 0, 1, 0]);
    assert_eq!(Message::parse(&buf).err(), Some(ParseError::Truncated));
    buf.push(1);
    assert!(Message::parse(&buf).is_ok());
}

#[test]
fn messages_with_bad_names() {
    let mut buf = vec![0, 1, 0, 0, 0, 1, 0, 0, 0, 0, 0, 0];
    buf.extend([0xC0, 12, 0, 1, 0, 1]);
    assert_eq!(Message::parse(&buf).err(), Some(ParseError::InvalidName));
}

#[test]
fn errors_in_words() {
    assert_eq!(ParseError::Truncated.message(), "message truncated");
    assert_eq!(ParseError::InvalidName.message(), "invalid domain name");
}

#[test]
fn a_response_copies_id_rd_and_questions() {
    let query = message(0x0120, &["a.b", "c"]);
    let r = query.response(RCODE_NXDOMAIN);
    assert_eq!(r.header.id, 0x1234);
    assert_eq!(r.header.flags, 0x8503);
    assert_eq!(r.header.qdcount, 2);
    assert_eq!((r.header.ancount, r.header.nscount, r.header.arcount), (0, 0, 0));
    assert_eq!(r.questions[0].name, "a.b");
    assert_eq!(r.questions[1].name, "c");
    assert!(r.answers.is_empty() && r.authority.is_empty() && r.additional.is_empty());
    assert_eq!(message(0xf8ff, &[]).response(RCODE_NOERROR).header.flags, 0x8400);
}

#[test]
fn a_written_message_is_read_back() {
    let mut m = message(0x8583, &["WWW.Example.com.", ""]);
    m.questions[1].qtype = 255;
    m.header.qdcount = 77;
    m.answers.push(ResourceRecord {
        name: "x".to_string(),
        class: 1,
        ttl: 5,
        data: RecordData::Ns("y".to_string()),
    });
    let read = Message::parse(&m.serialize()).unwrap();
    assert_eq!(read.header.id, 0x1234);
    assert_eq!(read.header.flags, 0x8583);
    assert_eq!(read.header.qdcount, 2);
    assert_eq!(read.header.ancount, 1);
    assert_eq!(read.header.nscount, 0);
    assert_eq!(read.header.arcount, 0);
    assert_eq!(read.questions[0].name, "www.example.com");
    assert_eq!(read.questions[0].qtype, 1);
    assert_eq!(read.questions[1].name, "");
    assert_eq!(read.questions[1].qtype, 255);
}

#[test]
fn header_counts_are_not_written() {
    let mut m = message(0x0100, &["a"]);
    let bytes = m.serialize();
    m.header.qdcount = 9;
    m.header.ancount = 8;
    m.header.nscount = 7;
    m.header.arcount = 6;
    assert_eq!(m.serialize(), bytes);
}

#[test]
fn sections_are_written_in_order() {
    let record = |n: &str| ResourceRecord {
        name: n.to_string(),
        class: 1,
        ttl: 0x01020304,
        data: RecordData::A(Ipv4Addr { octets: [192, 0, 2, 1] }),
    };
    let mut m = message(0x8400, &["q"]);
    m.answers.push(record("a"));
    m.authority.push(record("b"));
    m.additional.push(record("c"));
    let mut want = vec![0x12, 0x34, 0x84, 0, 0, 1, 0, 1, 0, 1, 0, 1];
    want.extend([1, b'q', 0, 0, 1, 0, 1]);
    for n in [b'a', b'b', b'c'] {
        want.extend([1, n, 0, 0, 1, 0, 1, 1, 2, 3, 4, 0, 4, 192, 0, 2, 1]);
    }
    assert_eq!(m.serialize(), want);
}

#[test]
fn a_record_states_the_length_of_its_data() {
    let mut m = message(0, &[]);
    m.answers.push(ResourceRecord {
        name: String::new(),
        class: 1,
        ttl: 0,
        data: RecordData::Txt(vec!["x".repeat(300)]),
    });
    let bytes = m.serialize();
    // Header, root name, type, class, TTL, then the length: 300 bytes and two lengths.
    assert_eq!(&bytes[12..21], &[0, 0, 16, 0, 1, 0, 0, 0, 0]);
    assert_eq!(&bytes[21..23], &[1, 46]);
    assert_eq!(bytes.len(), 23 + 302);
}

#[test]
fn record_data_has_its_type() {
    assert_eq!(RecordData::A(Ipv4Addr { octets: [0; 4] }).rtype(), RecordType::A);
    assert_eq!(RecordData::Aaaa(Ipv6Addr { octets: [0; 16] }).rtype(), RecordType::Aaaa);
    assert_eq!(RecordData::Ns(String::new()).rtype(), RecordType::Ns);
    assert_eq!(RecordData::Cname(String::new()).rtype(), RecordType::Cname);
    assert_eq!(RecordData::Ptr(String::new()).rtype(), RecordType::Ptr);
    let mx = RecordData::Mx { priority: 0, exchange: String::new() };
    assert_eq!(mx.rtype(), RecordType::Mx);
    assert_eq!(RecordData::Txt(vec![]).rtype(), RecordType::Txt);
}

#[test]
fn addresses_and_names_as_data() {
    assert_eq!(data_bytes(&RecordData::A(Ipv4Addr { octets: [1, 2, 3, 4] })), vec![1, 2, 3, 4]);
    let mut octets = [0u8; 16];
    octets[15] = 1;
    assert_eq!(data_bytes(&RecordData::Aaaa(Ipv6Addr { octets })), octets.to_vec());
    for data in [
        RecordData::Ns("ab.c".to_string()),
        RecordData::Cname("ab.c".to_string()),
        RecordData::Ptr("ab.c".to_string()),
    ] {
        assert_eq!(data_bytes(&data), vec![2, b'a', b'b', 1, b'c', 0]);
    }
    let mx = RecordData::Mx { priority: 0x010A, exchange: "m".to_string() };
    assert_eq!(data_bytes(&mx), vec![1, 10, 1, b'm', 0]);
}

#[test]
fn soa_as_data() {
    let soa = RecordData::Soa {
        mname: "m".to_string(),
        rname: "r".to_string(),
        serial: 0x01020304,
        refresh: 2,
        retry: 3,
        expire: 0xffffffff,
        minimum: 256,
    };
    assert_eq!(soa.rtype(), RecordType::Soa);
    let mut want = vec![1, b'm', 0, 1, b'r', 0, 1, 2, 3, 4, 0, 0, 0, 2, 0, 0, 0, 3];
    want.extend([255, 255, 255, 255, 0, 0, 1, 0]);
    assert_eq!(data_bytes(&soa), want);
}

#[test]
fn texts_are_cut_into_character_strings() {
    let txt = RecordData::Txt(vec!["ab".to_string(), "é".to_string(), String::new()]);
    assert_eq!(data_bytes(&txt), vec![2, b'a', b'b', 2, 0xC3, 0xA9, 0]);
    assert_eq!(data_bytes(&RecordData::Txt(vec![String::new()])), vec![0]);

    let long = RecordData::Txt(vec!["x".repeat(256)]);
    let bytes = data_bytes(&long);
    assert_eq!(bytes[0], 255);
    assert_eq!(bytes[256], 1);
    assert_eq!(bytes.len(), 258);

    let full = RecordData::Txt(vec!["x".repeat(255)]);
    assert_eq!(data_bytes(&full).len(), 256);
    assert_eq!(data_bytes(&RecordData::Txt(vec![])), Vec::<u8>::new());
}

#[test]
fn clones_say_the_same() {
    let rr = ResourceRecord {
        name: "n".to_string(),
        class: 1,
        ttl: 9,
        data: RecordData::Txt(vec!["a".to_string(), "b".to_string()]),
    };
    let copy = rr.clone();
    assert_eq!((copy.name.as_str(), copy.class, copy.ttl), ("n", 1, 9));
    assert_eq!(data_bytes(&copy.data), data_bytes(&rr.data));
}

#[test]
fn format_errors_are_answered_with_the_id() {
    assert_eq!(
        Message::formerr(&[0xAB, 0xCD, 1, 2]),
        Some(vec![0xAB, 0xCD, 0x80, 1, 0, 0, 0, 0, 0, 0, 0, 0])
    );
    assert_eq!(Message::formerr(&[1]), None);
    assert_eq!(Message::formerr(&[]), None);
    let m = Message::parse(&Message::formerr(&[0xAB, 0xCD]).unwrap()).unwrap();
    assert_eq!(m.header.id, 0xABCD);
    assert!(m.header.qr());
    assert_eq!(m.header.opcode(), 0);
    assert_eq!(m.header.flags & 0xf, RCODE_FORMERR as u16);
    assert!(m.questions.is_empty());
}
