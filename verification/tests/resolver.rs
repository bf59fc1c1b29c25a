use sand::dns::message::{
    Message, Question, RecordData, RecordType, RCODE_FORMERR, RCODE_NOERROR, RCODE_NOTIMP,
    RCODE_NXDOMAIN, RCODE_REFUSED,
};
use sand::dns::zone::{parse, Zone};
use sand::dns::{
    answer_question, is_in_bailiwick, resolve, respond, CLASS_ANY, MAX_CNAME_HOPS,
};

const FILE: &str = "\
$ORIGIN example.com.
@ SOA ns admin 1 2 3 4 5
@ NS ns
@ MX 10 mail
www A 192.0.2.1
www A 192.0.2.2
ftp CNAME files
files CNAME www
dead CNAME gone
loop CNAME loop
";

fn zone() -> Zone {
    parse(FILE).ok().unwrap()
}

fn query(flags: u16, questions: &[(&str, RecordType, u16)]) -> Message {
    let mut m = Message::parse(&[0x12, 0x34, 0, 0, 0, 0, 0, 0, 0, 0, 0, 0]).unwrap();
    m.header.flags = flags;
    for (name, qtype, qclass) in questions {
        m.questions.push(Question {
            name: name.to_string(),
            qtype: u16::from(*qtype),
            qclass: *qclass,
        });
    }
    m
}

fn ask(name: &str, qtype: RecordType) -> Message {
    respond(&query(0x0100, &[(name, qtype, 1)]), &zone()).unwrap()
}

fn rcode(m: &Message) -> u8 {
    (m.header.flags & 0xf) as u8
}

#[test]
fn records_answer() {
    let m = ask("www.example.com", RecordType::A);
    assert_eq!(m.header.flags, 0x8500);
    assert_eq!(m.answers.len(), 2);
    assert!(matches!(&m.answers[0].data, RecordData::A(a) if a.octets == [192, 0, 2, 1]));
    assert!(matches!(&m.answers[1].data, RecordData::A(a) if a.octets == [192, 0, 2, 2]));
    assert!(m.authority.is_empty() && m.additional.is_empty());
    assert_eq!(ask("example.com", RecordType::Mx).answers.len(), 1);
    assert_eq!(ask("example.com", RecordType::Any).answers.len(), 3);
}

#[test]
fn the_case_of_a_question_does_not_matter() {
    let m = ask("WWW.Example.COM.", RecordType::A);
    assert_eq!(m.answers.len(), 2);
    assert_eq!(m.questions[0].name, "WWW.Example.COM.");
    let accents = parse("é A 192.0.2.7\n").ok().unwrap();
    let m = respond(&query(0, &[("É", RecordType::A, 1)]), &accents).unwrap();
    assert_eq!(m.answers.len(), 1);
}

#[test]
fn aliases_are_followed() {
    let m = ask("ftp.example.com", RecordType::A);
    assert_eq!(rcode(&m), RCODE_NOERROR);
    let names: Vec<&str> = m.answers.iter().map(|r| r.name.as_str()).collect();
    assert_eq!(
        names,
        vec!["ftp.example.com", "files.example.com", "www.example.com", "www.example.com"]
    );
    assert!(m.authority.is_empty());
}

#[test]
fn a_question_for_the_alias_itself_is_not_followed() {
    assert_eq!(ask("ftp.example.com", RecordType::Cname).answers.len(), 1);
    assert_eq!(ask("ftp.example.com", RecordType::Any).answers.len(), 1);
}

#[test]
fn an_alias_without_the_type_at_its_end() {
    let m = ask("ftp.example.com", RecordType::Txt);
    assert_eq!(rcode(&m), RCODE_NOERROR);
    assert_eq!(m.answers.len(), 2);
    assert_eq!(m.authority.len(), 1);
}

#[test]
fn an_alias_of_a_missing_name() {
    let m = ask("dead.example.com", RecordType::A);
    assert_eq!(rcode(&m), RCODE_NXDOMAIN);
    assert_eq!(m.answers.len(), 1);
    assert_eq!(m.authority.len(), 1);
}

#[test]
fn alias_loops_are_given_up() {
    let m = ask("loop.example.com", RecordType::A);
    assert_eq!(rcode(&m), RCODE_NOERROR);
    assert_eq!(m.answers.len(), MAX_CNAME_HOPS + 1);
    assert!(m.authority.is_empty());
}

#[test]
fn eight_aliases_are_followed_and_nine_are_not() {
    let mut file = String::new();
    for i in 0..9 {
        file.push_str(&format!("c{} CNAME c{}\n", i, i + 1));
    }
    file.push_str("c9 A 192.0.2.1\n");
    let zone = parse(&file).ok().unwrap();
    let m = respond(&query(0, &[("c1", RecordType::A, 1)]), &zone).unwrap();
    assert_eq!(m.answers.len(), 9);
    assert!(matches!(m.answers[8].data, RecordData::A(_)));
    let m = respond(&query(0, &[("c0", RecordType::A, 1)]), &zone).unwrap();
    assert_eq!(m.answers.len(), 9);
    assert!(matches!(m.answers[8].data, RecordData::Cname(_)));
}

#[test]
fn several_aliases_of_one_name() {
    let zone = parse("a CNAME b\na CNAME c\nb A 192.0.2.1\nc A 192.0.2.2\n").ok().unwrap();
    let m = respond(&query(0, &[("a", RecordType::A, 1)]), &zone).unwrap();
    let names: Vec<&str> = m.answers.iter().map(|r| r.name.as_str()).collect();
    assert_eq!(names, vec!["a", "b", "a", "c"]);
}

#[test]
fn missing_names_get_nxdomain_and_the_soa() {
    for name in ["nope.example.com", "a.b.Example.com."] {
        let m = ask(name, RecordType::A);
        assert_eq!(m.header.flags, 0x8503);
        assert!(m.answers.is_empty());
        assert_eq!(m.authority.len(), 1);
        assert!(matches!(m.authority[0].data, RecordData::Soa { .. }));
    }
    let bare = parse("a A 192.0.2.1\n").ok().unwrap();
    let m = respond(&query(0, &[("b", RecordType::A, 1)]), &bare).unwrap();
    assert_eq!(rcode(&m), RCODE_NXDOMAIN);
    assert!(m.authority.is_empty());
}

#[test]
fn missing_types_get_the_soa() {
    for qtype in [RecordType::Txt, RecordType::Cname] {
        let m = ask("www.example.com", qtype);
        assert_eq!(rcode(&m), RCODE_NOERROR);
        assert!(m.answers.is_empty());
        assert!(matches!(m.authority[0].data, RecordData::Soa { .. }));
    }
}

#[test]
fn other_classes_are_refused() {
    let m = respond(&query(0, &[("www.example.com", RecordType::A, 3)]), &zone()).unwrap();
    assert_eq!(m.header.flags, 0x8405);
    assert!(m.answers.is_empty() && m.authority.is_empty());
    let m = respond(&query(0, &[("www.example.com", RecordType::A, CLASS_ANY)]), &zone()).unwrap();
    assert_eq!(rcode(&m), RCODE_NOERROR);
    assert_eq!(m.answers.len(), 2);
}

#[test]
fn names_outside_the_zone_are_refused() {
    for name in ["example.org", "com", "xexample.com", ""] {
        let m = ask(name, RecordType::A);
        assert_eq!(m.header.flags, 0x8505);
        assert!(m.answers.is_empty() && m.authority.is_empty());
    }
    let zone = parse("$ORIGIN x.\na A 192.0.2.1\n").ok().unwrap();
    let buf = [
        0x12, 0x34, 1, 0, 0, 1, 0, 0, 0, 0, 0, 0, 1, b'b', 1, b'y', 0, 0, 1, 0, 1,
    ];
    let mut want = buf.to_vec();
    want[2] = 0x85;
    want[3] = 0x05;
    assert_eq!(resolve(&buf, &zone), want);
}

#[test]
fn what_the_server_answers_for() {
    let zone = parse("$ORIGIN b.\na A 192.0.2.1\n$ORIGIN c.b.\na A 192.0.2.2\n").ok().unwrap();
    assert_eq!(zone.origin(), "c.b");
    assert!(is_in_bailiwick(&zone, "c.b"));
    assert!(is_in_bailiwick(&zone, "x.y.c.b"));
    assert!(!is_in_bailiwick(&zone, "xc.b"));
    assert!(!is_in_bailiwick(&zone, "b"));
    // A name of the zone, though not below its last origin.
    assert!(is_in_bailiwick(&zone, "a.b"));
    let bare = parse("a A 192.0.2.1\n").ok().unwrap();
    assert!(is_in_bailiwick(&bare, "anything.at.all"));
}

#[test]
fn the_owner_of_the_soa_tops_the_zone() {
    let file = "$ORIGIN X.\n@ SOA ns admin 1 2 3 4 5\n$ORIGIN b.x.\na A 192.0.2.1\n";
    let zone = parse(file).ok().unwrap();
    assert_eq!(zone.origin(), "b.x");
    for name in ["c.x", "c.b.x", "C.X."] {
        let m = respond(&query(0, &[(name, RecordType::A, 1)]), &zone).unwrap();
        assert_eq!(m.header.flags, 0x8403);
        assert!(m.answers.is_empty());
        assert_eq!(m.authority.len(), 1);
        assert_eq!(m.authority[0].name, "x");
    }
    let m = respond(&query(0, &[("c.y", RecordType::A, 1)]), &zone).unwrap();
    assert_eq!(m.header.flags, 0x8405);
    assert!(m.authority.is_empty());
}

#[test]
fn absolute_names_make_a_zone_too() {
    let zone = parse("x. SOA ns.x. a.x. 1 2 3 4 5\nglue.y. A 192.0.2.1\n").ok().unwrap();
    assert_eq!(zone.origin(), "");
    assert!(is_in_bailiwick(&zone, "x"));
    assert!(is_in_bailiwick(&zone, "c.x"));
    assert!(is_in_bailiwick(&zone, "glue.y"));
    assert!(!is_in_bailiwick(&zone, "y"));
    assert!(!is_in_bailiwick(&zone, "c.y"));
    let root = parse(". SOA ns. a. 1 2 3 4 5\n$ORIGIN x.\n").ok().unwrap();
    assert!(is_in_bailiwick(&root, "c.y"));
}

#[test]
fn an_alias_may_leave_the_zone() {
    let zone = parse("$ORIGIN x.\na CNAME other.y.\n").ok().unwrap();
    let m = respond(&query(0, &[("a.x", RecordType::A, 1)]), &zone).unwrap();
    assert_eq!(rcode(&m), RCODE_NXDOMAIN);
    assert_eq!(m.answers.len(), 1);
}

#[test]
fn the_case_of_a_datagram_does_not_matter() {
    for (a, b) in [("www.example.com", "WwW.eXample.COM"), ("nope.example.com", "NOPE.example.com")]
    {
        let one = query(0x0100, &[(a, RecordType::A, 1), (b, RecordType::Mx, 1)]).serialize();
        let two = query(0x0100, &[(b, RecordType::A, 1), (a, RecordType::Mx, 1)]).serialize();
        assert_ne!(one, two);
        assert_eq!(resolve(&one, &zone()), resolve(&two, &zone()));
    }
}

#[test]
fn an_error_code_stays_and_answers_add_up() {
    let q = query(
        0,
        &[
            ("www.example.com", RecordType::A, 3),
            ("nope.example.com", RecordType::A, 1),
            ("www.example.com", RecordType::A, 1),
        ],
    );
    let m = respond(&q, &zone()).unwrap();
    assert_eq!(rcode(&m), RCODE_REFUSED);
    assert_eq!(m.answers.len(), 2);
    assert!(m.authority.is_empty());
    assert_eq!(m.questions.len(), 3);
    // A class that comes later replaces the code.
    let q = query(
        0,
        &[("nope.example.com", RecordType::A, 1), ("www.example.com", RecordType::A, 3)],
    );
    assert_eq!(rcode(&respond(&q, &zone()).unwrap()), RCODE_REFUSED);
}

#[test]
fn other_opcodes_get_notimp() {
    let m = respond(&query(0x2900, &[("www.example.com", RecordType::A, 1)]), &zone()).unwrap();
    assert_eq!(m.header.flags, 0x8500 | RCODE_NOTIMP as u16);
    assert!(m.answers.is_empty() && m.authority.is_empty());
    assert_eq!(m.questions.len(), 1);
    // A response too, if its opcode is another one.
    assert!(respond(&query(0xA800, &[]), &zone()).is_some());
}

#[test]
fn responses_are_dropped() {
    let q = query(0x8000, &[("www.example.com", RecordType::A, 1)]);
    assert!(respond(&q, &zone()).is_none());
    assert!(resolve(&q.serialize(), &zone()).is_empty());
}

#[test]
fn a_depth_beyond_the_limit_changes_nothing() {
    let mut m = query(0, &[]);
    answer_question(&mut m, &zone(), "www.example.com", 1, MAX_CNAME_HOPS + 1);
    assert!(m.answers.is_empty());
    answer_question(&mut m, &zone(), "www.example.com", 1, MAX_CNAME_HOPS);
    assert_eq!(m.answers.len(), 2);
}

#[test]
fn a_datagram_is_answered() {
    let q = query(0x0100, &[("WWW.example.com", RecordType::A, 1)]);
    let out = resolve(&q.serialize(), &zone());
    let mut want = vec![0x12, 0x34, 0x85, 0, 0, 1, 0, 2, 0, 0, 0, 0];
    let mut name = vec![3, b'w', b'w', b'w', 7];
    name.extend(b"example");
    name.extend([3, b'c', b'o', b'm', 0]);
    want.extend(&name);
    want.extend([0, 1, 0, 1]);
    for last in [1, 2] {
        want.extend(&name);
        want.extend([0, 1, 0, 1, 0, 0, 0x0e, 0x10, 0, 4, 192, 0, 2, last]);
    }
    assert_eq!(out, want);
}

#[test]
fn a_reply_reads_as_a_response() {
    let q = query(0x0100, &[("nope.example.com", RecordType::A, 1)]);
    let m = Message::parse(&resolve(&q.serialize(), &zone())).unwrap();
    assert_eq!(m.header.id, 0x1234);
    assert!(m.header.qr() && m.header.rd());
    assert_eq!(m.header.opcode(), 0);
    assert_eq!(rcode(&m), RCODE_NXDOMAIN);
    assert_eq!((m.header.qdcount, m.header.ancount, m.header.nscount), (1, 0, 1));
    assert_eq!(m.questions[0].name, "nope.example.com");
}

#[test]
fn unreadable_datagrams_get_formerr() {
    let z = zone();
    for bad in [vec![0xAB, 0xCD], vec![0xAB, 0xCD, 0, 0, 0, 1, 0, 0, 0, 0, 0, 0, 0xC0, 12]] {
        let out = resolve(&bad, &z);
        assert_eq!(out, vec![0xAB, 0xCD, 0x80, RCODE_FORMERR, 0, 0, 0, 0, 0, 0, 0, 0]);
    }
    assert!(resolve(&[], &z).is_empty());
    assert!(resolve(&[1], &z).is_empty());
}

#[test]
fn a_query_without_questions_gets_an_empty_response() {
    let out = resolve(&query(0, &[]).serialize(), &zone());
    assert_eq!(out, vec![0x12, 0x34, 0x84, 0, 0, 0, 0, 0, 0, 0, 0, 0]);
}
