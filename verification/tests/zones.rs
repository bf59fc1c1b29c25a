use sand::dns::message::{RecordData, RecordType, ResourceRecord, CLASS_IN};
use sand::dns::zone::{
    canon, directive, is_class, parse, parse_record_data, parse_txt_strings, preprocess,
    resolve_name, strip_comment, Zone,
};

const SAMPLE: &str = "\
$ORIGIN Example.COM.
$TTL 300
@   IN  SOA ns1 admin (
        2024010101 ; serial
        3600       ; refresh
        900        ; retry
        604800     ; expire
        86400 )    ; minimum
    IN  NS  ns1
    IN  NS  ns2.example.net.
    MX  10 mail
ns1 600 IN A 192.0.2.1
WWW IN 60 A 192.0.2.2
www AAAA 2001:db8::2
ftp CNAME www
txt TXT \"a; b\" \"c\" ; comment
ptr PTR host.example.org.
";

fn sample() -> Zone {
    parse(SAMPLE).ok().unwrap()
}

fn error(content: &str) -> String {
    parse(content).err().unwrap()
}

fn code(t: RecordType) -> u16 {
    u16::from(t)
}

fn any(zone: &Zone, name: &str) -> Vec<ResourceRecord> {
    let found = zone.lookup(name, 255).unwrap_or_default();
    found.into_iter().cloned().collect()
}

fn strings(parts: &[&str]) -> Vec<String> {
    parts.iter().map(|p| p.to_string()).collect()
}

#[test]
fn names_are_compared_in_lower_case_without_trailing_dots() {
    assert_eq!(canon("WWW.Example.COM.."), "www.example.com");
    assert_eq!(canon("ÄÖ.de."), "äö.de");
    assert_eq!(canon("."), "");
}

#[test]
fn names_in_a_file_are_resolved() {
    assert_eq!(resolve_name("@", "Example.com"), "example.com");
    assert_eq!(resolve_name("WWW", "example.com"), "www.example.com");
    assert_eq!(resolve_name("Host.Example.ORG.", "example.com"), "host.example.org");
    assert_eq!(resolve_name("Www", ""), "www");
    assert_eq!(resolve_name("É", "fr"), "é.fr");
    assert_eq!(resolve_name(".", "example.com"), "");
    // The origin may be written in capitals and with a dot at its end.
    assert_eq!(resolve_name("www", "Example.COM"), "www.example.com");
    assert_eq!(resolve_name("a", "B."), "a.b");
    assert_eq!(resolve_name("@", "Example.COM."), "example.com");
    assert_eq!(resolve_name("a", "."), "a");
}

#[test]
fn a_compared_name_is_its_own_form() {
    for name in ["WWW.Example.COM..", "a", "", "x.Y."] {
        let r = canon(name);
        assert!(!r.ends_with('.'));
        assert_eq!(r.to_lowercase(), r);
        assert_eq!(canon(&r), r);
        assert_eq!(canon(&format!("{name}.")), r);
    }
}

#[test]
fn every_name_of_a_zone_is_its_own_form() {
    let zone = parse(
        "$ORIGIN Example.COM.\n@ SOA NS1 Admin.Example.ORG. 1 2 3 4 5\nA NS B\nA MX 1 C\n",
    )
    .ok()
    .unwrap();
    assert_eq!(canon(zone.origin()), zone.origin());
    let mut names: Vec<String> = Vec::new();
    for r in any(&zone, "example.com").iter().chain(any(&zone, "a.example.com").iter()) {
        assert_eq!(r.class, CLASS_IN);
        names.push(r.name.clone());
        match &r.data {
            RecordData::Soa { mname, rname, .. } => {
                names.push(mname.clone());
                names.push(rname.clone());
            }
            RecordData::Ns(n) => names.push(n.clone()),
            RecordData::Mx { exchange, .. } => names.push(exchange.clone()),
            _ => panic!("unexpected record"),
        }
    }
    assert_eq!(names.len(), 7);
    for n in names {
        assert_eq!(canon(&n), n);
    }
}

#[test]
fn directives_are_found_in_any_case() {
    assert_eq!(directive("$ORIGIN example.com.", "$ORIGIN"), Some("example.com."));
    assert_eq!(directive("$origin\texample.com. ", "$ORIGIN"), Some("example.com."));
    assert_eq!(directive("$Ttl", "$TTL"), Some(""));
    assert_eq!(directive("$TTLS 5", "$TTL"), None);
    assert_eq!(directive("$TT", "$TTL"), None);
    assert_eq!(directive("www A 1.2.3.4", "$TTL"), None);
}

#[test]
fn a_line_with_wide_characters_is_no_directive() {
    assert_eq!(directive("abcé x", "$TTL"), None);
    assert_eq!(directive("é", "$ORIGIN"), None);
    let zone = parse("aaaaaaé A 192.0.2.9\n").ok().unwrap();
    assert_eq!(any(&zone, "AAAAAAÉ").len(), 1);
}

#[test]
fn classes() {
    for c in ["IN", "in", "Ch", "HS", "any"] {
        assert!(is_class(c));
    }
    for c in ["", "INN", "A", "300"] {
        assert!(!is_class(c));
    }
}

#[test]
fn txt_strings_are_the_quoted_ones() {
    assert_eq!(parse_txt_strings("\"a b\" x \"c\""), strings(&["a b", "c"]));
    assert_eq!(parse_txt_strings("\"\""), strings(&[""]));
    assert_eq!(parse_txt_strings(" plain text "), strings(&["plain text"]));
    // A quote that is not closed is no quoted string.
    assert_eq!(parse_txt_strings("\"open"), strings(&["\"open"]));
    assert_eq!(parse_txt_strings("\"a\" \"open"), strings(&["a"]));
    assert_eq!(parse_txt_strings("  "), strings(&[]));
}

#[test]
fn comments_start_outside_quotes() {
    assert_eq!(strip_comment("a b ; c"), "a b ");
    assert_eq!(strip_comment("a \"x;y\" ;z"), "a \"x;y\" ");
    assert_eq!(strip_comment("a \"x;y"), "a \"x;y");
    assert_eq!(strip_comment(";"), "");
    assert_eq!(strip_comment("é;"), "é");
}

#[test]
fn plain_lines_are_logical_lines() {
    assert_eq!(preprocess("a b  ; c\n\n   \n  d\r\n"), "a b\n  d\n");
    assert_eq!(preprocess(""), "");
}

#[test]
fn comments_leave_the_logical_lines_as_they_are() {
    assert_eq!(preprocess("a ; one ( two\nb"), preprocess("a\nb"));
}

#[test]
fn parentheses_join_lines() {
    assert_eq!(preprocess("a ( b\n c ; x\n ) d\ne"), "a  b  c   d\ne\n");
    assert_eq!(preprocess("a ((b) c\n) d"), "a b c  d\n");
    // A closing one with none open is an ordinary character.
    assert_eq!(preprocess("a ) b"), "a ) b\n");
    // A group that is not closed ends with the file.
    assert_eq!(preprocess("a ( b\nc"), "a  b c\n");
}

#[test]
fn the_sample_has_its_records() {
    let zone = sample();
    assert_eq!(zone.origin(), "example.com");

    let apex = any(&zone, "example.com");
    assert_eq!(apex.len(), 4);
    assert!(apex.iter().all(|r| r.class == CLASS_IN && r.ttl == 300));
    match &apex[0].data {
        RecordData::Soa { mname, rname, serial, refresh, retry, expire, minimum } => {
            assert_eq!(mname, "ns1.example.com");
            assert_eq!(rname, "admin.example.com");
            assert_eq!(
                (*serial, *refresh, *retry, *expire, *minimum),
                (2024010101, 3600, 900, 604800, 86400)
            );
        }
        _ => panic!("not an SOA record"),
    }
    assert!(matches!(&apex[1].data, RecordData::Ns(n) if n == "ns1.example.com"));
    assert!(matches!(&apex[2].data, RecordData::Ns(n) if n == "ns2.example.net"));
    assert!(matches!(&apex[3].data, RecordData::Mx { priority: 10, exchange }
        if exchange == "mail.example.com"));

    let ns1 = any(&zone, "ns1.example.com");
    assert_eq!(ns1[0].ttl, 600);
    assert!(matches!(&ns1[0].data, RecordData::A(a) if a.octets == [192, 0, 2, 1]));

    let www = any(&zone, "www.example.com");
    assert_eq!(www.len(), 2);
    assert_eq!(www[0].ttl, 60);
    assert_eq!(www[0].name, "www.example.com");
    assert!(matches!(&www[1].data, RecordData::Aaaa(a)
        if a.octets == [0x20, 1, 0xd, 0xb8, 0, 0, 0, 0, 0, 0, 0, 0, 0, 0, 0, 2]));

    let ftp = any(&zone, "ftp.example.com");
    assert!(matches!(&ftp[0].data, RecordData::Cname(n) if n == "www.example.com"));
    let txt = any(&zone, "txt.example.com");
    assert!(matches!(&txt[0].data, RecordData::Txt(s) if *s == strings(&["a; b", "c"])));
    let ptr = any(&zone, "ptr.example.com");
    assert!(matches!(&ptr[0].data, RecordData::Ptr(n) if n == "host.example.org"));
}

#[test]
fn lookups_tell_missing_names_from_missing_types() {
    let zone = sample();
    assert!(zone.lookup("nope.example.com", code(RecordType::A)).is_none());
    assert!(zone.lookup("com", code(RecordType::A)).is_none());
    assert_eq!(zone.lookup("ns1.example.com", code(RecordType::Mx)).unwrap().len(), 0);
    assert_eq!(zone.lookup("ns1.example.com", code(RecordType::A)).unwrap().len(), 1);
    assert_eq!(zone.lookup("example.com", code(RecordType::Ns)).unwrap().len(), 2);
    // A type that nothing has, and one that nobody knows.
    assert_eq!(zone.lookup("example.com", 999).unwrap().len(), 0);
}

#[test]
fn lookups_do_not_mind_case_or_trailing_dots() {
    let zone = sample();
    for name in ["www.example.com", "WWW.EXAMPLE.com.", "www.Example.com.."] {
        assert_eq!(zone.lookup(name, code(RecordType::A)).unwrap().len(), 1);
    }
}

#[test]
fn every_record_is_found_under_its_name_and_type() {
    let zone = parse("a A 1.2.3.4\nb TXT x\na TXT y\n").ok().unwrap();
    let a = zone.lookup("a", code(RecordType::A)).unwrap();
    assert_eq!(a.len(), 1);
    assert_eq!(zone.lookup("a", code(RecordType::Txt)).unwrap().len(), 1);
    assert_eq!(zone.lookup("a", code(RecordType::Any)).unwrap().len(), 2);
    assert_eq!(zone.lookup("b", code(RecordType::Any)).unwrap().len(), 1);
}

#[test]
fn the_first_soa_counts() {
    let zone = parse("a A 1.2.3.4\nb SOA m r 1 2 3 4 5\nc SOA m r 6 2 3 4 5\n").ok().unwrap();
    assert_eq!(zone.soa().unwrap().name, "b");
    assert!(parse("a A 1.2.3.4\n").ok().unwrap().soa().is_none());
}

#[test]
fn an_empty_file_is_an_empty_zone() {
    let zone = parse("; nothing\n").ok().unwrap();
    assert_eq!(zone.origin(), "");
    assert!(zone.soa().is_none());
    assert!(zone.lookup("", 255).is_none());
}

#[test]
fn omitted_owners_and_ttls() {
    let zone = parse("a A 1.2.3.4\n  TXT x\n$TTL 7\n\tTXT y\n").ok().unwrap();
    let a = any(&zone, "a");
    assert_eq!(a.len(), 3);
    assert_eq!((a[0].ttl, a[1].ttl, a[2].ttl), (3600, 3600, 7));
    // Behind $ORIGIN the owner is the origin.
    let zone = parse("$ORIGIN b.\n  TXT x\n").ok().unwrap();
    assert_eq!(any(&zone, "b").len(), 1);
}

#[test]
fn ttl_and_class_before_the_type() {
    for line in ["a 60 IN A 1.2.3.4", "a IN 60 A 1.2.3.4", "a 60 A 1.2.3.4"] {
        let zone = parse(line).ok().unwrap();
        assert_eq!(any(&zone, "a")[0].ttl, 60);
    }
    // What follows the type does not matter, nor does the rest of the file.
    let before = "$TTL 5\na TXT x\n";
    for tail in ["TXT \"p ; q\" ; r", "SOA ( m r ; c\n 1 2\n3 4 5 ) ; d"] {
        let one = parse(&format!("{before}b 60 ch {tail}\nc A 1.2.3.4\n")).ok().unwrap();
        let two = parse(&format!("{before}b ch 60 {tail}\nc A 1.2.3.4\n")).ok().unwrap();
        for name in ["a", "b", "c"] {
            let (x, y) = (any(&one, name), any(&two, name));
            assert_eq!(format!("{x:?}"), format!("{y:?}"));
            assert_eq!(x.len(), 1);
        }
        assert_eq!(any(&two, "b")[0].ttl, 60);
    }
    // Of two TTLs the second counts.
    let zone = parse("a 60 IN 70 A 1.2.3.4").ok().unwrap();
    assert_eq!(any(&zone, "a")[0].ttl, 70);
    // The class is not kept.
    let zone = parse("a CH A 1.2.3.4").ok().unwrap();
    assert_eq!(any(&zone, "a")[0].class, CLASS_IN);
}

#[test]
fn types_are_read_in_any_case() {
    let zone = parse("a in a 1.2.3.4\na cName b\n").ok().unwrap();
    assert_eq!(any(&zone, "a").len(), 2);
}

#[test]
fn unknown_types_are_skipped() {
    let zone = parse("a SRV 1 2 3 b\na\na 60 IN\nb A 1.2.3.4\n").ok().unwrap();
    assert!(zone.lookup("a", 255).is_none());
    assert_eq!(any(&zone, "b").len(), 1);
    // The owner is remembered all the same.
    let zone = parse("a SRV x\n  A 1.2.3.4\n").ok().unwrap();
    assert_eq!(any(&zone, "a").len(), 1);
}

#[test]
fn data_of_unknown_types() {
    assert!(matches!(parse_record_data("SRV", &[], "", "n"), Ok(None)));
    // Types are expected in capitals here.
    assert!(matches!(parse_record_data("a", &strings(&["1.2.3.4"]), "", "n"), Ok(None)));
    assert!(matches!(parse_record_data("A", &strings(&["1.2.3.4"]), "", "n"), Ok(Some(_))));
}

#[test]
fn bad_directives_are_reported() {
    assert_eq!(error("$TTL abc\n"), "invalid $TTL value: abc");
    assert_eq!(error("$ttl\n"), "invalid $TTL value: ");
    assert_eq!(error("$TTL 4294967296\n"), "invalid $TTL value: 4294967296");
    assert_eq!(error("$INCLUDE other.db\n"), "$INCLUDE is not supported");
}

#[test]
fn bad_addresses_are_reported() {
    assert_eq!(error("a A\n"), "A: missing address");
    assert_eq!(error("a A 1.2.3\n"), "A: invalid address: 1.2.3");
    assert_eq!(error("a AAAA\n"), "AAAA: missing address");
    assert_eq!(error("a AAAA 1.2.3.4\n"), "AAAA: invalid address: 1.2.3.4");
}

#[test]
fn missing_names_are_reported() {
    assert_eq!(error("a NS\n"), "NS: missing nameserver");
    assert_eq!(error("a CNAME\n"), "CNAME: missing target");
    assert_eq!(error("a PTR\n"), "PTR: missing target");
}

#[test]
fn bad_mail_exchanges_are_reported() {
    assert_eq!(error("a MX\n"), "MX: missing priority");
    assert_eq!(error("a MX x mail\n"), "MX: invalid priority");
    assert_eq!(error("a MX 65536 mail\n"), "MX: invalid priority");
    assert_eq!(error("a MX 10\n"), "MX: missing exchange");
}

#[test]
fn bad_soa_records_are_reported() {
    assert_eq!(error("a SOA\n"), "SOA for 'a': need 7 fields, got 0");
    assert_eq!(
        error("$ORIGIN b.\na SOA m r 1 2 3 4\n"),
        "SOA for 'a.b': need 7 fields, got 6"
    );
    assert_eq!(error("a SOA m r x 2 3 4 5\n"), "SOA: invalid serial");
    assert_eq!(error("a SOA m r 1 x 3 4 5\n"), "SOA: invalid refresh");
    assert_eq!(error("a SOA m r 1 2 x 4 5\n"), "SOA: invalid retry");
    assert_eq!(error("a SOA m r 1 2 3 x 5\n"), "SOA: invalid expire");
    assert_eq!(error("a SOA m r 1 2 3 4 x\n"), "SOA: invalid minimum");
}

#[test]
fn the_first_bad_line_is_reported() {
    assert_eq!(error("a A 1.2.3.4\nb MX\nc A\n"), "MX: missing priority");
}

#[test]
fn txt_data_without_quotes_is_one_string() {
    let zone = parse("a TXT one  two\nb TXT\n").ok().unwrap();
    assert!(matches!(&any(&zone, "a")[0].data, RecordData::Txt(s) if *s == strings(&["one two"])));
    assert!(matches!(&any(&zone, "b")[0].data, RecordData::Txt(s) if s.is_empty()));
}
