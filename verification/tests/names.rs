use sand::dns::message::ParseError;
use sand::dns::name::{encode_name, parse_name, read_labels};

fn encoded(name: &str) -> Vec<u8> {
    let mut buf: Vec<u8> = Vec::new();
    encode_name(&mut buf, name);
    buf
}

fn parsed(buf: &[u8], start: usize) -> (Result<String, ParseError>, usize) {
    let mut offset = start;
    let r = parse_name(buf, &mut offset);
    (r, offset)
}

#[test]
fn names_are_written_as_labels() {
    assert_eq!(encoded("ab.c"), vec![2, b'a', b'b', 1, b'c', 0]);
    assert_eq!(encoded("ab.c.."), vec![2, b'a', b'b', 1, b'c', 0]);
    assert_eq!(encoded(""), vec![0]);
    assert_eq!(encoded("."), vec![0]);
    // An empty label in the middle writes a zero byte.
    assert_eq!(encoded("a..b"), vec![1, b'a', 0, 1, b'b', 0]);
}

#[test]
fn encoding_appends() {
    let mut buf: Vec<u8> = vec![9];
    encode_name(&mut buf, "x");
    assert_eq!(buf, vec![9, 1, b'x', 0]);
}

#[test]
fn long_labels_keep_the_low_byte_of_their_length() {
    let long = "a".repeat(300);
    let bytes = encoded(&long);
    assert_eq!(bytes[0], 44);
    assert_eq!(bytes.len(), 302);
}

#[test]
fn written_names_are_read_back_in_lower_case() {
    for (name, read) in [
        ("WWW.Example.COM.", "www.example.com"),
        ("", ""),
        ("Ä.é", "ä.é"),
    ] {
        let mut buf = vec![7, 7];
        buf.extend(encoded(name));
        buf.push(5);
        let (r, end) = parsed(&buf, 2);
        assert_eq!(r, Ok(read.to_string()));
        assert_eq!(end, buf.len() - 1);
    }
}

#[test]
fn written_labels_are_read_back_as_they_were() {
    let buf = encoded("WWW.Example.COM");
    let mut offset = 0;
    let labels = read_labels(&buf, &mut offset);
    assert_eq!(
        labels,
        Ok(vec!["WWW".to_string(), "Example".to_string(), "COM".to_string()])
    );
    assert_eq!(offset, buf.len());
}

#[test]
fn a_pointer_reads_as_its_target() {
    // "b" at 0, then "a" followed by a pointer to it at 3.
    let buf = vec![1, b'b', 0, 1, b'a', 0xC0, 0, 42];
    assert_eq!(parsed(&buf, 5), (Ok("b".to_string()), 7));
    assert_eq!(parsed(&buf, 3), (Ok("a.b".to_string()), 7));
}

#[test]
fn the_cursor_stops_behind_the_first_pointer() {
    // 0: root, 1: pointer to 0, 3: pointer to 1, 5: pointer to 3
    let buf = vec![0, 0xC0, 0, 0xC0, 1, 0xC0, 3, 9, 9];
    assert_eq!(parsed(&buf, 5), (Ok(String::new()), 7));
}

#[test]
fn a_pointer_carries_fourteen_bits() {
    let mut buf = vec![0u8; 0x300];
    buf[0x201] = 1;
    buf[0x202] = b'z';
    buf[0] = 0xC2;
    buf[1] = 0x01;
    assert_eq!(parsed(&buf, 0), (Ok("z".to_string()), 2));
}

#[test]
fn pointer_loops_are_refused() {
    assert_eq!(parsed(&[0xC0, 0], 0), (Err(ParseError::InvalidName), 2));
    // A label in the loop does not help.
    assert_eq!(
        parsed(&[1, b'a', 0xC0, 0], 0),
        (Err(ParseError::InvalidName), 4)
    );
}

#[test]
fn ten_pointers_are_followed_and_eleven_are_not() {
    // Pointer i, at 1 + 2 * i, leads to pointer i - 1; pointer 0 to the root at 0.
    let mut buf = vec![0u8];
    for i in 0..11usize {
        let target = if i == 0 { 0 } else { 1 + 2 * (i - 1) };
        buf.push(0xC0);
        buf.push(target as u8);
    }
    assert_eq!(parsed(&buf, 1 + 2 * 9).0, Ok(String::new()));
    assert_eq!(parsed(&buf, 1 + 2 * 10).0, Err(ParseError::InvalidName));
}

#[test]
fn names_that_end_too_soon_are_truncated() {
    for bad in [vec![], vec![3, b'a'], vec![1, b'a'], vec![0xC0], vec![0xC0, 9]] {
        assert_eq!(parsed(&bad, 0).0, Err(ParseError::Truncated));
    }
    assert_eq!(parsed(&[0], 1), (Err(ParseError::Truncated), 1));
}

#[test]
fn labels_must_be_utf8() {
    assert_eq!(
        parsed(&[1, 0xFF, 0], 0),
        (Err(ParseError::InvalidName), 0)
    );
    // Two bytes that are one character.
    assert_eq!(parsed(&[2, 0xC3, 0xA9, 0], 0), (Ok("é".to_string()), 4));
    // Half of it.
    assert_eq!(parsed(&[1, 0xC3, 0], 0).0, Err(ParseError::InvalidName));
}

#[test]
fn lengths_below_the_pointer_mark_are_labels() {
    let mut buf = vec![0xBFu8];
    buf.extend(vec![b'q'; 0xBF]);
    buf.push(0);
    assert_eq!(parsed(&buf, 0), (Ok("q".repeat(0xBF)), 0xC1));
}
