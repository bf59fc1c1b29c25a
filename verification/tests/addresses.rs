use sand::dns::addr::{Ipv4Addr, Ipv6Addr};

fn v4(s: &str) -> Option<[u8; 4]> {
    Ipv4Addr::parse(s).map(|a| a.octets)
}

fn groups(s: &str) -> Option<Vec<u16>> {
    Ipv6Addr::parse(s).map(|a| {
        (0..8)
            .map(|i| a.octets[2 * i] as u16 * 256 + a.octets[2 * i + 1] as u16)
            .collect()
    })
}

#[test]
fn dotted_decimal_addresses() {
    assert_eq!(v4("192.0.2.1"), Some([192, 0, 2, 1]));
    assert_eq!(v4("0.0.0.0"), Some([0, 0, 0, 0]));
    assert_eq!(v4("255.255.255.255"), Some([255, 255, 255, 255]));
}

#[test]
fn texts_that_are_no_ipv4_address() {
    for bad in [
        "", "1.2.3", "1.2.3.4.5", "1.2.3.256", "1.2.3.04", "1.2.3.", ".1.2.3", "1.2.3.+4", "1.2.3.4 ",
        "1.2.3.a", "1.2.3.1000", "::1",
    ] {
        assert_eq!(v4(bad), None, "{bad}");
    }
}

#[test]
fn colon_addresses() {
    assert_eq!(groups("1:2:3:4:5:6:7:8"), Some(vec![1, 2, 3, 4, 5, 6, 7, 8]));
    assert_eq!(
        groups("2001:db8::1"),
        Some(vec![0x2001, 0xdb8, 0, 0, 0, 0, 0, 1])
    );
    assert_eq!(groups("::"), Some(vec![0; 8]));
    assert_eq!(groups("FFFF::"), Some(vec![0xffff, 0, 0, 0, 0, 0, 0, 0]));
    assert_eq!(groups("1:2:3:4:5:6:7::"), Some(vec![1, 2, 3, 4, 5, 6, 7, 0]));
    assert_eq!(groups("::2:3:4:5:6:7:8"), Some(vec![0, 2, 3, 4, 5, 6, 7, 8]));
    assert_eq!(
        groups("::ffff:192.0.2.1"),
        Some(vec![0, 0, 0, 0, 0, 0xffff, 0xc000, 0x201])
    );
    assert_eq!(
        groups("1:2:3:4:5:6:1.2.3.4"),
        Some(vec![1, 2, 3, 4, 5, 6, 0x102, 0x304])
    );
}

#[test]
fn texts_that_are_no_ipv6_address() {
    for bad in [
        "", ":", ":::", "1:2:3:4:5:6:7", "1:2:3:4:5:6:7:8:9", "1:2:3:4:5:6:7:8::", "1::2::3",
        "12345::", "g::", "1.2.3.4::", "::1.2.3.4:5", "1:2:3:4:5:6:7:1.2.3.4",
        "1:2:3:4:5:6::1.2.3.4", "1:", ":1", "::1 ", "::1%1", "::1.2.3.04",
    ] {
        assert_eq!(groups(bad), None, "{bad}");
    }
}

#[test]
fn addresses_have_their_octets() {
    assert_eq!(Ipv4Addr::parse("1.2.3.4").map(|a| a.octets.len()), Some(4));
    assert_eq!(Ipv6Addr::parse("::1").map(|a| a.octets.len()), Some(16));
}
