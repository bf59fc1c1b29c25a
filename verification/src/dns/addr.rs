//! IP addresses: their octets, and the texts that write them.

use vstd::prelude::*;
use vstd::slice::slice_subrange;

use crate::text::{
    all_digits, chars_of, decimal_value, parse_decimal, split, split_at_char, string_of, texts,
};

verus! {

/// An IPv4 address.
#[derive(Debug, Clone, Copy, PartialEq, Eq)]
pub struct Ipv4Addr {
    /// The octets, most significant first.
    pub octets: [u8; 4],
}

impl View for Ipv4Addr {
    type V = Seq<u8>;

    open spec fn view(&self) -> Seq<u8> {
        self.octets@
    }
}

/// An IPv6 address.
#[derive(Debug, Clone, Copy, PartialEq, Eq)]
pub struct Ipv6Addr {
    /// The octets, most significant first.
    pub octets: [u8; 16],
}

impl View for Ipv6Addr {
    type V = Seq<u8>;

    open spec fn view(&self) -> Seq<u8> {
        self.octets@
    }
}

// ── IPv4 ────────────────────────────────────────────────────────────────────

/// The octet that a text writes: one to three decimal digits without a leading
/// zero, at most 255.
pub open spec fn octet(s: Seq<char>) -> Option<u8> {
    if 1 <= s.len() <= 3 && all_digits(s) && (s[0] == '0' ==> s.len() == 1) && decimal_value(s)
        <= 255 {
        Some(decimal_value(s) as u8)
    } else {
        None
    }
}

/// The octets of the IPv4 address that a text writes: four octets with dots
/// between them.
pub open spec fn ipv4_octets(s: Seq<char>) -> Option<Seq<u8>> {
    let parts = split(s, '.');
    if parts.len() == 4 && octet(parts[0]) is Some && octet(parts[1]) is Some && octet(
        parts[2],
    ) is Some && octet(parts[3]) is Some {
        Some(
            seq![
                octet(parts[0])->0,
                octet(parts[1])->0,
                octet(parts[2])->0,
                octet(parts[3])->0,
            ],
        )
    } else {
        None
    }
}

/// Reads an octet.
fn parse_octet(s: &str) -> (r: Option<u8>)
    ensures
        r == octet(s@),
{
    let v = chars_of(s);
    if v.len() < 1 || v.len() > 3 || (v[0] == '0' && v.len() > 1) || v[0] == '+' {
        return None;
    }
    match parse_decimal(s, 255) {
        Some(n) => Some(n as u8),
        None => None,
    }
}

impl Ipv4Addr {
    /// The address that a text writes in dotted decimal notation, if it writes one.
    pub fn parse(s: &str) -> (r: Option<Ipv4Addr>)
        ensures
            match r {
                Some(a) => ipv4_octets(s@) == Some(a@),
                None => ipv4_octets(s@) is None,
            },
    {
        let parts = split_at_char(s, '.');
        if parts.len() != 4 {
            return None;
        }
        let ghost all = texts(parts@);
        assert(all[0] == parts[0]@ && all[1] == parts[1]@ && all[2] == parts[2]@ && all[3]
            == parts[3]@);
        match (
            parse_octet(parts[0].as_str()),
            parse_octet(parts[1].as_str()),
            parse_octet(parts[2].as_str()),
            parse_octet(parts[3].as_str()),
        ) {
            (Some(a), Some(b), Some(c), Some(d)) => {
                let addr = Ipv4Addr { octets: [a, b, c, d] };
                assert(addr@ =~= seq![a, b, c, d]);
                Some(addr)
            },
            _ => None,
        }
    }
}

// ── IPv6 ────────────────────────────────────────────────────────────────────

/// The value of a hexadecimal digit.
pub open spec fn hex_digit(c: char) -> Option<int> {
    if '0' <= c <= '9' {
        Some(c as int - '0' as int)
    } else if 'a' <= c <= 'f' {
        Some(c as int - 'a' as int + 10)
    } else if 'A' <= c <= 'F' {
        Some(c as int - 'A' as int + 10)
    } else {
        None
    }
}

/// The number that a row of hexadecimal digits writes.
pub open spec fn hex_value(s: Seq<char>) -> Option<int>
    decreases s.len(),
{
    if s.len() == 0 {
        Some(0)
    } else {
        match (hex_value(s.drop_last()), hex_digit(s.last())) {
            (Some(v), Some(d)) => Some(v * 16 + d),
            _ => None,
        }
    }
}

/// The two octets of a group: one to four hexadecimal digits.
pub open spec fn group(s: Seq<char>) -> Option<Seq<u8>> {
    if 1 <= s.len() <= 4 {
        match hex_value(s) {
            Some(v) => Some(seq![(v / 256) as u8, (v % 256) as u8]),
            None => None,
        }
    } else {
        None
    }
}

/// The octets of a row of groups.
pub open spec fn groups(parts: Seq<Seq<char>>) -> Option<Seq<u8>>
    decreases parts.len(),
{
    if parts.len() == 0 {
        Some(Seq::empty())
    } else {
        match (groups(parts.drop_last()), group(parts.last())) {
            (Some(b), Some(g)) => Some(b + g),
            _ => None,
        }
    }
}

/// The octets of a row of groups whose last part may be an IPv4 address instead.
pub open spec fn groups_ipv4(parts: Seq<Seq<char>>) -> Option<Seq<u8>> {
    if parts.len() > 0 && ipv4_octets(parts.last()) is Some {
        match groups(parts.drop_last()) {
            Some(b) => Some(b + ipv4_octets(parts.last())->0),
            None => None,
        }
    } else {
        groups(parts)
    }
}

/// The parts of a text between its colons. An empty text has none.
pub open spec fn colon_parts(s: Seq<char>) -> Seq<Seq<char>> {
    if s.len() == 0 {
        Seq::empty()
    } else {
        split(s, ':')
    }
}

/// Where the first `::` at or behind `i` stands.
pub open spec fn double_colon(s: Seq<char>, i: int) -> Option<int>
    decreases s.len() - i,
{
    if i + 1 >= s.len() {
        None
    } else if s[i] == ':' && s[i + 1] == ':' {
        Some(i)
    } else {
        double_colon(s, i + 1)
    }
}

/// The octets of the IPv6 address that a text writes: eight groups with colons
/// between them, of which the last two may be an IPv4 address. A `::` stands for
/// as many zero groups as are missing, at least one.
pub open spec fn ipv6_octets(s: Seq<char>) -> Option<Seq<u8>> {
    match double_colon(s, 0) {
        None => match groups_ipv4(colon_parts(s)) {
            Some(b) => if b.len() == 16 {
                Some(b)
            } else {
                None
            },
            None => None,
        },
        Some(i) => match (groups(colon_parts(s.take(i))), groups_ipv4(colon_parts(s.skip(i + 2)))) {
            (Some(head), Some(tail)) => if head.len() + tail.len() <= 14 {
                Some(head + Seq::new((16 - head.len() - tail.len()) as nat, |k: int| 0u8) + tail)
            } else {
                None
            },
            _ => None,
        },
    }
}

proof fn lemma_hex_value_bounds(s: Seq<char>)
    requires
        s.len() <= 4,
    ensures
        hex_value(s) matches Some(v) ==> 0 <= v,
        s.len() == 0 ==> hex_value(s) == Some(0int),
        s.len() <= 1 ==> (hex_value(s) matches Some(v) ==> v < 16),
        s.len() <= 2 ==> (hex_value(s) matches Some(v) ==> v < 256),
        s.len() <= 3 ==> (hex_value(s) matches Some(v) ==> v < 4096),
        s.len() <= 4 ==> (hex_value(s) matches Some(v) ==> v < 65536),
    decreases s.len(),
{
    if s.len() > 0 {
        lemma_hex_value_bounds(s.drop_last());
    }
}

proof fn lemma_hex_value_prefix(s: Seq<char>, n: int)
    requires
        0 <= n <= s.len(),
        hex_value(s) is Some,
    ensures
        hex_value(s.take(n)) is Some,
    decreases s.len() - n,
{
    if n < s.len() {
        lemma_hex_value_prefix(s, n + 1);
        assert(s.take(n + 1).drop_last() =~= s.take(n));
    } else {
        assert(s.take(n) =~= s);
    }
}

/// Reads the value of a hexadecimal digit.
fn parse_hex_digit(c: char) -> (r: Option<u32>)
    ensures
        match r {
            Some(d) => hex_digit(c) == Some(d as int),
            None => hex_digit(c) is None,
        },
        r matches Some(d) ==> d < 16,
{
    if '0' <= c && c <= '9' {
        Some((c as u8 - 48) as u32)
    } else if 'a' <= c && c <= 'f' {
        Some((c as u8 - 97) as u32 + 10)
    } else if 'A' <= c && c <= 'F' {
        Some((c as u8 - 65) as u32 + 10)
    } else {
        None
    }
}

/// Appends the octets of a group; tells whether the text is one.
fn push_group(out: &mut Vec<u8>, s: &str) -> (r: bool)
    ensures
        r == (group(s@) is Some),
        r ==> final(out)@ == old(out)@ + group(s@)->0,
        !r ==> final(out)@ == old(out)@,
{
    let v = chars_of(s);
    if v.len() < 1 || v.len() > 4 {
        return false;
    }
    let mut acc: u32 = 0;
    let mut i: usize = 0;
    while i < v.len()
        invariant
            i <= v.len() <= 4,
            v@ == s@,
            hex_value(s@.take(i as int)) == Some(acc as int),
            out@ == old(out)@,
        decreases v.len() - i,
    {
        proof {
            lemma_hex_value_bounds(s@.take(i as int));
            assert(s@.take(i + 1).drop_last() =~= s@.take(i as int));
        }
        match parse_hex_digit(v[i]) {
            Some(d) => {
                acc = acc * 16 + d;
            },
            None => {
                proof {
                    if hex_value(s@) is Some {
                        lemma_hex_value_prefix(s@, i + 1);
                    }
                }
                return false;
            },
        }
        i = i + 1;
    }
    assert(s@.take(i as int) =~= s@);
    proof {
        lemma_hex_value_bounds(s@);
    }
    out.push((acc / 256) as u8);
    out.push((acc % 256) as u8);
    assert(out@ =~= old(out)@ + group(s@)->0);
    true
}

proof fn lemma_groups_prefix(parts: Seq<Seq<char>>, n: int)
    requires
        0 <= n <= parts.len(),
        groups(parts) is Some,
    ensures
        groups(parts.take(n)) is Some,
    decreases parts.len() - n,
{
    if n < parts.len() {
        lemma_groups_prefix(parts, n + 1);
        assert(parts.take(n + 1).drop_last() =~= parts.take(n));
    } else {
        assert(parts.take(n) =~= parts);
    }
}

/// Reads a row of groups.
fn parse_groups(parts: &[String]) -> (r: Option<Vec<u8>>)
    ensures
        match r {
            Some(b) => groups(texts(parts@)) == Some(b@),
            None => groups(texts(parts@)) is None,
        },
{
    let ghost all = texts(parts@);
    let mut out: Vec<u8> = Vec::new();
    let mut i: usize = 0;
    assert(out@ =~= Seq::empty());
    while i < parts.len()
        invariant
            i <= parts.len(),
            all == texts(parts@),
            groups(all.take(i as int)) == Some(out@),
        decreases parts.len() - i,
    {
        assert(all.take(i + 1).drop_last() =~= all.take(i as int));
        assert(all.take(i + 1).last() == parts[i as int]@);
        if !push_group(&mut out, parts[i].as_str()) {
            proof {
                if groups(all) is Some {
                    lemma_groups_prefix(all, i + 1);
                }
            }
            return None;
        }
        i = i + 1;
    }
    assert(all.take(i as int) =~= all);
    Some(out)
}

/// Reads a row of groups whose last part may be an IPv4 address instead.
fn parse_groups_ipv4(parts: &[String]) -> (r: Option<Vec<u8>>)
    ensures
        match r {
            Some(b) => groups_ipv4(texts(parts@)) == Some(b@),
            None => groups_ipv4(texts(parts@)) is None,
        },
{
    let n: usize = parts.len();
    if n > 0 {
        let ghost all = texts(parts@);
        assert(all.last() == parts[n - 1]@);
        if let Some(v4) = Ipv4Addr::parse(parts[n - 1].as_str()) {
            let head = slice_subrange(parts, 0, n - 1);
            assert(texts(head@) =~= all.drop_last());
            return match parse_groups(head) {
                Some(b) => {
                    let mut out = b;
                    let ghost before = out@;
                    out.push(v4.octets[0]);
                    out.push(v4.octets[1]);
                    out.push(v4.octets[2]);
                    out.push(v4.octets[3]);
                    assert(out@ =~= before + v4@);
                    Some(out)
                },
                None => None,
            };
        }
    }
    parse_groups(parts)
}

/// Splits a text at its colons. An empty text has no parts.
fn split_colons(v: &[char]) -> (r: Vec<String>)
    ensures
        texts(r@) == colon_parts(v@),
{
    if v.len() == 0 {
        let none: Vec<String> = Vec::new();
        assert(texts(none@) =~= Seq::empty());
        none
    } else {
        split_at_char(string_of(v).as_str(), ':')
    }
}

/// The address with these 16 octets.
fn ipv6_from(b: &Vec<u8>) -> (r: Ipv6Addr)
    requires
        b@.len() == 16,
    ensures
        r@ == b@,
{
    let mut octets: [u8; 16] = [0u8;16];
    let mut i: usize = 0;
    while i < 16
        invariant
            i <= 16,
            b@.len() == 16,
            octets@.len() == 16,
            octets@.take(i as int) == b@.take(i as int),
        decreases 16 - i,
    {
        octets[i] = b[i];
        assert(octets@.take(i + 1) =~= b@.take(i + 1)) by {
            assert forall|k: int| 0 <= k <= i implies octets@[k] == b@[k] by {
                if k < i {
                    assert(octets@.take(i as int)[k] == b@.take(i as int)[k]);
                }
            }
        }
        i = i + 1;
    }
    assert(octets@ =~= b@) by {
        assert(octets@.take(16) =~= octets@);
        assert(b@.take(16) =~= b@);
    }
    Ipv6Addr { octets }
}

impl Ipv6Addr {
    /// The address that a text writes in colon notation, if it writes one.
    pub fn parse(s: &str) -> (r: Option<Ipv6Addr>)
        ensures
            match r {
                Some(a) => ipv6_octets(s@) == Some(a@),
                None => ipv6_octets(s@) is None,
            },
    {
        let v = chars_of(s);
        let n: usize = v.len();
        let mut i: usize = 0;
        while i < n && n - i > 1 && !(v[i] == ':' && v[i + 1] == ':')
            invariant
                i <= n,
                n == v.len(),
                v@ == s@,
                double_colon(s@, 0) == double_colon(s@, i as int),
            decreases n - i,
        {
            i = i + 1;
        }
        if n - i < 2 {
            return match parse_groups_ipv4(split_colons(v.as_slice()).as_slice()) {
                Some(b) => if b.len() == 16 {
                    Some(ipv6_from(&b))
                } else {
                    None
                },
                None => None,
            };
        }
        let before = slice_subrange(v.as_slice(), 0, i);
        let after = slice_subrange(v.as_slice(), i + 2, n);
        assert(before@ =~= s@.take(i as int));
        assert(after@ =~= s@.skip(i + 2));
        let head = match parse_groups(split_colons(before).as_slice()) {
            Some(b) => b,
            None => {
                return None;
            },
        };
        let tail = match parse_groups_ipv4(split_colons(after).as_slice()) {
            Some(b) => b,
            None => {
                return None;
            },
        };
        if head.len() > 14 || tail.len() > 14 - head.len() {
            return None;
        }
        let mut out: Vec<u8> = head;
        let ghost first = out@;
        let gap: usize = 16 - out.len() - tail.len();
        let mut k: usize = 0;
        let ghost zeros = Seq::new(gap as nat, |k: int| 0u8);
        assert(out@ =~= first + zeros.take(0));
        while k < gap
            invariant
                k <= gap,
                zeros == Seq::new(gap as nat, |k: int| 0u8),
                out@ == first + zeros.take(k as int),
            decreases gap - k,
        {
            out.push(0);
            assert(out@ =~= first + zeros.take(k + 1));
            k = k + 1;
        }
        assert(zeros.take(k as int) =~= zeros);
        let mut rest: Vec<u8> = tail;
        out.append(&mut rest);
        Some(ipv6_from(&out))
    }
}

// ── Laws ────────────────────────────────────────────────────────────────────

/// An IPv4 address has four octets, an IPv6 address sixteen.
pub proof fn address_lengths(s: Seq<char>)
    ensures
        ipv4_octets(s) matches Some(b) ==> b.len() == 4,
        ipv6_octets(s) matches Some(b) ==> b.len() == 16,
{
}

} // verus!
