//! Which texts write which addresses.

use vstd::arithmetic::div_mod::lemma_fundamental_div_mod_converse;
use vstd::prelude::*;

use super::addr::{
    colon_parts, double_colon, group, groups, groups_ipv4, hex_digit, hex_value, ipv4_octets,
    ipv6_octets, octet,
};
use crate::text::{joined, split, split_then_join};
use crate::text_laws::{
    decimal_text, join_then_split, joining, lacks, lemma_decimal_text, lemma_only_text, splitting,
};

verus! {

// ── IPv4 ────────────────────────────────────────────────────────────────────

/// An octet is written in decimal without leading zeros, and in no other way.
pub proof fn octet_texts(s: Seq<char>, v: u8)
    ensures
        octet(s) == Some(v) <==> s == decimal_text(v as nat),
{
    lemma_decimal_text(v as nat);
    if octet(s) == Some(v) {
        lemma_only_text(s);
    }
}

/// An IPv4 address is its four octets in decimal without leading zeros, with dots
/// between them.
pub open spec fn ipv4_text(a: u8, b: u8, c: u8, d: u8) -> Seq<char> {
    decimal_text(a as nat) + seq!['.'] + decimal_text(b as nat) + seq!['.'] + decimal_text(
        c as nat,
    ) + seq!['.'] + decimal_text(d as nat)
}

proof fn lemma_octet_lacks(v: u8, c: char)
    requires
        c == '.' || c == ':',
    ensures
        lacks(decimal_text(v as nat), c),
{
    let t = decimal_text(v as nat);
    lemma_decimal_text(v as nat);
    assert forall|i: int| 0 <= i < t.len() implies #[trigger] t[i] != c by {
        assert('0' <= t[i] <= '9');
    }
}

proof fn lemma_four_pieces(w: Seq<char>, x: Seq<char>, y: Seq<char>, z: Seq<char>)
    requires
        lacks(w, '.'),
        lacks(x, '.'),
        lacks(y, '.'),
        lacks(z, '.'),
    ensures
        split(w + seq!['.'] + x + seq!['.'] + y + seq!['.'] + z, '.') == seq![w, x, y, z],
{
    let dot = seq!['.'];
    let none = Seq::<char>::empty();
    splitting(z, none, '.');
    splitting(y, z, '.');
    splitting(x, y + dot + z, '.');
    splitting(w, x + dot + (y + dot + z), '.');
    assert(w + dot + x + dot + y + dot + z =~= w + dot + (x + dot + (y + dot + z)));
    assert(split(w + dot + x + dot + y + dot + z, '.') =~= seq![w, x, y, z]);
}

/// Every IPv4 address is read from its text, and from no other text: the octets that
/// are read are those that are written.
pub proof fn ipv4_texts(s: Seq<char>, a: u8, b: u8, c: u8, d: u8)
    ensures
        ipv4_octets(s) == Some(seq![a, b, c, d]) <==> s == ipv4_text(a, b, c, d),
{
    let dot = seq!['.'];
    if s == ipv4_text(a, b, c, d) {
        lemma_octet_lacks(a, '.');
        lemma_octet_lacks(b, '.');
        lemma_octet_lacks(c, '.');
        lemma_octet_lacks(d, '.');
        lemma_four_pieces(
            decimal_text(a as nat),
            decimal_text(b as nat),
            decimal_text(c as nat),
            decimal_text(d as nat),
        );
        octet_texts(decimal_text(a as nat), a);
        octet_texts(decimal_text(b as nat), b);
        octet_texts(decimal_text(c as nat), c);
        octet_texts(decimal_text(d as nat), d);
    }
    if ipv4_octets(s) == Some(seq![a, b, c, d]) {
        let p = split(s, '.');
        let octets = seq![
            octet(p[0])->0,
            octet(p[1])->0,
            octet(p[2])->0,
            octet(p[3])->0,
        ];
        assert(octets[0] == a && octets[1] == b && octets[2] == c && octets[3] == d);
        octet_texts(p[0], a);
        octet_texts(p[1], b);
        octet_texts(p[2], c);
        octet_texts(p[3], d);
        split_then_join(s, '.');
        lemma_joined_four(p, '.');
    }
}

proof fn lemma_joined_four(p: Seq<Seq<char>>, sep: char)
    requires
        p.len() == 4,
    ensures
        joined(p, sep) == p[0] + seq![sep] + p[1] + seq![sep] + p[2] + seq![sep] + p[3],
{
    let one = seq![p[0]];
    let two = seq![p[0], p[1]];
    let three = seq![p[0], p[1], p[2]];
    joining(one, p[1], sep);
    joining(one, p[0], sep);
    assert(one.push(p[1]) =~= two);
    joining(two, p[2], sep);
    assert(two.push(p[2]) =~= three);
    joining(three, p[3], sep);
    assert(three.push(p[3]) =~= p);
}

/// A text is read as an IPv4 address only if it is one: there are then four octets
/// that it writes.
pub proof fn ipv4_is_four_octets(s: Seq<char>)
    ensures
        ipv4_octets(s) matches Some(b) ==> b.len() == 4 && s == ipv4_text(b[0], b[1], b[2], b[3]),
{
    if let Some(b) = ipv4_octets(s) {
        assert(b =~= seq![b[0], b[1], b[2], b[3]]);
        ipv4_texts(s, b[0], b[1], b[2], b[3]);
    }
}

// ── IPv6 ────────────────────────────────────────────────────────────────────

/// Whether `c` is the hexadecimal digit `d`, as a small letter or a capital.
pub open spec fn writes_digit(c: char, d: int) -> bool {
    ||| 0 <= d < 10 && c as int == 48 + d
    ||| 10 <= d < 16 && (c as int == 87 + d || c as int == 55 + d)
}

/// Whether `s` writes the 16-bit number whose hexadecimal digits are `a`, `b`, `c` and
/// `d`: in four digits, or in fewer where the first ones are zero.
pub open spec fn writes_digits(s: Seq<char>, a: int, b: int, c: int, d: int) -> bool {
    let n = s.len();
    &&& 1 <= n <= 4
    &&& writes_digit(s[n - 1], d)
    &&& if n >= 2 {
        writes_digit(s[n - 2], c)
    } else {
        c == 0
    }
    &&& if n >= 3 {
        writes_digit(s[n - 3], b)
    } else {
        b == 0
    }
    &&& if n >= 4 {
        writes_digit(s[n - 4], a)
    } else {
        a == 0
    }
}

/// Whether `s` writes the number `v` in hexadecimal, in one to four digits.
pub open spec fn writes_group(s: Seq<char>, v: u16) -> bool {
    writes_digits(s, v as int / 4096, v as int / 256 % 16, v as int / 16 % 16, v as int % 16)
}

proof fn lemma_hex_digit(c: char, d: int)
    ensures
        writes_digit(c, d) <==> hex_digit(c) == Some(d),
{
}

proof fn lemma_hex_value(s: Seq<char>, a: int, b: int, c: int, d: int)
    requires
        writes_digits(s, a, b, c, d),
    ensures
        hex_value(s) == Some(a * 4096 + b * 256 + c * 16 + d),
        0 <= a < 16,
        0 <= b < 16,
        0 <= c < 16,
        0 <= d < 16,
{
    reveal_with_fuel(hex_value, 5);
    let n = s.len() as int;
    lemma_hex_digit(s[n - 1], d);
    let s1 = s.drop_last();
    assert(s.last() == s[n - 1]);
    if n >= 2 {
        lemma_hex_digit(s[n - 2], c);
        assert(s1.last() == s[n - 2]);
        let s2 = s1.drop_last();
        if n >= 3 {
            lemma_hex_digit(s[n - 3], b);
            assert(s2.last() == s[n - 3]);
            let s3 = s2.drop_last();
            if n >= 4 {
                lemma_hex_digit(s[n - 4], a);
                assert(s3.last() == s[n - 4]);
            }
        }
    }
}

/// A group is one to four hexadecimal digits, small or capital, and is read as the
/// number that they write; nothing else is a group.
pub proof fn group_texts(s: Seq<char>, v: u16)
    ensures
        writes_group(s, v) ==> (group(s) matches Some(b) && b.len() == 2 && b[0] * 256 + b[1] == v),
        group(s) matches Some(b) ==> b.len() == 2 && writes_group(s, (b[0] * 256 + b[1]) as u16),
{
    if writes_group(s, v) {
        lemma_group_read(s, v);
    }
    if group(s) is Some {
        lemma_group_written(s);
    }
}

proof fn lemma_nibbles(a: int, b: int, c: int, d: int)
    requires
        0 <= a < 16,
        0 <= b < 16,
        0 <= c < 16,
        0 <= d < 16,
    ensures
        ({
            let w = a * 4096 + b * 256 + c * 16 + d;
            &&& 0 <= w < 65536
            &&& w / 4096 == a
            &&& w / 256 == a * 16 + b
            &&& w / 256 % 16 == b
            &&& w / 16 % 16 == c
            &&& w % 16 == d
            &&& w % 256 == c * 16 + d
        }),
{
    let w = a * 4096 + b * 256 + c * 16 + d;
    lemma_fundamental_div_mod_converse(w, 4096, a, b * 256 + c * 16 + d);
    lemma_fundamental_div_mod_converse(w, 256, a * 16 + b, c * 16 + d);
    lemma_fundamental_div_mod_converse(a * 16 + b, 16, a, b);
    lemma_fundamental_div_mod_converse(w, 16, a * 256 + b * 16 + c, d);
    lemma_fundamental_div_mod_converse(a * 256 + b * 16 + c, 16, a * 16 + b, c);
}

proof fn lemma_group_read(s: Seq<char>, v: u16)
    requires
        writes_group(s, v),
    ensures
        group(s) matches Some(b) && b.len() == 2 && b[0] * 256 + b[1] == v,
{
    let w = v as int;
    let (a, b, c, d) = (w / 4096, w / 256 % 16, w / 16 % 16, w % 16);
    lemma_hex_value(s, a, b, c, d);
    assert(a * 4096 + b * 256 + c * 16 + d == w) by {
        assert(w / 256 == 16 * (w / 4096) + w / 256 % 16);
        assert(w / 16 == 16 * (w / 256) + w / 16 % 16);
        assert(w == 16 * (w / 16) + w % 16);
    }
}

proof fn lemma_group_written(s: Seq<char>)
    requires
        group(s) is Some,
    ensures
        group(s) matches Some(b) && b.len() == 2 && writes_group(s, (b[0] * 256 + b[1]) as u16),
{
    let g = group(s)->0;
    let n = s.len() as int;
    lemma_digits(s);
    let d = hex_digit(s[n - 1])->0;
    let c = if n >= 2 {
        hex_digit(s[n - 2])->0
    } else {
        0
    };
    let b = if n >= 3 {
        hex_digit(s[n - 3])->0
    } else {
        0
    };
    let a = if n >= 4 {
        hex_digit(s[n - 4])->0
    } else {
        0
    };
    lemma_hex_digit(s[n - 1], d);
    if n >= 2 {
        lemma_hex_digit(s[n - 2], c);
    }
    if n >= 3 {
        lemma_hex_digit(s[n - 3], b);
    }
    if n >= 4 {
        lemma_hex_digit(s[n - 4], a);
    }
    assert(writes_digits(s, a, b, c, d));
    lemma_hex_value(s, a, b, c, d);
    lemma_nibbles(a, b, c, d);
}

proof fn lemma_digits(s: Seq<char>)
    requires
        hex_value(s) is Some,
    ensures
        forall|i: int| 0 <= i < s.len() ==> hex_digit(#[trigger] s[i]) is Some,
    decreases s.len(),
{
    if s.len() > 0 {
        lemma_digits(s.drop_last());
        assert forall|i: int| 0 <= i < s.len() implies hex_digit(#[trigger] s[i]) is Some by {
            if i < s.len() - 1 {
                assert(s.drop_last()[i] == s[i]);
            } else {
                assert(s.last() == s[i]);
            }
        }
    }
}

/// Whether the parts write the numbers, one each.
pub open spec fn write_groups(parts: Seq<Seq<char>>, vs: Seq<u16>) -> bool {
    parts.len() == vs.len() && forall|i: int|
        0 <= i < parts.len() ==> writes_group(#[trigger] parts[i], vs[i])
}

/// The bytes of the numbers, two each, most significant first.
pub open spec fn group_bytes(vs: Seq<u16>) -> Seq<u8> {
    Seq::new(
        2 * vs.len(),
        |i: int|
            if i % 2 == 0 {
                (vs[i / 2] / 256) as u8
            } else {
                (vs[i / 2] % 256) as u8
            },
    )
}

proof fn lemma_group_lacks(s: Seq<char>, v: u16)
    requires
        writes_group(s, v),
    ensures
        lacks(s, ':'),
        lacks(s, '.'),
        s.len() > 0,
        ipv4_octets(s) is None,
{
    let n = s.len() as int;
    assert forall|i: int| 0 <= i < n implies #[trigger] s[i] != ':' && s[i] != '.' by {
        assert(i == n - 1 || i == n - 2 || i == n - 3 || i == n - 4);
    }
    splitting(s, Seq::empty(), '.');
}

proof fn lemma_groups(parts: Seq<Seq<char>>, vs: Seq<u16>)
    requires
        write_groups(parts, vs),
    ensures
        groups(parts) == Some(group_bytes(vs)),
    decreases parts.len(),
{
    if parts.len() == 0 {
        assert(group_bytes(vs) =~= Seq::empty());
    } else {
        let n = parts.len() - 1;
        let init = parts.drop_last();
        let rest = vs.drop_last();
        assert forall|i: int| 0 <= i < init.len() implies writes_group(
            #[trigger] init[i],
            rest[i],
        ) by {
            assert(init[i] == parts[i]);
        }
        lemma_groups(init, rest);
        assert(writes_group(parts[n], vs[n]));
        group_texts(parts[n], vs[n]);
        let g = group(parts[n])->0;
        assert(parts.last() == parts[n]);
        assert(g[0] == vs[n] / 256 && g[1] == vs[n] % 256);
        assert(group_bytes(vs) =~= group_bytes(rest) + g) by {
            assert forall|i: int| 0 <= i < 2 * vs.len() implies group_bytes(vs)[i] == (group_bytes(
                rest,
            ) + g)[i] by {
                if i < 2 * n {
                    assert(rest[i / 2] == vs[i / 2]);
                } else {
                    assert(i == 2 * n || i == 2 * n + 1);
                    assert(i / 2 == n);
                }
            }
        }
    }
}

/// Whether `parts` are hexadecimal groups that write `vs`, behind which an IPv4 address
/// may stand as a last part; `octets` are all their bytes.
pub open spec fn write_octets(
    parts: Seq<Seq<char>>,
    octets: Seq<u8>,
    vs: Seq<u16>,
    dotted: Seq<u8>,
) -> bool {
    ||| write_groups(parts, vs) && octets == group_bytes(vs)
    ||| parts.len() > 0 && write_groups(parts.drop_last(), vs) && dotted.len() == 4
        && parts.last() == ipv4_text(dotted[0], dotted[1], dotted[2], dotted[3]) && octets
        == group_bytes(vs) + dotted
}

proof fn lemma_ipv4_lacks_colon(a: u8, b: u8, c: u8, d: u8)
    ensures
        lacks(ipv4_text(a, b, c, d), ':'),
        ipv4_text(a, b, c, d).len() > 0,
{
    lemma_octet_lacks(a, ':');
    lemma_octet_lacks(b, ':');
    lemma_octet_lacks(c, ':');
    lemma_octet_lacks(d, ':');
    lemma_decimal_text(a as nat);
    let (p, q, r, t) = (
        decimal_text(a as nat),
        decimal_text(b as nat),
        decimal_text(c as nat),
        decimal_text(d as nat),
    );
    let dot = seq!['.'];
    lemma_lacks_concat(p, dot, ':');
    lemma_lacks_concat(p + dot, q, ':');
    lemma_lacks_concat(p + dot + q, dot, ':');
    lemma_lacks_concat(p + dot + q + dot, r, ':');
    lemma_lacks_concat(p + dot + q + dot + r, dot, ':');
    lemma_lacks_concat(p + dot + q + dot + r + dot, t, ':');
}

proof fn lemma_lacks_concat(s: Seq<char>, t: Seq<char>, c: char)
    requires
        lacks(s, c),
        lacks(t, c),
    ensures
        lacks(s + t, c),
{
    assert forall|i: int| 0 <= i < (s + t).len() implies #[trigger] (s + t)[i] != c by {
        if i < s.len() {
            assert((s + t)[i] == s[i]);
        } else {
            assert((s + t)[i] == t[i - s.len()]);
        }
    }
}

proof fn lemma_write_octets(
    parts: Seq<Seq<char>>,
    octets: Seq<u8>,
    vs: Seq<u16>,
    dotted: Seq<u8>,
)
    requires
        write_octets(parts, octets, vs, dotted),
    ensures
        groups_ipv4(parts) == Some(octets),
        solid_parts(parts),
{
    if write_groups(parts, vs) && octets == group_bytes(vs) {
        lemma_groups(parts, vs);
        assert forall|i: int| 0 <= i < parts.len() implies lacks(#[trigger] parts[i], ':')
            && parts[i].len() > 0 by {
            lemma_group_lacks(parts[i], vs[i]);
        }
        if parts.len() > 0 {
            let n = parts.len() - 1;
            lemma_group_lacks(parts[n], vs[n]);
            assert(parts.last() == parts[n]);
        }
    } else {
        let init = parts.drop_last();
        let n = parts.len() - 1;
        lemma_groups(init, vs);
        ipv4_texts(parts.last(), dotted[0], dotted[1], dotted[2], dotted[3]);
        assert(dotted =~= seq![dotted[0], dotted[1], dotted[2], dotted[3]]);
        lemma_ipv4_lacks_colon(dotted[0], dotted[1], dotted[2], dotted[3]);
        assert forall|i: int| 0 <= i < parts.len() implies lacks(#[trigger] parts[i], ':')
            && parts[i].len() > 0 by {
            if i < n {
                assert(init[i] == parts[i]);
                lemma_group_lacks(init[i], vs[i]);
            } else {
                assert(parts.last() == parts[i]);
            }
        }
    }
}

/// Whether no part is empty or holds a colon.
spec fn solid_parts(parts: Seq<Seq<char>>) -> bool {
    forall|i: int| 0 <= i < parts.len() ==> lacks(#[trigger] parts[i], ':') && parts[i].len() > 0
}

/// Whether no two colons stand side by side in `s`, nor one at either end.
spec fn single_colons(s: Seq<char>) -> bool {
    &&& forall|i: int| 0 <= i < s.len() - 1 ==> !(#[trigger] s[i] == ':' && s[i + 1] == ':')
    &&& s.len() > 0 ==> s[0] != ':' && s.last() != ':'
}

proof fn lemma_single_colons(parts: Seq<Seq<char>>)
    requires
        solid_parts(parts),
    ensures
        single_colons(joined(parts, ':')),
        parts.len() > 0 ==> joined(parts, ':').len() > 0 && split(joined(parts, ':'), ':') == parts,
        parts.len() == 0 ==> joined(parts, ':').len() == 0,
        colon_parts(joined(parts, ':')) == parts,
    decreases parts.len(),
{
    let s = joined(parts, ':');
    if parts.len() > 0 {
        assert forall|i: int| 0 <= i < parts.len() implies lacks(#[trigger] parts[i], ':') by {}
        join_then_split(parts, ':');
        let init = parts.drop_last();
        let last = parts[parts.len() - 1];
        assert(lacks(last, ':') && last.len() > 0);
        assert(last[0] != ':' && last[last.len() - 1] != ':');
        assert forall|i: int| 0 <= i < init.len() implies lacks(#[trigger] init[i], ':')
            && init[i].len() > 0 by {
            assert(init[i] == parts[i]);
        }
        lemma_single_colons(init);
        if parts.len() > 1 {
            let a = joined(init, ':');
            let n = a.len() as int;
            assert(s == a.push(':') + last);
            assert forall|i: int| 0 <= i < s.len() - 1 implies !(#[trigger] s[i] == ':' && s[i + 1]
                == ':') by {
                if i < n - 1 {
                    assert(s[i] == a[i] && s[i + 1] == a[i + 1]);
                } else if i == n - 1 {
                    assert(s[i] == a.last());
                } else if i == n {
                    assert(s[i + 1] == last[0]);
                } else {
                    assert(s[i] == last[i - n - 1]);
                }
            }
            assert(s[0] == a[0]);
            assert(s.last() == last[last.len() - 1]);
        } else {
            assert(s == last);
            assert forall|i: int| 0 <= i < s.len() - 1 implies !(#[trigger] s[i] == ':' && s[i + 1]
                == ':') by {
                assert(last[i] != ':');
            }
        }
    } else {
        assert(parts =~= Seq::empty());
    }
}

proof fn lemma_no_double(s: Seq<char>, i: int)
    requires
        single_colons(s),
        0 <= i,
    ensures
        double_colon(s, i) is None,
    decreases s.len() - i,
{
    if i + 1 < s.len() {
        assert(!(s[i] == ':' && s[i + 1] == ':'));
        lemma_no_double(s, i + 1);
    }
}

proof fn lemma_double(h: Seq<char>, t: Seq<char>, i: int)
    requires
        single_colons(h),
        0 <= i <= h.len(),
    ensures
        double_colon(h + seq![':', ':'] + t, i) == Some(h.len() as int),
    decreases h.len() - i,
{
    let s = h + seq![':', ':'] + t;
    let n = h.len() as int;
    assert(s[n] == ':' && s[n + 1] == ':');
    if i < n {
        assert(s[i] == h[i]);
        if i + 1 < n {
            assert(s[i + 1] == h[i + 1]);
            assert(!(h[i] == ':' && h[i + 1] == ':'));
        } else {
            assert(h.last() == h[i]);
        }
        lemma_double(h, t, i + 1);
    }
}

/// An IPv6 address is read from eight hexadecimal groups with colons between them, or
/// from six and an IPv4 address: its octets are those that they write.
pub proof fn full_ipv6_text(
    parts: Seq<Seq<char>>,
    octets: Seq<u8>,
    vs: Seq<u16>,
    dotted: Seq<u8>,
)
    requires
        write_octets(parts, octets, vs, dotted),
        octets.len() == 16,
    ensures
        ipv6_octets(joined(parts, ':')) == Some(octets),
{
    lemma_write_octets(parts, octets, vs, dotted);
    lemma_single_colons(parts);
    lemma_no_double(joined(parts, ':'), 0);
}

/// A `::` in an IPv6 address stands for as many zero octets as are missing, if that is
/// at least one group: in front are the octets of the groups before it, at the end
/// those of the groups behind it, of which the last two may be an IPv4 address.
pub proof fn shortened_ipv6_text(
    head: Seq<Seq<char>>,
    hv: Seq<u16>,
    tail: Seq<Seq<char>>,
    octets: Seq<u8>,
    tv: Seq<u16>,
    dotted: Seq<u8>,
)
    requires
        write_groups(head, hv),
        write_octets(tail, octets, tv, dotted),
    ensures
        ({
            let s = joined(head, ':') + seq![':', ':'] + joined(tail, ':');
            let n = 2 * hv.len();
            let m = octets.len();
            &&& n + m > 14 ==> ipv6_octets(s) is None
            &&& n + m <= 14 ==> (ipv6_octets(s) matches Some(b) && b.len() == 16 && b.take(n as int)
                == group_bytes(hv) && b.skip(16 - m) == octets && (forall|i: int|
                n <= i < 16 - m ==> #[trigger] b[i] == 0))
        }),
{
    let h = joined(head, ':');
    let t = joined(tail, ':');
    let s = h + seq![':', ':'] + t;
    let first = group_bytes(hv);
    lemma_groups(head, hv);
    assert forall|i: int| 0 <= i < head.len() implies lacks(#[trigger] head[i], ':')
        && head[i].len() > 0 by {
        lemma_group_lacks(head[i], hv[i]);
    }
    lemma_write_octets(tail, octets, tv, dotted);
    lemma_single_colons(head);
    lemma_single_colons(tail);
    lemma_double(h, t, 0);
    assert(s.take(h.len() as int) =~= h);
    assert(s.skip(h.len() as int + 2) =~= t);
    if first.len() + octets.len() <= 14 {
        let b = ipv6_octets(s)->0;
        assert(b.take(first.len() as int) =~= first);
        assert(b.skip(16 - octets.len()) =~= octets);
    }
}

proof fn lemma_groups_written(parts: Seq<Seq<char>>) -> (vs: Seq<u16>)
    requires
        groups(parts) is Some,
    ensures
        write_groups(parts, vs),
        groups(parts) == Some(group_bytes(vs)),
    decreases parts.len(),
{
    if parts.len() == 0 {
        let vs = Seq::<u16>::empty();
        lemma_groups(parts, vs);
        vs
    } else {
        let n = parts.len() - 1;
        let init = lemma_groups_written(parts.drop_last());
        let g = group(parts.last())->0;
        let v = (g[0] * 256 + g[1]) as u16;
        group_texts(parts.last(), v);
        let vs = init.push(v);
        assert forall|i: int| 0 <= i < parts.len() implies writes_group(
            #[trigger] parts[i],
            vs[i],
        ) by {
            if i < n {
                assert(parts.drop_last()[i] == parts[i]);
            } else {
                assert(parts.last() == parts[i]);
            }
        }
        lemma_groups(parts, vs);
        vs
    }
}

proof fn lemma_octets_written(parts: Seq<Seq<char>>) -> (r: (Seq<u16>, Seq<u8>))
    requires
        groups_ipv4(parts) is Some,
    ensures
        write_octets(parts, groups_ipv4(parts)->0, r.0, r.1),
{
    if parts.len() > 0 && ipv4_octets(parts.last()) is Some {
        let vs = lemma_groups_written(parts.drop_last());
        let d = ipv4_octets(parts.last())->0;
        ipv4_is_four_octets(parts.last());
        (vs, d)
    } else {
        (lemma_groups_written(parts), Seq::empty())
    }
}

proof fn lemma_double_found(s: Seq<char>, i: int)
    requires
        0 <= i,
    ensures
        double_colon(s, i) matches Some(k) ==> i <= k && k + 1 < s.len() && s[k] == ':' && s[k + 1]
            == ':',
    decreases s.len() - i,
{
    if i + 1 < s.len() {
        lemma_double_found(s, i + 1);
    }
}

proof fn lemma_colon_parts(s: Seq<char>)
    ensures
        joined(colon_parts(s), ':') == s,
{
    if s.len() > 0 {
        split_then_join(s, ':');
    } else {
        assert(joined(colon_parts(s), ':') =~= s);
    }
}

/// How a text that is read as an IPv6 address is made up: what stands before its `::`
/// and behind it, or the whole in the latter if it has none.
pub ghost struct Ipv6Parts {
    pub short: bool,
    pub head: Seq<Seq<char>>,
    pub hv: Seq<u16>,
    pub tail: Seq<Seq<char>>,
    pub octets: Seq<u8>,
    pub tv: Seq<u16>,
    pub dotted: Seq<u8>,
}

/// A text is read as an IPv6 address only if it is one: it is made up of hexadecimal
/// groups, with an IPv4 address perhaps in place of the last two, and either there are
/// as many as it takes or one `::` stands for the rest.
pub proof fn ipv6_is_groups(s: Seq<char>) -> (p: Ipv6Parts)
    requires
        ipv6_octets(s) is Some,
    ensures
        write_groups(p.head, p.hv),
        write_octets(p.tail, p.octets, p.tv, p.dotted),
        p.short ==> s == joined(p.head, ':') + seq![':', ':'] + joined(p.tail, ':') && 2
            * p.hv.len() + p.octets.len() <= 14,
        !p.short ==> s == joined(p.tail, ':') && p.octets.len() == 16,
{
    match double_colon(s, 0) {
        None => {
            let tail = colon_parts(s);
            let (tv, dotted) = lemma_octets_written(tail);
            lemma_colon_parts(s);
            let none = Seq::<Seq<char>>::empty();
            Ipv6Parts {
                short: false,
                head: none,
                hv: Seq::empty(),
                tail,
                octets: groups_ipv4(tail)->0,
                tv,
                dotted,
            }
        },
        Some(i) => {
            lemma_double_found(s, 0);
            let head = colon_parts(s.take(i));
            let tail = colon_parts(s.skip(i + 2));
            let hv = lemma_groups_written(head);
            let (tv, dotted) = lemma_octets_written(tail);
            lemma_colon_parts(s.take(i));
            lemma_colon_parts(s.skip(i + 2));
            assert(s =~= s.take(i) + seq![':', ':'] + s.skip(i + 2));
            Ipv6Parts {
                short: true,
                head,
                hv,
                tail,
                octets: groups_ipv4(tail)->0,
                tv,
                dotted,
            }
        },
    }
}

} // verus!
