//! What the fields of a record in a zone file say, by its type (RFC 1035 §3.3,
//! RFC 3596 §2).

use vstd::prelude::*;

use super::addr::{ipv4_octets, ipv6_octets};
use super::addr_laws::{ipv4_text, ipv4_texts};
use super::message::DataModel;
use super::zone::{quoted, record_data, resolved};
use crate::text::{decimal, joined, lemma_split_nonempty, split, trimmed};
use crate::text_laws::{decimal_text, digit_char, lacks, numbers_are_read, splitting};

verus! {

/// Whether the fields of a record are read as `data`.
pub open spec fn reads(
    rtype: Seq<char>,
    rdata: Seq<Seq<char>>,
    origin: Seq<char>,
    owner: Seq<char>,
    data: DataModel,
) -> bool {
    record_data(rtype, rdata, origin, owner) == Ok::<_, Seq<char>>(Some(data))
}

/// Whether the fields of a record are refused with a message.
pub open spec fn refuses(
    rtype: Seq<char>,
    rdata: Seq<Seq<char>>,
    origin: Seq<char>,
    owner: Seq<char>,
    message: Seq<char>,
) -> bool {
    record_data(rtype, rdata, origin, owner) == Err::<Option<DataModel>, _>(message)
}

/// The names of the types are all different, and no other text names a type.
proof fn lemma_types()
    ensures
        "A"@.len() == 1,
        "NS"@.len() == 2 && "NS"@[0] == 'N',
        "MX"@.len() == 2 && "MX"@[0] == 'M',
        "PTR"@.len() == 3 && "PTR"@[0] == 'P',
        "TXT"@.len() == 3 && "TXT"@[0] == 'T',
        "SOA"@.len() == 3 && "SOA"@[0] == 'S',
        "AAAA"@.len() == 4,
        "CNAME"@.len() == 5,
{
    reveal_strlit("A");
    reveal_strlit("NS");
    reveal_strlit("MX");
    reveal_strlit("PTR");
    reveal_strlit("TXT");
    reveal_strlit("SOA");
    reveal_strlit("AAAA");
    reveal_strlit("CNAME");
}

/// A record of type A has the octets that its first field writes. Without a field, or
/// with one that is no IPv4 address, it is refused.
pub proof fn a_fields(
    rdata: Seq<Seq<char>>,
    origin: Seq<char>,
    owner: Seq<char>,
    a: u8,
    b: u8,
    c: u8,
    d: u8,
)
    ensures
        rdata.len() == 0 ==> refuses("A"@, rdata, origin, owner, "A: missing address"@),
        rdata.len() > 0 && rdata[0] == ipv4_text(a, b, c, d) ==> reads(
            "A"@,
            rdata,
            origin,
            owner,
            DataModel::A(seq![a, b, c, d]),
        ),
        rdata.len() > 0 && ipv4_octets(rdata[0]) is None ==> refuses(
            "A"@,
            rdata,
            origin,
            owner,
            "A: invalid address: "@ + rdata[0],
        ),
{
    lemma_types();
    if rdata.len() > 0 {
        ipv4_texts(rdata[0], a, b, c, d);
    }
}

/// A record of type AAAA has the octets that its first field writes. Without a field,
/// or with one that is no IPv6 address, it is refused.
pub proof fn aaaa_fields(rdata: Seq<Seq<char>>, origin: Seq<char>, owner: Seq<char>)
    ensures
        rdata.len() == 0 ==> refuses("AAAA"@, rdata, origin, owner, "AAAA: missing address"@),
        rdata.len() > 0 && ipv6_octets(rdata[0]) is Some ==> reads(
            "AAAA"@,
            rdata,
            origin,
            owner,
            DataModel::Aaaa(ipv6_octets(rdata[0])->0),
        ),
        rdata.len() > 0 && ipv6_octets(rdata[0]) is None ==> refuses(
            "AAAA"@,
            rdata,
            origin,
            owner,
            "AAAA: invalid address: "@ + rdata[0],
        ),
{
    lemma_types();
}

/// A record of type NS, CNAME or PTR has the name that its first field stands for.
/// Without a field it is refused.
pub proof fn name_fields(rdata: Seq<Seq<char>>, origin: Seq<char>, owner: Seq<char>)
    ensures
        rdata.len() > 0 ==> reads(
            "NS"@,
            rdata,
            origin,
            owner,
            DataModel::Ns(resolved(rdata[0], origin)),
        ),
        rdata.len() > 0 ==> reads(
            "CNAME"@,
            rdata,
            origin,
            owner,
            DataModel::Cname(resolved(rdata[0], origin)),
        ),
        rdata.len() > 0 ==> reads(
            "PTR"@,
            rdata,
            origin,
            owner,
            DataModel::Ptr(resolved(rdata[0], origin)),
        ),
        rdata.len() == 0 ==> refuses("NS"@, rdata, origin, owner, "NS: missing nameserver"@),
        rdata.len() == 0 ==> refuses("CNAME"@, rdata, origin, owner, "CNAME: missing target"@),
        rdata.len() == 0 ==> refuses("PTR"@, rdata, origin, owner, "PTR: missing target"@),
{
    lemma_types();
}

/// A record of type MX has the number in its first field as its priority, and the name
/// that the second stands for as its exchange. A number above 65535, something else in
/// its place, or a field too few has it refused.
pub proof fn mx_fields(rdata: Seq<Seq<char>>, origin: Seq<char>, owner: Seq<char>, n: u16)
    ensures
        rdata.len() >= 2 && rdata[0] == decimal_text(n as nat) ==> reads(
            "MX"@,
            rdata,
            origin,
            owner,
            (DataModel::Mx { priority: n, exchange: resolved(rdata[1], origin) }),
        ),
        rdata.len() >= 2 && decimal(rdata[0], 65535) is Some ==> reads(
            "MX"@,
            rdata,
            origin,
            owner,
            (DataModel::Mx {
                priority: decimal(rdata[0], 65535)->0 as u16,
                exchange: resolved(rdata[1], origin),
            }),
        ),
        rdata.len() == 0 ==> refuses("MX"@, rdata, origin, owner, "MX: missing priority"@),
        rdata.len() > 0 && decimal(rdata[0], 65535) is None ==> refuses(
            "MX"@,
            rdata,
            origin,
            owner,
            "MX: invalid priority"@,
        ),
        rdata.len() == 1 && decimal(rdata[0], 65535) is Some ==> refuses(
            "MX"@,
            rdata,
            origin,
            owner,
            "MX: missing exchange"@,
        ),
{
    lemma_types();
    numbers_are_read(n as nat, 65535, Seq::empty());
}

/// Whether field `i` is a number that 32 bits can hold.
pub open spec fn is_number(rdata: Seq<Seq<char>>, i: int) -> bool {
    decimal(rdata[i], 0xffff_ffff) is Some
}

/// The number in field `i`.
pub open spec fn number(rdata: Seq<Seq<char>>, i: int) -> u32 {
    decimal(rdata[i], 0xffff_ffff)->0 as u32
}

/// A record of type SOA has the names that its first two fields stand for, and the
/// numbers in the next five. Fewer fields, and the first that should be a number and is
/// none, have it refused.
pub proof fn soa_fields(rdata: Seq<Seq<char>>, origin: Seq<char>, owner: Seq<char>)
    ensures
        rdata.len() >= 7 && is_number(rdata, 2) && is_number(rdata, 3) && is_number(rdata, 4)
            && is_number(rdata, 5) && is_number(rdata, 6) ==> reads(
            "SOA"@,
            rdata,
            origin,
            owner,
            (DataModel::Soa {
                mname: resolved(rdata[0], origin),
                rname: resolved(rdata[1], origin),
                serial: number(rdata, 2),
                refresh: number(rdata, 3),
                retry: number(rdata, 4),
                expire: number(rdata, 5),
                minimum: number(rdata, 6),
            }),
        ),
        rdata.len() < 7 ==> refuses(
            "SOA"@,
            rdata,
            origin,
            owner,
            "SOA for '"@ + owner + "': need 7 fields, got "@ + decimal_text(rdata.len()),
        ),
        rdata.len() >= 7 && !is_number(rdata, 2) ==> refuses(
            "SOA"@,
            rdata,
            origin,
            owner,
            "SOA: invalid serial"@,
        ),
        rdata.len() >= 7 && is_number(rdata, 2) && !is_number(rdata, 3) ==> refuses(
            "SOA"@,
            rdata,
            origin,
            owner,
            "SOA: invalid refresh"@,
        ),
        rdata.len() >= 7 && is_number(rdata, 2) && is_number(rdata, 3) && !is_number(rdata, 4)
            ==> refuses("SOA"@, rdata, origin, owner, "SOA: invalid retry"@),
        rdata.len() >= 7 && is_number(rdata, 2) && is_number(rdata, 3) && is_number(rdata, 4)
            && !is_number(rdata, 5) ==> refuses(
            "SOA"@,
            rdata,
            origin,
            owner,
            "SOA: invalid expire"@,
        ),
        rdata.len() >= 7 && is_number(rdata, 2) && is_number(rdata, 3) && is_number(rdata, 4)
            && is_number(rdata, 5) && !is_number(rdata, 6) ==> refuses(
            "SOA"@,
            rdata,
            origin,
            owner,
            "SOA: invalid minimum"@,
        ),
{
    lemma_types();
    if rdata.len() < 7 {
        assert(decimal_text(rdata.len()) =~= seq![digit_char(rdata.len() as int)]);
    }
}

/// A record of any other type has no data that are read.
pub proof fn other_fields(
    rtype: Seq<char>,
    rdata: Seq<Seq<char>>,
    origin: Seq<char>,
    owner: Seq<char>,
)
    ensures
        record_data(rtype, rdata, origin, owner) == Ok::<_, Seq<char>>(None::<DataModel>) <==> {
            &&& rtype != "A"@
            &&& rtype != "AAAA"@
            &&& rtype != "NS"@
            &&& rtype != "CNAME"@
            &&& rtype != "PTR"@
            &&& rtype != "MX"@
            &&& rtype != "TXT"@
            &&& rtype != "SOA"@
        },
{
    lemma_types();
}

// ── TXT ─────────────────────────────────────────────────────────────────────

proof fn lemma_quoted(gap: Seq<char>, text: Seq<char>, rest: Seq<char>)
    requires
        lacks(gap, '"'),
        lacks(text, '"'),
    ensures
        quoted(gap + seq!['"'] + text + seq!['"'] + rest) == seq![text] + quoted(rest),
        quoted(gap).len() == 0,
        quoted(gap + seq!['"'] + text).len() == 0,
{
    let q = seq!['"'];
    let none = Seq::<char>::empty();
    let behind = text + q + rest;
    splitting(gap, behind, '"');
    splitting(text, rest, '"');
    splitting(gap, text, '"');
    lemma_split_nonempty(rest, '"');
    let whole = gap + q + text + q + rest;
    assert(whole =~= gap + q + behind);
    let p = split(rest, '"');
    let all = seq![gap] + (seq![text] + p);
    assert(all.len() == p.len() + 2);
    assert((all.len() - 1) / 2 == (p.len() - 1) / 2 + 1);
    assert(quoted(whole) =~= seq![text] + quoted(rest)) by {
        assert forall|k: int| 0 <= k < quoted(whole).len() implies quoted(whole)[k] == (seq![text]
            + quoted(rest))[k] by {
            if k > 0 {
                assert(all[2 * k + 1] == p[2 * (k - 1) + 1]);
            } else {
                assert(all[1] == text);
            }
        }
    }
}

/// The texts in quotes, with what stands before, between and behind them.
pub open spec fn in_quotation(texts: Seq<Seq<char>>, gaps: Seq<Seq<char>>) -> Seq<char>
    decreases texts.len(),
{
    if texts.len() == 0 {
        gaps[0]
    } else {
        gaps[0] + seq!['"'] + texts[0] + seq!['"'] + in_quotation(
            texts.drop_first(),
            gaps.drop_first(),
        )
    }
}

proof fn lemma_quotation(texts: Seq<Seq<char>>, gaps: Seq<Seq<char>>)
    requires
        gaps.len() == texts.len() + 1,
        forall|i: int| 0 <= i < texts.len() ==> lacks(#[trigger] texts[i], '"'),
        forall|i: int| 0 <= i < gaps.len() ==> lacks(#[trigger] gaps[i], '"'),
    ensures
        quoted(in_quotation(texts, gaps)) == texts,
    decreases texts.len(),
{
    let none = Seq::<char>::empty();
    assert(lacks(gaps[0], '"'));
    if texts.len() == 0 {
        lemma_quoted(gaps[0], none, none);
        assert(quoted(in_quotation(texts, gaps)) =~= texts);
    } else {
        let more = texts.drop_first();
        let later = gaps.drop_first();
        assert(lacks(texts[0], '"'));
        assert forall|i: int| 0 <= i < more.len() implies lacks(#[trigger] more[i], '"') by {
            assert(more[i] == texts[i + 1]);
        }
        assert forall|i: int| 0 <= i < later.len() implies lacks(#[trigger] later[i], '"') by {
            assert(later[i] == gaps[i + 1]);
        }
        lemma_quotation(more, later);
        lemma_quoted(gaps[0], texts[0], in_quotation(more, later));
        assert(seq![texts[0]] + more =~= texts);
    }
}

/// A record of type TXT has the texts that stand in quotes in its fields, which are
/// taken with single spaces between them: each character for character, in order, and
/// nothing of what stands outside the quotes.
pub proof fn quoted_txt_fields(
    rdata: Seq<Seq<char>>,
    origin: Seq<char>,
    owner: Seq<char>,
    texts: Seq<Seq<char>>,
    gaps: Seq<Seq<char>>,
)
    requires
        texts.len() > 0,
        gaps.len() == texts.len() + 1,
        forall|i: int| 0 <= i < texts.len() ==> lacks(#[trigger] texts[i], '"'),
        forall|i: int| 0 <= i < gaps.len() ==> lacks(#[trigger] gaps[i], '"'),
        joined(rdata, ' ') == in_quotation(texts, gaps),
    ensures
        reads("TXT"@, rdata, origin, owner, DataModel::Txt(texts)),
{
    lemma_types();
    lemma_quotation(texts, gaps);
}

/// A record of type TXT whose fields are one quoted text has that text, character for
/// character.
pub proof fn one_quoted_text(
    rdata: Seq<Seq<char>>,
    origin: Seq<char>,
    owner: Seq<char>,
    text: Seq<char>,
)
    requires
        lacks(text, '"'),
        joined(rdata, ' ') == seq!['"'] + text + seq!['"'],
    ensures
        reads("TXT"@, rdata, origin, owner, DataModel::Txt(seq![text])),
{
    let none = Seq::<char>::empty();
    let q = seq!['"'];
    lemma_types();
    lemma_quoted(none, text, none);
    lemma_quoted(none, none, none);
    assert(none + q + text + q + none =~= q + text + q);
    assert(quoted(none) =~= Seq::<Seq<char>>::empty());
    assert(seq![text] + Seq::<Seq<char>>::empty() =~= seq![text]);
}

/// A record of type TXT without a quoted text has its fields as one text, with single
/// spaces between them and without white space around them; none if there are none. A
/// quote that is not closed quotes nothing.
pub proof fn unquoted_txt_fields(
    rdata: Seq<Seq<char>>,
    origin: Seq<char>,
    owner: Seq<char>,
    gap: Seq<char>,
    text: Seq<char>,
)
    requires
        lacks(gap, '"'),
        lacks(text, '"'),
        joined(rdata, ' ') == gap || joined(rdata, ' ') == gap + seq!['"'] + text,
    ensures
        trimmed(joined(rdata, ' ')).len() > 0 ==> reads(
            "TXT"@,
            rdata,
            origin,
            owner,
            DataModel::Txt(seq![trimmed(joined(rdata, ' '))]),
        ),
        trimmed(joined(rdata, ' ')).len() == 0 ==> reads(
            "TXT"@,
            rdata,
            origin,
            owner,
            DataModel::Txt(Seq::empty()),
        ),
{
    lemma_types();
    lemma_quoted(gap, text, Seq::empty());
}

} // verus!
