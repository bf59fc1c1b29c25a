//! What stands where in a message (RFC 1035 §4, §3.3; RFC 3596 §2).

use vstd::arithmetic::div_mod::lemma_fundamental_div_mod_converse;
use vstd::prelude::*;
use vstd::utf8::{
    encode_utf8, encode_utf8_decode_utf8, encode_utf8_valid_utf8, is_ascii_chars,
    is_ascii_chars_encode_utf8, valid_utf8,
};

use super::message::{
    chunks_bytes, flags_aa, flags_opcode, flags_qr, flags_rcode, flags_rd, formerr_bytes,
    header_bytes, header_of, message_of, questions_at, questions_bytes, records_bytes,
    response_flags, strings_bytes, text_bytes, DataModel, MessageModel, ParseError, QuestionModel,
    RecordModel, RecordType,
};
use super::name::{labels_at, labels_bytes, lemma_labels_bytes_first, name_at, name_bytes, name_end};
use super::wire::{be32, be32_value, count16};
use crate::text::{joined, lowercase, split, undotted};
use crate::text_laws::{lacks, splitting};

verus! {

// ── Types and flags ─────────────────────────────────────────────────────────

/// The numbers of the record types (RFC 1035 §3.2.2, RFC 3596 §2.1).
pub proof fn type_numbers()
    ensures
        RecordType::A.code() == 1,
        RecordType::Ns.code() == 2,
        RecordType::Cname.code() == 5,
        RecordType::Soa.code() == 6,
        RecordType::Ptr.code() == 12,
        RecordType::Mx.code() == 15,
        RecordType::Txt.code() == 16,
        RecordType::Aaaa.code() == 28,
        RecordType::Any.code() == 255,
{
}

/// The type of a record is that of its data.
pub proof fn data_types(
    bytes: Seq<u8>,
    name: Seq<char>,
    n: u16,
    other: Seq<char>,
    a: u32,
    b: u32,
    c: u32,
    d: u32,
    e: u32,
    strings: Seq<Seq<char>>,
)
    ensures
        DataModel::A(bytes).rtype().code() == 1,
        DataModel::Ns(name).rtype().code() == 2,
        DataModel::Cname(name).rtype().code() == 5,
        (DataModel::Soa {
            mname: name,
            rname: other,
            serial: a,
            refresh: b,
            retry: c,
            expire: d,
            minimum: e,
        }).rtype().code() == 6,
        DataModel::Ptr(name).rtype().code() == 12,
        (DataModel::Mx { priority: n, exchange: name }).rtype().code() == 15,
        DataModel::Txt(strings).rtype().code() == 16,
        DataModel::Aaaa(bytes).rtype().code() == 28,
{
}

/// The flags are, from the most significant bit on: QR, four bits of opcode, AA, TC,
/// RD, RA, three bits Z, and four bits of response code.
pub proof fn flags_layout(
    qr: bool,
    opcode: int,
    aa: bool,
    tc: bool,
    rd: bool,
    ra: bool,
    z: int,
    rcode: int,
    flags: u16,
)
    requires
        0 <= opcode < 16,
        0 <= z < 8,
        0 <= rcode < 16,
        flags == bit(qr) * 32768 + opcode * 2048 + bit(aa) * 1024 + bit(tc) * 512 + bit(rd) * 256
            + bit(ra) * 128 + z * 16 + rcode,
    ensures
        flags_qr(flags) == qr,
        flags_opcode(flags) == opcode,
        flags_aa(flags) == aa,
        flags_rd(flags) == rd,
        flags_rcode(flags) == rcode,
{
    let f = flags as int;
    let (q, a, t, r, u) = (bit(qr), bit(aa), bit(tc), bit(rd), bit(ra));
    let top = q * 16 + opcode;
    let low = t * 512 + r * 256 + u * 128 + z * 16 + rcode;
    let less = u * 128 + z * 16 + rcode;
    lemma_parts(f, top, a * 1024 + low, 2048);
    lemma_parts(f, top * 2 + a, low, 1024);
    lemma_parts(f, (top * 2 + a) * 4 + t * 2 + r, less, 256);
    assert(f == (((top * 2 + a) * 4 + t * 2 + r) * 16 + u * 8 + z) * 16 + rcode);
    lemma_parts(f, ((top * 2 + a) * 4 + t * 2 + r) * 16 + u * 8 + z, rcode, 16);
    lemma_parts(top, q, opcode, 16);
    lemma_parts((top * 2 + a), top, a, 2);
    lemma_parts((top * 2 + a) * 4 + t * 2 + r, (top * 2 + a) * 2 + t, r, 2);
}

proof fn lemma_parts(n: int, high: int, low: int, base: int)
    requires
        0 <= low < base,
        n == high * base + low,
    ensures
        n / base == high,
        n % base == low,
{
    lemma_fundamental_div_mod_converse(n, base, high, low);
}

/// The number of a bit.
pub open spec fn bit(b: bool) -> int {
    if b {
        1
    } else {
        0
    }
}

/// The flags of a response are QR, AA, the RD of the query and the response code, and
/// no other bit.
pub proof fn response_flags_value(flags: u16, rcode: u8)
    ensures
        response_flags(flags, rcode) == 0x8000 + 0x0400 + (flags / 256 % 2) * 256 + rcode,
{
    let rc: u16 = rcode as u16;
    assert(0x8400u16 | 0x0100u16 | rc == 0x8500 + rc) by (bit_vector)
        requires
            rc < 256,
    ;
    assert(0x8400u16 | 0u16 | rc == 0x8400 + rc) by (bit_vector)
        requires
            rc < 256,
    ;
}

/// The empty response to a query: its ID and questions, their number, and nothing in
/// the other sections.
pub proof fn empty_response(query: MessageModel, rcode: u8)
    ensures
        query.response(rcode).header.id == query.header.id,
        query.response(rcode).questions == query.questions,
        query.response(rcode).header.qdcount == query.questions.len() as int % 65536,
        query.response(rcode).header.ancount == 0,
        query.response(rcode).header.nscount == 0,
        query.response(rcode).header.arcount == 0,
        query.response(rcode).answers.len() == 0,
        query.response(rcode).authority.len() == 0,
        query.response(rcode).additional.len() == 0,
{
}

/// The FORMERR response byte by byte: the ID, the QR bit, response code 1, and zeros.
pub proof fn formerr_byte_by_byte(buf: Seq<u8>)
    requires
        buf.len() >= 2,
    ensures
        formerr_bytes(buf).len() == 12,
        formerr_bytes(buf)[0] == buf[0],
        formerr_bytes(buf)[1] == buf[1],
        formerr_bytes(buf)[2] == 128,
        formerr_bytes(buf)[3] == 1,
        forall|i: int| 4 <= i < 12 ==> #[trigger] formerr_bytes(buf)[i] == 0,
{
}

// ── Headers and sections ────────────────────────────────────────────────────

/// The header is six numbers of two bytes each: ID, flags, and the numbers of
/// questions, answers, authority and additional records.
pub proof fn header_layout(buf: Seq<u8>)
    requires
        buf.len() >= 12,
    ensures
        header_of(buf).id == buf[0] * 256 + buf[1],
        header_of(buf).flags == buf[2] * 256 + buf[3],
        header_of(buf).qdcount == buf[4] * 256 + buf[5],
        header_of(buf).ancount == buf[6] * 256 + buf[7],
        header_of(buf).nscount == buf[8] * 256 + buf[9],
        header_of(buf).arcount == buf[10] * 256 + buf[11],
{
}

/// A written message starts with its ID, its flags and the true numbers of its
/// questions and records, in two bytes each, most significant first. Of a number that
/// two bytes cannot hold, they hold what is left when 65536 is taken off.
pub proof fn written_header(m: MessageModel)
    ensures
        m.bytes().len() >= 12,
        m.bytes()[0] * 256 + m.bytes()[1] == m.header.id,
        m.bytes()[2] * 256 + m.bytes()[3] == m.header.flags,
        m.bytes()[4] * 256 + m.bytes()[5] == m.questions.len() as int % 65536,
        m.bytes()[6] * 256 + m.bytes()[7] == m.answers.len() as int % 65536,
        m.bytes()[8] * 256 + m.bytes()[9] == m.authority.len() as int % 65536,
        m.bytes()[10] * 256 + m.bytes()[11] == m.additional.len() as int % 65536,
{
    let h = m.header;
    let (q, a, n, d) = (m.questions.len(), m.answers.len(), m.authority.len(), m.additional.len());
    let rest = section_bytes(m);
    lemma_bytes(m);
    lemma_header_numbers(h.id, h.flags, count16(q), count16(a), count16(n), count16(d), rest);
}

proof fn lemma_header_numbers(
    id: u16,
    flags: u16,
    qd: u16,
    an: u16,
    ns: u16,
    ar: u16,
    rest: Seq<u8>,
)
    ensures
        ({
            let b = header_bytes(id, flags, qd, an, ns, ar) + rest;
            &&& b.len() == 12 + rest.len()
            &&& b[0] * 256 + b[1] == id
            &&& b[2] * 256 + b[3] == flags
            &&& b[4] * 256 + b[5] == qd
            &&& b[6] * 256 + b[7] == an
            &&& b[8] * 256 + b[9] == ns
            &&& b[10] * 256 + b[11] == ar
            &&& b.skip(12) == rest
        }),
{
    let b = header_bytes(id, flags, qd, an, ns, ar) + rest;
    assert(b.skip(12) =~= rest);
}

/// The sections of a message on the wire.
spec fn section_bytes(m: MessageModel) -> Seq<u8> {
    questions_bytes(m.questions) + (records_bytes(m.answers) + (records_bytes(m.authority)
        + records_bytes(m.additional)))
}

proof fn lemma_bytes(m: MessageModel)
    ensures
        m.bytes() == header_bytes(
            m.header.id,
            m.header.flags,
            count16(m.questions.len()),
            count16(m.answers.len()),
            count16(m.authority.len()),
            count16(m.additional.len()),
        ) + section_bytes(m),
{
    lemma_regroup(
        header_bytes(
            m.header.id,
            m.header.flags,
            count16(m.questions.len()),
            count16(m.answers.len()),
            count16(m.authority.len()),
            count16(m.additional.len()),
        ),
        questions_bytes(m.questions),
        records_bytes(m.answers),
        records_bytes(m.authority),
        records_bytes(m.additional),
    );
}

proof fn lemma_regroup(a: Seq<u8>, b: Seq<u8>, c: Seq<u8>, d: Seq<u8>, e: Seq<u8>)
    ensures
        a + b + c + d + e == a + (b + (c + (d + e))),
{
    assert(a + b + c + d + e =~= a + (b + (c + (d + e))));
}

proof fn lemma_rest(m: MessageModel)
    ensures
        m.bytes().len() >= 12,
        m.bytes().skip(12) == section_bytes(m),
{
    lemma_bytes(m);
    lemma_header_numbers(
        m.header.id,
        m.header.flags,
        count16(m.questions.len()),
        count16(m.answers.len()),
        count16(m.authority.len()),
        count16(m.additional.len()),
        section_bytes(m),
    );
}

proof fn lemma_records_push(records: Seq<RecordModel>, r: RecordModel)
    ensures
        records_bytes(Seq::empty()).len() == 0,
        records_bytes(records.push(r)) == records_bytes(records) + r.bytes(),
{
    assert(records.push(r).drop_last() =~= records);
}

proof fn lemma_append(a: Seq<u8>, b: Seq<u8>, c: Seq<u8>, d: Seq<u8>, more: Seq<u8>)
    ensures
        a + (b + (c + (d + more))) == a + (b + (c + d)) + more,
        c.len() == 0 && d.len() == 0 ==> a + ((b + more) + (c + d)) == a + (b + (c + d)) + more,
        d.len() == 0 ==> a + (b + ((c + more) + d)) == a + (b + (c + d)) + more,
        b.len() == 0 && c.len() == 0 && d.len() == 0 ==> (a + more) + (b + (c + d)) == a + (b + (c
            + d)) + more,
{
    assert(a + (b + (c + (d + more))) =~= a + (b + (c + d)) + more);
    if d.len() == 0 {
        assert(a + (b + ((c + more) + d)) =~= a + (b + (c + d)) + more);
        if c.len() == 0 {
            assert(a + ((b + more) + (c + d)) =~= a + (b + (c + d)) + more);
            if b.len() == 0 {
                assert((a + more) + (b + (c + d)) =~= a + (b + (c + d)) + more);
            }
        }
    }
}

/// Behind the header come the questions, the answers, the authority records and the
/// additional records, each section in its order: a further question, answer or
/// record stands behind what the message holds, if no later section holds anything.
pub proof fn sections_in_order(m: MessageModel, q: QuestionModel, r: RecordModel)
    ensures
        ({
            let none = Seq::<RecordModel>::empty();
            let bare = MessageModel { answers: none, authority: none, additional: none, ..m };
            let some = MessageModel { authority: none, additional: none, ..m };
            let more = MessageModel { additional: none, ..m };
            let empty = MessageModel { questions: Seq::empty(), ..bare };
            &&& empty.bytes().len() == 12
            &&& (MessageModel { questions: m.questions.push(q), ..bare }).bytes().skip(12)
                == bare.bytes().skip(12) + q.bytes()
            &&& (MessageModel { answers: m.answers.push(r), ..some }).bytes().skip(12)
                == some.bytes().skip(12) + r.bytes()
            &&& (MessageModel { authority: m.authority.push(r), ..more }).bytes().skip(12)
                == more.bytes().skip(12) + r.bytes()
            &&& (MessageModel { additional: m.additional.push(r), ..m }).bytes().skip(12)
                == m.bytes().skip(12) + r.bytes()
        }),
{
    let none = Seq::<RecordModel>::empty();
    let bare = MessageModel { answers: none, authority: none, additional: none, ..m };
    let some = MessageModel { authority: none, additional: none, ..m };
    let more = MessageModel { additional: none, ..m };
    let empty = MessageModel { questions: Seq::empty(), ..bare };
    lemma_rest(bare);
    lemma_rest(some);
    lemma_rest(more);
    lemma_rest(m);
    lemma_rest(empty);
    lemma_rest(MessageModel { questions: m.questions.push(q), ..bare });
    lemma_rest(MessageModel { answers: m.answers.push(r), ..some });
    lemma_rest(MessageModel { authority: m.authority.push(r), ..more });
    lemma_rest(MessageModel { additional: m.additional.push(r), ..m });
    lemma_records_push(m.answers, r);
    lemma_records_push(m.authority, r);
    lemma_records_push(m.additional, r);
    assert(m.questions.push(q).drop_last() =~= m.questions);
    let (qs, an, ns, ar) = (
        questions_bytes(m.questions),
        records_bytes(m.answers),
        records_bytes(m.authority),
        records_bytes(m.additional),
    );
    let nil = records_bytes(none);
    lemma_append(qs, nil, nil, nil, q.bytes());
    lemma_append(qs, an, nil, nil, r.bytes());
    lemma_append(qs, an, ns, nil, r.bytes());
    lemma_append(qs, an, ns, ar, r.bytes());
}

/// A question is its name, then its type and its class, in two bytes each.
pub proof fn question_layout(q: QuestionModel)
    ensures
        ({
            let n = name_bytes(q.name).len() as int;
            &&& q.bytes().len() == n + 4
            &&& q.bytes().take(n) == name_bytes(q.name)
            &&& q.bytes()[n] * 256 + q.bytes()[n + 1] == q.qtype
            &&& q.bytes()[n + 2] * 256 + q.bytes()[n + 3] == q.qclass
        }),
{
    assert(q.bytes().take(name_bytes(q.name).len() as int) =~= name_bytes(q.name));
}

/// A record is its name, then its type, its class, its TTL and the length of its data,
/// in two, two, four and two bytes, most significant first, and then its data.
pub proof fn record_layout(r: RecordModel)
    ensures
        ({
            let n = name_bytes(r.name).len() as int;
            let b = r.bytes();
            &&& b.len() == n + 10 + r.data.bytes().len()
            &&& b.take(n) == name_bytes(r.name)
            &&& b[n] * 256 + b[n + 1] == r.data.rtype().code()
            &&& b[n + 2] * 256 + b[n + 3] == r.class
            &&& b[n + 4] * 0x100_0000 + b[n + 5] * 0x1_0000 + b[n + 6] * 256 + b[n + 7] == r.ttl
            &&& b[n + 8] * 256 + b[n + 9] == r.data.bytes().len() as int % 65536
            &&& b.skip(n + 10) == r.data.bytes()
        }),
{
    let n = name_bytes(r.name).len() as int;
    let b = r.bytes();
    assert(b.take(n) =~= name_bytes(r.name));
    assert(b.skip(n + 10) =~= r.data.bytes());
    be32_value(r.ttl);
    let t = be32(r.ttl);
    assert(b[n + 4] == t[0] && b[n + 5] == t[1] && b[n + 6] == t[2] && b[n + 7] == t[3]);
}

// ── Record data ─────────────────────────────────────────────────────────────

/// The data of address records are the octets; those of NS, CNAME and PTR records the
/// name; those of an MX record the priority in two bytes, then the name.
pub proof fn data_layout(octets: Seq<u8>, name: Seq<char>, priority: u16)
    ensures
        DataModel::A(octets).bytes() == octets,
        DataModel::Aaaa(octets).bytes() == octets,
        DataModel::Ns(name).bytes() == name_bytes(name),
        DataModel::Cname(name).bytes() == name_bytes(name),
        DataModel::Ptr(name).bytes() == name_bytes(name),
        ({
            let b = (DataModel::Mx { priority, exchange: name }).bytes();
            &&& b.len() == 2 + name_bytes(name).len()
            &&& b[0] * 256 + b[1] == priority
            &&& b.skip(2) == name_bytes(name)
        }),
{
    let b = (DataModel::Mx { priority, exchange: name }).bytes();
    assert(b.skip(2) =~= name_bytes(name));
}

/// The number in four bytes at `i`, most significant first.
pub open spec fn number32(b: Seq<u8>, i: int) -> int {
    b[i] * 0x100_0000 + b[i + 1] * 0x1_0000 + b[i + 2] * 256 + b[i + 3]
}

proof fn lemma_number32(before: Seq<u8>, v: u32, behind: Seq<u8>)
    ensures
        number32(before + be32(v) + behind, before.len() as int) == v,
{
    let b = before + be32(v) + behind;
    let n = before.len() as int;
    be32_value(v);
    assert(b[n] == be32(v)[0] && b[n + 1] == be32(v)[1] && b[n + 2] == be32(v)[2] && b[n + 3]
        == be32(v)[3]);
}

/// The data of an SOA record are the two names and then serial, refresh, retry, expire
/// and minimum, in four bytes each.
pub proof fn soa_layout(
    mname: Seq<char>,
    rname: Seq<char>,
    serial: u32,
    refresh: u32,
    retry: u32,
    expire: u32,
    minimum: u32,
)
    ensures
        ({
            let b = (DataModel::Soa {
                mname,
                rname,
                serial,
                refresh,
                retry,
                expire,
                minimum,
            }).bytes();
            let n = (name_bytes(mname).len() + name_bytes(rname).len()) as int;
            &&& b.len() == n + 20
            &&& b.take(n) == name_bytes(mname) + name_bytes(rname)
            &&& number32(b, n) == serial
            &&& number32(b, n + 4) == refresh
            &&& number32(b, n + 8) == retry
            &&& number32(b, n + 12) == expire
            &&& number32(b, n + 16) == minimum
        }),
{
    let names = name_bytes(mname) + name_bytes(rname);
    let b = DataModel::Soa { mname, rname, serial, refresh, retry, expire, minimum }.bytes();
    let n = names.len() as int;
    assert(b.take(n) =~= names);
    let s1 = names + be32(serial);
    let s2 = s1 + be32(refresh);
    let s3 = s2 + be32(retry);
    let s4 = s3 + be32(expire);
    let none = Seq::<u8>::empty();
    lemma_number32(names, serial, be32(refresh) + be32(retry) + be32(expire) + be32(minimum));
    assert(b =~= names + be32(serial) + (be32(refresh) + be32(retry) + be32(expire) + be32(
        minimum,
    )));
    lemma_number32(s1, refresh, be32(retry) + be32(expire) + be32(minimum));
    assert(b =~= s1 + be32(refresh) + (be32(retry) + be32(expire) + be32(minimum)));
    lemma_number32(s2, retry, be32(expire) + be32(minimum));
    assert(b =~= s2 + be32(retry) + (be32(expire) + be32(minimum)));
    lemma_number32(s3, expire, be32(minimum));
    assert(b =~= s3 + be32(expire) + be32(minimum));
    lemma_number32(s4, minimum, none);
    assert(b =~= s4 + be32(minimum) + none);
}

/// The smaller of two numbers.
pub open spec fn least(a: int, b: int) -> int {
    if a <= b {
        a
    } else {
        b
    }
}

proof fn lemma_chunks(b: Seq<u8>)
    ensures
        chunks_bytes(b).len() == b.len() + (b.len() + 254) / 255,
        forall|i: int| 0 <= i < b.len() ==> chunks_bytes(b)[#[trigger] place(i)] == b[i],
        forall|k: int|
            0 <= k && 255 * k < b.len() ==> chunks_bytes(b)[#[trigger] (256 * k)] == least(
                255,
                b.len() - 255 * k,
            ),
    decreases b.len(),
{
    let c = chunks_bytes(b);
    if b.len() > 0 {
        let n = least(255, b.len() as int);
        let rest = b.skip(n);
        let tail = chunks_bytes(rest);
        lemma_chunks(rest);
        assert(c == seq![n as u8] + b.take(n) + tail);
        assert forall|i: int| 0 <= i < b.len() implies c[#[trigger] place(i)] == b[i] by {
            if i < n {
                assert(place(i) == i + 1);
                assert(c[i + 1] == b.take(n)[i]);
            } else {
                assert(n == 255);
                let j = i - 255;
                assert(place(i) == 256 + place(j)) by {
                    assert(i / 255 == j / 255 + 1);
                }
                assert(tail[place(j)] == rest[j]);
                assert(rest[j] == b[i]);
                assert(c[256 + place(j)] == tail[place(j)]);
            }
        }
        assert forall|k: int| 0 <= k && 255 * k < b.len() implies c[#[trigger] (256 * k)] == least(
            255,
            b.len() - 255 * k,
        ) by {
            if k > 0 {
                assert(n == 255);
                assert(tail[256 * (k - 1)] == least(255, rest.len() - 255 * (k - 1)));
                assert(c[256 + 256 * (k - 1)] == tail[256 * (k - 1)]);
            }
        }
        if b.len() > 255 {
            assert((b.len() + 254) / 255 == (rest.len() + 254) / 255 + 1);
        } else {
            assert((b.len() + 254) / 255 == 1);
        }
    }
}

/// Where byte `i` of a text stands in the data of a TXT record: each 255 bytes have a
/// length byte in front.
pub open spec fn place(i: int) -> int {
    i + i / 255 + 1
}

/// TXT data of one text: its bytes in order and unchanged, with a length byte in front
/// of every 255 of them and of what is left; a zero byte if the text is empty. TXT
/// data of more texts are those of each, one behind the other.
pub proof fn txt_layout(text: Seq<char>, more: Seq<Seq<char>>)
    ensures
        ({
            let t = encode_utf8(text);
            let b = DataModel::Txt(seq![text]).bytes();
            let n = t.len() as int;
            &&& n == 0 ==> b == seq![0u8]
            &&& n > 0 ==> b.len() == n + (n + 254) / 255
            &&& forall|i: int| 0 <= i < n ==> b[#[trigger] place(i)] == t[i]
            &&& forall|k: int|
                0 <= k && 255 * k < n ==> b[#[trigger] (256 * k)] == least(255, n - 255 * k)
        }),
        DataModel::Txt(Seq::empty()).bytes().len() == 0,
        DataModel::Txt(more.push(text)).bytes() == DataModel::Txt(more).bytes() + DataModel::Txt(
            seq![text],
        ).bytes(),
{
    let t = encode_utf8(text);
    let one = seq![text];
    let none = Seq::<Seq<char>>::empty();
    assert(one.drop_last() =~= none);
    assert(strings_bytes(none) =~= Seq::<u8>::empty());
    assert(one.last() == text);
    assert(strings_bytes(one) =~= text_bytes(t));
    lemma_chunks(t);
    assert(more.push(text).drop_last() =~= more);
    assert(more.push(text).last() == text);
}

// ── Names ───────────────────────────────────────────────────────────────────

/// A name is written as its labels: the length of the label in bytes, its bytes in
/// UTF-8, and so on; a zero byte ends it. A dot at the end changes nothing.
pub proof fn name_layout(label: Seq<char>, rest: Seq<char>, name: Seq<char>)
    requires
        lacks(label, '.'),
        rest.len() > 0,
        rest.last() != '.',
    ensures
        name_bytes(Seq::empty()) == seq![0u8],
        label.len() > 0 ==> name_bytes(label) == seq![(encode_utf8(label).len() % 256) as u8]
            + encode_utf8(label) + seq![0u8],
        name_bytes(label + seq!['.'] + rest) == seq![(encode_utf8(label).len() % 256) as u8]
            + encode_utf8(label) + name_bytes(rest),
        name_bytes(name.push('.')) == name_bytes(name),
{
    let none = Seq::<char>::empty();
    assert(undotted(none) =~= none);
    assert(labels_bytes(Seq::empty()) =~= Seq::<u8>::empty());
    assert(name_bytes(none) =~= seq![0u8]);
    assert(name.push('.').drop_last() =~= name);
    splitting(label, rest, '.');
    assert(undotted(rest) == rest);
    if label.len() > 0 {
        assert(label.last() == label[label.len() - 1]);
        assert(undotted(label) == label);
        lemma_labels_bytes_first(seq![label]);
        assert(seq![label].drop_first() =~= Seq::empty());
        assert(name_bytes(label) =~= seq![(encode_utf8(label).len() % 256) as u8] + encode_utf8(
            label,
        ) + seq![0u8]);
    }
    let whole = label + seq!['.'] + rest;
    assert(whole.last() == rest.last());
    assert(undotted(whole) == whole);
    let all = seq![label] + split(rest, '.');
    lemma_labels_bytes_first(all);
    assert(all.drop_first() =~= split(rest, '.'));
    assert(name_bytes(whole) =~= seq![(encode_utf8(label).len() % 256) as u8] + encode_utf8(label)
        + name_bytes(rest));
}

/// An ASCII label is written as its characters, one byte each.
pub proof fn ascii_label_bytes(label: Seq<char>)
    requires
        is_ascii_chars(label),
    ensures
        encode_utf8(label).len() == label.len(),
        forall|i: int| 0 <= i < label.len() ==> #[trigger] encode_utf8(label)[i] == label[i] as int,
{
    is_ascii_chars_encode_utf8(label);
    assert forall|i: int| 0 <= i < label.len() implies #[trigger] encode_utf8(label)[i]
        == label[i] as int by {
        assert(label[i] as u8 == encode_utf8(label)[i]);
        assert('\0' <= label[i] <= '\u{7f}');
    }
}

/// How a name is read. A zero byte ends it. A byte from 1 to 191 is the length of a
/// label that follows in UTF-8, and the rest of the name comes behind it. A byte from
/// 192 on, less 192, and the next one tell where the rest of the name stands; of such
/// pointers ten are followed. What runs over the end is truncated, and a label that is
/// not UTF-8 or an eleventh pointer makes the name invalid.
pub proof fn name_reading(buf: Seq<u8>, pos: int, hops: int, label: Seq<char>)
    requires
        0 <= pos,
    ensures
        pos >= buf.len() ==> labels_at(buf, pos, hops) == Err::<Seq<Seq<char>>, _>(
            ParseError::Truncated,
        ) && name_end(buf, pos) is None,
        pos < buf.len() && buf[pos] == 0 ==> labels_at(buf, pos, hops) == Ok::<_, ParseError>(
            Seq::<Seq<char>>::empty(),
        ) && name_end(buf, pos) == Some(pos + 1),
        pos < buf.len() && 0 < buf[pos] < 192 && pos + 1 + buf[pos] > buf.len() ==> labels_at(
            buf,
            pos,
            hops,
        ) == Err::<Seq<Seq<char>>, _>(ParseError::Truncated) && name_end(buf, pos) is None,
        pos < buf.len() && 0 < buf[pos] < 192 && pos + 1 + buf[pos] <= buf.len() && buf.subrange(
            pos + 1,
            pos + 1 + buf[pos],
        ) == encode_utf8(label) ==> {
            &&& name_end(buf, pos) == name_end(buf, pos + 1 + buf[pos])
            &&& match labels_at(buf, pos + 1 + buf[pos], hops) {
                Ok(rest) => labels_at(buf, pos, hops) == Ok::<_, ParseError>(seq![label] + rest),
                Err(e) => labels_at(buf, pos, hops) == Err::<Seq<Seq<char>>, _>(e),
            }
        },
        pos < buf.len() && 0 < buf[pos] < 192 && pos + 1 + buf[pos] <= buf.len() && !valid_utf8(
            buf.subrange(pos + 1, pos + 1 + buf[pos]),
        ) ==> labels_at(buf, pos, hops) == Err::<Seq<Seq<char>>, _>(ParseError::InvalidName)
            && name_end(buf, pos) is None,
        pos + 1 == buf.len() && buf[pos] >= 192 ==> labels_at(buf, pos, hops) == Err::<
            Seq<Seq<char>>,
            _,
        >(ParseError::Truncated) && name_end(buf, pos) is None,
        pos + 1 < buf.len() && buf[pos] >= 192 ==> {
            &&& name_end(buf, pos) == Some(pos + 2)
            &&& hops < 10 ==> labels_at(buf, pos, hops) == labels_at(
                buf,
                (buf[pos] - 192) * 256 + buf[pos + 1],
                hops + 1,
            )
            &&& hops >= 10 ==> labels_at(buf, pos, hops) == Err::<Seq<Seq<char>>, _>(
                ParseError::InvalidName,
            )
        },
{
    encode_utf8_valid_utf8(label);
    encode_utf8_decode_utf8(label);
}

/// A name that is read is its labels with dots between them, in lower case, reached
/// through no pointer yet; an error in it is that of its labels.
pub proof fn name_read_is_dotted(buf: Seq<u8>, pos: int)
    ensures
        match labels_at(buf, pos, 0) {
            Ok(labels) => name_at(buf, pos) == Ok::<_, ParseError>(lowercase(joined(labels, '.'))),
            Err(e) => name_at(buf, pos) == Err::<Seq<char>, _>(e),
        },
{
}

// ── Questions ───────────────────────────────────────────────────────────────

/// How a message is read: a header of 12 bytes, then as many questions as it tells,
/// each a name, a type and a class of two bytes each. A message that ends sooner is
/// truncated, and an error in a name is that of the message.
pub proof fn question_reading(buf: Seq<u8>, pos: int, n: nat)
    ensures
        buf.len() < 12 ==> message_of(buf) == Err::<MessageModel, _>(ParseError::Truncated),
        buf.len() >= 12 ==> match questions_at(buf, 12, (buf[4] * 256 + buf[5]) as nat) {
            Ok(questions) => message_of(buf) matches Ok(m) && m.header == header_of(buf)
                && m.questions == questions && m.answers.len() == 0 && m.authority.len() == 0
                && m.additional.len() == 0,
            Err(e) => message_of(buf) == Err::<MessageModel, _>(e),
        },
        questions_at(buf, pos, 0) == Ok::<_, ParseError>(Seq::<QuestionModel>::empty()),
        match name_at(buf, pos) {
            Err(e) => questions_at(buf, pos, n + 1) == Err::<Seq<QuestionModel>, _>(e),
            Ok(name) => {
                let end = name_end(buf, pos)->0;
                if end + 4 > buf.len() {
                    questions_at(buf, pos, n + 1) == Err::<Seq<QuestionModel>, _>(
                        ParseError::Truncated,
                    )
                } else {
                    match questions_at(buf, end + 4, n) {
                        Err(e) => questions_at(buf, pos, n + 1) == Err::<Seq<QuestionModel>, _>(e),
                        Ok(rest) => questions_at(buf, pos, n + 1) matches Ok(all) && all.len() == 1
                            + rest.len() && all[0].name == name && (0 <= end ==> all[0].qtype
                            == buf[end] * 256 + buf[end + 1] && all[0].qclass == buf[end + 2] * 256
                            + buf[end + 3]) && all.skip(1) == rest,
                    }
                }
            },
        },
{
    if let Ok(name) = name_at(buf, pos) {
        let end = name_end(buf, pos)->0;
        if end + 4 <= buf.len() {
            if let Ok(rest) = questions_at(buf, end + 4, n) {
                let all = questions_at(buf, pos, n + 1)->Ok_0;
                assert(all.skip(1) =~= rest);
            }
        }
    }
}

} // verus!
