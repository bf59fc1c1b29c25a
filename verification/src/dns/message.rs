//! DNS messages and their wire format.
//!
//! RFC 1035 §4 (messages), §3.2 to §3.3 (record data), RFC 3596 §2 (AAAA).

use vstd::prelude::*;
use vstd::slice::slice_subrange;
use vstd::std_specs::convert::FromSpecImpl;
use vstd::utf8::encode_utf8;

use super::addr::{Ipv4Addr, Ipv6Addr};
use super::name::{
    encodable, encode_name, lemma_name_end, name_at, name_bytes, name_end, name_read_back,
    parse_name,
};
use super::wire::{
    be16, be16_read_back, be32, count16, count16_exact, push_bytes, push_u16, push_u32, read_u16,
    u16_at,
};
use crate::text::{lemma_texts_push, lowercase, texts, undotted};

verus! {

// RFC 1035 §4.1.1: response codes
pub const RCODE_NOERROR: u8 = 0;

pub const RCODE_FORMERR: u8 = 1;

pub const RCODE_SERVFAIL: u8 = 2;

pub const RCODE_NXDOMAIN: u8 = 3;

pub const RCODE_NOTIMP: u8 = 4;

pub const RCODE_REFUSED: u8 = 5;

pub const CLASS_IN: u16 = 1;

// ── Record types ────────────────────────────────────────────────────────────

/// The record and query types that the server knows (RFC 1035 §3.2.2, RFC 3596).
#[derive(Debug, Clone, Copy, PartialEq, Eq, Structural)]
pub enum RecordType {
    A,
    Ns,
    Cname,
    Soa,
    Ptr,
    Mx,
    Txt,
    Aaaa,
    Any,
}

impl RecordType {
    /// The number of the type on the wire.
    pub open spec fn code(self) -> u16 {
        match self {
            RecordType::A => 1,
            RecordType::Ns => 2,
            RecordType::Cname => 5,
            RecordType::Soa => 6,
            RecordType::Ptr => 12,
            RecordType::Mx => 15,
            RecordType::Txt => 16,
            RecordType::Aaaa => 28,
            RecordType::Any => 255,
        }
    }

    /// The type with number `v`, if there is one.
    pub open spec fn of_code(v: u16) -> Option<RecordType> {
        if v == 1 {
            Some(RecordType::A)
        } else if v == 2 {
            Some(RecordType::Ns)
        } else if v == 5 {
            Some(RecordType::Cname)
        } else if v == 6 {
            Some(RecordType::Soa)
        } else if v == 12 {
            Some(RecordType::Ptr)
        } else if v == 15 {
            Some(RecordType::Mx)
        } else if v == 16 {
            Some(RecordType::Txt)
        } else if v == 28 {
            Some(RecordType::Aaaa)
        } else if v == 255 {
            Some(RecordType::Any)
        } else {
            None
        }
    }

    /// The type with number `v`, if there is one.
    pub fn from_u16(v: u16) -> (r: Option<Self>)
        ensures
            r == RecordType::of_code(v),
    {
        match v {
            1 => Some(RecordType::A),
            2 => Some(RecordType::Ns),
            5 => Some(RecordType::Cname),
            6 => Some(RecordType::Soa),
            12 => Some(RecordType::Ptr),
            15 => Some(RecordType::Mx),
            16 => Some(RecordType::Txt),
            28 => Some(RecordType::Aaaa),
            255 => Some(RecordType::Any),
            _ => None,
        }
    }
}

impl From<RecordType> for u16 {
    fn from(t: RecordType) -> (r: u16) {
        match t {
            RecordType::A => 1,
            RecordType::Ns => 2,
            RecordType::Cname => 5,
            RecordType::Soa => 6,
            RecordType::Ptr => 12,
            RecordType::Mx => 15,
            RecordType::Txt => 16,
            RecordType::Aaaa => 28,
            RecordType::Any => 255,
        }
    }
}

impl FromSpecImpl<RecordType> for u16 {
    open spec fn obeys_from_spec() -> bool {
        true
    }

    open spec fn from_spec(t: RecordType) -> u16 {
        t.code()
    }
}

/// A number names a type exactly if it is that type's number, so no two types share
/// one.
pub proof fn code_names_one_type(v: u16, t: RecordType)
    ensures
        RecordType::of_code(v) == Some(t) <==> t.code() == v,
{
}

// ── Header ──────────────────────────────────────────────────────────────────

/// The header section (RFC 1035 §4.1.1).
///
/// The flags, most significant bit first:
/// QR(1) Opcode(4) AA(1) TC(1) RD(1) RA(1) Z(3) RCODE(4).
#[derive(Debug, Clone, Copy)]
pub struct Header {
    pub id: u16,
    pub flags: u16,
    pub qdcount: u16,
    pub ancount: u16,
    pub nscount: u16,
    pub arcount: u16,
}

/// Whether flags say that the message is a response.
pub open spec fn flags_qr(flags: u16) -> bool {
    flags >= 0x8000
}

/// The kind of query that flags give.
pub open spec fn flags_opcode(flags: u16) -> u8 {
    (flags / 0x800 % 16) as u8
}

/// Whether flags say that the responder is an authority for the name.
pub open spec fn flags_aa(flags: u16) -> bool {
    flags / 0x400 % 2 == 1
}

/// Whether flags ask for recursion.
pub open spec fn flags_rd(flags: u16) -> bool {
    flags / 0x100 % 2 == 1
}

/// The response code that flags give.
pub open spec fn flags_rcode(flags: u16) -> u8 {
    (flags % 16) as u8
}

impl Header {
    /// Whether the message is a response.
    pub fn qr(&self) -> (r: bool)
        ensures
            r == flags_qr(self.flags),
    {
        let f: u16 = self.flags;
        assert((f & 0x8000 != 0) == (f >= 0x8000)) by (bit_vector);
        self.flags & 0x8000 != 0
    }

    /// The kind of query.
    pub fn opcode(&self) -> (r: u8)
        ensures
            r == flags_opcode(self.flags),
    {
        let f: u16 = self.flags;
        assert((f >> 11) & 0xf == f / 0x800 % 16) by (bit_vector);
        ((self.flags >> 11) & 0xf) as u8
    }

    /// Whether recursion is asked for.
    pub fn rd(&self) -> (r: bool)
        ensures
            r == flags_rd(self.flags),
    {
        let f: u16 = self.flags;
        assert((f & 0x0100 != 0) == (f / 0x100 % 2 == 1)) by (bit_vector);
        self.flags & 0x0100 != 0
    }
}

// ── Questions and records ───────────────────────────────────────────────────

/// A question (RFC 1035 §4.1.2).
#[derive(Debug)]
pub struct Question {
    pub name: String,
    pub qtype: u16,
    pub qclass: u16,
}

/// What a question asks.
pub struct QuestionModel {
    pub name: Seq<char>,
    pub qtype: u16,
    pub qclass: u16,
}

impl View for Question {
    type V = QuestionModel;

    open spec fn view(&self) -> QuestionModel {
        QuestionModel { name: self.name@, qtype: self.qtype, qclass: self.qclass }
    }
}

impl Clone for Question {
    fn clone(&self) -> (r: Self)
        ensures
            r@ == self@,
    {
        Question { name: self.name.clone(), qtype: self.qtype, qclass: self.qclass }
    }
}

/// The data of a record, by its type (RFC 1035 §3.3, RFC 3596 §2.1).
#[derive(Debug)]
pub enum RecordData {
    A(Ipv4Addr),
    Aaaa(Ipv6Addr),
    Ns(String),
    Cname(String),
    Ptr(String),
    Mx { priority: u16, exchange: String },
    Soa {
        mname: String,
        rname: String,
        serial: u32,
        refresh: u32,
        retry: u32,
        expire: u32,
        minimum: u32,
    },
    Txt(Vec<String>),
}

/// What the data of a record says.
pub enum DataModel {
    A(Seq<u8>),
    Aaaa(Seq<u8>),
    Ns(Seq<char>),
    Cname(Seq<char>),
    Ptr(Seq<char>),
    Mx { priority: u16, exchange: Seq<char> },
    Soa {
        mname: Seq<char>,
        rname: Seq<char>,
        serial: u32,
        refresh: u32,
        retry: u32,
        expire: u32,
        minimum: u32,
    },
    Txt(Seq<Seq<char>>),
}

impl View for RecordData {
    type V = DataModel;

    open spec fn view(&self) -> DataModel {
        match *self {
            RecordData::A(a) => DataModel::A(a@),
            RecordData::Aaaa(a) => DataModel::Aaaa(a@),
            RecordData::Ns(n) => DataModel::Ns(n@),
            RecordData::Cname(n) => DataModel::Cname(n@),
            RecordData::Ptr(n) => DataModel::Ptr(n@),
            RecordData::Mx { priority, exchange } => DataModel::Mx {
                priority,
                exchange: exchange@,
            },
            RecordData::Soa { mname, rname, serial, refresh, retry, expire, minimum } =>
                DataModel::Soa {
                mname: mname@,
                rname: rname@,
                serial,
                refresh,
                retry,
                expire,
                minimum,
            },
            RecordData::Txt(strings) => DataModel::Txt(texts(strings@)),
        }
    }
}

/// A copy of each string.
fn clone_strings(v: &Vec<String>) -> (r: Vec<String>)
    ensures
        texts(r@) == texts(v@),
{
    let mut out: Vec<String> = Vec::new();
    let mut i: usize = 0;
    while i < v.len()
        invariant
            i <= v.len(),
            texts(out@) == texts(v@).take(i as int),
        decreases v.len() - i,
    {
        let s = v[i].clone();
        proof {
            lemma_texts_push(out@, s);
            assert(texts(v@).take(i as int).push(s@) =~= texts(v@).take(i + 1));
        }
        out.push(s);
        i = i + 1;
    }
    assert(texts(v@).take(i as int) =~= texts(v@));
    out
}

impl Clone for RecordData {
    fn clone(&self) -> (r: Self)
        ensures
            r@ == self@,
    {
        match self {
            RecordData::A(a) => RecordData::A(*a),
            RecordData::Aaaa(a) => RecordData::Aaaa(*a),
            RecordData::Ns(n) => RecordData::Ns(n.clone()),
            RecordData::Cname(n) => RecordData::Cname(n.clone()),
            RecordData::Ptr(n) => RecordData::Ptr(n.clone()),
            RecordData::Mx { priority, exchange } => RecordData::Mx {
                priority: *priority,
                exchange: exchange.clone(),
            },
            RecordData::Soa { mname, rname, serial, refresh, retry, expire, minimum } =>
                RecordData::Soa {
                mname: mname.clone(),
                rname: rname.clone(),
                serial: *serial,
                refresh: *refresh,
                retry: *retry,
                expire: *expire,
                minimum: *minimum,
            },
            RecordData::Txt(strings) => RecordData::Txt(clone_strings(strings)),
        }
    }
}

impl DataModel {
    /// The type of a record with this data.
    pub open spec fn rtype(self) -> RecordType {
        match self {
            DataModel::A(_) => RecordType::A,
            DataModel::Aaaa(_) => RecordType::Aaaa,
            DataModel::Ns(_) => RecordType::Ns,
            DataModel::Cname(_) => RecordType::Cname,
            DataModel::Ptr(_) => RecordType::Ptr,
            DataModel::Mx { .. } => RecordType::Mx,
            DataModel::Soa { .. } => RecordType::Soa,
            DataModel::Txt(_) => RecordType::Txt,
        }
    }

    /// The data on the wire.
    pub open spec fn bytes(self) -> Seq<u8> {
        match self {
            DataModel::A(octets) => octets,
            DataModel::Aaaa(octets) => octets,
            DataModel::Ns(n) => name_bytes(n),
            DataModel::Cname(n) => name_bytes(n),
            DataModel::Ptr(n) => name_bytes(n),
            DataModel::Mx { priority, exchange } => be16(priority) + name_bytes(exchange),
            DataModel::Soa { mname, rname, serial, refresh, retry, expire, minimum } => name_bytes(
                mname,
            ) + name_bytes(rname) + be32(serial) + be32(refresh) + be32(retry) + be32(expire)
                + be32(minimum),
            DataModel::Txt(strings) => strings_bytes(strings),
        }
    }
}

/// How many bytes a character-string can hold (RFC 1035 §3.3.14).
pub const MAX_STRING: usize = 255;

/// The length of the next character-string out of `n` bytes.
pub open spec fn chunk_len(n: nat) -> nat {
    if n <= MAX_STRING {
        n
    } else {
        MAX_STRING as nat
    }
}

/// Bytes cut into length-prefixed character-strings, each as long as can be. No
/// bytes are one empty character-string.
pub open spec fn text_bytes(b: Seq<u8>) -> Seq<u8> {
    if b.len() == 0 {
        seq![0u8]
    } else {
        chunks_bytes(b)
    }
}

/// Bytes cut into length-prefixed character-strings, each as long as can be and none
/// of them empty.
pub open spec fn chunks_bytes(b: Seq<u8>) -> Seq<u8>
    decreases b.len(),
{
    if b.len() == 0 {
        Seq::empty()
    } else {
        let n = chunk_len(b.len()) as int;
        seq![n as u8] + b.take(n) + chunks_bytes(b.skip(n))
    }
}

/// Texts as character-strings, in order. Each text is at least one.
pub open spec fn strings_bytes(strings: Seq<Seq<char>>) -> Seq<u8>
    decreases strings.len(),
{
    if strings.len() == 0 {
        Seq::empty()
    } else {
        strings_bytes(strings.drop_last()) + text_bytes(encode_utf8(strings.last()))
    }
}

/// Appends `bytes` as length-prefixed character-strings.
fn encode_chunks(buf: &mut Vec<u8>, bytes: &[u8])
    ensures
        final(buf)@ == old(buf)@ + text_bytes(bytes@),
{
    if bytes.len() == 0 {
        buf.push(0);
        assert(buf@ =~= old(buf)@ + text_bytes(bytes@));
        return;
    }
    let mut i: usize = 0;
    assert(bytes@.skip(0) =~= bytes@);
    while i < bytes.len()
        invariant
            i <= bytes.len(),
            buf@ + chunks_bytes(bytes@.skip(i as int)) == old(buf)@ + chunks_bytes(bytes@),
        decreases bytes.len() - i,
    {
        let left: usize = bytes.len() - i;
        let n: usize = if left <= MAX_STRING {
            left
        } else {
            MAX_STRING
        };
        let ghost before = buf@;
        buf.push(n as u8);
        let chunk = slice_subrange(bytes, i, i + n);
        push_bytes(buf, chunk);
        proof {
            let rest = bytes@.skip(i as int);
            assert(rest.take(n as int) =~= chunk@);
            assert(rest.skip(n as int) =~= bytes@.skip(i + n));
            assert(buf@ + chunks_bytes(bytes@.skip(i + n)) =~= before + chunks_bytes(rest));
        }
        i = i + n;
    }
    assert(buf@ + Seq::<u8>::empty() =~= buf@);
}

impl RecordData {
    /// The type of a record with this data.
    pub fn rtype(&self) -> (r: RecordType)
        ensures
            r == self@.rtype(),
    {
        match self {
            RecordData::A(_) => RecordType::A,
            RecordData::Aaaa(_) => RecordType::Aaaa,
            RecordData::Ns(_) => RecordType::Ns,
            RecordData::Cname(_) => RecordType::Cname,
            RecordData::Ptr(_) => RecordType::Ptr,
            RecordData::Mx { .. } => RecordType::Mx,
            RecordData::Soa { .. } => RecordType::Soa,
            RecordData::Txt(_) => RecordType::Txt,
        }
    }

    /// Appends the data in wire format.
    pub fn encode(&self, buf: &mut Vec<u8>)
        ensures
            final(buf)@ == old(buf)@ + self@.bytes(),
    {
        match self {
            RecordData::A(a) => push_bytes(buf, &a.octets),
            RecordData::Aaaa(a) => push_bytes(buf, &a.octets),
            RecordData::Ns(n) => encode_name(buf, n.as_str()),
            RecordData::Cname(n) => encode_name(buf, n.as_str()),
            RecordData::Ptr(n) => encode_name(buf, n.as_str()),
            RecordData::Mx { priority, exchange } => {
                push_u16(buf, *priority);
                encode_name(buf, exchange.as_str());
                assert(buf@ =~= old(buf)@ + self@.bytes());
            },
            RecordData::Soa { mname, rname, serial, refresh, retry, expire, minimum } => {
                encode_name(buf, mname.as_str());
                encode_name(buf, rname.as_str());
                push_u32(buf, *serial);
                push_u32(buf, *refresh);
                push_u32(buf, *retry);
                push_u32(buf, *expire);
                push_u32(buf, *minimum);
                assert(buf@ =~= old(buf)@ + self@.bytes());
            },
            RecordData::Txt(strings) => {
                let mut i: usize = 0;
                let ghost all = texts(strings@);
                assert(buf@ =~= old(buf)@ + strings_bytes(all.take(0)));
                while i < strings.len()
                    invariant
                        i <= strings.len(),
                        all == texts(strings@),
                        buf@ == old(buf)@ + strings_bytes(all.take(i as int)),
                    decreases strings.len() - i,
                {
                    encode_chunks(buf, strings[i].as_str().as_bytes());
                    assert(all.take(i + 1).drop_last() =~= all.take(i as int));
                    assert(all.take(i + 1).last() == strings[i as int]@);
                    assert(buf@ =~= old(buf)@ + strings_bytes(all.take(i + 1)));
                    i = i + 1;
                }
                assert(all.take(i as int) =~= all);
            },
        }
    }
}

/// A resource record (RFC 1035 §4.1.3).
#[derive(Debug)]
pub struct ResourceRecord {
    pub name: String,
    pub class: u16,
    pub ttl: u32,
    pub data: RecordData,
}

/// What a resource record says.
pub struct RecordModel {
    pub name: Seq<char>,
    pub class: u16,
    pub ttl: u32,
    pub data: DataModel,
}

impl View for ResourceRecord {
    type V = RecordModel;

    open spec fn view(&self) -> RecordModel {
        RecordModel { name: self.name@, class: self.class, ttl: self.ttl, data: self.data@ }
    }
}

impl Clone for ResourceRecord {
    fn clone(&self) -> (r: Self)
        ensures
            r@ == self@,
    {
        ResourceRecord {
            name: self.name.clone(),
            class: self.class,
            ttl: self.ttl,
            data: self.data.clone(),
        }
    }
}

/// Why a message could not be read.
#[derive(Debug, Clone, Copy, PartialEq, Eq, Structural)]
pub enum ParseError {
    /// The message ends before what it announces.
    Truncated,
    /// A name is not UTF-8 text, or takes too many pointers to reach.
    InvalidName,
}

impl ParseError {
    /// The error in words.
    pub fn message(&self) -> (r: String)
        ensures
            r@ == (match *self {
                ParseError::Truncated => "message truncated"@,
                ParseError::InvalidName => "invalid domain name"@,
            }),
    {
        match self {
            ParseError::Truncated => "message truncated".to_owned(),
            ParseError::InvalidName => "invalid domain name".to_owned(),
        }
    }
}

// ── Messages ────────────────────────────────────────────────────────────────

/// A DNS message (RFC 1035 §4.1).
#[derive(Debug)]
pub struct Message {
    pub header: Header,
    pub questions: Vec<Question>,
    pub answers: Vec<ResourceRecord>,
    pub authority: Vec<ResourceRecord>,
    pub additional: Vec<ResourceRecord>,
}

/// What a message says.
pub struct MessageModel {
    pub header: Header,
    pub questions: Seq<QuestionModel>,
    pub answers: Seq<RecordModel>,
    pub authority: Seq<RecordModel>,
    pub additional: Seq<RecordModel>,
}

/// What each of the questions asks.
pub open spec fn question_models(v: Seq<Question>) -> Seq<QuestionModel> {
    v.map_values(|q: Question| q@)
}

/// What each of the records says.
pub open spec fn record_models(v: Seq<ResourceRecord>) -> Seq<RecordModel> {
    v.map_values(|r: ResourceRecord| r@)
}

impl View for Message {
    type V = MessageModel;

    open spec fn view(&self) -> MessageModel {
        MessageModel {
            header: self.header,
            questions: question_models(self.questions@),
            answers: record_models(self.answers@),
            authority: record_models(self.authority@),
            additional: record_models(self.additional@),
        }
    }
}

// ── Reading ─────────────────────────────────────────────────────────────────

/// The length of the header section.
pub const HEADER_LEN: usize = 12;

/// The header at the start of `buf`.
pub open spec fn header_of(buf: Seq<u8>) -> Header {
    Header {
        id: u16_at(buf, 0),
        flags: u16_at(buf, 2),
        qdcount: u16_at(buf, 4),
        ancount: u16_at(buf, 6),
        nscount: u16_at(buf, 8),
        arcount: u16_at(buf, 10),
    }
}

/// The `n` questions from `pos` on.
pub open spec fn questions_at(buf: Seq<u8>, pos: int, n: nat) -> Result<
    Seq<QuestionModel>,
    ParseError,
>
    decreases n,
{
    if n == 0 {
        Ok(Seq::empty())
    } else {
        match name_at(buf, pos) {
            Err(e) => Err(e),
            Ok(name) => {
                let end = name_end(buf, pos)->0;
                if end + 4 > buf.len() {
                    Err(ParseError::Truncated)
                } else {
                    let question = QuestionModel {
                        name,
                        qtype: u16_at(buf, end),
                        qclass: u16_at(buf, end + 2),
                    };
                    match questions_at(buf, end + 4, (n - 1) as nat) {
                        Ok(rest) => Ok(seq![question] + rest),
                        Err(e) => Err(e),
                    }
                }
            },
        }
    }
}

/// The message that `buf` holds, as far as it is read: its header and its
/// questions.
pub open spec fn message_of(buf: Seq<u8>) -> Result<MessageModel, ParseError> {
    if buf.len() < HEADER_LEN {
        Err(ParseError::Truncated)
    } else {
        match questions_at(buf, HEADER_LEN as int, header_of(buf).qdcount as nat) {
            Err(e) => Err(e),
            Ok(questions) => Ok(
                MessageModel {
                    header: header_of(buf),
                    questions,
                    answers: Seq::empty(),
                    authority: Seq::empty(),
                    additional: Seq::empty(),
                },
            ),
        }
    }
}

/// `first`, then the questions read after them.
spec fn then_questions(
    first: Seq<QuestionModel>,
    rest: Result<Seq<QuestionModel>, ParseError>,
) -> Result<Seq<QuestionModel>, ParseError> {
    match rest {
        Ok(questions) => Ok(first + questions),
        Err(e) => Err(e),
    }
}

// ── Writing ─────────────────────────────────────────────────────────────────

impl QuestionModel {
    /// The question on the wire.
    pub open spec fn bytes(self) -> Seq<u8> {
        name_bytes(self.name) + be16(self.qtype) + be16(self.qclass)
    }
}

impl RecordModel {
    /// The record on the wire. The length field holds the low 16 bits of the
    /// data's length.
    pub open spec fn bytes(self) -> Seq<u8> {
        name_bytes(self.name) + be16(self.data.rtype().code()) + be16(self.class) + be32(self.ttl)
            + be16(count16(self.data.bytes().len())) + self.data.bytes()
    }
}

/// Questions on the wire, in order.
pub open spec fn questions_bytes(questions: Seq<QuestionModel>) -> Seq<u8>
    decreases questions.len(),
{
    if questions.len() == 0 {
        Seq::empty()
    } else {
        questions_bytes(questions.drop_last()) + questions.last().bytes()
    }
}

/// Records on the wire, in order.
pub open spec fn records_bytes(records: Seq<RecordModel>) -> Seq<u8>
    decreases records.len(),
{
    if records.len() == 0 {
        Seq::empty()
    } else {
        records_bytes(records.drop_last()) + records.last().bytes()
    }
}

/// A header section with the counts of four sections.
pub open spec fn header_bytes(id: u16, flags: u16, qd: u16, an: u16, ns: u16, ar: u16) -> Seq<u8> {
    be16(id) + be16(flags) + be16(qd) + be16(an) + be16(ns) + be16(ar)
}

/// The flags of a response: QR and AA set, RD as asked, `rcode` in the low bits.
pub open spec fn response_flags(flags: u16, rcode: u8) -> u16 {
    0x8400u16 | (if flags_rd(flags) {
        0x0100u16
    } else {
        0u16
    }) | (rcode as u16)
}

impl MessageModel {
    /// The message on the wire. The counts are those of the sections, whatever the
    /// header says.
    pub open spec fn bytes(self) -> Seq<u8> {
        header_bytes(
            self.header.id,
            self.header.flags,
            count16(self.questions.len()),
            count16(self.answers.len()),
            count16(self.authority.len()),
            count16(self.additional.len()),
        ) + questions_bytes(self.questions) + records_bytes(self.answers) + records_bytes(
            self.authority,
        ) + records_bytes(self.additional)
    }

    /// The empty response to this query, with a response code.
    pub open spec fn response(self, rcode: u8) -> MessageModel {
        MessageModel {
            header: Header {
                id: self.header.id,
                flags: response_flags(self.header.flags, rcode),
                qdcount: count16(self.questions.len()),
                ancount: 0,
                nscount: 0,
                arcount: 0,
            },
            questions: self.questions,
            answers: Seq::empty(),
            authority: Seq::empty(),
            additional: Seq::empty(),
        }
    }
}

/// Appends a question in wire format.
fn encode_question(buf: &mut Vec<u8>, q: &Question)
    ensures
        final(buf)@ == old(buf)@ + q@.bytes(),
{
    encode_name(buf, q.name.as_str());
    push_u16(buf, q.qtype);
    push_u16(buf, q.qclass);
    assert(buf@ =~= old(buf)@ + q@.bytes());
}

/// Appends a record in wire format.
fn encode_record(buf: &mut Vec<u8>, rr: &ResourceRecord)
    ensures
        final(buf)@ == old(buf)@ + rr@.bytes(),
{
    encode_name(buf, rr.name.as_str());
    push_u16(buf, u16::from(rr.data.rtype()));
    push_u16(buf, rr.class);
    push_u32(buf, rr.ttl);
    let mut data: Vec<u8> = Vec::new();
    rr.data.encode(&mut data);
    assert(data@ =~= rr.data@.bytes());
    push_u16(buf, (data.len() % 0x1_0000) as u16);
    push_bytes(buf, data.as_slice());
    assert(buf@ =~= old(buf)@ + rr@.bytes());
}

/// Appends a section of records in wire format.
fn encode_section(buf: &mut Vec<u8>, section: &Vec<ResourceRecord>)
    ensures
        final(buf)@ == old(buf)@ + records_bytes(record_models(section@)),
{
    let ghost all = record_models(section@);
    let mut i: usize = 0;
    assert(buf@ =~= old(buf)@ + records_bytes(all.take(0)));
    while i < section.len()
        invariant
            i <= section.len(),
            all == record_models(section@),
            buf@ == old(buf)@ + records_bytes(all.take(i as int)),
        decreases section.len() - i,
    {
        encode_record(buf, &section[i]);
        assert(all.take(i + 1).drop_last() =~= all.take(i as int));
        assert(all.take(i + 1).last() == section[i as int]@);
        assert(buf@ =~= old(buf)@ + records_bytes(all.take(i + 1)));
        i = i + 1;
    }
    assert(all.take(i as int) =~= all);
}

/// A copy of each question.
fn clone_questions(v: &Vec<Question>) -> (r: Vec<Question>)
    ensures
        question_models(r@) == question_models(v@),
{
    let mut out: Vec<Question> = Vec::new();
    let mut i: usize = 0;
    while i < v.len()
        invariant
            i <= v.len(),
            question_models(out@) == question_models(v@).take(i as int),
        decreases v.len() - i,
    {
        let ghost before = out@;
        out.push(v[i].clone());
        assert(question_models(out@) =~= question_models(before).push(v[i as int]@));
        assert(question_models(out@) =~= question_models(v@).take(i + 1));
        i = i + 1;
    }
    assert(question_models(v@).take(i as int) =~= question_models(v@));
    out
}

impl Message {
    /// Reads the header and the questions of a message out of a datagram.
    pub fn parse(buf: &[u8]) -> (r: Result<Self, ParseError>)
        ensures
            match r {
                Ok(m) => message_of(buf@) == Ok::<_, ParseError>(m@),
                Err(e) => message_of(buf@) == Err::<MessageModel, _>(e),
            },
    {
        if buf.len() < HEADER_LEN {
            return Err(ParseError::Truncated);
        }
        let header = Header {
            id: read_u16(buf, 0),
            flags: read_u16(buf, 2),
            qdcount: read_u16(buf, 4),
            ancount: read_u16(buf, 6),
            nscount: read_u16(buf, 8),
            arcount: read_u16(buf, 10),
        };
        let n: usize = header.qdcount as usize;
        let mut offset: usize = HEADER_LEN;
        let mut questions: Vec<Question> = Vec::with_capacity(n);
        let mut i: usize = 0;
        let ghost all = questions_at(buf@, HEADER_LEN as int, n as nat);
        proof {
            if let Ok(rest) = all {
                assert(question_models(questions@) + rest =~= rest);
            }
        }
        while i < n
            invariant
                i <= n,
                n <= u16::MAX,
                offset <= buf.len(),
                header == header_of(buf@),
                n == header.qdcount,
                buf.len() >= HEADER_LEN,
                all == questions_at(buf@, HEADER_LEN as int, n as nat),
                all == then_questions(
                    question_models(questions@),
                    questions_at(buf@, offset as int, (n - i) as nat),
                ),
            decreases n - i,
        {
            let ghost start = offset as int;
            let name = match parse_name(buf, &mut offset) {
                Ok(name) => name,
                Err(e) => {
                    return Err(e);
                },
            };
            proof {
                lemma_name_end(buf@, start, 0);
            }
            if buf.len() - offset < 4 {
                return Err(ParseError::Truncated);
            }
            let question = Question {
                name,
                qtype: read_u16(buf, offset),
                qclass: read_u16(buf, offset + 2),
            };
            let ghost before = question_models(questions@);
            let ghost asked = question@;
            proof {
                if let Ok(rest) = questions_at(buf@, offset + 4, (n - i - 1) as nat) {
                    assert(before + (seq![asked] + rest) =~= before.push(asked) + rest);
                }
            }
            questions.push(question);
            assert(question_models(questions@) =~= before.push(asked));
            offset = offset + 4;
            i = i + 1;
        }
        assert(question_models(questions@) + Seq::<QuestionModel>::empty() =~= question_models(
            questions@,
        ));
        let message = Message {
            header,
            questions,
            answers: Vec::new(),
            authority: Vec::new(),
            additional: Vec::new(),
        };
        assert(message@.answers =~= Seq::empty());
        assert(message@.authority =~= Seq::empty());
        assert(message@.additional =~= Seq::empty());
        Ok(message)
    }

    /// The empty response to this query: its ID, its RD flag and its questions, with
    /// QR and AA set, since the server is an authority (RFC 1035 §4.1.1).
    pub fn response(&self, rcode: u8) -> (r: Self)
        ensures
            r@ == self@.response(rcode),
    {
        let rd: u16 = if self.header.rd() {
            0x0100
        } else {
            0
        };
        let message = Message {
            header: Header {
                id: self.header.id,
                flags: 0x8400 | rd | rcode as u16,
                qdcount: (self.questions.len() % 0x1_0000) as u16,
                ancount: 0,
                nscount: 0,
                arcount: 0,
            },
            questions: clone_questions(&self.questions),
            answers: Vec::new(),
            authority: Vec::new(),
            additional: Vec::new(),
        };
        assert(message@.answers =~= Seq::empty());
        assert(message@.authority =~= Seq::empty());
        assert(message@.additional =~= Seq::empty());
        message
    }

    /// The message in wire format (RFC 1035 §4.1). The section counts are those of
    /// the sections, so callers may push records without minding the header's.
    pub fn serialize(&self) -> (r: Vec<u8>)
        ensures
            r@ == self@.bytes(),
    {
        let mut buf: Vec<u8> = Vec::with_capacity(512);
        push_u16(&mut buf, self.header.id);
        push_u16(&mut buf, self.header.flags);
        push_u16(&mut buf, (self.questions.len() % 0x1_0000) as u16);
        push_u16(&mut buf, (self.answers.len() % 0x1_0000) as u16);
        push_u16(&mut buf, (self.authority.len() % 0x1_0000) as u16);
        push_u16(&mut buf, (self.additional.len() % 0x1_0000) as u16);
        let ghost head = header_bytes(
            self.header.id,
            self.header.flags,
            count16(self@.questions.len()),
            count16(self@.answers.len()),
            count16(self@.authority.len()),
            count16(self@.additional.len()),
        );
        assert(buf@ =~= head);
        let ghost all = question_models(self.questions@);
        let mut i: usize = 0;
        assert(buf@ =~= head + questions_bytes(all.take(0)));
        while i < self.questions.len()
            invariant
                i <= self.questions.len(),
                all == question_models(self.questions@),
                buf@ == head + questions_bytes(all.take(i as int)),
            decreases self.questions.len() - i,
        {
            encode_question(&mut buf, &self.questions[i]);
            assert(all.take(i + 1).drop_last() =~= all.take(i as int));
            assert(all.take(i + 1).last() == self.questions[i as int]@);
            assert(buf@ =~= head + questions_bytes(all.take(i + 1)));
            i = i + 1;
        }
        assert(all.take(i as int) =~= all);
        encode_section(&mut buf, &self.answers);
        encode_section(&mut buf, &self.authority);
        encode_section(&mut buf, &self.additional);
        buf
    }

    /// The least FORMERR response, for a message that could not be read but whose ID
    /// could (RFC 1035 §4.1.1).
    pub fn formerr(buf: &[u8]) -> (r: Option<Vec<u8>>)
        ensures
            r is Some <==> buf@.len() >= 2,
            r matches Some(out) ==> out@ == formerr_bytes(buf@),
    {
        if buf.len() < 2 {
            return None;
        }
        let mut out: Vec<u8> = Vec::with_capacity(HEADER_LEN);
        out.push(buf[0]);
        out.push(buf[1]);
        push_u16(&mut out, 0x8001);
        push_u16(&mut out, 0);
        push_u16(&mut out, 0);
        push_u16(&mut out, 0);
        push_u16(&mut out, 0);
        assert(out@ =~= formerr_bytes(buf@));
        Some(out)
    }
}

/// The FORMERR response to a message: its ID, then a header with QR set, response
/// code FORMERR and nothing else.
pub open spec fn formerr_bytes(buf: Seq<u8>) -> Seq<u8> {
    buf.take(2) + seq![0x80u8, RCODE_FORMERR, 0, 0, 0, 0, 0, 0, 0, 0]
}

// ── Laws ────────────────────────────────────────────────────────────────────

/// A question as it is read back after it was written: its name in lower case and
/// without trailing dots.
pub open spec fn question_read(q: QuestionModel) -> QuestionModel {
    QuestionModel { name: lowercase(undotted(q.name)), qtype: q.qtype, qclass: q.qclass }
}

/// Whether every question has a name that the wire format can hold.
pub open spec fn questions_encodable(questions: Seq<QuestionModel>) -> bool {
    forall|i: int| 0 <= i < questions.len() ==> encodable(#[trigger] questions[i].name)
}

proof fn lemma_questions_bytes_first(questions: Seq<QuestionModel>)
    requires
        questions.len() > 0,
    ensures
        questions_bytes(questions) == questions[0].bytes() + questions_bytes(
            questions.drop_first(),
        ),
    decreases questions.len(),
{
    let init = questions.drop_last();
    if init.len() == 0 {
        assert(questions_bytes(init) =~= Seq::<u8>::empty());
        assert(questions_bytes(questions.drop_first()) =~= Seq::<u8>::empty());
    } else {
        lemma_questions_bytes_first(init);
        assert(questions.drop_first().drop_last() =~= init.drop_first());
    }
    assert(questions_bytes(questions) =~= questions[0].bytes() + questions_bytes(
        questions.drop_first(),
    ));
}

/// Questions that were written are read back, with their names in lower case and
/// without trailing dots.
pub proof fn questions_read_back(buf: Seq<u8>, pos: int, questions: Seq<QuestionModel>)
    requires
        0 <= pos,
        pos + questions_bytes(questions).len() <= buf.len(),
        buf.subrange(pos, pos + questions_bytes(questions).len()) == questions_bytes(questions),
        questions_encodable(questions),
    ensures
        questions_at(buf, pos, questions.len()) == Ok::<_, ParseError>(
            questions.map_values(|q: QuestionModel| question_read(q)),
        ),
    decreases questions.len(),
{
    let read = questions.map_values(|q: QuestionModel| question_read(q));
    if questions.len() == 0 {
        assert(read =~= Seq::empty());
    } else {
        let q = questions[0];
        let rest = questions.drop_first();
        lemma_questions_bytes_first(questions);
        let here = buf.subrange(pos, pos + questions_bytes(questions).len());
        let name = name_bytes(q.name);
        let end = pos + name.len();
        assert(buf.subrange(pos, end) =~= name) by {
            assert forall|i: int| 0 <= i < name.len() implies buf.subrange(pos, end)[i]
                == name[i] by {
                assert(buf[pos + i] == here[i]);
            }
        }
        assert(encodable(questions[0].name));
        name_read_back(buf, pos, q.name);
        assert(buf.subrange(end, end + 2) =~= be16(q.qtype)) by {
            assert(buf[end] == here[name.len() as int]);
            assert(buf[end + 1] == here[name.len() as int + 1]);
        }
        be16_read_back(buf, end, q.qtype);
        assert(buf.subrange(end + 2, end + 4) =~= be16(q.qclass)) by {
            assert(buf[end + 2] == here[name.len() as int + 2]);
            assert(buf[end + 3] == here[name.len() as int + 3]);
        }
        be16_read_back(buf, end + 2, q.qclass);
        let next = end + 4;
        let there = buf.subrange(next, next + questions_bytes(rest).len());
        assert(there =~= questions_bytes(rest)) by {
            assert forall|i: int| 0 <= i < there.len() implies there[i] == questions_bytes(
                rest,
            )[i] by {
                assert(buf[next + i] == here[name.len() + 4 + i]);
            }
        }
        assert forall|i: int| 0 <= i < rest.len() implies encodable(#[trigger] rest[i].name) by {
            assert(rest[i] == questions[i + 1]);
        }
        questions_read_back(buf, next, rest);
        assert(seq![question_read(q)] + rest.map_values(|q: QuestionModel| question_read(q))
            =~= read);
    }
}

/// What a message holds whose header section and questions are known.
proof fn lemma_message_read_back(
    buf: Seq<u8>,
    header: Header,
    questions: Seq<QuestionModel>,
    tail: Seq<u8>,
)
    requires
        header.qdcount == questions.len(),
        questions_encodable(questions),
        buf == header_bytes(
            header.id,
            header.flags,
            header.qdcount,
            header.ancount,
            header.nscount,
            header.arcount,
        ) + (questions_bytes(questions) + tail),
    ensures
        message_of(buf) == Ok::<_, ParseError>(
            MessageModel {
                header,
                questions: questions.map_values(|q: QuestionModel| question_read(q)),
                answers: Seq::empty(),
                authority: Seq::empty(),
                additional: Seq::empty(),
            },
        ),
{
    let head = header_bytes(
        header.id,
        header.flags,
        header.qdcount,
        header.ancount,
        header.nscount,
        header.arcount,
    );
    let qd = questions_bytes(questions);
    let n = HEADER_LEN as int;
    assert(head.len() == n);
    assert(buf.take(n) =~= head);
    lemma_header_read_back(
        buf,
        header.id,
        header.flags,
        header.qdcount,
        header.ancount,
        header.nscount,
        header.arcount,
    );
    assert(buf.subrange(n, n + qd.len()) =~= qd);
    questions_read_back(buf, n, questions);
}

/// A text that a character-string can hold is one character-string: the length of its
/// bytes, then its bytes. The empty text is a zero byte.
pub proof fn short_text_is_one_string(text: Seq<char>)
    requires
        encode_utf8(text).len() <= MAX_STRING,
    ensures
        DataModel::Txt(seq![text]).bytes() == seq![encode_utf8(text).len() as u8] + encode_utf8(
            text,
        ),
{
    reveal_with_fuel(strings_bytes, 2);
    let b = encode_utf8(text);
    let one = seq![text];
    assert(one.drop_last() =~= Seq::empty());
    assert(one.last() == text);
    assert(strings_bytes(one) =~= text_bytes(b));
    if b.len() > 0 {
        assert(b.skip(b.len() as int) =~= Seq::empty());
        assert(chunks_bytes(b.skip(b.len() as int)) =~= Seq::empty());
        assert(b.take(b.len() as int) =~= b);
        assert(text_bytes(b) =~= seq![b.len() as u8] + b);
    } else {
        assert(text_bytes(b) =~= seq![b.len() as u8] + b);
    }
}

/// What is read back of a message that was written: its ID and flags, the true
/// section counts, and its questions with their names in lower case and without
/// trailing dots.
pub proof fn message_read_back(m: MessageModel)
    requires
        m.questions.len() < 0x1_0000,
        questions_encodable(m.questions),
    ensures
        message_of(m.bytes()) == Ok::<_, ParseError>(
            MessageModel {
                header: Header {
                    id: m.header.id,
                    flags: m.header.flags,
                    qdcount: m.questions.len() as u16,
                    ancount: count16(m.answers.len()),
                    nscount: count16(m.authority.len()),
                    arcount: count16(m.additional.len()),
                },
                questions: m.questions.map_values(|q: QuestionModel| question_read(q)),
                answers: Seq::empty(),
                authority: Seq::empty(),
                additional: Seq::empty(),
            },
        ),
{
    let header = Header {
        id: m.header.id,
        flags: m.header.flags,
        qdcount: m.questions.len() as u16,
        ancount: count16(m.answers.len()),
        nscount: count16(m.authority.len()),
        arcount: count16(m.additional.len()),
    };
    let head = header_bytes(
        header.id,
        header.flags,
        header.qdcount,
        header.ancount,
        header.nscount,
        header.arcount,
    );
    let qd = questions_bytes(m.questions);
    let an = records_bytes(m.answers);
    let ns = records_bytes(m.authority);
    let ar = records_bytes(m.additional);
    let buf = m.bytes();
    count16_exact(m.questions.len());
    lemma_regroup(head, qd, an, ns, ar);
    lemma_message_read_back(buf, header, m.questions, an + ns + ar);
}

/// The section counts in the header do not matter to what is written.
pub proof fn header_counts_do_not_matter(m: MessageModel, qd: u16, an: u16, ns: u16, ar: u16)
    ensures
        m.bytes() == (MessageModel {
            header: Header { qdcount: qd, ancount: an, nscount: ns, arcount: ar, ..m.header },
            ..m
        }).bytes(),
{
}

proof fn lemma_regroup(a: Seq<u8>, b: Seq<u8>, c: Seq<u8>, d: Seq<u8>, e: Seq<u8>)
    ensures
        a + b + c + d + e == a + (b + (c + d + e)),
{
    assert(a + b + c + d + e =~= a + (b + (c + d + e)));
}

proof fn lemma_header_read_back(
    buf: Seq<u8>,
    id: u16,
    flags: u16,
    qd: u16,
    an: u16,
    ns: u16,
    ar: u16,
)
    requires
        buf.len() >= HEADER_LEN,
        buf.take(HEADER_LEN as int) =~= header_bytes(id, flags, qd, an, ns, ar),
    ensures
        header_of(buf) == (Header {
            id,
            flags,
            qdcount: qd,
            ancount: an,
            nscount: ns,
            arcount: ar,
        }),
{
    let head = buf.take(HEADER_LEN as int);
    assert(forall|i: int| 0 <= i < HEADER_LEN ==> buf[i] == head[i]);
    assert(buf.subrange(0, 2) =~= be16(id));
    assert(buf.subrange(2, 4) =~= be16(flags));
    assert(buf.subrange(4, 6) =~= be16(qd));
    assert(buf.subrange(6, 8) =~= be16(an));
    assert(buf.subrange(8, 10) =~= be16(ns));
    assert(buf.subrange(10, 12) =~= be16(ar));
    be16_read_back(buf, 0, id);
    be16_read_back(buf, 2, flags);
    be16_read_back(buf, 4, qd);
    be16_read_back(buf, 6, an);
    be16_read_back(buf, 8, ns);
    be16_read_back(buf, 10, ar);
}

/// The flags of a response with a four-bit response code: a standard response by
/// an authority, RD as in the query, that response code.
pub proof fn response_flags_fields(flags: u16, rcode: u8)
    requires
        rcode < 16,
    ensures
        flags_qr(response_flags(flags, rcode)),
        flags_opcode(response_flags(flags, rcode)) == 0,
        flags_aa(response_flags(flags, rcode)),
        flags_rd(response_flags(flags, rcode)) == flags_rd(flags),
        flags_rcode(response_flags(flags, rcode)) == rcode,
{
    let rc: u16 = rcode as u16;
    assert(0x8400u16 | 0x0100u16 | rc == 0x8500 + rc) by (bit_vector)
        requires
            rc < 16,
    ;
    assert(0x8400u16 | 0u16 | rc == 0x8400 + rc) by (bit_vector)
        requires
            rc < 16,
    ;
}

/// A FORMERR response is itself a message: a standard response with the ID of the
/// message it answers and that response code, and no question or record.
pub proof fn formerr_is_a_message(buf: Seq<u8>)
    requires
        buf.len() >= 2,
    ensures
        formerr_bytes(buf).len() == HEADER_LEN,
        message_of(formerr_bytes(buf)) matches Ok(m) && {
            &&& m.header.id == u16_at(buf, 0)
            &&& flags_qr(m.header.flags)
            &&& flags_opcode(m.header.flags) == 0
            &&& flags_rcode(m.header.flags) == RCODE_FORMERR
            &&& m.questions.len() == 0
        },
{
}

/// Where the fields of a written record stand: behind the name come the type, the
/// class, the TTL, the length of the data, and the data itself to the end.
pub proof fn record_fields(r: RecordModel)
    requires
        r.data.bytes().len() < 0x1_0000,
    ensures
        ({
            let n = name_bytes(r.name).len() as int;
            &&& r.bytes().len() == n + 10 + r.data.bytes().len()
            &&& r.bytes().take(n) == name_bytes(r.name)
            &&& u16_at(r.bytes(), n) == r.data.rtype().code()
            &&& u16_at(r.bytes(), n + 2) == r.class
            &&& r.bytes().subrange(n + 4, n + 8) == be32(r.ttl)
            &&& u16_at(r.bytes(), n + 8) == r.data.bytes().len()
            &&& r.bytes().skip(n + 10) == r.data.bytes()
        }),
{
    count16_exact(r.data.bytes().len());
    lemma_record_fields(
        name_bytes(r.name),
        r.data.rtype().code(),
        r.class,
        r.ttl,
        count16(r.data.bytes().len()),
        r.data.bytes(),
    );
}

proof fn lemma_record_fields(
    name: Seq<u8>,
    rtype: u16,
    class: u16,
    ttl: u32,
    length: u16,
    data: Seq<u8>,
)
    ensures
        ({
            let whole = name + be16(rtype) + be16(class) + be32(ttl) + be16(length) + data;
            let n = name.len() as int;
            &&& whole.len() == n + 10 + data.len()
            &&& whole.take(n) == name
            &&& u16_at(whole, n) == rtype
            &&& u16_at(whole, n + 2) == class
            &&& whole.subrange(n + 4, n + 8) == be32(ttl)
            &&& u16_at(whole, n + 8) == length
            &&& whole.skip(n + 10) == data
        }),
{
    let whole = name + be16(rtype) + be16(class) + be32(ttl) + be16(length) + data;
    let n = name.len() as int;
    assert(whole.take(n) =~= name);
    assert(whole.subrange(n, n + 2) =~= be16(rtype));
    assert(whole.subrange(n + 2, n + 4) =~= be16(class));
    assert(whole.subrange(n + 4, n + 8) =~= be32(ttl));
    assert(whole.subrange(n + 8, n + 10) =~= be16(length));
    assert(whole.skip(n + 10) =~= data);
    be16_read_back(whole, n, rtype);
    be16_read_back(whole, n + 2, class);
    be16_read_back(whole, n + 8, length);
}

/// The length-prefixed character-strings that `b` is a row of, if it is one.
pub open spec fn character_strings(b: Seq<u8>) -> Option<Seq<Seq<u8>>>
    decreases b.len(),
{
    if b.len() == 0 {
        Some(Seq::empty())
    } else if 1 + b[0] > b.len() {
        None
    } else {
        match character_strings(b.skip(1 + b[0])) {
            Some(rest) => Some(seq![b.subrange(1, 1 + b[0])] + rest),
            None => None,
        }
    }
}

/// The UTF-8 bytes of the texts, one text behind the other.
pub open spec fn texts_bytes(strings: Seq<Seq<char>>) -> Seq<u8>
    decreases strings.len(),
{
    if strings.len() == 0 {
        Seq::empty()
    } else {
        texts_bytes(strings.drop_last()) + encode_utf8(strings.last())
    }
}

proof fn lemma_chunks_then(b: Seq<u8>, tail: Seq<u8>)
    requires
        character_strings(tail) is Some,
    ensures
        character_strings(chunks_bytes(b) + tail) matches Some(p) && p.flatten() == b
            + character_strings(tail)->0.flatten() && (all_short(character_strings(tail)->0)
            ==> all_short(p)) && p.len() >= character_strings(tail)->0.len() + (if b.len() > 0 {
            1int
        } else {
            0int
        }),
    decreases b.len(),
{
    let after = character_strings(tail)->0;
    if b.len() == 0 {
        assert(chunks_bytes(b) + tail =~= tail);
        assert(b + after.flatten() =~= after.flatten());
    } else {
        let n = chunk_len(b.len()) as int;
        let rest = chunks_bytes(b.skip(n)) + tail;
        let whole = chunks_bytes(b) + tail;
        lemma_chunks_then(b.skip(n), tail);
        assert(whole[0] == n);
        assert(whole.skip(1 + n) =~= rest);
        assert(whole.subrange(1, 1 + n) =~= b.take(n));
        let p = character_strings(rest)->0;
        let q = seq![b.take(n)] + p;
        assert(q.drop_first() =~= p);
        assert(q.flatten() =~= b.take(n) + p.flatten());
        assert(b.take(n) + (b.skip(n) + after.flatten()) =~= b + after.flatten());
        if all_short(after) {
            assert forall|i: int| 0 <= i < q.len() implies (#[trigger] q[i]).len()
                <= MAX_STRING by {
                if i > 0 {
                    assert(q[i] == p[i - 1]);
                }
            }
        }
    }
}

proof fn lemma_text_then(b: Seq<u8>, tail: Seq<u8>)
    requires
        character_strings(tail) is Some,
    ensures
        character_strings(text_bytes(b) + tail) matches Some(p) && p.flatten() == b
            + character_strings(tail)->0.flatten() && (all_short(character_strings(tail)->0)
            ==> all_short(p)) && p.len() > character_strings(tail)->0.len(),
{
    if b.len() == 0 {
        let after = character_strings(tail)->0;
        let whole = seq![0u8] + tail;
        assert(whole.skip(1) =~= tail);
        assert(whole.subrange(1, 1) =~= b);
        let q = seq![b] + after;
        assert(q.drop_first() =~= after);
        assert(q.flatten() =~= b + after.flatten());
        if all_short(after) {
            assert forall|i: int| 0 <= i < q.len() implies (#[trigger] q[i]).len()
                <= MAX_STRING by {
                if i > 0 {
                    assert(q[i] == after[i - 1]);
                }
            }
        }
    } else {
        lemma_chunks_then(b, tail);
    }
}

/// Whether no part is longer than a character-string can be.
pub open spec fn all_short(parts: Seq<Seq<u8>>) -> bool {
    forall|i: int| 0 <= i < parts.len() ==> (#[trigger] parts[i]).len() <= MAX_STRING
}

proof fn lemma_strings_then(strings: Seq<Seq<char>>, tail: Seq<u8>)
    requires
        character_strings(tail) is Some,
        all_short(character_strings(tail)->0),
    ensures
        character_strings(strings_bytes(strings) + tail) matches Some(p) && p.flatten()
            == texts_bytes(strings) + character_strings(tail)->0.flatten() && all_short(p)
            && p.len() >= strings.len() + character_strings(tail)->0.len(),
    decreases strings.len(),
{
    if strings.len() == 0 {
        assert(strings_bytes(strings) + tail =~= tail);
        assert(texts_bytes(strings) + character_strings(tail)->0.flatten()
            =~= character_strings(tail)->0.flatten());
    } else {
        let last = encode_utf8(strings.last());
        let longer = text_bytes(last) + tail;
        lemma_text_then(last, tail);
        lemma_strings_then(strings.drop_last(), longer);
        assert(strings_bytes(strings) + tail =~= strings_bytes(strings.drop_last()) + longer);
        let after = character_strings(tail)->0.flatten();
        assert(texts_bytes(strings.drop_last()) + (last + after) =~= texts_bytes(strings) + after);
    }
}

/// TXT data is a row of character-strings of at most 255 bytes each, at least one for
/// each text, which together hold the bytes of the texts in order.
pub proof fn txt_is_character_strings(strings: Seq<Seq<char>>)
    ensures
        character_strings(DataModel::Txt(strings).bytes()) matches Some(p) && p.flatten()
            == texts_bytes(strings) && all_short(p) && p.len() >= strings.len(),
{
    let none = Seq::<u8>::empty();
    let no_parts = Seq::<Seq<u8>>::empty();
    lemma_strings_then(strings, none);
    assert(strings_bytes(strings) + none =~= strings_bytes(strings));
    assert(no_parts.flatten() =~= none);
    assert(texts_bytes(strings) + none =~= texts_bytes(strings));
}

} // verus!
