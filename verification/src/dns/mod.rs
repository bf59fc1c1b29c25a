//! The resolver: answers queries from a zone.
//!
//! RFC 1035 §4.3.2 (query processing), §3.3.1 (CNAME), RFC 2308 §3 (SOA in
//! negative responses).

use vstd::prelude::*;

use self::message::{
    flags_opcode, flags_qr, flags_rcode, formerr_bytes, message_of, record_models, DataModel,
    Header, Message, MessageModel, Question, QuestionModel, RecordData, RecordModel, RecordType,
    CLASS_IN, RCODE_NOERROR, RCODE_NOTIMP, RCODE_NXDOMAIN, RCODE_REFUSED,
};
use self::zone::{borrowed_models, canon, canonical, Zone, ZoneModel};
use crate::text::{chars_of, same};

pub mod addr;
pub mod addr_laws;
pub mod answer_laws;
pub mod ascii_laws;
pub mod data_laws;
pub mod file_laws;
pub mod format_laws;
pub mod laws;
pub mod lookup_laws;
pub mod message;
pub mod name;
pub mod order_laws;
pub mod view_laws;
pub mod wire;
pub mod zone;
pub mod zone_laws;

verus! {

/// How many CNAME records in a row are followed.
pub const MAX_CNAME_HOPS: usize = 8;

/// The query class that stands for any class.
pub const CLASS_ANY: u16 = 255;

/// The flags with another response code.
pub open spec fn with_rcode(flags: u16, rcode: u8) -> u16 {
    (flags / 16 * 16 + rcode % 16) as u16
}

/// The message with another response code.
pub open spec fn coded(m: MessageModel, rcode: u8) -> MessageModel {
    MessageModel { header: Header { flags: with_rcode(m.header.flags, rcode), ..m.header }, ..m }
}

/// The message with the SOA record of the zone, if there is one, behind its
/// authority section.
pub open spec fn with_soa(m: MessageModel, zone: ZoneModel) -> MessageModel {
    match zone.soa() {
        Some(soa) => MessageModel { authority: m.authority.push(soa), ..m },
        None => m,
    }
}

/// The message with another answer.
pub open spec fn with_answer(m: MessageModel, r: RecordModel) -> MessageModel {
    MessageModel { answers: m.answers.push(r), ..m }
}

/// The response once a question for `name` has been answered, `depth` CNAME
/// records having led there.
pub open spec fn answered(
    m: MessageModel,
    zone: ZoneModel,
    name: Seq<char>,
    qtype: u16,
    depth: int,
) -> MessageModel
    decreases MAX_CNAME_HOPS + 1 - depth, 1int, 0int,
{
    if depth > MAX_CNAME_HOPS {
        m
    } else {
        match zone.lookup(name, qtype) {
            None => if flags_rcode(m.header.flags) == RCODE_NOERROR {
                with_soa(coded(m, RCODE_NXDOMAIN), zone)
            } else {
                m
            },
            Some(records) => if records.len() > 0 {
                MessageModel { answers: m.answers + records, ..m }
            } else if qtype == RecordType::Cname.code() || qtype == RecordType::Any.code() {
                with_soa(m, zone)
            } else {
                match zone.lookup(name, RecordType::Cname.code()) {
                    Some(cnames) => if cnames.len() > 0 {
                        followed(m, zone, cnames, qtype, depth)
                    } else {
                        with_soa(m, zone)
                    },
                    None => with_soa(m, zone),
                }
            },
        }
    }
}

/// The response once each of the CNAME records has been added and what its target
/// has of the type has been looked up.
pub open spec fn followed(
    m: MessageModel,
    zone: ZoneModel,
    cnames: Seq<RecordModel>,
    qtype: u16,
    depth: int,
) -> MessageModel
    decreases MAX_CNAME_HOPS + 1 - depth, 0int, cnames.len(),
{
    if cnames.len() == 0 || depth > MAX_CNAME_HOPS {
        m
    } else {
        let before = followed(m, zone, cnames.drop_last(), qtype, depth);
        let added = with_answer(before, cnames.last());
        match cnames.last().data {
            DataModel::Cname(target) => answered(added, zone, target, qtype, depth + 1),
            _ => added,
        }
    }
}

/// Whether `name` is `apex` or lies below it.
pub open spec fn is_or_below(name: Seq<char>, apex: Seq<char>) -> bool {
    let start = name.len() - apex.len();
    name == apex || (start > 0 && name[start - 1] == '.' && name.skip(start) == apex)
}

/// The topmost name of a zone: the owner of its SOA record. A zone without one has
/// its origin in place of it.
pub open spec fn zone_apex(zone: ZoneModel) -> Seq<char> {
    match zone.soa() {
        Some(soa) => canonical(soa.name),
        None => zone.origin,
    }
}

/// Whether the server answers for a name: it is the topmost name of the zone or lies
/// below it, or the zone has records with it. Every name lies below the root.
pub open spec fn in_bailiwick(zone: ZoneModel, name: Seq<char>) -> bool {
    zone_apex(zone).len() == 0 || is_or_below(name, zone_apex(zone)) || zone.has_name(name)
}

/// The response once a question has been answered. A question of a class other
/// than IN and ANY is refused, and so is one for a name that the server does not
/// answer for (RFC 1035 §4.3.1).
pub open spec fn question_answered(
    m: MessageModel,
    zone: ZoneModel,
    q: QuestionModel,
) -> MessageModel {
    if q.qclass != CLASS_IN && q.qclass != CLASS_ANY {
        coded(m, RCODE_REFUSED)
    } else if !in_bailiwick(zone, canonical(q.name)) {
        coded(m, RCODE_REFUSED)
    } else {
        answered(m, zone, canonical(q.name), q.qtype, 0)
    }
}

/// The response once the questions have been answered, in order.
pub open spec fn questions_answered(
    m: MessageModel,
    zone: ZoneModel,
    questions: Seq<QuestionModel>,
) -> MessageModel
    decreases questions.len(),
{
    if questions.len() == 0 {
        m
    } else {
        question_answered(
            questions_answered(m, zone, questions.drop_last()),
            zone,
            questions.last(),
        )
    }
}

/// The response to a query; `None` if it gets none.
///
/// Only standard queries are supported, and responses are not answered.
pub open spec fn response_to(query: MessageModel, zone: ZoneModel) -> Option<MessageModel> {
    if flags_opcode(query.header.flags) != 0 {
        Some(query.response(RCODE_NOTIMP))
    } else if flags_qr(query.header.flags) {
        None
    } else {
        Some(questions_answered(query.response(RCODE_NOERROR), zone, query.questions))
    }
}

/// The datagram that answers a datagram; empty if there is none. What cannot be
/// read gets a FORMERR response, if its ID can be read.
pub open spec fn reply(buf: Seq<u8>, zone: ZoneModel) -> Seq<u8> {
    match message_of(buf) {
        Err(_) => if buf.len() >= 2 {
            formerr_bytes(buf)
        } else {
            Seq::empty()
        },
        Ok(query) => match response_to(query, zone) {
            Some(response) => response.bytes(),
            None => Seq::empty(),
        },
    }
}

/// Puts another response code into the flags.
fn set_rcode(flags: u16, rcode: u8) -> (r: u16)
    requires
        rcode < 16,
    ensures
        r == with_rcode(flags, rcode),
{
    let rc: u16 = rcode as u16;
    assert((flags & !0xfu16) | rc == flags / 16 * 16 + rc) by (bit_vector)
        requires
            rc < 16,
    ;
    (flags & !0xfu16) | rc
}

/// Appends the SOA record of the zone, if there is one, to the authority section.
fn push_soa(response: &mut Message, zone: &Zone)
    ensures
        final(response)@ == with_soa(old(response)@, zone@),
{
    if let Some(soa) = zone.soa() {
        let ghost before = response.authority@;
        let rr = soa.clone();
        response.authority.push(rr);
        assert(record_models(response.authority@) =~= record_models(before).push(soa@));
    }
}

/// Fills the answer and authority sections for one question, following CNAME
/// records at most [`MAX_CNAME_HOPS`] deep.
pub fn answer_question(response: &mut Message, zone: &Zone, name: &str, qtype: u16, depth: usize)
    ensures
        final(response)@ == answered(old(response)@, zone@, name@, qtype, depth as int),
    decreases MAX_CNAME_HOPS + 1 - depth,
{
    if depth > MAX_CNAME_HOPS {
        return;
    }
    match zone.lookup(name, qtype) {
        None => {
            if response.header.flags % 16 == 0 {
                response.header.flags = set_rcode(response.header.flags, RCODE_NXDOMAIN);
                push_soa(response, zone);
            }
        },
        Some(records) => {
            if records.len() > 0 {
                let ghost all = borrowed_models(records@);
                let mut i: usize = 0;
                assert(response@.answers + all.take(0) =~= response@.answers);
                while i < records.len()
                    invariant
                        i <= records.len(),
                        all == borrowed_models(records@),
                        response@ == (MessageModel {
                            answers: old(response)@.answers + all.take(i as int),
                            ..old(response)@
                        }),
                    decreases records.len() - i,
                {
                    let ghost before = response.answers@;
                    response.answers.push(records[i].clone());
                    assert(record_models(response.answers@) =~= record_models(before).push(
                        all[i as int],
                    ));
                    assert(old(response)@.answers + all.take(i + 1) =~= (old(response)@.answers
                        + all.take(i as int)).push(all[i as int]));
                    i = i + 1;
                }
                assert(all.take(i as int) =~= all);
            } else if qtype == u16::from(RecordType::Cname) || qtype == u16::from(
                RecordType::Any,
            ) {
                push_soa(response, zone);
            } else {
                match zone.lookup(name, u16::from(RecordType::Cname)) {
                    Some(cnames) => {
                        if cnames.len() > 0 {
                            let ghost all = borrowed_models(cnames@);
                            let mut i: usize = 0;
                            while i < cnames.len()
                                invariant
                                    i <= cnames.len(),
                                    depth <= MAX_CNAME_HOPS,
                                    all == borrowed_models(cnames@),
                                    response@ == followed(
                                        old(response)@,
                                        zone@,
                                        all.take(i as int),
                                        qtype,
                                        depth as int,
                                    ),
                                decreases cnames.len() - i,
                            {
                                let cname_rr = cnames[i];
                                assert(all.take(i + 1).drop_last() =~= all.take(i as int));
                                assert(all.take(i + 1).last() == cname_rr@);
                                let ghost before = response.answers@;
                                response.answers.push(cname_rr.clone());
                                assert(record_models(response.answers@) =~= record_models(
                                    before,
                                ).push(cname_rr@));
                                if let RecordData::Cname(target) = &cname_rr.data {
                                    answer_question(
                                        response,
                                        zone,
                                        target.as_str(),
                                        qtype,
                                        depth + 1,
                                    );
                                }
                                i = i + 1;
                            }
                            assert(all.take(i as int) =~= all);
                        } else {
                            push_soa(response, zone);
                        }
                    },
                    None => {
                        push_soa(response, zone);
                    },
                }
            }
        },
    }
}

/// Tests whether `name` is `apex` or lies below it.
fn lies_below(name: &str, apex: &str) -> (r: bool)
    ensures
        r == is_or_below(name@, apex@),
{
    if same(name, apex) {
        return true;
    }
    let v = chars_of(name);
    let n: usize = chars_of(apex).len();
    if v.len() <= n {
        return false;
    }
    let start: usize = v.len() - n;
    let end = name.substring_char(start, v.len());
    assert(end@ =~= name@.skip(start as int));
    v[start - 1] == '.' && same(end, apex)
}

/// Tests whether the server answers for a name.
pub fn is_in_bailiwick(zone: &Zone, name: &str) -> (r: bool)
    ensures
        r == in_bailiwick(zone@, name@),
{
    let apex = match zone.soa() {
        Some(soa) => canon(soa.name.as_str()),
        None => zone.origin().to_owned(),
    };
    apex.as_str().is_empty() || lies_below(name, apex.as_str()) || zone.lookup(
        name,
        u16::from(RecordType::Any),
    ).is_some()
}

/// Answers one question in the response.
fn answer(response: &mut Message, zone: &Zone, q: &Question)
    ensures
        final(response)@ == question_answered(old(response)@, zone@, q@),
{
    if q.qclass != CLASS_IN && q.qclass != CLASS_ANY {
        response.header.flags = set_rcode(response.header.flags, RCODE_REFUSED);
        return;
    }
    let qname = canon(q.name.as_str());
    if !is_in_bailiwick(zone, qname.as_str()) {
        response.header.flags = set_rcode(response.header.flags, RCODE_REFUSED);
    } else {
        answer_question(response, zone, qname.as_str(), q.qtype, 0);
    }
}

/// The response to a query, if it gets one.
pub fn respond(query: &Message, zone: &Zone) -> (r: Option<Message>)
    ensures
        match r {
            Some(m) => response_to(query@, zone@) == Some(m@),
            None => response_to(query@, zone@) is None,
        },
{
    if query.header.opcode() != 0 {
        return Some(query.response(RCODE_NOTIMP));
    }
    if query.header.qr() {
        return None;
    }
    let mut response = query.response(RCODE_NOERROR);
    let ghost all = query@.questions;
    let mut i: usize = 0;
    while i < query.questions.len()
        invariant
            i <= query.questions.len(),
            all == query@.questions,
            response@ == questions_answered(
                query@.response(RCODE_NOERROR),
                zone@,
                all.take(i as int),
            ),
        decreases query.questions.len() - i,
    {
        assert(all.take(i + 1).drop_last() =~= all.take(i as int));
        assert(all.take(i + 1).last() == query.questions[i as int]@);
        answer(&mut response, zone, &query.questions[i]);
        i = i + 1;
    }
    assert(all.take(i as int) =~= all);
    Some(response)
}

/// Answers a datagram from a zone: the datagram to send back, empty if there is
/// none. What cannot be read gets a FORMERR response.
pub fn resolve(buf: &[u8], zone: &Zone) -> (r: Vec<u8>)
    ensures
        r@ == reply(buf@, zone@),
{
    match Message::parse(buf) {
        Err(_) => match Message::formerr(buf) {
            Some(out) => out,
            None => Vec::new(),
        },
        Ok(query) => match respond(&query, zone) {
            Some(response) => response.serialize(),
            None => Vec::new(),
        },
    }
}

} // verus!
