//! What a question adds to a response, whatever the response already holds.

use vstd::prelude::*;

use super::message::{
    formerr_bytes, message_of, DataModel, MessageModel, QuestionModel, RecordModel,
};
use super::zone::{canonical, ZoneModel};
use super::{
    answered, followed, in_bailiwick, is_or_below, question_answered, questions_answered, reply,
    response_to,
};

verus! {

/// Whether `after` is `before` with `answers` and `authority` behind what those
/// sections hold, and nothing else changed but the response code, which is `rcode`.
pub open spec fn adds(
    before: MessageModel,
    after: MessageModel,
    rcode: int,
    answers: Seq<RecordModel>,
    authority: Seq<RecordModel>,
) -> bool {
    &&& after.header.id == before.header.id
    &&& after.header.flags == before.header.flags - before.header.flags % 16 + rcode
    &&& after.header.qdcount == before.header.qdcount
    &&& after.header.ancount == before.header.ancount
    &&& after.header.nscount == before.header.nscount
    &&& after.header.arcount == before.header.arcount
    &&& after.questions == before.questions
    &&& after.answers == before.answers + answers
    &&& after.authority == before.authority + authority
    &&& after.additional == before.additional
}

/// The SOA record of a zone, if it has one.
pub open spec fn soa_alone(zone: ZoneModel) -> Seq<RecordModel> {
    if zone.soa() is Some {
        seq![zone.soa()->0]
    } else {
        Seq::empty()
    }
}

/// How a name is answered within eight aliases. Records of the type are added to the
/// answers. A name that does not exist gets response code 3 and the SOA record, unless
/// the code already tells an error; then nothing changes. A name that exists without
/// such records gets the SOA record, unless it has CNAME records (type 5) and another
/// single type was asked for. Beyond eight aliases nothing is added.
pub proof fn name_answering(
    m: MessageModel,
    zone: ZoneModel,
    name: Seq<char>,
    qtype: u16,
    depth: int,
)
    ensures
        ({
            let after = answered(m, zone, name, qtype, depth);
            let rcode = m.header.flags as int % 16;
            let none = Seq::<RecordModel>::empty();
            &&& depth > 8 ==> after == m
            &&& depth <= 8 ==> match zone.lookup(name, qtype) {
                None => if rcode == 0 {
                    adds(m, after, 3, none, soa_alone(zone))
                } else {
                    after == m
                },
                Some(found) => if found.len() > 0 {
                    adds(m, after, rcode, found, none)
                } else if qtype == 5 || qtype == 255 || zone.lookup(name, 5) == Some(none) {
                    adds(m, after, rcode, none, soa_alone(zone))
                } else {
                    zone.lookup(name, 5) is Some ==> after == followed(
                        m,
                        zone,
                        zone.lookup(name, 5)->0,
                        qtype,
                        depth,
                    )
                },
            }
        }),
{
    let after = answered(m, zone, name, qtype, depth);
    let none = Seq::<RecordModel>::empty();
    assert(m.answers + none =~= m.answers);
    assert(m.authority + none =~= m.authority);
    if let Some(soa) = zone.soa() {
        assert(m.authority + seq![soa] =~= m.authority.push(soa));
    }
    if depth <= 8 {
        if let Some(found) = zone.lookup(name, qtype) {
            if found.len() == 0 {
                assert(found =~= none);
            }
            if zone.lookup(name, 5) is Some && zone.lookup(name, 5)->0.len() == 0 {
                assert(zone.lookup(name, 5)->0 =~= none);
            }
        }
    }
}

/// How the CNAME records of a name are followed, within eight aliases: each is added to
/// the answers, and behind it what its target has of the type, one alias further on.
pub proof fn alias_following(
    m: MessageModel,
    zone: ZoneModel,
    cnames: Seq<RecordModel>,
    alias: RecordModel,
    target: Seq<char>,
    qtype: u16,
    depth: int,
    linked: MessageModel,
)
    requires
        alias.data == DataModel::Cname(target),
        depth <= 8,
        adds(
            followed(m, zone, cnames, qtype, depth),
            linked,
            followed(m, zone, cnames, qtype, depth).header.flags as int % 16,
            seq![alias],
            Seq::empty(),
        ),
    ensures
        followed(m, zone, Seq::empty(), qtype, depth) == m,
        followed(m, zone, cnames.push(alias), qtype, depth) == answered(
            linked,
            zone,
            target,
            qtype,
            depth + 1,
        ),
{
    let before = followed(m, zone, cnames, qtype, depth);
    assert(cnames.push(alias).drop_last() =~= cnames);
    assert(cnames.push(alias).last() == alias);
    assert(before.answers + seq![alias] =~= before.answers.push(alias));
    assert(before.authority + Seq::<RecordModel>::empty() =~= before.authority);
    assert(linked == (MessageModel { answers: before.answers.push(alias), ..before }));
}

/// A name lies at or below another exactly if it is that name, or ends in a dot and
/// that name.
pub proof fn lying_below(x: Seq<char>, name: Seq<char>, apex: Seq<char>)
    ensures
        is_or_below(apex, apex),
        is_or_below(x + seq!['.'] + apex, apex),
        is_or_below(name, apex) ==> name == apex || name == name.take(
            name.len() - apex.len() - 1,
        ) + seq!['.'] + apex,
{
    let below = x + seq!['.'] + apex;
    let start = below.len() - apex.len();
    assert(below[start - 1] == '.');
    assert(below.skip(start) =~= apex);
    if is_or_below(name, apex) && name != apex {
        let n = name.len() - apex.len();
        assert(name =~= name.take(n - 1) + seq!['.'] + apex) by {
            assert forall|i: int| n <= i < name.len() implies name[i] == apex[i - n] by {
                assert(name.skip(n)[i - n] == name[i]);
            }
        }
    }
}

/// The names that the server answers for: those at or below the owner of the zone's
/// SOA record, or its origin if it has no such record, and those that the zone has;
/// all names, where that owner or origin is the root.
pub proof fn answering_for(zone: ZoneModel, name: Seq<char>, qtype: u16)
    ensures
        ({
            let apex = if zone.soa() is Some {
                canonical(zone.soa()->0.name)
            } else {
                zone.origin
            };
            in_bailiwick(zone, name) <==> apex.len() == 0 || is_or_below(name, apex)
                || zone.lookup(name, qtype) is Some
        }),
{
}

/// How a question is answered: one of a class other than IN (1) and ANY (255), or for a
/// name that the server does not answer for, sets response code 5 and nothing else; any
/// other is answered for its name, reached through no alias.
pub proof fn question_answering(m: MessageModel, zone: ZoneModel, q: QuestionModel)
    ensures
        ({
            let after = question_answered(m, zone, q);
            if (q.qclass == 1 || q.qclass == 255) && in_bailiwick(zone, canonical(q.name)) {
                after == answered(m, zone, canonical(q.name), q.qtype, 0)
            } else {
                adds(m, after, 5, Seq::empty(), Seq::empty())
            }
        }),
{
    let none = Seq::<RecordModel>::empty();
    assert(m.answers + none =~= m.answers);
    assert(m.authority + none =~= m.authority);
}

/// How a query is answered: its questions one after the other, each on what those
/// before it have left.
pub proof fn query_answering(
    query: MessageModel,
    zone: ZoneModel,
    m: MessageModel,
    questions: Seq<QuestionModel>,
    q: QuestionModel,
)
    ensures
        questions_answered(m, zone, Seq::empty()) == m,
        questions_answered(m, zone, questions.push(q)) == question_answered(
            questions_answered(m, zone, questions),
            zone,
            q,
        ),
        query.header.flags / 2048 % 16 != 0 ==> response_to(query, zone) == Some(query.response(4)),
        query.header.flags / 2048 % 16 == 0 && query.header.flags >= 32768 ==> response_to(
            query,
            zone,
        ) is None,
        query.header.flags / 2048 % 16 == 0 && query.header.flags < 32768 ==> response_to(
            query,
            zone,
        ) == Some(questions_answered(query.response(0), zone, query.questions)),
{
    assert(questions.push(q).drop_last() =~= questions);
}

/// How a datagram is answered: with the response to the query that it holds, written
/// out, or nothing if there is none; if it holds none, with FORMERR, or nothing if it
/// has no ID.
pub proof fn datagram_answering(buf: Seq<u8>, zone: ZoneModel)
    ensures
        match message_of(buf) {
            Ok(query) => match response_to(query, zone) {
                Some(m) => reply(buf, zone) == m.bytes(),
                None => reply(buf, zone).len() == 0,
            },
            Err(_) => if buf.len() < 2 {
                reply(buf, zone).len() == 0
            } else {
                reply(buf, zone) == formerr_bytes(buf)
            },
        },
{
}

} // verus!
