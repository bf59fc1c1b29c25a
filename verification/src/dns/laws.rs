//! What holds of every reply.

use vstd::prelude::*;

use super::message::{
    flags_aa, flags_opcode, flags_qr, flags_rcode, flags_rd, formerr_bytes,
    formerr_is_a_message, message_of, message_read_back, question_read, questions_at,
    questions_encodable, response_flags_fields, DataModel, MessageModel, ParseError,
    QuestionModel, RecordModel, RecordType, CLASS_IN, RCODE_FORMERR, RCODE_NOERROR,
    RCODE_NOTIMP, RCODE_NXDOMAIN, RCODE_REFUSED,
};
use super::name::name_end;
use super::wire::{be16, count16, u16_at};
use super::zone::{asks_for, canonical, same_name, ZoneModel};
use super::zone_laws::lookup_finds_all_and_only;
use super::{
    answered, followed, in_bailiwick, is_or_below, question_answered, questions_answered, reply,
    response_to, with_answer, zone_apex, CLASS_ANY, MAX_CNAME_HOPS,
};

verus! {

/// Whether `after` is `before` with nothing but records added to the answer and
/// authority sections, and perhaps another response code.
pub open spec fn extends(before: MessageModel, after: MessageModel) -> bool {
    &&& after.header.id == before.header.id
    &&& after.header.flags / 16 == before.header.flags / 16
    &&& after.header.qdcount == before.header.qdcount
    &&& after.header.ancount == before.header.ancount
    &&& after.header.nscount == before.header.nscount
    &&& after.header.arcount == before.header.arcount
    &&& after.questions == before.questions
    &&& before.answers.is_prefix_of(after.answers)
    &&& before.authority.is_prefix_of(after.authority)
    &&& after.additional == before.additional
}

proof fn lemma_extends_transitive(a: MessageModel, b: MessageModel, c: MessageModel)
    requires
        extends(a, b),
        extends(b, c),
    ensures
        extends(a, c),
{
    assert(a.answers =~= c.answers.take(a.answers.len() as int)) by {
        assert(a.answers =~= b.answers.take(a.answers.len() as int));
        assert(b.answers =~= c.answers.take(b.answers.len() as int));
    }
    assert(a.authority =~= c.authority.take(a.authority.len() as int)) by {
        assert(a.authority =~= b.authority.take(a.authority.len() as int));
        assert(b.authority =~= c.authority.take(b.authority.len() as int));
    }
}

/// Answering a question only adds to the response: the ID, the questions and the
/// records that it already holds stay.
pub proof fn answering_extends(
    m: MessageModel,
    zone: ZoneModel,
    name: Seq<char>,
    qtype: u16,
    depth: int,
)
    ensures
        extends(m, answered(m, zone, name, qtype, depth)),
    decreases MAX_CNAME_HOPS + 1 - depth, 1int, 0int,
{
    if depth <= MAX_CNAME_HOPS {
        if let Some(records) = zone.lookup(name, qtype) {
            if records.len() == 0 && qtype != RecordType::Cname.code() && qtype
                != RecordType::Any.code() {
                if let Some(cnames) = zone.lookup(name, RecordType::Cname.code()) {
                    lemma_following_extends(m, zone, cnames, qtype, depth);
                }
            }
        }
    }
}

proof fn lemma_following_extends(
    m: MessageModel,
    zone: ZoneModel,
    cnames: Seq<RecordModel>,
    qtype: u16,
    depth: int,
)
    ensures
        extends(m, followed(m, zone, cnames, qtype, depth)),
    decreases MAX_CNAME_HOPS + 1 - depth, 0int, cnames.len(),
{
    if cnames.len() > 0 && depth <= MAX_CNAME_HOPS {
        let before = followed(m, zone, cnames.drop_last(), qtype, depth);
        let added = with_answer(before, cnames.last());
        lemma_following_extends(m, zone, cnames.drop_last(), qtype, depth);
        lemma_extends_transitive(m, before, added);
        if let DataModel::Cname(target) = cnames.last().data {
            answering_extends(added, zone, target, qtype, depth + 1);
            lemma_extends_transitive(
                m,
                added,
                answered(added, zone, target, qtype, depth + 1),
            );
        }
    }
}

/// Answering questions only adds to the response.
pub proof fn answering_all_extends(m: MessageModel, zone: ZoneModel, questions: Seq<QuestionModel>)
    ensures
        extends(m, questions_answered(m, zone, questions)),
    decreases questions.len(),
{
    if questions.len() > 0 {
        let before = questions_answered(m, zone, questions.drop_last());
        let q = questions.last();
        answering_all_extends(m, zone, questions.drop_last());
        if in_bailiwick(zone, canonical(q.name)) {
            answering_extends(before, zone, canonical(q.name), q.qtype, 0);
        }
        lemma_extends_transitive(m, before, question_answered(before, zone, q));
    }
}

proof fn lemma_flags_high(before: u16, after: u16)
    requires
        after / 16 == before / 16,
    ensures
        flags_qr(after) == flags_qr(before),
        flags_opcode(after) == flags_opcode(before),
        flags_aa(after) == flags_aa(before),
        flags_rd(after) == flags_rd(before),
{
    assert(after / 0x800 == before / 0x800 && after / 0x400 == before / 0x400 && after / 0x100
        == before / 0x100 && (after >= 0x8000) == (before >= 0x8000)) by (bit_vector)
        requires
            after / 16 == before / 16,
    ;
}

/// A response that is sent has the ID and the questions of the query, is marked as
/// a standard response by an authority, and asks for recursion as the query does.
pub proof fn response_echoes_query(query: MessageModel, zone: ZoneModel)
    ensures
        response_to(query, zone) matches Some(m) ==> {
            &&& m.header.id == query.header.id
            &&& m.questions == query.questions
            &&& m.additional.len() == 0
            &&& flags_qr(m.header.flags)
            &&& flags_opcode(m.header.flags) == 0
            &&& flags_aa(m.header.flags)
            &&& flags_rd(m.header.flags) == flags_rd(query.header.flags)
        },
{
    response_flags_fields(query.header.flags, RCODE_NOTIMP);
    response_flags_fields(query.header.flags, RCODE_NOERROR);
    if let Some(m) = response_to(query, zone) {
        if flags_opcode(query.header.flags) == 0 {
            let empty = query.response(RCODE_NOERROR);
            answering_all_extends(empty, zone, query.questions);
            lemma_flags_high(empty.header.flags, m.header.flags);
        }
    }
}

proof fn lemma_questions_len(buf: Seq<u8>, pos: int, n: nat)
    ensures
        questions_at(buf, pos, n) matches Ok(questions) ==> questions.len() == n,
    decreases n,
{
    if n > 0 {
        let end = name_end(buf, pos)->0;
        lemma_questions_len(buf, end + 4, (n - 1) as nat);
    }
}

/// A reply that is sent is at least a header long and starts with the ID of the
/// datagram that it answers.
pub proof fn reply_echoes_id(buf: Seq<u8>, zone: ZoneModel)
    ensures
        reply(buf, zone).len() > 0 ==> {
            &&& buf.len() >= 2
            &&& reply(buf, zone).len() >= 12
            &&& reply(buf, zone).take(2) == buf.take(2)
        },
{
    if let Ok(query) = message_of(buf) {
        if let Some(m) = response_to(query, zone) {
            response_echoes_query(query, zone);
            let id = u16_at(buf, 0);
            assert(be16(id) =~= buf.take(2));
            assert(m.bytes().take(2) =~= be16(id));
        }
    } else if buf.len() >= 2 {
        assert(formerr_bytes(buf).take(2) =~= buf.take(2));
    }
}

/// A query that gets a response can read it: the reply is a message with the ID of
/// the query, its questions, the true section counts, and the response's flags.
pub proof fn reply_reads_as_response(buf: Seq<u8>, zone: ZoneModel, query: MessageModel)
    requires
        message_of(buf) == Ok::<_, ParseError>(query),
        response_to(query, zone) is Some,
        questions_encodable(query.questions),
    ensures
        message_of(reply(buf, zone)) matches Ok(m) && {
            let response = response_to(query, zone)->0;
            &&& m.header.id == query.header.id
            &&& m.header.flags == response.header.flags
            &&& m.header.qdcount == query.header.qdcount
            &&& m.header.ancount == count16(response.answers.len())
            &&& m.header.nscount == count16(response.authority.len())
            &&& m.header.arcount == 0
            &&& m.questions == query.questions.map_values(|q: QuestionModel| question_read(q))
        },
{
    response_echoes_query(query, zone);
    lemma_questions_len(buf, 12, query.header.qdcount as nat);
    message_read_back(response_to(query, zone)->0);
}

/// What cannot be read but for its ID is answered with FORMERR.
pub proof fn unreadable_gets_formerr(buf: Seq<u8>, zone: ZoneModel)
    requires
        message_of(buf) is Err,
        buf.len() >= 2,
    ensures
        message_of(reply(buf, zone)) matches Ok(m) && {
            &&& m.header.id == u16_at(buf, 0)
            &&& flags_qr(m.header.flags)
            &&& flags_rcode(m.header.flags) == RCODE_FORMERR
            &&& m.questions.len() == 0
        },
{
    formerr_is_a_message(buf);
}

/// A query that is not a standard one is answered with NOTIMP and no record.
pub proof fn other_opcode_gets_notimp(query: MessageModel, zone: ZoneModel)
    requires
        flags_opcode(query.header.flags) != 0,
    ensures
        response_to(query, zone) matches Some(m) && {
            &&& flags_rcode(m.header.flags) == RCODE_NOTIMP
            &&& m.questions == query.questions
            &&& m.answers.len() == 0
            &&& m.authority.len() == 0
        },
{
    response_flags_fields(query.header.flags, RCODE_NOTIMP);
}

/// A standard message that is a response gets no reply.
pub proof fn responses_get_no_reply(buf: Seq<u8>, zone: ZoneModel, query: MessageModel)
    requires
        message_of(buf) == Ok::<_, ParseError>(query),
        flags_opcode(query.header.flags) == 0,
        flags_qr(query.header.flags),
    ensures
        reply(buf, zone).len() == 0,
{
}

/// Whether a message asks one question of class IN or ANY in a standard query.
pub open spec fn asks_one(query: MessageModel, q: QuestionModel) -> bool {
    &&& flags_opcode(query.header.flags) == 0
    &&& !flags_qr(query.header.flags)
    &&& query.questions == seq![q]
    &&& q.qclass == CLASS_IN || q.qclass == CLASS_ANY
}

/// The SOA record of the zone as an authority section; empty if there is none.
pub open spec fn soa_section(zone: ZoneModel) -> Seq<RecordModel> {
    match zone.soa() {
        Some(soa) => seq![soa],
        None => Seq::empty(),
    }
}

proof fn lemma_asks_one(query: MessageModel, zone: ZoneModel, q: QuestionModel)
    requires
        asks_one(query, q),
        in_bailiwick(zone, canonical(q.name)),
    ensures
        response_to(query, zone) == Some(
            answered(query.response(RCODE_NOERROR), zone, canonical(q.name), q.qtype, 0),
        ),
        flags_rcode(query.response(RCODE_NOERROR).header.flags) == RCODE_NOERROR,
{
    reveal_with_fuel(questions_answered, 2);
    assert(seq![q].drop_last() =~= Seq::empty());
    response_flags_fields(query.header.flags, RCODE_NOERROR);
}

/// A question that the zone has records for is answered with exactly those, in the
/// order of the zone.
pub proof fn existing_records_answer(
    query: MessageModel,
    zone: ZoneModel,
    q: QuestionModel,
    records: Seq<RecordModel>,
)
    requires
        asks_one(query, q),
        zone.lookup(canonical(q.name), q.qtype) == Some(records),
        records.len() > 0,
    ensures
        response_to(query, zone) matches Some(m) && {
            &&& flags_rcode(m.header.flags) == RCODE_NOERROR
            &&& m.answers == records
            &&& m.authority.len() == 0
        },
{
    lemma_asks_one(query, zone, q);
    assert(Seq::<RecordModel>::empty() + records =~= records);
}

/// A record of the zone is among the answers to a question for its name and type.
pub proof fn stored_record_answers(
    query: MessageModel,
    zone: ZoneModel,
    q: QuestionModel,
    r: RecordModel,
)
    requires
        asks_one(query, q),
        zone.records.contains(r),
        same_name(r.name, canonical(q.name)),
        asks_for(q.qtype, r.data.rtype()),
    ensures
        response_to(query, zone) matches Some(m) && {
            &&& flags_rcode(m.header.flags) == RCODE_NOERROR
            &&& m.answers.contains(r)
        },
{
    let name = canonical(q.name);
    let i = zone.records.index_of(r);
    assert(same_name(zone.records[i].name, name));
    let found = zone.lookup(name, q.qtype)->0;
    lookup_finds_all_and_only(zone, name, q.qtype, found);
    assert(found.contains(r));
    existing_records_answer(query, zone, q, found);
}

/// A question for a name that the server answers for but the zone does not have is
/// answered with NXDOMAIN, no record, and the SOA record as authority (RFC 2308 §3).
pub proof fn missing_name_gets_nxdomain(query: MessageModel, zone: ZoneModel, q: QuestionModel)
    requires
        asks_one(query, q),
        in_bailiwick(zone, canonical(q.name)),
        !zone.has_name(canonical(q.name)),
    ensures
        response_to(query, zone) matches Some(m) && {
            &&& flags_rcode(m.header.flags) == RCODE_NXDOMAIN
            &&& m.answers.len() == 0
            &&& m.authority == soa_section(zone)
        },
{
    lemma_asks_one(query, zone, q);
    if let Some(soa) = zone.soa() {
        assert(Seq::<RecordModel>::empty().push(soa) =~= seq![soa]);
    }
}

/// A question for a missing name at or below the owner of the zone's SOA record is
/// answered with NXDOMAIN, no record, and that SOA record as authority, whatever
/// origins the zone file sets.
pub proof fn missing_name_below_soa_gets_nxdomain(
    query: MessageModel,
    zone: ZoneModel,
    q: QuestionModel,
    soa: RecordModel,
)
    requires
        asks_one(query, q),
        zone.soa() == Some(soa),
        is_or_below(canonical(q.name), canonical(soa.name)),
        !zone.has_name(canonical(q.name)),
    ensures
        response_to(query, zone) matches Some(m) && {
            &&& flags_rcode(m.header.flags) == RCODE_NXDOMAIN
            &&& m.answers.len() == 0
            &&& m.authority == seq![soa]
        },
{
    missing_name_gets_nxdomain(query, zone, q);
}

/// A question for a name that exists, but neither with records of the type nor as
/// an alias, is answered without error, without records, and with the SOA record
/// as authority (RFC 2308 §2.2, §3).
pub proof fn missing_type_gets_nodata(query: MessageModel, zone: ZoneModel, q: QuestionModel)
    requires
        asks_one(query, q),
        zone.lookup(canonical(q.name), q.qtype) == Some(Seq::<RecordModel>::empty()),
        zone.lookup(canonical(q.name), RecordType::Cname.code()) == Some(
            Seq::<RecordModel>::empty(),
        ),
    ensures
        response_to(query, zone) matches Some(m) && {
            &&& flags_rcode(m.header.flags) == RCODE_NOERROR
            &&& m.answers.len() == 0
            &&& m.authority == soa_section(zone)
        },
{
    lemma_asks_one(query, zone, q);
    if let Some(soa) = zone.soa() {
        assert(Seq::<RecordModel>::empty().push(soa) =~= seq![soa]);
    }
}

/// A question of a class other than IN and ANY sets the response code to REFUSED
/// and changes nothing else.
pub proof fn other_class_refused(m: MessageModel, zone: ZoneModel, q: QuestionModel)
    requires
        q.qclass != CLASS_IN,
        q.qclass != CLASS_ANY,
    ensures
        flags_rcode(question_answered(m, zone, q).header.flags) == RCODE_REFUSED,
        question_answered(m, zone, q).header.flags / 16 == m.header.flags / 16,
        question_answered(m, zone, q).questions == m.questions,
        question_answered(m, zone, q).answers == m.answers,
        question_answered(m, zone, q).authority == m.authority,
{
}

/// A question for a name that is neither the topmost name of the zone, which is the
/// owner of its SOA record if it has one, nor below it, nor in the zone sets the
/// response code to REFUSED and changes nothing else.
pub proof fn out_of_bailiwick_refused(m: MessageModel, zone: ZoneModel, q: QuestionModel)
    requires
        zone_apex(zone).len() > 0,
        !is_or_below(canonical(q.name), zone_apex(zone)),
        !zone.has_name(canonical(q.name)),
    ensures
        flags_rcode(question_answered(m, zone, q).header.flags) == RCODE_REFUSED,
        question_answered(m, zone, q).header.flags / 16 == m.header.flags / 16,
        question_answered(m, zone, q).questions == m.questions,
        question_answered(m, zone, q).answers == m.answers,
        question_answered(m, zone, q).authority == m.authority,
{
}

/// An error that the response code already tells is not replaced by a later
/// question's missing name.
pub proof fn error_code_stays(
    m: MessageModel,
    zone: ZoneModel,
    name: Seq<char>,
    qtype: u16,
    depth: int,
)
    requires
        flags_rcode(m.header.flags) != RCODE_NOERROR,
    ensures
        answered(m, zone, name, qtype, depth).header == m.header,
    decreases MAX_CNAME_HOPS + 1 - depth, 1int, 0int,
{
    if depth <= MAX_CNAME_HOPS {
        if let Some(records) = zone.lookup(name, qtype) {
            if let Some(cnames) = zone.lookup(name, RecordType::Cname.code()) {
                lemma_error_code_stays(m, zone, cnames, qtype, depth);
            }
        }
    }
}

proof fn lemma_error_code_stays(
    m: MessageModel,
    zone: ZoneModel,
    cnames: Seq<RecordModel>,
    qtype: u16,
    depth: int,
)
    requires
        flags_rcode(m.header.flags) != RCODE_NOERROR,
    ensures
        followed(m, zone, cnames, qtype, depth).header == m.header,
    decreases MAX_CNAME_HOPS + 1 - depth, 0int, cnames.len(),
{
    if cnames.len() > 0 && depth <= MAX_CNAME_HOPS {
        let before = followed(m, zone, cnames.drop_last(), qtype, depth);
        lemma_error_code_stays(m, zone, cnames.drop_last(), qtype, depth);
        if let DataModel::Cname(target) = cnames.last().data {
            error_code_stays(
                with_answer(before, cnames.last()),
                zone,
                target,
                qtype,
                depth + 1,
            );
        }
    }
}

// ── Aliases ─────────────────────────────────────────────────────────────────

/// Whether `name` has nothing of the type but is an alias, by the one CNAME record
/// `alias`.
pub open spec fn is_alias(
    zone: ZoneModel,
    name: Seq<char>,
    qtype: u16,
    alias: RecordModel,
) -> bool {
    &&& qtype != RecordType::Cname.code()
    &&& qtype != RecordType::Any.code()
    &&& zone.lookup(name, qtype) == Some(Seq::<RecordModel>::empty())
    &&& zone.lookup(name, RecordType::Cname.code()) == Some(seq![alias])
    &&& alias.data is Cname
}

/// The name that `chain`, a row of aliases each of which leads to the next, leads
/// to from `name`.
pub open spec fn chain_end(name: Seq<char>, chain: Seq<RecordModel>) -> Seq<char> {
    if chain.len() == 0 {
        name
    } else {
        chain.last().data->Cname_0
    }
}

/// Whether `chain` is the row of CNAME records met from `name` on, each of which
/// leads to the next.
pub open spec fn alias_chain(
    zone: ZoneModel,
    name: Seq<char>,
    qtype: u16,
    chain: Seq<RecordModel>,
) -> bool
    decreases chain.len(),
{
    chain.len() > 0 ==> {
        &&& is_alias(zone, name, qtype, chain[0])
        &&& alias_chain(zone, chain[0].data->Cname_0, qtype, chain.drop_first())
    }
}

proof fn lemma_chain_step(
    m: MessageModel,
    zone: ZoneModel,
    name: Seq<char>,
    qtype: u16,
    depth: int,
    alias: RecordModel,
)
    requires
        0 <= depth <= MAX_CNAME_HOPS,
        is_alias(zone, name, qtype, alias),
    ensures
        answered(m, zone, name, qtype, depth) == answered(
            with_answer(m, alias),
            zone,
            alias.data->Cname_0,
            qtype,
            depth + 1,
        ),
{
    let one = seq![alias];
    assert(one.drop_last() =~= Seq::empty());
    assert(followed(m, zone, one.drop_last(), qtype, depth) == m);
    assert(one.last() == alias);
    assert(followed(m, zone, one, qtype, depth) == answered(
        with_answer(m, alias),
        zone,
        alias.data->Cname_0,
        qtype,
        depth + 1,
    ));
}

/// A chain of aliases is followed to its end: the CNAME records are answers, in the
/// order in which they lead on, and then comes what the last target has of the
/// type.
pub proof fn chain_is_followed(
    m: MessageModel,
    zone: ZoneModel,
    name: Seq<char>,
    qtype: u16,
    depth: int,
    chain: Seq<RecordModel>,
)
    requires
        0 <= depth,
        depth + chain.len() <= MAX_CNAME_HOPS + 1,
        alias_chain(zone, name, qtype, chain),
    ensures
        answered(m, zone, name, qtype, depth) == answered(
            MessageModel { answers: m.answers + chain, ..m },
            zone,
            chain_end(name, chain),
            qtype,
            depth + chain.len(),
        ),
    decreases chain.len(),
{
    if chain.len() == 0 {
        assert(m.answers + chain =~= m.answers);
    } else {
        let alias = chain[0];
        let rest = chain.drop_first();
        let added = with_answer(m, alias);
        lemma_chain_step(m, zone, name, qtype, depth, alias);
        chain_is_followed(added, zone, alias.data->Cname_0, qtype, depth + 1, rest);
        assert(added.answers + rest =~= m.answers + chain);
    }
}

/// A question for an alias whose chain is not too long and ends at records of the
/// type is answered with the chain and those records.
pub proof fn alias_is_answered(
    query: MessageModel,
    zone: ZoneModel,
    q: QuestionModel,
    chain: Seq<RecordModel>,
    records: Seq<RecordModel>,
)
    requires
        asks_one(query, q),
        chain.len() <= MAX_CNAME_HOPS,
        alias_chain(zone, canonical(q.name), q.qtype, chain),
        zone.lookup(chain_end(canonical(q.name), chain), q.qtype) == Some(records),
        records.len() > 0,
    ensures
        response_to(query, zone) matches Some(m) && {
            &&& flags_rcode(m.header.flags) == RCODE_NOERROR
            &&& m.answers == chain + records
            &&& m.authority.len() == 0
        },
{
    lemma_asks_one(query, zone, q);
    let empty = query.response(RCODE_NOERROR);
    chain_is_followed(empty, zone, canonical(q.name), q.qtype, 0, chain);
    assert(empty.answers + chain + records =~= chain + records);
}

/// A question for an alias whose chain is not too long and ends at a name that the
/// zone does not have is answered with the chain, NXDOMAIN, and the SOA record as
/// authority.
pub proof fn dead_alias_gets_nxdomain(
    query: MessageModel,
    zone: ZoneModel,
    q: QuestionModel,
    chain: Seq<RecordModel>,
)
    requires
        asks_one(query, q),
        0 < chain.len() <= MAX_CNAME_HOPS,
        alias_chain(zone, canonical(q.name), q.qtype, chain),
        !zone.has_name(chain_end(canonical(q.name), chain)),
    ensures
        response_to(query, zone) matches Some(m) && {
            &&& flags_rcode(m.header.flags) == RCODE_NXDOMAIN
            &&& m.answers == chain
            &&& m.authority == soa_section(zone)
        },
{
    lemma_asks_one(query, zone, q);
    let empty = query.response(RCODE_NOERROR);
    chain_is_followed(empty, zone, canonical(q.name), q.qtype, 0, chain);
    assert(empty.answers + chain =~= chain);
    if let Some(soa) = zone.soa() {
        assert(Seq::<RecordModel>::empty().push(soa) =~= seq![soa]);
    }
}

/// A question for an alias whose chain is not too long and ends at a name that
/// exists, but neither with records of the type nor as an alias, is answered with
/// the chain, without error, and with the SOA record as authority.
pub proof fn alias_without_type_gets_nodata(
    query: MessageModel,
    zone: ZoneModel,
    q: QuestionModel,
    chain: Seq<RecordModel>,
)
    requires
        asks_one(query, q),
        chain.len() <= MAX_CNAME_HOPS,
        alias_chain(zone, canonical(q.name), q.qtype, chain),
        zone.lookup(chain_end(canonical(q.name), chain), q.qtype) == Some(
            Seq::<RecordModel>::empty(),
        ),
        zone.lookup(chain_end(canonical(q.name), chain), RecordType::Cname.code()) == Some(
            Seq::<RecordModel>::empty(),
        ),
    ensures
        response_to(query, zone) matches Some(m) && {
            &&& flags_rcode(m.header.flags) == RCODE_NOERROR
            &&& m.answers == chain
            &&& m.authority == soa_section(zone)
        },
{
    lemma_asks_one(query, zone, q);
    let empty = query.response(RCODE_NOERROR);
    chain_is_followed(empty, zone, canonical(q.name), q.qtype, 0, chain);
    assert(empty.answers + chain =~= chain);
    if let Some(soa) = zone.soa() {
        assert(Seq::<RecordModel>::empty().push(soa) =~= seq![soa]);
    }
}

/// A chain of aliases that is too long, such as one that runs in a loop, is given up
/// after one CNAME record more than [`MAX_CNAME_HOPS`]: those are the answers, and
/// nothing else changes.
pub proof fn long_alias_chain_given_up(
    m: MessageModel,
    zone: ZoneModel,
    name: Seq<char>,
    qtype: u16,
    chain: Seq<RecordModel>,
)
    requires
        chain.len() == MAX_CNAME_HOPS + 1,
        alias_chain(zone, name, qtype, chain),
    ensures
        answered(m, zone, name, qtype, 0) == (MessageModel { answers: m.answers + chain, ..m }),
{
    chain_is_followed(m, zone, name, qtype, 0, chain);
}

} // verus!
