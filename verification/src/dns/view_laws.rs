//! What the values of the library say.

use vstd::prelude::*;

use super::addr::{Ipv4Addr, Ipv6Addr};
use super::message::{
    question_models, record_models, DataModel, Message, Question, RecordData, ResourceRecord,
};
use super::zone::borrowed_models;
use crate::text::texts;

verus! {

/// A row of strings says what each of its strings says, in order.
pub proof fn strings_say(v: Seq<String>)
    ensures
        texts(v).len() == v.len(),
        forall|i: int| 0 <= i < v.len() ==> #[trigger] texts(v)[i] == v[i]@,
{
}

/// An address is its octets, in order.
pub proof fn addresses_say(a: Ipv4Addr, b: Ipv6Addr)
    ensures
        a@.len() == 4,
        b@.len() == 16,
        forall|i: int| 0 <= i < 4 ==> #[trigger] a@[i] == a.octets[i],
        forall|i: int| 0 <= i < 16 ==> #[trigger] b@[i] == b.octets[i],
{
}

/// The data of a record say what their parts say.
pub proof fn data_say(
    a: Ipv4Addr,
    b: Ipv6Addr,
    name: String,
    other: String,
    strings: Vec<String>,
    priority: u16,
    serial: u32,
    refresh: u32,
    retry: u32,
    expire: u32,
    minimum: u32,
)
    ensures
        RecordData::A(a)@ == DataModel::A(a@),
        RecordData::Aaaa(b)@ == DataModel::Aaaa(b@),
        RecordData::Ns(name)@ == DataModel::Ns(name@),
        RecordData::Cname(name)@ == DataModel::Cname(name@),
        RecordData::Ptr(name)@ == DataModel::Ptr(name@),
        RecordData::Txt(strings)@ == DataModel::Txt(texts(strings@)),
        (RecordData::Mx { priority, exchange: name })@ == (DataModel::Mx {
            priority,
            exchange: name@,
        }),
        (RecordData::Soa {
            mname: name,
            rname: other,
            serial,
            refresh,
            retry,
            expire,
            minimum,
        })@ == (DataModel::Soa {
            mname: name@,
            rname: other@,
            serial,
            refresh,
            retry,
            expire,
            minimum,
        }),
{
}

/// Questions and records say what their fields say.
pub proof fn fields_say(q: Question, r: ResourceRecord)
    ensures
        q@.name == q.name@,
        q@.qtype == q.qtype,
        q@.qclass == q.qclass,
        r@.name == r.name@,
        r@.class == r.class,
        r@.ttl == r.ttl,
        r@.data == r.data@,
{
}

/// Rows of questions and records say what each of them says, in order.
pub proof fn rows_say(qs: Seq<Question>, rs: Seq<ResourceRecord>, bs: Seq<&ResourceRecord>)
    ensures
        question_models(qs).len() == qs.len(),
        forall|i: int| 0 <= i < qs.len() ==> #[trigger] question_models(qs)[i] == qs[i]@,
        record_models(rs).len() == rs.len(),
        forall|i: int| 0 <= i < rs.len() ==> #[trigger] record_models(rs)[i] == rs[i]@,
        borrowed_models(bs).len() == bs.len(),
        forall|i: int| 0 <= i < bs.len() ==> #[trigger] borrowed_models(bs)[i] == bs[i]@,
{
}

/// A message says what its header and its sections say.
pub proof fn messages_say(m: Message)
    ensures
        m@.header == m.header,
        m@.questions == question_models(m.questions@),
        m@.answers == record_models(m.answers@),
        m@.authority == record_models(m.authority@),
        m@.additional == record_models(m.additional@),
{
}

} // verus!
