//! What a lookup in a zone finds.

use vstd::prelude::*;
use vstd::utf8::is_ascii_chars;

use super::message::RecordModel;
use super::zone::{answers, canonical, same_name, ZoneModel};
use crate::text::{lowercase, unicode_lowercase};
use crate::text_laws::{ascii_lower_case, taking_dots_off};

verus! {

/// The form in which a name is compared is the name without the dots at its end, in
/// lower case: of an ASCII name, each capital is the letter 32 further on and every
/// other character is as it was.
pub proof fn compared_form(name: Seq<char>, dots: Seq<char>)
    requires
        name.len() > 0 ==> name.last() != '.',
        forall|i: int| 0 <= i < dots.len() ==> #[trigger] dots[i] == '.',
    ensures
        canonical(name + dots) == lowercase(name),
        !is_ascii_chars(name) ==> canonical(name + dots) == unicode_lowercase(name),
        is_ascii_chars(name) ==> canonical(name + dots).len() == name.len() && forall|i: int|
            0 <= i < name.len() ==> #[trigger] canonical(name + dots)[i] as int == name[i] as int
                + (if 65 <= name[i] as int <= 90 {
                32int
            } else {
                0int
            }),
{
    taking_dots_off(name, dots);
    ascii_lower_case(name);
}

/// Two names are the same for a lookup exactly if they have the same form.
pub proof fn same_names(a: Seq<char>, b: Seq<char>)
    ensures
        same_name(a, b) <==> canonical(a) == canonical(b),
{
}

/// Whether a query for `qtype` wants records of the type with number `code`: that very
/// type, or any (255).
pub open spec fn wants(qtype: u16, code: u16) -> bool {
    qtype == code || qtype == 255
}

/// Every record that a lookup for a type finds has that very type, unless any type is
/// asked for.
pub proof fn found_records_have_the_type(
    zone: ZoneModel,
    name: Seq<char>,
    qtype: u16,
    found: Seq<RecordModel>,
    i: int,
)
    requires
        zone.lookup(name, qtype) == Some(found),
        qtype != 255,
        0 <= i < found.len(),
    ensures
        found[i].data.rtype().code() == qtype,
{
    let pred = |r: RecordModel| answers(r, name, qtype);
    zone.records.lemma_filter_pred(pred, i);
}

/// Every record that a lookup finds has the name that is looked for, but for the case
/// of letters and dots at the end, and is a record of the zone.
pub proof fn found_records_have_the_name(
    zone: ZoneModel,
    name: Seq<char>,
    qtype: u16,
    found: Seq<RecordModel>,
    i: int,
)
    requires
        zone.lookup(name, qtype) == Some(found),
        0 <= i < found.len(),
    ensures
        canonical(found[i].name) == canonical(name),
        zone.records.contains(found[i]),
{
    let pred = |r: RecordModel| answers(r, name, qtype);
    zone.records.lemma_filter_pred(pred, i);
    zone.records.lemma_filter_contains_rev(pred, found[i]);
}

/// What a further record at the end of a zone changes: a lookup for its name finds it
/// behind all others if its type is wanted, and finds the name in any case; a lookup
/// for another name finds what it found before. In a zone without records no name is
/// found, and the origin does not matter.
pub proof fn lookup_grows(
    zone: ZoneModel,
    r: RecordModel,
    name: Seq<char>,
    qtype: u16,
    origin: Seq<char>,
)
    ensures
        ({
            let grown = ZoneModel { origin, records: zone.records.push(r) };
            let before = zone.lookup(name, qtype);
            let after = grown.lookup(name, qtype);
            let others = if before is Some {
                before->0
            } else {
                Seq::empty()
            };
            let itself = if wants(qtype, r.data.rtype().code()) {
                seq![r]
            } else {
                Seq::empty()
            };
            &&& canonical(r.name) != canonical(name) ==> after == before
            &&& canonical(r.name) == canonical(name) ==> after == Some(others + itself)
        }),
        (ZoneModel { origin, records: Seq::empty() }).lookup(name, qtype) is None,
{
    reveal(Seq::filter);
    let grown = ZoneModel { origin, records: zone.records.push(r) };
    let pred = |x: RecordModel| answers(x, name, qtype);
    let old = zone.records;
    let new = grown.records;
    assert(new.drop_last() =~= old);
    assert(new.last() == r);
    let f = old.filter(pred);
    assert(new.filter(pred) == if pred(r) {
        f.push(r)
    } else {
        f
    });
    assert(zone.has_name(name) ==> grown.has_name(name)) by {
        if zone.has_name(name) {
            let i = choose|i: int|
                0 <= i < old.len() && same_name((#[trigger] old[i]).name, name);
            assert(same_name(new[i].name, name));
        }
    }
    if canonical(r.name) == canonical(name) {
        assert(same_name(new[old.len() as int].name, name));
        if !zone.has_name(name) {
            lemma_nothing(old, name, qtype);
        }
        assert(f.push(r) =~= f + seq![r]);
        assert(f + Seq::<RecordModel>::empty() =~= f);
    } else if grown.has_name(name) {
        let i = choose|i: int| 0 <= i < new.len() && same_name((#[trigger] new[i]).name, name);
        assert(i < old.len());
        assert(same_name(old[i].name, name));
    }
}

proof fn lemma_nothing(records: Seq<RecordModel>, name: Seq<char>, qtype: u16)
    requires
        forall|i: int|
            0 <= i < records.len() ==> !same_name((#[trigger] records[i]).name, name),
    ensures
        records.filter(|x: RecordModel| answers(x, name, qtype)).len() == 0,
    decreases records.len(),
{
    reveal(Seq::filter);
    if records.len() > 0 {
        let init = records.drop_last();
        assert(!same_name(records[records.len() - 1].name, name));
        assert forall|i: int| 0 <= i < init.len() implies !same_name(
            (#[trigger] init[i]).name,
            name,
        ) by {
            assert(init[i] == records[i]);
        }
        lemma_nothing(init, name, qtype);
    }
}

/// The SOA record of a zone is the first record of type 6: a further record at the end
/// is it only if it is of that type and there was none before.
pub proof fn soa_is_the_first(zone: ZoneModel, r: RecordModel, origin: Seq<char>)
    ensures
        ({
            let grown = ZoneModel { origin, records: zone.records.push(r) };
            grown.soa() == (if zone.soa() is Some {
                zone.soa()
            } else if r.data.rtype().code() == 6 {
                Some(r)
            } else {
                None
            })
        }),
        (ZoneModel { origin, records: Seq::empty() }).soa() is None,
{
    reveal(Seq::filter);
    let grown = ZoneModel { origin, records: zone.records.push(r) };
    let pred = |x: RecordModel| x.data is Soa;
    assert(grown.records.drop_last() =~= zone.records);
    let f = zone.records.filter(pred);
    assert(grown.records.filter(pred) == if pred(r) {
        f.push(r)
    } else {
        f
    });
}

} // verus!
