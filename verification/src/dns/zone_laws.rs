//! What holds of every zone and of every zone file.

use vstd::prelude::*;

use super::message::{DataModel, RecordModel, RecordType, CLASS_IN};
use super::zone::{
    after_line, after_lines, after_record, answers, asks_for, comment_at, comment_start,
    directive_argument, gather, in_quotes, join_line, join_lines, lemma_comment_start,
    logical_lines, names_class, past_class, record_data, record_ttl, same_name, ttl_field,
    type_field, uncommented, unlines, unread, with_line, zone_of, Gathered, Joining, Reading,
    ZoneModel,
};
use crate::text::{
    ascii_upper, ascii_upper_char, decimal, is_white_space, lemma_split_nonempty,
    lemma_trimmed_blank, lemma_trimmed_end_prefix, lemma_trimmed_len, lines, split, starts_blank,
    trimmed, trimmed_end, without_return,
};

verus! {

// ── Zones ───────────────────────────────────────────────────────────────────

proof fn lemma_class_in(st: Reading, lines: Seq<Seq<char>>)
    requires
        forall|i: int| 0 <= i < st.records.len() ==> (#[trigger] st.records[i]).class == CLASS_IN,
    ensures
        after_lines(st, lines) matches Ok(after) ==> forall|i: int|
            0 <= i < after.records.len() ==> (#[trigger] after.records[i]).class == CLASS_IN,
    decreases lines.len(),
{
    if lines.len() > 0 {
        if let Ok(next) = after_line(st, lines[0]) {
            lemma_class_in(next, lines.drop_first());
        }
    }
}

/// Every record of a zone is of class IN.
pub proof fn zone_records_class_in(content: Seq<char>, zone: ZoneModel)
    requires
        zone_of(content) == Ok::<_, Seq<char>>(zone),
    ensures
        forall|i: int|
            0 <= i < zone.records.len() ==> (#[trigger] zone.records[i]).class == CLASS_IN,
{
    lemma_class_in(unread(), lines(unlines(logical_lines(content))));
}

/// Reading on keeps the records that have been read.
pub proof fn reading_keeps_records(st: Reading, lines: Seq<Seq<char>>)
    ensures
        after_lines(st, lines) matches Ok(after) ==> st.records.is_prefix_of(after.records),
    decreases lines.len(),
{
    if lines.len() > 0 {
        if let Ok(next) = after_line(st, lines[0]) {
            reading_keeps_records(next, lines.drop_first());
            if let Ok(after) = after_lines(next, lines.drop_first()) {
                let n = st.records.len() as int;
                assert(next.records.take(n) =~= st.records);
                assert(next.records =~= after.records.take(next.records.len() as int));
                assert(after.records.take(n) =~= st.records);
            }
        }
    }
}

/// Names that are the same for a lookup find the same records.
pub proof fn same_name_same_lookup(zone: ZoneModel, a: Seq<char>, b: Seq<char>, qtype: u16)
    requires
        same_name(a, b),
    ensures
        zone.has_name(a) == zone.has_name(b),
        zone.lookup(a, qtype) == zone.lookup(b, qtype),
{
    assert((|r: RecordModel| answers(r, a, qtype)) =~= (|r: RecordModel| answers(r, b, qtype)));
    if zone.has_name(a) {
        let i = choose|i: int|
            0 <= i < zone.records.len() && same_name((#[trigger] zone.records[i]).name, a);
        assert(same_name(zone.records[i].name, b));
    }
    if zone.has_name(b) {
        let i = choose|i: int|
            0 <= i < zone.records.len() && same_name((#[trigger] zone.records[i]).name, b);
        assert(same_name(zone.records[i].name, a));
    }
}

/// A lookup finds records of that name and type only, and all of them.
pub proof fn lookup_finds_all_and_only(
    zone: ZoneModel,
    name: Seq<char>,
    qtype: u16,
    found: Seq<RecordModel>,
)
    requires
        zone.lookup(name, qtype) == Some(found),
    ensures
        forall|r: RecordModel| #[trigger]
            found.contains(r) <==> zone.records.contains(r) && same_name(r.name, name)
                && asks_for(qtype, r.data.rtype()),
{
    let pred = |r: RecordModel| answers(r, name, qtype);
    assert forall|r: RecordModel| #[trigger] found.contains(r) <==> zone.records.contains(r)
        && same_name(r.name, name) && asks_for(qtype, r.data.rtype()) by {
        if found.contains(r) {
            zone.records.lemma_filter_contains_rev(pred, r);
            let i = found.index_of(r);
            zone.records.lemma_filter_pred(pred, i);
        }
        if zone.records.contains(r) && pred(r) {
            zone.records.lemma_filter_contains(pred, zone.records.index_of(r));
        }
    }
}

/// A record of the zone is found under its own name and type.
pub proof fn stored_record_is_found(zone: ZoneModel, r: RecordModel)
    requires
        zone.records.contains(r),
    ensures
        zone.lookup(r.name, r.data.rtype().code()) matches Some(found) && found.contains(r),
        zone.lookup(r.name, RecordType::Any.code()) matches Some(found) && found.contains(r),
{
    let i = zone.records.index_of(r);
    assert(same_name(zone.records[i].name, r.name));
    let typed = zone.lookup(r.name, r.data.rtype().code())->0;
    let all = zone.lookup(r.name, RecordType::Any.code())->0;
    lookup_finds_all_and_only(zone, r.name, r.data.rtype().code(), typed);
    lookup_finds_all_and_only(zone, r.name, RecordType::Any.code(), all);
}

/// A name that exists has records of some type: a query for any type finds one.
pub proof fn existing_name_has_records(zone: ZoneModel, name: Seq<char>)
    requires
        zone.has_name(name),
    ensures
        zone.lookup(name, RecordType::Any.code()) matches Some(found) && found.len() > 0,
{
    let any = RecordType::Any.code();
    let i = choose|i: int|
        0 <= i < zone.records.len() && same_name((#[trigger] zone.records[i]).name, name);
    let pred = |r: RecordModel| answers(r, name, any);
    zone.records.lemma_filter_contains(pred, i);
}

// ── Lines of zone files ─────────────────────────────────────────────────────

/// A line without its comment ends at the first semicolon outside quoted strings,
/// or with the line.
pub proof fn comment_starts_outside_quotes(s: Seq<char>)
    ensures
        ({
            let n = uncommented(s).len() as int;
            &&& n <= s.len()
            &&& uncommented(s) == s.take(n)
            &&& n < s.len() ==> s[n] == ';' && !in_quotes(s.take(n))
            &&& forall|i: int|
                0 <= i < n && #[trigger] s[i] == ';' ==> in_quotes(s.take(i))
        }),
{
    lemma_comment_start(s, 0);
    assert forall|i: int| 0 <= i < uncommented(s).len() && #[trigger] s[i] == ';' implies in_quotes(
        s.take(i),
    ) by {
        assert(!comment_at(s, i));
    }
}

proof fn lemma_no_comment(s: Seq<char>, n: int, from: int)
    requires
        0 <= from <= n <= s.len(),
        forall|i: int| 0 <= i < n ==> !#[trigger] comment_at(s, i),
    ensures
        comment_start(s.take(n), from) == n,
    decreases n - from,
{
    if from < n {
        assert(!comment_at(s, from));
        assert(s.take(n).take(from) =~= s.take(from));
        lemma_no_comment(s, n, from + 1);
    }
}

/// Comments do not matter: a source line counts as if its comment were not there.
pub proof fn comments_do_not_matter(j: Joining, line: Seq<char>)
    ensures
        join_line(j, line) == join_line(j, uncommented(line)),
{
    lemma_comment_start(line, 0);
    let n = comment_start(line, 0);
    lemma_no_comment(line, n, 0);
    assert(uncommented(uncommented(line)) =~= uncommented(line));
}

pub(crate) proof fn lemma_gather_plain(g: Gathered, s: Seq<char>)
    requires
        forall|i: int| 0 <= i < s.len() ==> #[trigger] s[i] != '(' && s[i] != ')',
    ensures
        gather(g, s) == (Gathered { text: g.text + s, depth: g.depth }),
    decreases s.len(),
{
    if s.len() > 0 {
        lemma_gather_plain(g, s.drop_last());
        assert((g.text + s.drop_last()).push(s.last()) =~= g.text + s);
    } else {
        assert(g.text + s =~= g.text);
    }
}

/// Outside parentheses, a source line without parentheses is a logical line of its
/// own, with its comment and the white space at its end left out; a blank one is
/// dropped.
pub proof fn plain_line_is_logical_line(j: Joining, line: Seq<char>)
    requires
        j.open == (Gathered { text: Seq::empty(), depth: 0 }),
        forall|i: int| 0 <= i < line.len() ==> #[trigger] line[i] != '(' && line[i] != ')',
    ensures
        join_line(j, line) == (Joining { lines: with_line(j.lines, uncommented(line)), ..j }),
{
    lemma_comment_start(line, 0);
    let body = uncommented(line);
    let text = trimmed_end(body);
    lemma_trimmed_end_prefix(body);
    assert forall|i: int| 0 <= i < text.len() implies #[trigger] text[i] != '(' && text[i]
        != ')' by {
        assert(text[i] == body[i]);
        assert(body[i] == line[i]);
    }
    lemma_gather_plain(j.open, text);
    assert(j.open.text + text =~= text);
    lemma_trimmed_blank(body);
}

pub(crate) proof fn lemma_gather_then(g: Gathered, a: Seq<char>, b: Seq<char>)
    ensures
        gather(g, a + b) == gather(gather(g, a), b),
    decreases b.len(),
{
    if b.len() > 0 {
        lemma_gather_then(g, a, b.drop_last());
        assert((a + b).drop_last() =~= a + b.drop_last());
    } else {
        assert(a + b =~= a);
    }
}

/// A source line that leaves a parenthesis open is joined to the next one by a
/// space: what is gathered is as if both stood on one line.
pub proof fn open_parenthesis_joins_lines(j: Joining, a: Seq<char>, b: Seq<char>)
    requires
        gather(j.open, trimmed_end(uncommented(a))).depth > 0,
    ensures
        join_line(j, a).lines == j.lines,
        gather(join_line(j, a).open, trimmed_end(uncommented(b))) == gather(
            j.open,
            trimmed_end(uncommented(a)).push(' ') + trimmed_end(uncommented(b)),
        ),
{
    let first = trimmed_end(uncommented(a));
    let second = trimmed_end(uncommented(b));
    assert(first.push(' ').drop_last() =~= first);
    assert(gather(j.open, first.push(' ')) == join_line(j, a).open);
    lemma_gather_then(j.open, first.push(' '), second);
}

/// Whether no line feed stands in `s`.
spec fn one_line(s: Seq<char>) -> bool {
    forall|i: int| 0 <= i < s.len() ==> #[trigger] s[i] != '\n'
}

proof fn lemma_split_pieces(s: Seq<char>)
    ensures
        forall|i: int| 0 <= i < split(s, '\n').len() ==> one_line(#[trigger] split(s, '\n')[i]),
    decreases s.len(),
{
    if s.len() > 0 {
        lemma_split_pieces(s.drop_last());
        lemma_split_nonempty(s.drop_last(), '\n');
        let init = split(s.drop_last(), '\n');
        assert(one_line(init[init.len() - 1]));
    }
}

proof fn lemma_lines_one_line(s: Seq<char>)
    ensures
        forall|i: int| 0 <= i < lines(s).len() ==> one_line(#[trigger] lines(s)[i]),
{
    let pieces = split(s, '\n');
    lemma_split_pieces(s);
    lemma_split_nonempty(s, '\n');
    assert forall|i: int| 0 <= i < lines(s).len() implies one_line(#[trigger] lines(s)[i]) by {
        assert(one_line(pieces[i]));
        let line = lines(s)[i];
        assert forall|k: int| 0 <= k < line.len() implies #[trigger] line[k] != '\n' by {
            assert(line[k] == pieces[i][k]);
        }
    }
}

proof fn lemma_gather_one_line(g: Gathered, s: Seq<char>)
    requires
        one_line(g.text),
        one_line(s),
    ensures
        one_line(gather(g, s).text),
    decreases s.len(),
{
    if s.len() > 0 {
        assert(s.last() == s[s.len() - 1]);
        assert(one_line(s.drop_last())) by {
            assert forall|i: int| 0 <= i < s.len() - 1 implies #[trigger] s.drop_last()[i]
                != '\n' by {
                assert(s.drop_last()[i] == s[i]);
            }
        }
        lemma_gather_one_line(g, s.drop_last());
    }
}

/// Whether the text is a line of its own in a text of lines: no line feed in it,
/// and no white space at its end.
spec fn line_alone(s: Seq<char>) -> bool {
    one_line(s) && s.len() > 0 && !is_white_space(s.last())
}

proof fn lemma_with_line(lines: Seq<Seq<char>>, text: Seq<char>)
    requires
        forall|i: int| 0 <= i < lines.len() ==> line_alone(#[trigger] lines[i]),
        one_line(text),
    ensures
        forall|i: int|
            0 <= i < with_line(lines, text).len() ==> line_alone(
                #[trigger] with_line(lines, text)[i],
            ),
{
    if trimmed(text).len() > 0 {
        let t = trimmed_end(text);
        lemma_trimmed_end_prefix(text);
        lemma_trimmed_blank(text);
        assert(t.len() > 0) by {
            lemma_trimmed_len(t);
        }
        assert(t =~= text.take(t.len() as int));
        assert forall|i: int| 0 <= i < t.len() implies #[trigger] t[i] != '\n' by {
            assert(t[i] == text[i]);
        }
    }
}

proof fn lemma_join_lines_alone(source: Seq<Seq<char>>)
    requires
        forall|i: int| 0 <= i < source.len() ==> one_line(#[trigger] source[i]),
    ensures
        forall|i: int|
            0 <= i < join_lines(source).lines.len() ==> line_alone(
                #[trigger] join_lines(source).lines[i],
            ),
        one_line(join_lines(source).open.text),
    decreases source.len(),
{
    if source.len() > 0 {
        let init = source.drop_last();
        assert forall|i: int| 0 <= i < init.len() implies one_line(#[trigger] init[i]) by {
            assert(init[i] == source[i]);
        }
        lemma_join_lines_alone(init);
        let j = join_lines(init);
        let line = source[source.len() - 1];
        assert(one_line(line));
        let body = uncommented(line);
        lemma_comment_start(line, 0);
        lemma_trimmed_end_prefix(body);
        let text = trimmed_end(body);
        assert(one_line(text)) by {
            assert forall|i: int| 0 <= i < text.len() implies #[trigger] text[i] != '\n' by {
                assert(text[i] == body[i]);
                assert(body[i] == line[i]);
            }
        }
        lemma_gather_one_line(j.open, text);
        lemma_with_line(j.lines, gather(j.open, text).text);
    }
}

proof fn lemma_split_append(s: Seq<char>, t: Seq<char>)
    requires
        one_line(t),
    ensures
        split(s + t, '\n') == split(s, '\n').drop_last().push(split(s, '\n').last() + t),
    decreases t.len(),
{
    let before = split(s, '\n');
    lemma_split_nonempty(s, '\n');
    if t.len() == 0 {
        assert(s + t =~= s);
        assert(before.last() + t =~= before.last());
        assert(before.drop_last().push(before.last()) =~= before);
    } else {
        let init = t.drop_last();
        assert(one_line(init)) by {
            assert forall|i: int| 0 <= i < init.len() implies #[trigger] init[i] != '\n' by {
                assert(init[i] == t[i]);
            }
        }
        lemma_split_append(s, init);
        assert((s + t).drop_last() =~= s + init);
        assert((s + t).last() == t[t.len() - 1]);
        let middle = before.drop_last().push(before.last() + init);
        assert(middle.drop_last() =~= before.drop_last());
        assert((before.last() + init).push(t.last()) =~= before.last() + t);
    }
}

/// A text of one ended line has that line.
pub proof fn one_ended_line(line: Seq<char>)
    requires
        forall|i: int| 0 <= i < line.len() ==> #[trigger] line[i] != '\n',
        line.len() > 0 ==> line.last() != '\r',
    ensures
        lines(line.push('\n')) == seq![line],
{
    let empty = Seq::<char>::empty();
    lemma_split_append(empty, line);
    assert(empty + line =~= line);
    assert(split(empty, '\n') =~= seq![empty]);
    assert(split(line, '\n') =~= seq![line]);
    assert(line.push('\n').drop_last() =~= line);
    let pieces = split(line.push('\n'), '\n');
    assert(pieces =~= seq![line, empty]);
    assert(lines(line.push('\n')) =~= seq![line]);
}

proof fn lemma_split_unlines(ls: Seq<Seq<char>>)
    requires
        forall|i: int| 0 <= i < ls.len() ==> line_alone(#[trigger] ls[i]),
    ensures
        split(unlines(ls), '\n') == ls.push(Seq::empty()),
    decreases ls.len(),
{
    if ls.len() == 0 {
        assert(split(unlines(ls), '\n') =~= ls.push(Seq::empty()));
    } else {
        let init = ls.drop_last();
        assert forall|i: int| 0 <= i < init.len() implies line_alone(#[trigger] init[i]) by {
            assert(init[i] == ls[i]);
        }
        lemma_split_unlines(init);
        let last = ls[ls.len() - 1];
        assert(line_alone(last));
        lemma_split_append(unlines(init), last);
        let empty = Seq::<char>::empty();
        assert(empty + last =~= last);
        assert(init.push(empty).drop_last() =~= init);
        assert(split(unlines(init) + last, '\n') =~= ls);
        let whole = unlines(ls);
        assert(whole.drop_last() =~= unlines(init) + last);
        assert(whole.last() == '\n');
    }
}

/// The logical lines are what the preprocessed text has as its lines.
pub proof fn logical_lines_are_the_lines(content: Seq<char>)
    ensures
        lines(unlines(logical_lines(content))) == logical_lines(content),
{
    let source = lines(content);
    lemma_lines_one_line(content);
    lemma_join_lines_alone(source);
    let j = join_lines(source);
    lemma_with_line(j.lines, j.open.text);
    let ls = logical_lines(content);
    lemma_split_unlines(ls);
    let pieces = ls.push(Seq::empty());
    assert(pieces.drop_last() =~= ls);
    assert(ls.map_values(|p: Seq<char>| without_return(p)) =~= ls) by {
        assert forall|i: int| 0 <= i < ls.len() implies without_return(#[trigger] ls[i])
            == ls[i] by {
            assert(line_alone(ls[i]));
        }
    }
}

// ── Files ───────────────────────────────────────────────────────────────────

pub(crate) proof fn lemma_after_lines_split(st: Reading, lines: Seq<Seq<char>>, i: int)
    requires
        0 <= i <= lines.len(),
    ensures
        after_lines(st, lines) == (match after_lines(st, lines.take(i)) {
            Ok(mid) => after_lines(mid, lines.skip(i)),
            Err(e) => Err(e),
        }),
    decreases i,
{
    if i == 0 {
        assert(lines.skip(0) =~= lines);
    } else {
        assert(lines.take(i).drop_first() =~= lines.drop_first().take(i - 1));
        assert(lines.skip(i) =~= lines.drop_first().skip(i - 1));
        if let Ok(next) = after_line(st, lines[0]) {
            lemma_after_lines_split(next, lines.drop_first(), i - 1);
        }
    }
}

/// Each logical line of a zone file is read with what the lines before it say, and
/// the records known behind it are the first records of the zone.
pub proof fn line_records_are_kept(content: Seq<char>, zone: ZoneModel, i: int)
    requires
        zone_of(content) == Ok::<_, Seq<char>>(zone),
        0 <= i < logical_lines(content).len(),
    ensures
        after_lines(unread(), logical_lines(content).take(i)) matches Ok(before) && (after_line(
            before,
            logical_lines(content)[i],
        ) matches Ok(next) && next.records.is_prefix_of(zone.records)),
{
    let all = logical_lines(content);
    logical_lines_are_the_lines(content);
    lemma_after_lines_split(unread(), all, i);
    let before = after_lines(unread(), all.take(i))->Ok_0;
    let next = after_line(before, all[i])->Ok_0;
    assert(all.skip(i)[0] == all[i]);
    reading_keeps_records(next, all.skip(i).drop_first());
}

/// A zone file is refused with the message for the first line that cannot be read.
pub proof fn bad_line_is_reported(content: Seq<char>, i: int, before: Reading, e: Seq<char>)
    requires
        0 <= i < logical_lines(content).len(),
        after_lines(unread(), logical_lines(content).take(i)) == Ok::<_, Seq<char>>(before),
        after_line(before, logical_lines(content)[i]) == Err::<Reading, _>(e),
    ensures
        zone_of(content) == Err::<ZoneModel, _>(e),
{
    let all = logical_lines(content);
    logical_lines_are_the_lines(content);
    lemma_after_lines_split(unread(), all, i);
    assert(all.skip(i)[0] == all[i]);
}

// ── Fields ──────────────────────────────────────────────────────────────────

/// A record without a TTL gets the default.
pub proof fn omitted_ttl_is_default(
    st: Reading,
    name: Seq<char>,
    fields: Seq<Seq<char>>,
    next: Reading,
)
    requires
        ttl_field(fields, 0) is None,
        ttl_field(fields, past_class(fields, 0)) is None,
        after_record(st, name, fields) == Ok::<_, Seq<char>>(next),
        next.records.len() > st.records.len(),
    ensures
        next.records == st.records.push(next.records.last()),
        next.records.last().ttl == st.ttl,
        next.records.last().name == name,
{
}

/// A line that starts with white space adds its record to the owner of the last
/// one, which it keeps.
pub proof fn omitted_owner_is_the_last(st: Reading, raw: Seq<char>, next: Reading)
    requires
        starts_blank(raw),
        after_line(st, raw) == Ok::<_, Seq<char>>(next),
        next.records.len() > st.records.len(),
    ensures
        next.records == st.records.push(next.records.last()),
        next.records.last().name == st.last_name,
        next.last_name == st.last_name,
{
}

/// A line with a record of an unknown type, or without a type, adds no record.
pub proof fn unknown_type_adds_nothing(st: Reading, name: Seq<char>, fields: Seq<Seq<char>>)
    requires
        type_field(fields) < fields.len() ==> record_data(
            ascii_upper(fields[type_field(fields)]),
            fields.skip(type_field(fields) + 1),
            st.origin,
            name,
        ) == Ok::<_, Seq<char>>(None::<DataModel>),
    ensures
        after_record(st, name, fields) matches Ok(next) && next.records == st.records,
{
}

/// A TTL and a class may stand before the type in either order.
pub proof fn ttl_and_class_in_either_order(
    st: Reading,
    name: Seq<char>,
    ttl: Seq<char>,
    class: Seq<char>,
    rest: Seq<Seq<char>>,
)
    requires
        decimal(ttl, u32::MAX as nat) is Some,
        names_class(class),
        rest.len() > 0,
        decimal(rest[0], u32::MAX as nat) is None,
    ensures
        after_record(st, name, seq![ttl, class] + rest) == after_record(
            st,
            name,
            seq![class, ttl] + rest,
        ),
        record_ttl(seq![ttl, class] + rest, st.ttl) == decimal(ttl, u32::MAX as nat)->0,
{
    let a = seq![ttl, class] + rest;
    let b = seq![class, ttl] + rest;
    lemma_class_is_no_number(class);
    lemma_number_is_no_class(ttl);
    assert(a[2] == rest[0] && b[2] == rest[0]);
    assert(ttl_field(a, 2) is None);
    assert(type_field(a) == 2);
    assert(type_field(b) == 2);
    assert(record_ttl(a, st.ttl) == record_ttl(b, st.ttl));
    assert(a.skip(3) =~= b.skip(3));
}

pub(crate) proof fn lemma_class_is_no_number(class: Seq<char>)
    requires
        names_class(class),
    ensures
        decimal(class, u32::MAX as nat) is None,
{
    reveal_strlit("IN");
    reveal_strlit("CH");
    reveal_strlit("HS");
    reveal_strlit("ANY");
    let u = ascii_upper(class);
    assert(u.len() == class.len());
    assert(u[0] == ascii_upper_char(class[0]));
    assert(class[0] != '+');
    assert(!('0' <= class[0] <= '9'));
}

proof fn lemma_number_is_no_class(ttl: Seq<char>)
    requires
        decimal(ttl, u32::MAX as nat) is Some,
    ensures
        !names_class(ttl),
{
    if names_class(ttl) {
        lemma_class_is_no_number(ttl);
    }
}

proof fn lemma_upper_twice(c: char)
    ensures
        ascii_upper_char(ascii_upper_char(c)) == ascii_upper_char(c),
        is_white_space(ascii_upper_char(c)) == is_white_space(c),
{
}

/// The case of letters does not matter in a directive's keyword.
pub proof fn directive_in_any_case(line: Seq<char>, keyword: Seq<char>)
    requires
        ascii_upper(keyword) == keyword,
    ensures
        directive_argument(line, keyword) is Some <==> directive_argument(
            ascii_upper(line),
            keyword,
        ) is Some,
{
    let n = keyword.len() as int;
    if line.len() >= n {
        let word = line.take(n);
        let upper = ascii_upper(line);
        assert(upper.take(n) =~= ascii_upper(word));
        assert(ascii_upper(upper.take(n)) =~= upper.take(n)) by {
            assert forall|i: int| 0 <= i < n implies ascii_upper_char(#[trigger] upper.take(n)[i])
                == upper.take(n)[i] by {
                lemma_upper_twice(line[i]);
            }
        }
        if line.len() > n {
            lemma_upper_twice(line[n]);
            assert(upper[n] == ascii_upper_char(line[n]));
        }
    }
}

} // verus!
