//! What holds of ASCII names, of ASCII zone files and of queries with ASCII names.

use vstd::prelude::*;
use vstd::utf8::{
    decode_utf8, encode_utf8, encode_utf8_decode_utf8, encode_utf8_valid_utf8, is_ascii_chars,
    is_ascii_chars_encode_utf8, valid_utf8,
};

use super::message::{
    header_of, message_of, questions_at, DataModel, RecordModel, CLASS_IN, HEADER_LEN,
};
use super::name::{dotted, label_at, labels_at, lemma_name_end, name_at, name_end, POINTER};
use super::reply;
use super::zone::{
    after_line, after_lines, after_record, canonical, comment_start, directive_argument, gather,
    join_lines, lemma_comment_start, logical_lines, record_data, resolved, same_name, type_field,
    uncommented, unlines, unread, zone_of, Gathered, Reading, ZoneModel,
};
use super::zone_laws::zone_records_class_in;
use crate::text::{
    all_ascii, ascii_lower, ascii_lower_char, ascii_upper, joined, lemma_ascii_lines,
    lemma_ascii_lower, lemma_ascii_part, lemma_ascii_trimmed, lemma_ascii_words, lines, lowercase,
    trimmed, trimmed_end, undotted, words,
};

verus! {

// ── Names ───────────────────────────────────────────────────────────────────

proof fn lemma_undotted(name: Seq<char>)
    ensures
        is_ascii_chars(name) ==> is_ascii_chars(undotted(name)),
        undotted(name).len() > 0 ==> undotted(name).last() != '.',
    decreases name.len(),
{
    if name.len() > 0 && name.last() == '.' {
        lemma_undotted(name.drop_last());
    }
}

/// An ASCII name in the form in which names are compared is in lower case, has no dot
/// at its end, and is its own such form.
pub proof fn canonical_is_final(name: Seq<char>)
    requires
        is_ascii_chars(name),
    ensures
        is_ascii_chars(canonical(name)),
        canonical(name).len() > 0 ==> canonical(name).last() != '.',
        lowercase(canonical(name)) == canonical(name),
        canonical(canonical(name)) == canonical(name),
{
    let stem = undotted(name);
    let key = canonical(name);
    lemma_undotted(name);
    lemma_ascii_lower(stem);
    if key.len() > 0 {
        assert(stem.last() == stem[stem.len() - 1]);
        assert(key.last() == ascii_lower_char(stem.last()));
    }
}

/// A dot at the end of a name does not matter to the form in which it is compared.
pub proof fn trailing_dot_does_not_matter(name: Seq<char>)
    ensures
        canonical(name.push('.')) == canonical(name),
{
    assert(name.push('.').drop_last() =~= name);
}

/// Two ASCII names are the same for a lookup if they differ only in the case of
/// letters and in dots at the end.
pub proof fn ascii_names_compare(a: Seq<char>, b: Seq<char>)
    requires
        is_ascii_chars(a),
        is_ascii_chars(b),
    ensures
        same_name(a, b) <==> ascii_lower(undotted(a)) == ascii_lower(undotted(b)),
        same_name(a, canonical(b)) == same_name(a, b),
{
    lemma_undotted(a);
    lemma_undotted(b);
    canonical_is_final(b);
}

/// Whether a name is ASCII and in the form in which names are compared: in lower case
/// and without a dot at its end.
pub open spec fn is_canonical(name: Seq<char>) -> bool {
    is_ascii_chars(name) && canonical(name) == name
}

proof fn lemma_own_form(name: Seq<char>)
    requires
        is_ascii_chars(name),
        ascii_lower(name) == name,
        name.len() > 0 ==> name.last() != '.',
    ensures
        is_canonical(name),
{
}

/// The full name that an ASCII name in a zone file stands for is in lower case and
/// without a dot at its end, whatever the origin looks like.
pub proof fn resolved_is_canonical(raw: Seq<char>, origin: Seq<char>)
    requires
        is_ascii_chars(raw),
        is_ascii_chars(origin),
    ensures
        is_canonical(resolved(raw, origin)),
{
    canonical_is_final(origin);
    canonical_is_final(raw);
    lemma_ascii_lower(raw);
    let low = ascii_lower(raw);
    let top = canonical(origin);
    if raw != seq!['@'] && !(raw.len() > 0 && raw.last() == '.') {
        if top.len() == 0 {
            if low.len() > 0 {
                assert(low.last() == ascii_lower_char(raw[raw.len() - 1]));
            }
            lemma_own_form(low);
        } else {
            let name = low.push('.') + top;
            lemma_undotted(origin);
            assert(ascii_lower(top) =~= top);
            assert(ascii_lower(name) =~= name) by {
                assert forall|i: int| 0 <= i < name.len() implies ascii_lower_char(
                    #[trigger] name[i],
                ) == name[i] by {
                    if i < low.len() {
                        assert(ascii_lower(low)[i] == low[i]);
                    } else if i > low.len() {
                        assert(ascii_lower(top)[i - low.len() - 1] == top[i - low.len() - 1]);
                    }
                }
            }
            assert(name.last() == top.last());
            lemma_own_form(name);
        }
    }
}

// ── Zone files ──────────────────────────────────────────────────────────────

proof fn lemma_ascii_gather(g: Gathered, s: Seq<char>)
    requires
        is_ascii_chars(g.text),
        is_ascii_chars(s),
    ensures
        is_ascii_chars(gather(g, s).text),
    decreases s.len(),
{
    if s.len() > 0 {
        lemma_ascii_part(s, 0, s.len() - 1);
        assert(s.drop_last() =~= s.subrange(0, s.len() - 1));
        assert(s.last() == s[s.len() - 1]);
        lemma_ascii_gather(g, s.drop_last());
    }
}

proof fn lemma_ascii_join_lines(source: Seq<Seq<char>>)
    requires
        all_ascii(source),
    ensures
        all_ascii(join_lines(source).lines),
        is_ascii_chars(join_lines(source).open.text),
    decreases source.len(),
{
    if source.len() > 0 {
        let init = source.drop_last();
        assert(all_ascii(init)) by {
            assert forall|i: int| 0 <= i < init.len() implies is_ascii_chars(
                #[trigger] init[i],
            ) by {
                assert(init[i] == source[i]);
            }
        }
        lemma_ascii_join_lines(init);
        let j = join_lines(init);
        let line = source[source.len() - 1];
        assert(is_ascii_chars(line));
        lemma_comment_start(line, 0);
        lemma_ascii_part(line, 0, comment_start(line, 0));
        assert(uncommented(line) =~= line.subrange(0, comment_start(line, 0)));
        lemma_ascii_trimmed(uncommented(line));
        lemma_ascii_gather(j.open, trimmed_end(uncommented(line)));
        lemma_ascii_trimmed(gather(j.open, trimmed_end(uncommented(line))).text);
    }
}

proof fn lemma_ascii_unlines(ls: Seq<Seq<char>>)
    requires
        all_ascii(ls),
    ensures
        is_ascii_chars(unlines(ls)),
    decreases ls.len(),
{
    if ls.len() > 0 {
        let init = ls.drop_last();
        assert(all_ascii(init)) by {
            assert forall|i: int| 0 <= i < init.len() implies is_ascii_chars(
                #[trigger] init[i],
            ) by {
                assert(init[i] == ls[i]);
            }
        }
        lemma_ascii_unlines(init);
        assert(is_ascii_chars(ls[ls.len() - 1]));
    }
}

/// The lines of a preprocessed ASCII text are ASCII.
proof fn lemma_ascii_preprocessed(content: Seq<char>)
    requires
        is_ascii_chars(content),
    ensures
        all_ascii(lines(unlines(logical_lines(content)))),
{
    lemma_ascii_lines(content);
    lemma_ascii_join_lines(lines(content));
    lemma_ascii_trimmed(join_lines(lines(content)).open.text);
    lemma_ascii_unlines(logical_lines(content));
    lemma_ascii_lines(unlines(logical_lines(content)));
}

/// Whether the names in the data of a record are ASCII and in lower case, without a
/// dot at their end.
pub open spec fn data_is_canonical(data: DataModel) -> bool {
    match data {
        DataModel::Ns(n) => is_canonical(n),
        DataModel::Cname(n) => is_canonical(n),
        DataModel::Ptr(n) => is_canonical(n),
        DataModel::Mx { exchange, .. } => is_canonical(exchange),
        DataModel::Soa { mname, rname, .. } => is_canonical(mname) && is_canonical(rname),
        _ => true,
    }
}

/// Whether the names of a record, its owner and those in its data, are ASCII and in
/// lower case, without a dot at their end.
pub open spec fn record_is_canonical(r: RecordModel) -> bool {
    is_canonical(r.name) && data_is_canonical(r.data)
}

/// Whether all names that are known at some line are so.
spec fn reading_is_canonical(st: Reading) -> bool {
    &&& is_canonical(st.origin)
    &&& is_canonical(st.last_name)
    &&& forall|i: int| 0 <= i < st.records.len() ==> record_is_canonical(#[trigger] st.records[i])
}

proof fn lemma_data_canonical(
    rtype: Seq<char>,
    rdata: Seq<Seq<char>>,
    origin: Seq<char>,
    name: Seq<char>,
)
    requires
        all_ascii(rdata),
        is_ascii_chars(origin),
    ensures
        record_data(rtype, rdata, origin, name) matches Ok(Some(d)) ==> data_is_canonical(d),
{
    if rdata.len() > 0 {
        assert(is_ascii_chars(rdata[0]));
        resolved_is_canonical(rdata[0], origin);
    }
    if rdata.len() > 1 {
        assert(is_ascii_chars(rdata[1]));
        resolved_is_canonical(rdata[1], origin);
    }
}

proof fn lemma_record_canonical(st: Reading, name: Seq<char>, fields: Seq<Seq<char>>)
    requires
        reading_is_canonical(st),
        is_canonical(name),
        all_ascii(fields),
    ensures
        after_record(st, name, fields) matches Ok(next) ==> reading_is_canonical(next),
{
    let i = type_field(fields);
    if i < fields.len() {
        let rdata = fields.skip(i + 1);
        assert(all_ascii(rdata)) by {
            assert forall|k: int| 0 <= k < rdata.len() implies is_ascii_chars(
                #[trigger] rdata[k],
            ) by {
                assert(rdata[k] == fields[i + 1 + k]);
            }
        }
        lemma_data_canonical(ascii_upper(fields[i]), rdata, st.origin, name);
    }
}

proof fn lemma_line_canonical(st: Reading, raw: Seq<char>)
    requires
        reading_is_canonical(st),
        is_ascii_chars(raw),
    ensures
        after_line(st, raw) matches Ok(next) ==> reading_is_canonical(next),
{
    let line = trimmed(raw);
    let fields = words(line);
    lemma_ascii_trimmed(raw);
    lemma_ascii_words(line);
    if directive_argument(line, "$ORIGIN"@) is Some {
        let n = "$ORIGIN"@.len() as int;
        lemma_ascii_part(line, n, line.len() as int);
        assert(line.skip(n) =~= line.subrange(n, line.len() as int));
        lemma_ascii_trimmed(line.skip(n));
        canonical_is_final(trimmed(line.skip(n)));
    }
    lemma_record_canonical(st, st.last_name, fields);
    if fields.len() > 0 {
        assert(is_ascii_chars(fields[0]));
        resolved_is_canonical(fields[0], st.origin);
        let rest = fields.drop_first();
        assert(all_ascii(rest)) by {
            assert forall|k: int| 0 <= k < rest.len() implies is_ascii_chars(
                #[trigger] rest[k],
            ) by {
                assert(rest[k] == fields[k + 1]);
            }
        }
        lemma_record_canonical(st, resolved(fields[0], st.origin), rest);
    }
}

proof fn lemma_lines_canonical(st: Reading, ls: Seq<Seq<char>>)
    requires
        reading_is_canonical(st),
        all_ascii(ls),
    ensures
        after_lines(st, ls) matches Ok(after) ==> reading_is_canonical(after),
    decreases ls.len(),
{
    if ls.len() > 0 {
        assert(is_ascii_chars(ls[0]));
        lemma_line_canonical(st, ls[0]);
        if let Ok(next) = after_line(st, ls[0]) {
            let rest = ls.drop_first();
            assert(all_ascii(rest)) by {
                assert forall|k: int| 0 <= k < rest.len() implies is_ascii_chars(
                    #[trigger] rest[k],
                ) by {
                    assert(rest[k] == ls[k + 1]);
                }
            }
            lemma_lines_canonical(next, rest);
        }
    }
}

/// The origin of a zone and every name in it, be it an owner or in the data of a
/// record, are in lower case and without a dot at their end, and every record is of
/// class IN, if the zone file is ASCII.
pub proof fn zone_names_are_canonical(content: Seq<char>, zone: ZoneModel)
    requires
        zone_of(content) == Ok::<_, Seq<char>>(zone),
        is_ascii_chars(content),
    ensures
        is_canonical(zone.origin),
        forall|i: int|
            0 <= i < zone.records.len() ==> record_is_canonical(#[trigger] zone.records[i])
                && zone.records[i].class == CLASS_IN,
{
    lemma_ascii_preprocessed(content);
    assert(ascii_lower(Seq::empty()) =~= Seq::empty());
    lemma_own_form(Seq::empty());
    lemma_lines_canonical(unread(), lines(unlines(logical_lines(content))));
    zone_records_class_in(content, zone);
}

// ── Queries ─────────────────────────────────────────────────────────────────

/// An ASCII capital as the small letter, any other byte as it is.
pub open spec fn lower_byte(b: u8) -> u8 {
    if 0x41 <= b <= 0x5a {
        (b + 32) as u8
    } else {
        b
    }
}

/// Whether two labels are the same; or else, if `exact` does not hold, ASCII and the
/// same but for the case of letters.
pub open spec fn labels_alike(a: Seq<u8>, b: Seq<u8>, exact: bool) -> bool {
    if exact {
        a == b
    } else {
        &&& a.len() == b.len()
        &&& forall|i: int| 0 <= i < a.len() ==> #[trigger] a[i] < 0x80
        &&& forall|i: int| 0 <= i < a.len() ==> lower_byte(#[trigger] a[i]) == lower_byte(b[i])
    }
}

/// Whether at `pos` in two datagrams stand names without compression pointers whose
/// labels are alike.
pub open spec fn names_alike(a: Seq<u8>, b: Seq<u8>, pos: int, exact: bool) -> bool
    decreases a.len() - pos,
{
    &&& 0 <= pos < a.len()
    &&& a[pos] == b[pos]
    &&& a[pos] < POINTER
    &&& a[pos] != 0 ==> {
        &&& pos + 1 + a[pos] <= a.len()
        &&& labels_alike(label_at(a, pos), label_at(b, pos), exact)
        &&& names_alike(a, b, pos + 1 + a[pos], exact)
    }
}

/// Whether the `n` questions from `pos` on differ in nothing but the case of letters
/// in ASCII names.
pub open spec fn questions_alike(a: Seq<u8>, b: Seq<u8>, pos: int, n: nat) -> bool
    decreases n,
{
    n > 0 ==> {
        let end = name_end(a, pos)->0;
        &&& names_alike(a, b, pos, true) || names_alike(a, b, pos, false)
        &&& a.subrange(end, end + 4) == b.subrange(end, end + 4)
        &&& questions_alike(a, b, end + 4, (n - 1) as nat)
    }
}

/// Whether two datagrams of one length have the same header, and questions that
/// differ in nothing but the case of letters in ASCII names and hold no compression
/// pointers.
pub open spec fn datagrams_alike(a: Seq<u8>, b: Seq<u8>) -> bool {
    &&& a.len() == b.len()
    &&& a.len() >= HEADER_LEN
    &&& a.take(HEADER_LEN as int) == b.take(HEADER_LEN as int)
    &&& questions_alike(a, b, HEADER_LEN as int, header_of(a).qdcount as nat)
}

proof fn lemma_ascii_label(b: Seq<u8>)
    requires
        forall|i: int| 0 <= i < b.len() ==> #[trigger] b[i] < 0x80,
    ensures
        valid_utf8(b),
        decode_utf8(b) == Seq::new(b.len(), |i: int| b[i] as char),
        is_ascii_chars(decode_utf8(b)),
{
    let text = Seq::new(b.len(), |i: int| b[i] as char);
    assert forall|i: int| 0 <= i < text.len() implies '\0' <= #[trigger] text[i] <= '\u{7f}' by {
        assert(b[i] < 0x80);
    }
    is_ascii_chars_encode_utf8(text);
    assert(encode_utf8(text) =~= b) by {
        assert forall|i: int| 0 <= i < b.len() implies encode_utf8(text)[i] == b[i] by {
            assert(text[i] as u8 == encode_utf8(text)[i]);
            assert(b[i] < 0x80);
        }
    }
    encode_utf8_valid_utf8(text);
    encode_utf8_decode_utf8(text);
}

proof fn lemma_labels_alike(a: Seq<u8>, b: Seq<u8>)
    requires
        labels_alike(a, b, false),
    ensures
        valid_utf8(a),
        valid_utf8(b),
        is_ascii_chars(decode_utf8(a)),
        is_ascii_chars(decode_utf8(b)),
        ascii_lower(decode_utf8(a)) == ascii_lower(decode_utf8(b)),
{
    assert forall|i: int| 0 <= i < b.len() implies #[trigger] b[i] < 0x80 by {
        assert(a[i] < 0x80);
        assert(lower_byte(a[i]) == lower_byte(b[i]));
    }
    lemma_ascii_label(a);
    lemma_ascii_label(b);
    let s = decode_utf8(a);
    let t = decode_utf8(b);
    assert(ascii_lower(s) =~= ascii_lower(t)) by {
        assert forall|i: int| 0 <= i < s.len() implies ascii_lower(s)[i] == ascii_lower(t)[i] by {
            assert(lower_byte(a[i]) == lower_byte(b[i]));
            assert(s[i] == a[i] as char && t[i] == b[i] as char);
        }
    }
}

/// Whether two rows of labels are the same; or else, if `exact` does not hold, ASCII
/// and the same but for the case of letters.
spec fn texts_alike(s: Seq<Seq<char>>, t: Seq<Seq<char>>, exact: bool) -> bool {
    if exact {
        s == t
    } else {
        &&& s.len() == t.len()
        &&& all_ascii(s)
        &&& all_ascii(t)
        &&& forall|i: int| 0 <= i < s.len() ==> ascii_lower(#[trigger] s[i]) == ascii_lower(t[i])
    }
}

proof fn lemma_names_alike(a: Seq<u8>, b: Seq<u8>, pos: int, hops: int, exact: bool)
    requires
        a.len() == b.len(),
        names_alike(a, b, pos, exact),
    ensures
        match (labels_at(a, pos, hops), labels_at(b, pos, hops)) {
            (Ok(s), Ok(t)) => texts_alike(s, t, exact),
            (Err(e), Err(f)) => e == f,
            _ => false,
        },
        name_end(a, pos) == name_end(b, pos),
    decreases a.len() - pos,
{
    if a[pos] != 0 {
        let next = pos + 1 + a[pos];
        lemma_names_alike(a, b, next, hops, exact);
        if !exact {
            lemma_labels_alike(label_at(a, pos), label_at(b, pos));
        }
        if let (Ok(s), Ok(t)) = (labels_at(a, next, hops), labels_at(b, next, hops)) {
            if valid_utf8(label_at(a, pos)) && !exact {
                let first = decode_utf8(label_at(a, pos));
                let other = decode_utf8(label_at(b, pos));
                let whole = seq![first] + s;
                let twin = seq![other] + t;
                assert forall|i: int| 0 <= i < whole.len() implies is_ascii_chars(
                    #[trigger] whole[i],
                ) && is_ascii_chars(twin[i]) && ascii_lower(whole[i]) == ascii_lower(twin[i]) by {
                    if i > 0 {
                        assert(whole[i] == s[i - 1] && twin[i] == t[i - 1]);
                        assert(is_ascii_chars(s[i - 1]) && is_ascii_chars(t[i - 1]));
                    }
                }
                assert forall|i: int| 0 <= i < twin.len() implies is_ascii_chars(
                    #[trigger] twin[i],
                ) by {
                    assert(is_ascii_chars(whole[i]));
                }
            }
        }
    }
}

proof fn lemma_joined_alike(s: Seq<Seq<char>>, t: Seq<Seq<char>>)
    requires
        texts_alike(s, t, false),
    ensures
        is_ascii_chars(dotted(s)),
        is_ascii_chars(dotted(t)),
        ascii_lower(dotted(s)) == ascii_lower(dotted(t)),
    decreases s.len(),
{
    if s.len() > 0 {
        let n = s.len() - 1;
        assert(is_ascii_chars(s[n]) && is_ascii_chars(t[n]));
        assert(ascii_lower(s[n]) == ascii_lower(t[n]));
        if s.len() > 1 {
            let u = s.drop_last();
            let v = t.drop_last();
            assert forall|i: int| 0 <= i < n implies is_ascii_chars(#[trigger] u[i])
                && ascii_lower(u[i]) == ascii_lower(v[i]) by {
                assert(u[i] == s[i] && v[i] == t[i]);
            }
            assert forall|i: int| 0 <= i < n implies is_ascii_chars(#[trigger] v[i]) by {
                assert(v[i] == t[i]);
            }
            lemma_joined_alike(u, v);
            lemma_lower_concat(joined(u, '.').push('.'), s[n]);
            lemma_lower_concat(joined(v, '.').push('.'), t[n]);
            assert(ascii_lower(joined(u, '.').push('.')) =~= ascii_lower(joined(u, '.')).push('.'));
            assert(ascii_lower(joined(v, '.').push('.')) =~= ascii_lower(joined(v, '.')).push('.'));
        }
    }
}

proof fn lemma_lower_concat(s: Seq<char>, t: Seq<char>)
    ensures
        ascii_lower(s + t) == ascii_lower(s) + ascii_lower(t),
{
    assert(ascii_lower(s + t) =~= ascii_lower(s) + ascii_lower(t));
}

proof fn lemma_name_at_alike(a: Seq<u8>, b: Seq<u8>, pos: int, exact: bool)
    requires
        a.len() == b.len(),
        names_alike(a, b, pos, exact),
    ensures
        name_at(a, pos) == name_at(b, pos),
        name_end(a, pos) == name_end(b, pos),
{
    lemma_names_alike(a, b, pos, 0, exact);
    if let (Ok(s), Ok(t)) = (labels_at(a, pos, 0), labels_at(b, pos, 0)) {
        if !exact {
            lemma_joined_alike(s, t);
        }
    }
}

proof fn lemma_questions_alike(a: Seq<u8>, b: Seq<u8>, pos: int, n: nat)
    requires
        a.len() == b.len(),
        questions_alike(a, b, pos, n),
    ensures
        questions_at(a, pos, n) == questions_at(b, pos, n),
    decreases n,
{
    if n > 0 {
        if names_alike(a, b, pos, true) {
            lemma_name_at_alike(a, b, pos, true);
        } else {
            lemma_name_at_alike(a, b, pos, false);
        }
        let end = name_end(a, pos)->0;
        let four = a.subrange(end, end + 4);
        if name_at(a, pos) is Ok && end + 4 <= a.len() {
            lemma_name_end(a, pos, 0);
            assert(a[end] == four[0] && a[end + 1] == four[1]);
            assert(a[end + 2] == four[2] && a[end + 3] == four[3]);
            let same = b.subrange(end, end + 4);
            assert(b[end] == same[0] && b[end + 1] == same[1]);
            assert(b[end + 2] == same[2] && b[end + 3] == same[3]);
            lemma_questions_alike(a, b, end + 4, (n - 1) as nat);
        }
    }
}

/// The case of letters in a question does not matter: datagrams that differ in nothing
/// but the case of letters in ASCII question names get the same reply, byte for byte.
pub proof fn case_of_questions_does_not_matter(a: Seq<u8>, b: Seq<u8>, zone: ZoneModel)
    requires
        datagrams_alike(a, b),
    ensures
        message_of(a) == message_of(b),
        reply(a, zone) == reply(b, zone),
{
    let head = a.take(HEADER_LEN as int);
    let same = b.take(HEADER_LEN as int);
    assert forall|i: int| 0 <= i < HEADER_LEN implies a[i] == b[i] by {
        assert(a[i] == head[i] && b[i] == same[i]);
    }
    assert(header_of(a) == header_of(b));
    lemma_questions_alike(a, b, HEADER_LEN as int, header_of(a).qdcount as nat);
    assert(a.take(2) =~= b.take(2));
}

} // verus!
