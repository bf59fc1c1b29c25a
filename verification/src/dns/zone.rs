//! Zone files and the records that they hold.
//!
//! RFC 1035 §5 (master files), §3.3 (record types), RFC 3596 §2 (AAAA).

use vstd::prelude::*;
use vstd::slice::slice_subrange;

use super::addr::{ipv4_octets, ipv6_octets, Ipv4Addr, Ipv6Addr};
use super::message::{
    record_models, DataModel, RecordData, RecordModel, RecordType, ResourceRecord, CLASS_IN,
};
use crate::text::{
    ascii_upper, begins_blank, chars_of, decimal, is_white_space, join, joined,
    lemma_split_nonempty, lemma_texts_push, lemma_trimmed_end_prefix, lines, lowercase,
    parse_decimal, same, split, split_lines, split_words, starts_blank, string_of, strip_dots,
    texts, to_ascii_upper, trim, trim_end, trimmed, trimmed_end, undotted, words,
};

verus! {

// ── Names ───────────────────────────────────────────────────────────────────

/// A name as it is compared: in lower case, without trailing dots.
pub open spec fn canonical(name: Seq<char>) -> Seq<char> {
    lowercase(undotted(name))
}

/// Brings a name into the form in which names are compared.
pub fn canon(name: &str) -> (r: String)
    ensures
        r@ == canonical(name@),
{
    strip_dots(name).to_lowercase()
}

/// The full name that a name in a zone file stands for. `@` is the origin; a name
/// with a dot at its end is complete; to any other the origin is appended.
pub open spec fn resolved(raw: Seq<char>, origin: Seq<char>) -> Seq<char> {
    if raw == seq!['@'] {
        canonical(origin)
    } else if raw.len() > 0 && raw.last() == '.' {
        canonical(raw)
    } else if canonical(origin).len() == 0 {
        lowercase(raw)
    } else {
        lowercase(raw).push('.') + canonical(origin)
    }
}

/// Resolves a name in a zone file to a full name in lower case, without a dot at
/// its end.
pub fn resolve_name(raw: &str, origin: &str) -> (r: String)
    ensures
        r@ == resolved(raw@, origin@),
{
    let v = chars_of(raw);
    if v.len() == 1 && v[0] == '@' {
        assert(raw@ =~= seq!['@']);
        return canon(origin);
    }
    if v.len() > 0 && v[v.len() - 1] == '.' {
        return canon(raw);
    }
    let full_origin = canon(origin);
    let mut name = raw.to_lowercase();
    if !full_origin.as_str().is_empty() {
        name.push('.');
        name.append(full_origin.as_str());
    }
    name
}

// ── Directives and fields ───────────────────────────────────────────────────

/// Whether `s` is `keyword`, ASCII small letters counting as capitals.
pub open spec fn is_keyword(s: Seq<char>, keyword: Seq<char>) -> bool {
    s == keyword || ascii_upper(s) == keyword
}

/// What stands behind the keyword of a directive; `None` if the line is not that
/// directive.
pub open spec fn directive_argument(line: Seq<char>, keyword: Seq<char>) -> Option<Seq<char>> {
    let n = keyword.len() as int;
    if line.len() >= n && is_keyword(line.take(n), keyword) && (line.len() == n || is_white_space(
        line[n],
    )) {
        Some(trimmed(line.skip(n)))
    } else {
        None
    }
}

/// Checks for a directive's keyword at the start of a line, in capitals or small
/// letters, and gives what stands behind it.
pub fn directive<'a>(line: &'a str, keyword: &str) -> (r: Option<&'a str>)
    ensures
        match r {
            Some(rest) => directive_argument(line@, keyword@) == Some(rest@),
            None => directive_argument(line@, keyword@) is None,
        },
{
    let v = chars_of(line);
    let n: usize = chars_of(keyword).len();
    if v.len() < n {
        return None;
    }
    let word = string_of(slice_subrange(v.as_slice(), 0, n));
    assert(word@ =~= line@.take(n as int));
    if !same(word.as_str(), keyword) && !same(to_ascii_upper(word.as_str()).as_str(), keyword) {
        return None;
    }
    if v.len() > n && !v[n].is_whitespace() {
        return None;
    }
    let rest = line.substring_char(n, v.len());
    assert(rest@ =~= line@.skip(n as int));
    Some(trim(rest))
}

/// Whether a field is a class.
pub open spec fn names_class(s: Seq<char>) -> bool {
    let u = ascii_upper(s);
    u == "IN"@ || u == "CH"@ || u == "HS"@ || u == "ANY"@
}

/// Tests whether a field is a class.
pub fn is_class(s: &str) -> (r: bool)
    ensures
        r == names_class(s@),
{
    let u = to_ascii_upper(s);
    same(u.as_str(), "IN") || same(u.as_str(), "CH") || same(u.as_str(), "HS") || same(
        u.as_str(),
        "ANY",
    )
}

/// The pieces of `text` that stand between an opening and a closing quote.
pub open spec fn quoted(text: Seq<char>) -> Seq<Seq<char>> {
    between_quotes(split(text, '"'))
}

/// Of the pieces between quotes, those behind an odd number of quotes and before
/// another one.
pub open spec fn between_quotes(pieces: Seq<Seq<char>>) -> Seq<Seq<char>> {
    Seq::new(((pieces.len() - 1) / 2) as nat, |k: int| pieces[2 * k + 1])
}

/// The character-strings of TXT data: the quoted pieces, or else the whole text,
/// unless it is blank.
pub open spec fn txt_strings(text: Seq<char>) -> Seq<Seq<char>> {
    if quoted(text).len() > 0 {
        quoted(text)
    } else if trimmed(text).len() > 0 {
        seq![trimmed(text)]
    } else {
        Seq::empty()
    }
}

/// Reads TXT data (RFC 1035 §3.3.14): one or more quoted strings. Text without
/// quoted strings is a single character-string.
pub fn parse_txt_strings(text: &str) -> (r: Vec<String>)
    ensures
        texts(r@) == txt_strings(text@),
{
    let v = chars_of(text);
    let mut result: Vec<String> = Vec::new();
    let mut current: String = String::new();
    let mut in_quote: bool = false;
    let mut i: usize = 0;
    assert(texts(result@) =~= quoted(text@.take(0)));
    while i < v.len()
        invariant
            i <= v.len(),
            v@ == text@,
            in_quote == (split(text@.take(i as int), '"').len() % 2 == 0),
            current@ == (if in_quote {
                split(text@.take(i as int), '"').last()
            } else {
                Seq::empty()
            }),
            texts(result@) == quoted(text@.take(i as int)),
        decreases v.len() - i,
    {
        let c = v[i];
        let ghost pieces = split(text@.take(i as int), '"');
        let ghost next = split(text@.take(i + 1), '"');
        proof {
            lemma_split_nonempty(text@.take(i as int), '"');
            assert(text@.take(i + 1).drop_last() =~= text@.take(i as int));
        }
        if c == '"' {
            if in_quote {
                proof {
                    lemma_texts_push(result@, current);
                    assert(between_quotes(next) =~= between_quotes(pieces).push(pieces.last()));
                }
                result.push(current);
                current = String::new();
            } else {
                assert(between_quotes(next) =~= between_quotes(pieces));
            }
            in_quote = !in_quote;
        } else {
            if in_quote {
                current.push(c);
            }
            assert(between_quotes(next) =~= between_quotes(pieces));
        }
        i = i + 1;
    }
    assert(text@.take(i as int) =~= text@);
    if result.len() == 0 {
        let t = trim(text);
        if !t.is_empty() {
            let s = t.to_owned();
            proof {
                lemma_texts_push(result@, s);
                assert(texts(result@).push(s@) =~= seq![trimmed(text@)]);
            }
            result.push(s);
        }
    }
    result
}

// ── Lines ───────────────────────────────────────────────────────────────────

/// Whether a quoted string is open at the end of `s`.
pub open spec fn in_quotes(s: Seq<char>) -> bool
    decreases s.len(),
{
    s.len() > 0 && (in_quotes(s.drop_last()) != (s.last() == '"'))
}

/// Whether a comment starts at `i`: a semicolon outside quoted strings.
pub open spec fn comment_at(s: Seq<char>, i: int) -> bool {
    s[i] == ';' && !in_quotes(s.take(i))
}

/// How much of the line stands before its comment.
pub open spec fn comment_start(s: Seq<char>, from: int) -> int
    decreases s.len() - from,
{
    if from >= s.len() {
        s.len() as int
    } else if comment_at(s, from) {
        from
    } else {
        comment_start(s, from + 1)
    }
}

/// A line without its comment.
pub open spec fn uncommented(s: Seq<char>) -> Seq<char> {
    s.take(comment_start(s, 0))
}

pub(crate) proof fn lemma_comment_start(s: Seq<char>, from: int)
    requires
        0 <= from <= s.len(),
    ensures
        from <= comment_start(s, from) <= s.len(),
        comment_start(s, from) < s.len() ==> comment_at(s, comment_start(s, from)),
        forall|i: int| from <= i < comment_start(s, from) ==> !#[trigger] comment_at(s, i),
    decreases s.len() - from,
{
    if from < s.len() && !comment_at(s, from) {
        lemma_comment_start(s, from + 1);
    }
}

/// Removes the comment from a line. A semicolon within quotes does not start one.
pub fn strip_comment(line: &str) -> (r: &str)
    ensures
        r@ == uncommented(line@),
{
    let v = chars_of(line);
    let mut in_quote: bool = false;
    let mut i: usize = 0;
    while i < v.len() && !(v[i] == ';' && !in_quote)
        invariant
            i <= v.len(),
            v@ == line@,
            in_quote == in_quotes(line@.take(i as int)),
            comment_start(line@, 0) == comment_start(line@, i as int),
        decreases v.len() - i,
    {
        assert(line@.take(i + 1).drop_last() =~= line@.take(i as int));
        if v[i] == '"' {
            in_quote = !in_quote;
        }
        i = i + 1;
    }
    assert(line@.subrange(0, i as int) =~= line@.take(i as int));
    line.substring_char(0, i)
}

/// Text gathered for a logical line, and how many parentheses are open.
pub struct Gathered {
    pub text: Seq<char>,
    pub depth: nat,
}

/// What is gathered once `s` has been added: its characters, but for parentheses.
/// A closing one with none open is an ordinary character.
pub open spec fn gather(g: Gathered, s: Seq<char>) -> Gathered
    decreases s.len(),
{
    if s.len() == 0 {
        g
    } else {
        let before = gather(g, s.drop_last());
        if s.last() == '(' {
            Gathered { text: before.text, depth: before.depth + 1 }
        } else if s.last() == ')' && before.depth > 0 {
            Gathered { text: before.text, depth: (before.depth - 1) as nat }
        } else {
            Gathered { text: before.text.push(s.last()), depth: before.depth }
        }
    }
}

/// The logical lines that are complete, and what is gathered for the next.
pub struct Joining {
    pub lines: Seq<Seq<char>>,
    pub open: Gathered,
}

/// The lines with `text` behind them, without the white space at its end; a blank
/// text is left out.
pub open spec fn with_line(lines: Seq<Seq<char>>, text: Seq<char>) -> Seq<Seq<char>> {
    if trimmed(text).len() > 0 {
        lines.push(trimmed_end(text))
    } else {
        lines
    }
}

/// Adds a source line, its comment and the white space at its end left out. The
/// logical line is complete when no parenthesis is open; else a space joins it to
/// the next source line.
pub open spec fn join_line(j: Joining, line: Seq<char>) -> Joining {
    let g = gather(j.open, trimmed_end(uncommented(line)));
    if g.depth == 0 {
        Joining {
            lines: with_line(j.lines, g.text),
            open: Gathered { text: Seq::empty(), depth: 0 },
        }
    } else {
        Joining { lines: j.lines, open: Gathered { text: g.text.push(' '), depth: g.depth } }
    }
}

/// What the source lines join to.
pub open spec fn join_lines(source: Seq<Seq<char>>) -> Joining
    decreases source.len(),
{
    if source.len() == 0 {
        Joining { lines: Seq::empty(), open: Gathered { text: Seq::empty(), depth: 0 } }
    } else {
        join_line(join_lines(source.drop_last()), source.last())
    }
}

/// The logical lines of a zone file (RFC 1035 §5.1). A line whose parentheses are
/// never closed ends with the file.
pub open spec fn logical_lines(content: Seq<char>) -> Seq<Seq<char>> {
    let j = join_lines(lines(content));
    with_line(j.lines, j.open.text)
}

/// The lines as one text, each ended by a line feed.
pub open spec fn unlines(lines: Seq<Seq<char>>) -> Seq<char>
    decreases lines.len(),
{
    if lines.len() == 0 {
        Seq::empty()
    } else {
        unlines(lines.drop_last()) + lines.last().push('\n')
    }
}

/// How many characters the texts have together.
spec fn total_len(parts: Seq<Seq<char>>) -> nat
    decreases parts.len(),
{
    if parts.len() == 0 {
        0
    } else {
        total_len(parts.drop_last()) + parts.last().len()
    }
}

proof fn lemma_total_len_split(s: Seq<char>, sep: char)
    ensures
        total_len(split(s, sep)) <= s.len(),
    decreases s.len(),
{
    reveal_with_fuel(total_len, 2);
    if s.len() > 0 {
        let init = split(s.drop_last(), sep);
        lemma_split_nonempty(s.drop_last(), sep);
        lemma_total_len_split(s.drop_last(), sep);
        if s.last() == sep {
            assert(init.push(Seq::empty()).drop_last() =~= init);
        } else {
            let last = init.last().push(s.last());
            assert(init.drop_last().push(last).drop_last() =~= init.drop_last());
        }
    } else {
        assert(split(s, sep).drop_last() =~= Seq::empty());
    }
}

proof fn lemma_total_len_shorter(a: Seq<Seq<char>>, b: Seq<Seq<char>>)
    requires
        a.len() <= b.len(),
        forall|i: int| 0 <= i < a.len() ==> (#[trigger] a[i]).len() <= b[i].len(),
    ensures
        total_len(a) <= total_len(b),
    decreases b.len(),
{
    if b.len() > 0 {
        if a.len() == b.len() {
            assert(a.last().len() <= b.last().len());
            lemma_total_len_shorter(a.drop_last(), b.drop_last());
        } else {
            lemma_total_len_shorter(a, b.drop_last());
        }
    }
}

proof fn lemma_total_len_lines(s: Seq<char>)
    ensures
        total_len(lines(s)) <= s.len(),
{
    let pieces = split(s, '\n');
    lemma_split_nonempty(s, '\n');
    lemma_total_len_split(s, '\n');
    let l = lines(s);
    assert forall|i: int| 0 <= i < l.len() implies (#[trigger] l[i]).len() <= pieces[i].len() by {}
    lemma_total_len_shorter(l, pieces);
}

/// Collapses records that parentheses spread over several lines into single
/// logical lines, with the comments left out. The white space at the start of a
/// logical line is kept: it says that the line has no owner field.
pub fn preprocess(content: &str) -> (r: String)
    ensures
        r@ == unlines(logical_lines(content@)),
{
    let source = split_lines(content);
    let ghost all = lines(content@);
    let size: usize = content.unicode_len();
    proof {
        lemma_total_len_lines(content@);
    }
    let mut out: String = String::new();
    let mut pending: String = String::new();
    let mut depth: usize = 0;
    let mut i: usize = 0;
    assert(all.take(0) =~= Seq::empty());
    while i < source.len()
        invariant
            i <= source.len(),
            texts(source@) == all,
            total_len(all) <= size,
            out@ == unlines(join_lines(all.take(i as int)).lines),
            pending@ == join_lines(all.take(i as int)).open.text,
            depth == join_lines(all.take(i as int)).open.depth,
            depth <= total_len(all.take(i as int)),
        decreases source.len() - i,
    {
        let line = source[i].as_str();
        let ghost before = join_lines(all.take(i as int));
        let ghost seen = total_len(all.take(i as int));
        let ghost stripped = trimmed_end(uncommented(line@));
        proof {
            assert(all.take(i + 1).drop_last() =~= all.take(i as int));
            assert(all.take(i + 1).last() == line@);
            lemma_comment_start(line@, 0);
            lemma_trimmed_end_prefix(uncommented(line@));
            assert forall|k: int| 0 <= k < all.take(i + 1).len() implies (#[trigger] all.take(
                i + 1,
            )[k]).len() <= all[k].len() by {}
            lemma_total_len_shorter(all.take(i + 1), all);
        }
        let v = chars_of(trim_end(strip_comment(line)));
        let mut k: usize = 0;
        while k < v.len()
            invariant
                k <= v.len(),
                v@ == stripped,
                pending@ == gather(before.open, stripped.take(k as int)).text,
                depth == gather(before.open, stripped.take(k as int)).depth,
                depth <= seen + k,
                seen + v.len() <= size,
            decreases v.len() - k,
        {
            assert(stripped.take(k + 1).drop_last() =~= stripped.take(k as int));
            let c = v[k];
            if c == '(' {
                depth = depth + 1;
            } else if c == ')' && depth > 0 {
                depth = depth - 1;
            } else {
                pending.push(c);
            }
            k = k + 1;
        }
        assert(stripped.take(k as int) =~= stripped);
        if depth == 0 {
            let ghost done = before.lines;
            if !trim(pending.as_str()).is_empty() {
                let ghost emitted = done.push(trimmed_end(pending@));
                assert(emitted.drop_last() =~= done);
                out.append(trim_end(pending.as_str()));
                out.push('\n');
                assert(out@ =~= unlines(emitted));
            }
            pending = String::new();
        } else {
            pending.push(' ');
        }
        i = i + 1;
    }
    assert(all.take(i as int) =~= all);
    if !trim(pending.as_str()).is_empty() {
        let ghost done = join_lines(all).lines;
        let ghost emitted = done.push(trimmed_end(pending@));
        assert(emitted.drop_last() =~= done);
        out.append(trim_end(pending.as_str()));
        out.push('\n');
        assert(out@ =~= unlines(emitted));
    }
    out
}

// ── Records ─────────────────────────────────────────────────────────────────

/// The decimal digit that writes `n`.
pub open spec fn digit(n: nat) -> char {
    ('0' as u8 + n) as char
}

/// The data of a record with one name, if the name's field is there.
pub open spec fn name_data(
    rdata: Seq<Seq<char>>,
    origin: Seq<char>,
    missing: Seq<char>,
) -> Result<Seq<char>, Seq<char>> {
    if rdata.len() == 0 {
        Err(missing)
    } else {
        Ok(resolved(rdata[0], origin))
    }
}

/// The data that the fields of an MX record give (RFC 1035 §3.3.9).
pub open spec fn mx_data(rdata: Seq<Seq<char>>, origin: Seq<char>) -> Result<
    DataModel,
    Seq<char>,
> {
    if rdata.len() == 0 {
        Err("MX: missing priority"@)
    } else if decimal(rdata[0], u16::MAX as nat) is None {
        Err("MX: invalid priority"@)
    } else if rdata.len() == 1 {
        Err("MX: missing exchange"@)
    } else {
        Ok(
            DataModel::Mx {
                priority: decimal(rdata[0], u16::MAX as nat)->0 as u16,
                exchange: resolved(rdata[1], origin),
            },
        )
    }
}

/// The data that the fields of an SOA record give (RFC 1035 §3.3.13).
pub open spec fn soa_data(rdata: Seq<Seq<char>>, origin: Seq<char>, name: Seq<char>) -> Result<
    DataModel,
    Seq<char>,
> {
    let max = u32::MAX as nat;
    if rdata.len() < 7 {
        Err("SOA for '"@ + name + "': need 7 fields, got "@ + seq![digit(rdata.len())])
    } else if decimal(rdata[2], max) is None {
        Err("SOA: invalid serial"@)
    } else if decimal(rdata[3], max) is None {
        Err("SOA: invalid refresh"@)
    } else if decimal(rdata[4], max) is None {
        Err("SOA: invalid retry"@)
    } else if decimal(rdata[5], max) is None {
        Err("SOA: invalid expire"@)
    } else if decimal(rdata[6], max) is None {
        Err("SOA: invalid minimum"@)
    } else {
        Ok(
            DataModel::Soa {
                mname: resolved(rdata[0], origin),
                rname: resolved(rdata[1], origin),
                serial: decimal(rdata[2], max)->0 as u32,
                refresh: decimal(rdata[3], max)->0 as u32,
                retry: decimal(rdata[4], max)->0 as u32,
                expire: decimal(rdata[5], max)->0 as u32,
                minimum: decimal(rdata[6], max)->0 as u32,
            },
        )
    }
}

/// The data that the fields behind a type give: `None` for an unknown type, a
/// message where the fields are not right for the type.
pub open spec fn record_data(
    rtype: Seq<char>,
    rdata: Seq<Seq<char>>,
    origin: Seq<char>,
    name: Seq<char>,
) -> Result<Option<DataModel>, Seq<char>> {
    if rtype == "A"@ {
        if rdata.len() == 0 {
            Err("A: missing address"@)
        } else {
            match ipv4_octets(rdata[0]) {
                Some(octets) => Ok(Some(DataModel::A(octets))),
                None => Err("A: invalid address: "@ + rdata[0]),
            }
        }
    } else if rtype == "AAAA"@ {
        if rdata.len() == 0 {
            Err("AAAA: missing address"@)
        } else {
            match ipv6_octets(rdata[0]) {
                Some(octets) => Ok(Some(DataModel::Aaaa(octets))),
                None => Err("AAAA: invalid address: "@ + rdata[0]),
            }
        }
    } else if rtype == "NS"@ {
        match name_data(rdata, origin, "NS: missing nameserver"@) {
            Ok(n) => Ok(Some(DataModel::Ns(n))),
            Err(e) => Err(e),
        }
    } else if rtype == "CNAME"@ {
        match name_data(rdata, origin, "CNAME: missing target"@) {
            Ok(n) => Ok(Some(DataModel::Cname(n))),
            Err(e) => Err(e),
        }
    } else if rtype == "PTR"@ {
        match name_data(rdata, origin, "PTR: missing target"@) {
            Ok(n) => Ok(Some(DataModel::Ptr(n))),
            Err(e) => Err(e),
        }
    } else if rtype == "MX"@ {
        match mx_data(rdata, origin) {
            Ok(d) => Ok(Some(d)),
            Err(e) => Err(e),
        }
    } else if rtype == "TXT"@ {
        Ok(Some(DataModel::Txt(txt_strings(joined(rdata, ' ')))))
    } else if rtype == "SOA"@ {
        match soa_data(rdata, origin, name) {
            Ok(d) => Ok(Some(d)),
            Err(e) => Err(e),
        }
    } else {
        Ok(None)
    }
}

/// Reads the name in the first field.
fn parse_name_field(rdata: &[String], origin: &str, missing: &str) -> (r: Result<String, String>)
    ensures
        match r {
            Ok(n) => name_data(texts(rdata@), origin@, missing@) == Ok::<_, Seq<char>>(n@),
            Err(e) => name_data(texts(rdata@), origin@, missing@) == Err::<Seq<char>, _>(e@),
        },
{
    if rdata.len() == 0 {
        Err(missing.to_owned())
    } else {
        assert(texts(rdata@)[0] == rdata[0]@);
        Ok(resolve_name(rdata[0].as_str(), origin))
    }
}

/// Reads the fields of an MX record.
fn parse_mx(rdata: &[String], origin: &str) -> (r: Result<RecordData, String>)
    ensures
        match r {
            Ok(d) => mx_data(texts(rdata@), origin@) == Ok::<_, Seq<char>>(d@),
            Err(e) => mx_data(texts(rdata@), origin@) == Err::<DataModel, _>(e@),
        },
{
    if rdata.len() == 0 {
        return Err("MX: missing priority".to_owned());
    }
    assert(texts(rdata@)[0] == rdata[0]@);
    let priority: u16 = match parse_decimal(rdata[0].as_str(), 0xffff) {
        Some(n) => n as u16,
        None => {
            return Err("MX: invalid priority".to_owned());
        },
    };
    if rdata.len() == 1 {
        return Err("MX: missing exchange".to_owned());
    }
    assert(texts(rdata@)[1] == rdata[1]@);
    Ok(RecordData::Mx { priority, exchange: resolve_name(rdata[1].as_str(), origin) })
}

/// Reads the fields of an SOA record.
fn parse_soa(rdata: &[String], origin: &str, name: &str) -> (r: Result<RecordData, String>)
    ensures
        match r {
            Ok(d) => soa_data(texts(rdata@), origin@, name@) == Ok::<_, Seq<char>>(d@),
            Err(e) => soa_data(texts(rdata@), origin@, name@) == Err::<DataModel, _>(e@),
        },
{
    let n: usize = rdata.len();
    if n < 7 {
        let mut e = "SOA for '".to_owned();
        e.append(name);
        e.append("': need 7 fields, got ");
        e.push((48u8 + n as u8) as char);
        assert(e@ =~= "SOA for '"@ + name@ + "': need 7 fields, got "@ + seq![digit(n as nat)]);
        return Err(e);
    }
    let ghost all = texts(rdata@);
    assert(all[0] == rdata[0]@ && all[1] == rdata[1]@ && all[2] == rdata[2]@ && all[3] == rdata[3]@
        && all[4] == rdata[4]@ && all[5] == rdata[5]@ && all[6] == rdata[6]@);
    let serial: u32 = match parse_decimal(rdata[2].as_str(), u32::MAX) {
        Some(v) => v,
        None => {
            return Err("SOA: invalid serial".to_owned());
        },
    };
    let refresh: u32 = match parse_decimal(rdata[3].as_str(), u32::MAX) {
        Some(v) => v,
        None => {
            return Err("SOA: invalid refresh".to_owned());
        },
    };
    let retry: u32 = match parse_decimal(rdata[4].as_str(), u32::MAX) {
        Some(v) => v,
        None => {
            return Err("SOA: invalid retry".to_owned());
        },
    };
    let expire: u32 = match parse_decimal(rdata[5].as_str(), u32::MAX) {
        Some(v) => v,
        None => {
            return Err("SOA: invalid expire".to_owned());
        },
    };
    let minimum: u32 = match parse_decimal(rdata[6].as_str(), u32::MAX) {
        Some(v) => v,
        None => {
            return Err("SOA: invalid minimum".to_owned());
        },
    };
    Ok(
        RecordData::Soa {
            mname: resolve_name(rdata[0].as_str(), origin),
            rname: resolve_name(rdata[1].as_str(), origin),
            serial,
            refresh,
            retry,
            expire,
            minimum,
        },
    )
}

/// Reads the fields behind a type; `None` for an unknown type.
pub fn parse_record_data(rtype: &str, rdata: &[String], origin: &str, name: &str) -> (r: Result<
    Option<RecordData>,
    String,
>)
    ensures
        match r {
            Ok(Some(d)) => record_data(rtype@, texts(rdata@), origin@, name@) == Ok::<_, Seq<char>>(
                Some(d@),
            ),
            Ok(None) => record_data(rtype@, texts(rdata@), origin@, name@) == Ok::<_, Seq<char>>(
                None::<DataModel>,
            ),
            Err(e) => record_data(rtype@, texts(rdata@), origin@, name@) == Err::<
                Option<DataModel>,
                _,
            >(e@),
        },
{
    let ghost all = texts(rdata@);
    assert(rdata.len() > 0 ==> all[0] == rdata[0]@);
    if same(rtype, "A") {
        if rdata.len() == 0 {
            return Err("A: missing address".to_owned());
        }
        return match Ipv4Addr::parse(rdata[0].as_str()) {
            Some(a) => Ok(Some(RecordData::A(a))),
            None => Err("A: invalid address: ".to_owned().concat(rdata[0].as_str())),
        };
    }
    if same(rtype, "AAAA") {
        if rdata.len() == 0 {
            return Err("AAAA: missing address".to_owned());
        }
        return match Ipv6Addr::parse(rdata[0].as_str()) {
            Some(a) => Ok(Some(RecordData::Aaaa(a))),
            None => Err("AAAA: invalid address: ".to_owned().concat(rdata[0].as_str())),
        };
    }
    if same(rtype, "NS") {
        return match parse_name_field(rdata, origin, "NS: missing nameserver") {
            Ok(n) => Ok(Some(RecordData::Ns(n))),
            Err(e) => Err(e),
        };
    }
    if same(rtype, "CNAME") {
        return match parse_name_field(rdata, origin, "CNAME: missing target") {
            Ok(n) => Ok(Some(RecordData::Cname(n))),
            Err(e) => Err(e),
        };
    }
    if same(rtype, "PTR") {
        return match parse_name_field(rdata, origin, "PTR: missing target") {
            Ok(n) => Ok(Some(RecordData::Ptr(n))),
            Err(e) => Err(e),
        };
    }
    if same(rtype, "MX") {
        return match parse_mx(rdata, origin) {
            Ok(d) => Ok(Some(d)),
            Err(e) => Err(e),
        };
    }
    if same(rtype, "TXT") {
        return Ok(Some(RecordData::Txt(parse_txt_strings(join(rdata, ' ').as_str()))));
    }
    if same(rtype, "SOA") {
        return match parse_soa(rdata, origin, name) {
            Ok(d) => Ok(Some(d)),
            Err(e) => Err(e),
        };
    }
    Ok(None)
}

// ── Zone files ──────────────────────────────────────────────────────────────

/// What is known at some line of a zone file.
pub struct Reading {
    /// The origin that the last `$ORIGIN` set.
    pub origin: Seq<char>,
    /// The TTL that the last `$TTL` set.
    pub ttl: u32,
    /// The owner of the last record.
    pub last_name: Seq<char>,
    /// The records so far.
    pub records: Seq<RecordModel>,
}

/// The TTL in field `i`, if that field is a number.
pub open spec fn ttl_field(fields: Seq<Seq<char>>, i: int) -> Option<u32> {
    if 0 <= i < fields.len() {
        match decimal(fields[i], u32::MAX as nat) {
            Some(n) => Some(n as u32),
            None => None,
        }
    } else {
        None
    }
}

/// The next field behind an optional TTL at `i`.
pub open spec fn past_ttl(fields: Seq<Seq<char>>, i: int) -> int {
    if ttl_field(fields, i) is Some {
        i + 1
    } else {
        i
    }
}

/// The next field behind an optional class at `i`.
pub open spec fn past_class(fields: Seq<Seq<char>>, i: int) -> int {
    if 0 <= i < fields.len() && names_class(fields[i]) {
        i + 1
    } else {
        i
    }
}

/// The field with the type: a TTL and a class may stand before it, in either
/// order (RFC 1035 §5.1).
pub open spec fn type_field(fields: Seq<Seq<char>>) -> int {
    past_ttl(fields, past_class(fields, past_ttl(fields, 0)))
}

/// The TTL of the record: the one behind the class, or else the one before it, or
/// else the default.
pub open spec fn record_ttl(fields: Seq<Seq<char>>, default_ttl: u32) -> u32 {
    match ttl_field(fields, past_class(fields, past_ttl(fields, 0))) {
        Some(t) => t,
        None => match ttl_field(fields, 0) {
            Some(t) => t,
            None => default_ttl,
        },
    }
}

/// What is known behind a line with a record, given its owner and the fields
/// behind the owner. A line without a type, or of an unknown type, adds no record.
pub open spec fn after_record(st: Reading, name: Seq<char>, fields: Seq<Seq<char>>) -> Result<
    Reading,
    Seq<char>,
> {
    let named = Reading { last_name: name, ..st };
    let i = type_field(fields);
    if i >= fields.len() {
        Ok(named)
    } else {
        match record_data(ascii_upper(fields[i]), fields.skip(i + 1), st.origin, name) {
            Err(e) => Err(e),
            Ok(None) => Ok(named),
            Ok(Some(data)) => Ok(
                Reading {
                    records: st.records.push(
                        RecordModel {
                            name,
                            class: CLASS_IN,
                            ttl: record_ttl(fields, st.ttl),
                            data,
                        },
                    ),
                    ..named
                },
            ),
        }
    }
}

/// What is known behind a logical line. A line that starts with white space has no
/// owner field: its record belongs to the owner of the last one.
pub open spec fn after_line(st: Reading, raw: Seq<char>) -> Result<Reading, Seq<char>> {
    let line = trimmed(raw);
    let fields = words(line);
    if line.len() == 0 {
        Ok(st)
    } else if directive_argument(line, "$ORIGIN"@) is Some {
        let origin = canonical(directive_argument(line, "$ORIGIN"@)->0);
        Ok(Reading { origin, last_name: origin, ..st })
    } else if directive_argument(line, "$TTL"@) is Some {
        let argument = directive_argument(line, "$TTL"@)->0;
        match decimal(argument, u32::MAX as nat) {
            Some(n) => Ok(Reading { ttl: n as u32, ..st }),
            None => Err("invalid $TTL value: "@ + argument),
        }
    } else if directive_argument(line, "$INCLUDE"@) is Some {
        Err("$INCLUDE is not supported"@)
    } else if fields.len() == 0 {
        Ok(st)
    } else if starts_blank(raw) {
        after_record(st, st.last_name, fields)
    } else {
        after_record(st, resolved(fields[0], st.origin), fields.drop_first())
    }
}

/// What is known behind all of the logical lines.
pub open spec fn after_lines(st: Reading, lines: Seq<Seq<char>>) -> Result<Reading, Seq<char>>
    decreases lines.len(),
{
    if lines.len() == 0 {
        Ok(st)
    } else {
        match after_line(st, lines[0]) {
            Ok(next) => after_lines(next, lines.drop_first()),
            Err(e) => Err(e),
        }
    }
}

/// What is known before the first line.
pub open spec fn unread() -> Reading {
    Reading {
        origin: Seq::empty(),
        ttl: 3600,
        last_name: Seq::empty(),
        records: Seq::empty(),
    }
}

/// The zone that a zone file describes, or the message what is wrong with it.
pub open spec fn zone_of(content: Seq<char>) -> Result<ZoneModel, Seq<char>> {
    match after_lines(unread(), lines(unlines(logical_lines(content)))) {
        Ok(st) => Ok(ZoneModel { origin: st.origin, records: st.records }),
        Err(e) => Err(e),
    }
}

/// A zone: its origin and its records.
pub struct Zone {
    origin: String,
    records: Vec<ResourceRecord>,
}

/// What a zone holds.
pub struct ZoneModel {
    pub origin: Seq<char>,
    pub records: Seq<RecordModel>,
}

impl View for Zone {
    type V = ZoneModel;

    closed spec fn view(&self) -> ZoneModel {
        ZoneModel { origin: self.origin@, records: record_models(self.records@) }
    }
}

/// A zone file being read.
struct Reader {
    origin: String,
    ttl: u32,
    last_name: String,
    records: Vec<ResourceRecord>,
}

impl View for Reader {
    type V = Reading;

    closed spec fn view(&self) -> Reading {
        Reading {
            origin: self.origin@,
            ttl: self.ttl,
            last_name: self.last_name@,
            records: record_models(self.records@),
        }
    }
}

/// Reads the TTL in field `i`, if that field is a number.
fn parse_ttl_field(fields: &[String], i: usize) -> (r: Option<u32>)
    ensures
        r == ttl_field(texts(fields@), i as int),
{
    if i < fields.len() {
        assert(texts(fields@)[i as int] == fields[i as int]@);
        parse_decimal(fields[i].as_str(), u32::MAX)
    } else {
        None
    }
}

impl Reader {
    /// Adds the record whose owner is `name`, given the fields behind the owner.
    fn read_record(self, name: String, fields: &[String]) -> (r: Result<Reader, String>)
        ensures
            match r {
                Ok(next) => after_record(self@, name@, texts(fields@)) == Ok::<_, Seq<char>>(next@),
                Err(e) => after_record(self@, name@, texts(fields@)) == Err::<Reading, _>(e@),
            },
    {
        let ghost all = texts(fields@);
        let ghost known = self@;
        let mut ttl: u32 = self.ttl;
        let mut i: usize = 0;
        if let Some(t) = parse_ttl_field(fields, 0) {
            ttl = t;
            i = 1;
        }
        assert(i == past_ttl(all, 0));
        if i < fields.len() {
            assert(all[i as int] == fields[i as int]@);
            if is_class(fields[i].as_str()) {
                i = i + 1;
            }
        }
        if let Some(t) = parse_ttl_field(fields, i) {
            ttl = t;
            i = i + 1;
        }
        assert(i == type_field(all));
        if i >= fields.len() {
            return Ok(Reader { last_name: name, ..self });
        }
        assert(all[i as int] == fields[i as int]@);
        let rtype = to_ascii_upper(fields[i].as_str());
        let rdata = slice_subrange(fields, i + 1, fields.len());
        assert(texts(rdata@) =~= all.skip(i + 1));
        match parse_record_data(rtype.as_str(), rdata, self.origin.as_str(), name.as_str()) {
            Err(e) => Err(e),
            Ok(None) => Ok(Reader { last_name: name, ..self }),
            Ok(Some(data)) => {
                let record = ResourceRecord { name: name.clone(), class: CLASS_IN, ttl, data };
                let mut records = self.records;
                let ghost before = records@;
                records.push(record);
                assert(record_models(records@) =~= record_models(before).push(record@));
                Ok(Reader { last_name: name, records, origin: self.origin, ttl: self.ttl })
            },
        }
    }

    /// Reads a logical line.
    fn read_line(self, raw: &str) -> (r: Result<Reader, String>)
        ensures
            match r {
                Ok(next) => after_line(self@, raw@) == Ok::<_, Seq<char>>(next@),
                Err(e) => after_line(self@, raw@) == Err::<Reading, _>(e@),
            },
    {
        let has_name: bool = !begins_blank(raw);
        let line = trim(raw);
        if line.is_empty() {
            return Ok(self);
        }
        if let Some(rest) = directive(line, "$ORIGIN") {
            let origin = canon(rest);
            return Ok(Reader { last_name: origin.clone(), origin, ..self });
        }
        if let Some(rest) = directive(line, "$TTL") {
            return match parse_decimal(rest, u32::MAX) {
                Some(ttl) => Ok(Reader { ttl, ..self }),
                None => Err("invalid $TTL value: ".to_owned().concat(rest)),
            };
        }
        if directive(line, "$INCLUDE").is_some() {
            return Err("$INCLUDE is not supported".to_owned());
        }
        let fields = split_words(line);
        if fields.len() == 0 {
            return Ok(self);
        }
        if has_name {
            let ghost all = texts(fields@);
            assert(all[0] == fields[0]@);
            let name = resolve_name(fields[0].as_str(), self.origin.as_str());
            let rest = slice_subrange(fields.as_slice(), 1, fields.len());
            assert(texts(rest@) =~= all.drop_first());
            self.read_record(name, rest)
        } else {
            let name = self.last_name.clone();
            self.read_record(name, fields.as_slice())
        }
    }
}

/// Reads a zone file.
pub fn parse(content: &str) -> (r: Result<Zone, String>)
    ensures
        match r {
            Ok(zone) => zone_of(content@) == Ok::<_, Seq<char>>(zone@),
            Err(e) => zone_of(content@) == Err::<ZoneModel, _>(e@),
        },
{
    let logical = split_lines(preprocess(content).as_str());
    let ghost all = lines(unlines(logical_lines(content@)));
    let mut reader = Reader {
        origin: String::new(),
        ttl: 3600,
        last_name: String::new(),
        records: Vec::new(),
    };
    assert(record_models(reader.records@) =~= Seq::empty());
    let mut i: usize = 0;
    assert(all.skip(0) =~= all);
    while i < logical.len()
        invariant
            i <= logical.len(),
            texts(logical@) == all,
            all == lines(unlines(logical_lines(content@))),
            after_lines(unread(), all) == after_lines(reader@, all.skip(i as int)),
        decreases logical.len() - i,
    {
        assert(all[i as int] == logical[i as int]@);
        assert(all.skip(i as int)[0] == logical[i as int]@);
        assert(all.skip(i as int).drop_first() =~= all.skip(i + 1));
        match reader.read_line(logical[i].as_str()) {
            Ok(next) => {
                reader = next;
            },
            Err(e) => {
                return Err(e);
            },
        }
        i = i + 1;
    }
    Ok(Zone { origin: reader.origin, records: reader.records })
}

// ── Lookup ──────────────────────────────────────────────────────────────────

/// Whether two names are the same for a lookup.
pub open spec fn same_name(a: Seq<char>, b: Seq<char>) -> bool {
    canonical(a) == canonical(b)
}

/// Whether a query for `qtype` asks for records of a type.
pub open spec fn asks_for(qtype: u16, rtype: RecordType) -> bool {
    qtype == RecordType::Any.code() || qtype == rtype.code()
}

/// Whether a record answers a query.
pub open spec fn answers(r: RecordModel, name: Seq<char>, qtype: u16) -> bool {
    same_name(r.name, name) && asks_for(qtype, r.data.rtype())
}

/// What each of the borrowed records says.
pub open spec fn borrowed_models(v: Seq<&ResourceRecord>) -> Seq<RecordModel> {
    v.map_values(|r: &ResourceRecord| r@)
}

impl ZoneModel {
    /// Whether the zone has a record with this name.
    pub open spec fn has_name(self, name: Seq<char>) -> bool {
        exists|i: int|
            0 <= i < self.records.len() && same_name((#[trigger] self.records[i]).name, name)
    }

    /// The records that answer a query, in the order of the zone; `None` if the zone
    /// has no record with this name.
    pub open spec fn lookup(self, name: Seq<char>, qtype: u16) -> Option<Seq<RecordModel>> {
        if self.has_name(name) {
            Some(self.records.filter(|r: RecordModel| answers(r, name, qtype)))
        } else {
            None
        }
    }

    /// The first SOA record, if there is one.
    pub open spec fn soa(self) -> Option<RecordModel> {
        let soas = self.records.filter(|r: RecordModel| r.data is Soa);
        if soas.len() > 0 {
            Some(soas[0])
        } else {
            None
        }
    }
}

impl Zone {
    /// The records with a name that answer a query for a type. `None` says that the
    /// name does not exist; an empty answer, that it exists without such records.
    pub fn lookup(&self, name: &str, qtype: u16) -> (r: Option<Vec<&ResourceRecord>>)
        ensures
            match r {
                Some(records) => self@.lookup(name@, qtype) == Some(borrowed_models(records@)),
                None => self@.lookup(name@, qtype) is None,
            },
    {
        let key = canon(name);
        let ghost all = record_models(self.records@);
        let ghost pred = |r: RecordModel| answers(r, name@, qtype);
        let mut found: Vec<&ResourceRecord> = Vec::new();
        let mut name_exists: bool = false;
        let mut i: usize = 0;
        proof {
            reveal(Seq::filter);
            assert(borrowed_models(found@) =~= all.take(0).filter(pred));
        }
        while i < self.records.len()
            invariant
                i <= self.records.len(),
                key@ == canonical(name@),
                all == record_models(self.records@),
                pred == (|r: RecordModel| answers(r, name@, qtype)),
                borrowed_models(found@) == all.take(i as int).filter(pred),
                name_exists == (exists|k: int|
                    0 <= k < i && same_name((#[trigger] all[k]).name, name@)),
            decreases self.records.len() - i,
        {
            let rr = &self.records[i];
            assert(all[i as int] == rr@);
            proof {
                reveal(Seq::filter);
                assert(all.take(i + 1).drop_last() =~= all.take(i as int));
                assert(all.take(i + 1).last() == rr@);
            }
            let wanted: bool = qtype == u16::from(RecordType::Any) || qtype == u16::from(
                rr.data.rtype(),
            );
            if canon(rr.name.as_str()) == key {
                name_exists = true;
                if wanted {
                    let ghost before = found@;
                    found.push(rr);
                    assert(borrowed_models(found@) =~= borrowed_models(before).push(rr@));
                }
            }
            i = i + 1;
        }
        assert(all.take(i as int) =~= all);
        if name_exists {
            Some(found)
        } else {
            None
        }
    }

    /// The SOA record of the zone, for authority sections (RFC 2308 §3).
    pub fn soa(&self) -> (r: Option<&ResourceRecord>)
        ensures
            match r {
                Some(rr) => self@.soa() == Some(rr@),
                None => self@.soa() is None,
            },
    {
        let ghost all = record_models(self.records@);
        let ghost pred = |r: RecordModel| r.data is Soa;
        let mut i: usize = 0;
        proof {
            reveal(Seq::filter);
            assert(all.take(0).filter(pred) =~= Seq::empty());
        }
        while i < self.records.len()
            invariant
                i <= self.records.len(),
                all == record_models(self.records@),
                pred == (|r: RecordModel| r.data is Soa),
                all.take(i as int).filter(pred) == Seq::<RecordModel>::empty(),
            decreases self.records.len() - i,
        {
            let rr = &self.records[i];
            assert(all[i as int] == rr@);
            proof {
                reveal(Seq::filter);
                assert(all.take(i + 1).drop_last() =~= all.take(i as int));
                assert(all.take(i + 1).last() == rr@);
            }
            if let RecordData::Soa { .. } = rr.data {
                proof {
                    assert(all =~= all.take(i + 1) + all.skip(i + 1));
                    Seq::filter_distributes_over_add(all.take(i + 1), all.skip(i + 1), pred);
                    assert(all.filter(pred)[0] == rr@);
                }
                return Some(rr);
            }
            i = i + 1;
        }
        assert(all.take(i as int) =~= all);
        None
    }

    /// The origin of the zone.
    pub fn origin(&self) -> (r: &str)
        ensures
            r@ == self@.origin,
    {
        self.origin.as_str()
    }
}

} // verus!
