//! How a zone file is read (RFC 1035 §5).

use vstd::prelude::*;
use vstd::utf8::is_ascii_chars;

use super::message::RecordModel;
use super::zone::{
    after_line, after_lines, after_record, canonical, comment_at, comment_start,
    directive_argument, gather, in_quotes, is_keyword, join_line, join_lines, lemma_comment_start,
    logical_lines, names_class, record_data, resolved, uncommented, unlines, unread, with_line,
    zone_of, Gathered, Joining, Reading, ZoneModel,
};
use super::zone_laws::{
    lemma_after_lines_split, lemma_class_is_no_number, lemma_gather_plain, lemma_gather_then,
    logical_lines_are_the_lines,
};
use crate::text::{
    ascii_lower, ascii_upper, ascii_upper_char, decimal, is_white_space, lemma_trimmed_len, lines,
    lowercase, trimmed, trimmed_end, words,
};
use crate::text_laws::{blank, decimal_text, lacks, numbers_are_read, taking_dots_off};

verus! {

// ── Names ───────────────────────────────────────────────────────────────────

/// What a name in a file stands for. `@` is the origin. A name with a dot at its end is
/// complete. To any other name, however many labels it has, a dot and the origin are
/// appended, unless the origin is the root.
pub proof fn resolving(raw: Seq<char>, origin: Seq<char>)
    ensures
        resolved(seq!['@'], origin) == canonical(origin),
        raw.len() > 0 && raw.last() == '.' ==> resolved(raw, origin) == canonical(raw),
        raw != seq!['@'] && (raw.len() == 0 || raw.last() != '.') && canonical(origin).len() > 0
            ==> resolved(raw, origin) == lowercase(raw) + seq!['.'] + canonical(origin),
        raw != seq!['@'] && (raw.len() == 0 || raw.last() != '.') && canonical(origin).len() == 0
            ==> resolved(raw, origin) == lowercase(raw),
{
    assert(seq!['@'].len() == 1);
    assert(lowercase(raw).push('.') + canonical(origin) =~= lowercase(raw) + seq!['.']
        + canonical(origin));
}

/// A name without a dot at its end stands for the same as that name, a dot, the origin
/// and a dot written out, whatever the origin there; and that has the origin below it.
pub proof fn relative_is_absolute(raw: Seq<char>, origin: Seq<char>, other: Seq<char>)
    requires
        is_ascii_chars(raw),
        is_ascii_chars(origin),
        raw != seq!['@'],
        raw.len() > 0,
        raw.last() != '.',
        origin.len() > 0,
        origin.last() != '.',
    ensures
        resolved(raw, origin) == resolved(raw + seq!['.'] + origin + seq!['.'], other),
{
    let none = Seq::<char>::empty();
    let whole = raw + seq!['.'] + origin;
    let full = whole + seq!['.'];
    taking_dots_off(origin, none);
    assert(origin + none =~= origin);
    taking_dots_off(whole, seq!['.']);
    assert(full.last() == '.');
    assert(full.len() > 1);
    assert(is_ascii_chars(whole));
    assert(ascii_lower(whole) =~= ascii_lower(raw) + seq!['.'] + ascii_lower(origin));
    resolving(raw, origin);
    resolving(full, other);
}

// ── Fields ──────────────────────────────────────────────────────────────────

/// Whether `c` is the capital with number `n`, or the small letter of it.
pub open spec fn letter(c: char, n: int) -> bool {
    c as int == n || c as int == n + 32
}

/// The classes are IN, CH, HS and ANY, in capitals and small letters alike.
pub proof fn classes(s: Seq<char>)
    ensures
        names_class(s) <==> {
            ||| s.len() == 2 && letter(s[0], 73) && letter(s[1], 78)
            ||| s.len() == 2 && letter(s[0], 67) && letter(s[1], 72)
            ||| s.len() == 2 && letter(s[0], 72) && letter(s[1], 83)
            ||| s.len() == 3 && letter(s[0], 65) && letter(s[1], 78) && letter(s[2], 89)
        },
{
    reveal_strlit("IN");
    reveal_strlit("CH");
    reveal_strlit("HS");
    reveal_strlit("ANY");
    let u = ascii_upper(s);
    assert(u.len() == s.len());
    assert(forall|i: int| 0 <= i < s.len() ==> #[trigger] u[i] == ascii_upper_char(s[i]));
    if s.len() == 2 {
        assert(letter(s[0], 73) <==> u[0] == 'I');
        assert(letter(s[1], 78) <==> u[1] == 'N');
        assert(letter(s[0], 67) <==> u[0] == 'C');
        assert(letter(s[1], 72) <==> u[1] == 'H');
        assert(letter(s[0], 72) <==> u[0] == 'H');
        assert(letter(s[1], 83) <==> u[1] == 'S');
        assert(u =~= "IN"@ <==> u[0] == 'I' && u[1] == 'N');
        assert(u =~= "CH"@ <==> u[0] == 'C' && u[1] == 'H');
        assert(u =~= "HS"@ <==> u[0] == 'H' && u[1] == 'S');
        assert(u.len() != "ANY"@.len());
    } else if s.len() == 3 {
        assert(letter(s[0], 65) <==> u[0] == 'A');
        assert(letter(s[1], 78) <==> u[1] == 'N');
        assert(letter(s[2], 89) <==> u[2] == 'Y');
        assert(u =~= "ANY"@ <==> u[0] == 'A' && u[1] == 'N' && u[2] == 'Y');
    }
}

/// The field, where it is there.
pub open spec fn perhaps(there: bool, field: Seq<char>) -> Seq<Seq<char>> {
    if there {
        seq![field]
    } else {
        Seq::empty()
    }
}

/// The fields of a record behind its owner: perhaps a TTL, perhaps a class, perhaps a
/// TTL, then the type and the data. The TTL of the record is the last one there, or
/// else the default; the class of the record is 1; the type is taken in capitals. The
/// owner is remembered. A type that is not known adds no record.
pub proof fn fields_of_a_record(
    st: Reading,
    name: Seq<char>,
    early: bool,
    first: Seq<char>,
    classed: bool,
    class: Seq<char>,
    late: bool,
    second: Seq<char>,
    rtype: Seq<char>,
    rdata: Seq<Seq<char>>,
)
    requires
        decimal(first, u32::MAX as nat) is Some,
        names_class(class),
        decimal(second, u32::MAX as nat) is Some,
        decimal(rtype, u32::MAX as nat) is None || (late && (early || classed)),
        !names_class(rtype) || classed || (early && late),
    ensures
        ({
            let head = perhaps(early, first) + perhaps(classed, class) + perhaps(late, second);
            let ttl = if late {
                decimal(second, u32::MAX as nat)->0
            } else if early {
                decimal(first, u32::MAX as nat)->0
            } else {
                st.ttl as nat
            };
            let same = Reading {
                origin: st.origin,
                ttl: st.ttl,
                last_name: name,
                records: st.records,
            };
            &&& after_record(st, name, head) == Ok::<_, Seq<char>>(same)
            &&& after_record(st, name, head + seq![rtype] + rdata) == (match record_data(
                ascii_upper(rtype),
                rdata,
                st.origin,
                name,
            ) {
                Err(e) => Err::<Reading, Seq<char>>(e),
                Ok(None) => Ok::<_, Seq<char>>(same),
                Ok(Some(data)) => Ok::<_, Seq<char>>(
                    Reading {
                        records: st.records + seq![
                            RecordModel { name, class: 1, ttl: ttl as u32, data },
                        ],
                        ..same
                    },
                ),
            })
        }),
{
    let head = perhaps(early, first) + perhaps(classed, class) + perhaps(late, second);
    let fields = head + seq![rtype] + rdata;
    lemma_class_is_no_number(class);
    if names_class(first) {
        lemma_class_is_no_number(first);
    }
    if names_class(second) {
        lemma_class_is_no_number(second);
    }
    if names_class(rtype) {
        lemma_class_is_no_number(rtype);
    }
    let n = head.len() as int;
    assert(fields[n] == rtype);
    assert(fields.skip(n + 1) =~= rdata);
    assert forall|i: int| 0 <= i < n implies fields[i] == head[i] by {}
    if early {
        assert(head[0] == first);
        if classed {
            assert(head[1] == class);
            if late {
                assert(head[2] == second);
            }
        } else if late {
            assert(head[1] == second);
        }
    } else if classed {
        assert(head[0] == class);
        if late {
            assert(head[1] == second);
        }
    } else if late {
        assert(head[0] == second);
    }
    if let Ok(Some(data)) = record_data(ascii_upper(rtype), rdata, st.origin, name) {
        let ttl = if late {
            decimal(second, u32::MAX as nat)->0
        } else if early {
            decimal(first, u32::MAX as nat)->0
        } else {
            st.ttl as nat
        };
        let r = RecordModel { name, class: 1, ttl: ttl as u32, data };
        assert(st.records.push(r) =~= st.records + seq![r]);
    }
}

// ── Comments ────────────────────────────────────────────────────────────────

proof fn lemma_quotes_concat(s: Seq<char>, t: Seq<char>)
    ensures
        in_quotes(s + t) == (in_quotes(s) != in_quotes(t)),
    decreases t.len(),
{
    if t.len() == 0 {
        assert(s + t =~= s);
    } else {
        assert((s + t).drop_last() =~= s + t.drop_last());
        assert((s + t).last() == t.last());
        lemma_quotes_concat(s, t.drop_last());
    }
}

proof fn lemma_no_quotes(s: Seq<char>)
    requires
        lacks(s, '"'),
    ensures
        !in_quotes(s),
    decreases s.len(),
{
    if s.len() > 0 {
        assert(s.last() == s[s.len() - 1]);
        let init = s.drop_last();
        assert(lacks(init, '"')) by {
            assert forall|i: int| 0 <= i < init.len() implies #[trigger] init[i] != '"' by {
                assert(init[i] == s[i]);
            }
        }
        lemma_no_quotes(init);
    }
}

proof fn lemma_comment_behind(h: Seq<char>, t: Seq<char>, from: int)
    requires
        !in_quotes(h),
        forall|i: int| 0 <= i < h.len() ==> !#[trigger] comment_at(h, i),
        0 <= from <= h.len() + t.len(),
    ensures
        comment_start(h + t, from) == h.len() + comment_start(
            t,
            if from <= h.len() {
                0
            } else {
                from - h.len()
            },
        ),
    decreases h.len() + t.len() - from,
{
    let whole = h + t;
    if from < h.len() {
        assert(whole[from] == h[from]);
        assert(whole.take(from) =~= h.take(from));
        assert(!comment_at(h, from));
        lemma_comment_behind(h, t, from + 1);
    } else if from < whole.len() {
        let k = from - h.len();
        assert(whole[from] == t[k]);
        assert(whole.take(from) =~= h + t.take(k));
        lemma_quotes_concat(h, t.take(k));
        assert(comment_at(whole, from) == comment_at(t, k));
        lemma_comment_behind(h, t, from + 1);
    }
}

proof fn lemma_no_comment_in(h: Seq<char>)
    requires
        lacks(h, ';'),
    ensures
        forall|i: int| 0 <= i < h.len() ==> !#[trigger] comment_at(h, i),
{
}

/// What of a line is no comment. A semicolon starts one, unless it stands in a quoted
/// string: behind a quoted string the line goes on as if it started there. A quoted
/// string that is not closed reaches to the end of the line.
pub proof fn comments(a: Seq<char>, b: Seq<char>, rest: Seq<char>)
    requires
        lacks(a, '"'),
        lacks(a, ';'),
        lacks(b, '"'),
    ensures
        uncommented(a) == a,
        uncommented(a + seq![';'] + rest) == a,
        uncommented(a + seq!['"'] + b) == a + seq!['"'] + b,
        uncommented(a + seq!['"'] + b + seq!['"'] + rest) == a + seq!['"'] + b + seq!['"']
            + uncommented(rest),
{
    let none = Seq::<char>::empty();
    let q = seq!['"'];
    lemma_no_quotes(a);
    lemma_no_quotes(b);
    lemma_no_comment_in(a);
    lemma_comment_behind(a, none, 0);
    assert(a + none =~= a);
    assert(uncommented(a) =~= a);
    let semi = seq![';'] + rest;
    lemma_comment_behind(a, semi, 0);
    assert(a + seq![';'] + rest =~= a + semi);
    assert(semi.take(0) =~= none);
    assert(semi[0] == ';');
    assert(comment_at(semi, 0));
    assert(uncommented(a + semi) =~= a);
    let open = a + q + b;
    let n = a.len() as int;
    assert forall|i: int| 0 <= i < open.len() implies !#[trigger] comment_at(open, i) by {
        if i < n {
            assert(open[i] == a[i]);
        } else if i > n {
            let k = i - n - 1;
            assert(open.take(i) =~= a + (q + b.take(k)));
            lemma_quotes_concat(a, q + b.take(k));
            lemma_quotes_concat(q, b.take(k));
            assert(lacks(b.take(k), '"')) by {
                assert forall|j: int| 0 <= j < k implies #[trigger] b.take(k)[j] != '"' by {
                    assert(b.take(k)[j] == b[j]);
                }
            }
            lemma_no_quotes(b.take(k));
            assert(q.drop_last() =~= none);
            reveal_with_fuel(in_quotes, 2);
            assert(in_quotes(q));
        }
    }
    assert(q.drop_last() =~= none);
    reveal_with_fuel(in_quotes, 2);
    assert(in_quotes(q));
    lemma_never(open, 0);
    assert(uncommented(open) =~= open);
    let closed = open + q;
    assert(open =~= a + (q + b));
    lemma_quotes_concat(a, q + b);
    lemma_quotes_concat(q, b);
    assert(in_quotes(open));
    lemma_quotes_concat(open, q);
    assert(!in_quotes(closed));
    assert forall|i: int| 0 <= i < closed.len() implies !#[trigger] comment_at(closed, i) by {
        if i < open.len() {
            assert(closed[i] == open[i]);
            assert(closed.take(i) =~= open.take(i));
            assert(!comment_at(open, i));
        }
    }
    lemma_comment_behind(closed, rest, 0);
    lemma_comment_start(rest, 0);
    assert(uncommented(closed + rest) =~= closed + uncommented(rest));
}

proof fn lemma_never(s: Seq<char>, from: int)
    requires
        0 <= from <= s.len(),
        forall|i: int| 0 <= i < s.len() ==> !#[trigger] comment_at(s, i),
    ensures
        comment_start(s, from) == s.len(),
    decreases s.len() - from,
{
    if from < s.len() {
        assert(!comment_at(s, from));
        lemma_never(s, from + 1);
    }
}

// ── Logical lines ───────────────────────────────────────────────────────────

/// Whether `s` holds no quotes, semicolons and parentheses, and no white space at its
/// end.
pub open spec fn ordinary(s: Seq<char>) -> bool {
    &&& lacks(s, '"') && lacks(s, ';') && lacks(s, '(') && lacks(s, ')')
    &&& s.len() > 0 ==> !is_white_space(s.last())
}

/// The lines, and `text` as one more without the white space at its end; a blank text
/// is left out.
pub proof fn added_line(ls: Seq<Seq<char>>, text: Seq<char>, end: Seq<char>)
    requires
        blank(end),
        text.len() > 0 ==> !is_white_space(text.last()),
    ensures
        text.len() > 0 ==> with_line(ls, text + end) == ls + seq![text],
        text.len() == 0 ==> with_line(ls, text + end) == ls,
{
    let whole = text + end;
    lemma_trimmed_len(whole);
    if text.len() > 0 {
        assert(whole[text.len() - 1] == text.last());
        lemma_end(text, end);
        assert(ls.push(text) =~= ls + seq![text]);
    }
}

proof fn lemma_end(text: Seq<char>, end: Seq<char>)
    requires
        blank(end),
        text.len() > 0,
        !is_white_space(text.last()),
    ensures
        trimmed_end(text + end) == text,
    decreases end.len(),
{
    if end.len() == 0 {
        assert(text + end =~= text);
    } else {
        let fewer = end.drop_last();
        assert(is_white_space(end[end.len() - 1]));
        assert((text + end).drop_last() =~= text + fewer);
        assert(blank(fewer)) by {
            assert forall|i: int| 0 <= i < fewer.len() implies is_white_space(
                #[trigger] fewer[i],
            ) by {
                assert(fewer[i] == end[i]);
            }
        }
        lemma_end(text, fewer);
    }
}

proof fn lemma_stripped_line(s: Seq<char>)
    requires
        lacks(s, '"'),
        lacks(s, ';'),
        s.len() > 0 ==> !is_white_space(s.last()),
    ensures
        trimmed_end(uncommented(s)) == s,
{
    let none = Seq::<char>::empty();
    comments(s, none, none);
}

proof fn lemma_plain(g: Gathered, s: Seq<char>)
    requires
        lacks(s, '('),
        lacks(s, ')'),
    ensures
        gather(g, s) == (Gathered { text: g.text + s, depth: g.depth }),
{
    assert forall|i: int| 0 <= i < s.len() implies #[trigger] s[i] != '(' && s[i] != ')' by {}
    lemma_gather_plain(g, s);
}

proof fn lemma_paren(g: Gathered, a: Seq<char>, p: char, b: Seq<char>)
    requires
        lacks(a, '('),
        lacks(a, ')'),
        lacks(b, '('),
        lacks(b, ')'),
        p == '(' || (p == ')' && g.depth > 0),
    ensures
        gather(g, a + seq![p] + b) == (Gathered {
            text: g.text + a + b,
            depth: if p == '(' {
                g.depth + 1
            } else {
                (g.depth - 1) as nat
            },
        }),
{
    let one = seq![p];
    let ga = gather(g, a);
    lemma_plain(g, a);
    lemma_gather_then(g, a, one);
    assert(one.drop_last() =~= Seq::empty());
    assert(gather(ga, one.drop_last()) == ga);
    assert(one.last() == p);
    let gp = gather(ga, one);
    lemma_gather_then(g, a + one, b);
    lemma_plain(gp, b);
}

proof fn lemma_lacks_three(a: Seq<char>, p: char, b: Seq<char>, c: char)
    requires
        lacks(a, c),
        lacks(b, c),
        p != c,
    ensures
        lacks(a + seq![p] + b, c),
{
    let s = a + seq![p] + b;
    assert forall|i: int| 0 <= i < s.len() implies #[trigger] s[i] != c by {
        if i < a.len() {
            assert(s[i] == a[i]);
        } else if i > a.len() {
            assert(s[i] == b[i - a.len() - 1]);
        }
    }
}

/// How source lines make logical lines. A line without parentheses is one, outside
/// parentheses. A line that opens a parenthesis is gathered without it, and so are the
/// lines that follow, each with a space behind it, up to the one that closes it: that
/// one without the closing parenthesis ends the logical line.
pub proof fn grouping(
    ls: Seq<Seq<char>>,
    text: Seq<char>,
    depth: nat,
    a: Seq<char>,
    b: Seq<char>,
    c: Seq<char>,
    d: Seq<char>,
    line: Seq<char>,
)
    requires
        ordinary(line),
        lacks(a, '"') && lacks(a, ';') && lacks(a, '(') && lacks(a, ')'),
        ordinary(b),
        lacks(c, '"') && lacks(c, ';') && lacks(c, '(') && lacks(c, ')'),
        ordinary(d),
    ensures
        ({
            let closed = Joining { lines: ls, open: Gathered { text: Seq::empty(), depth: 0 } };
            let open = Joining { lines: ls, open: Gathered { text, depth: depth + 1 } };
            &&& join_line(closed, line) == (Joining { lines: with_line(ls, line), ..closed })
            &&& join_line(closed, a + seq!['('] + b) == (Joining {
                lines: ls,
                open: Gathered { text: a + b + seq![' '], depth: 1 },
            })
            &&& join_line(open, line) == (Joining {
                lines: ls,
                open: Gathered { text: text + line + seq![' '], depth: depth + 1 },
            })
            &&& join_line(open, a + seq!['('] + b) == (Joining {
                lines: ls,
                open: Gathered { text: text + a + b + seq![' '], depth: depth + 2 },
            })
            &&& join_line(open, c + seq![')'] + d) == (if depth == 0 {
                Joining { lines: with_line(ls, text + c + d), ..closed }
            } else {
                Joining {
                    lines: ls,
                    open: Gathered { text: text + c + d + seq![' '], depth },
                }
            })
        }),
{
    let none = Seq::<char>::empty();
    let closed = Gathered { text: none, depth: 0 };
    let open = Gathered { text, depth: depth + 1 };
    let first = a + seq!['('] + b;
    let last = c + seq![')'] + d;
    lemma_stripped_line(line);
    lemma_plain(closed, line);
    lemma_plain(open, line);
    assert(none + line =~= line);
    lemma_lacks_three(a, '(', b, '"');
    lemma_lacks_three(a, '(', b, ';');
    lemma_lacks_three(c, ')', d, '"');
    lemma_lacks_three(c, ')', d, ';');
    assert(first.last() == if b.len() > 0 {
        b.last()
    } else {
        '('
    });
    assert(last.last() == if d.len() > 0 {
        d.last()
    } else {
        ')'
    });
    lemma_stripped_line(first);
    lemma_stripped_line(last);
    lemma_paren(closed, a, '(', b);
    lemma_paren(open, a, '(', b);
    lemma_paren(open, c, ')', d);
    assert(none + a + b =~= a + b);
    assert((a + b).push(' ') =~= a + b + seq![' ']);
    assert((text + line).push(' ') =~= text + line + seq![' ']);
    assert((text + a + b).push(' ') =~= text + a + b + seq![' ']);
    assert((text + c + d).push(' ') =~= text + c + d + seq![' ']);
}

/// How characters are gathered: each is added to the text, but for parentheses, which
/// open and close. A closing one that closes nothing is added like any other.
pub proof fn gathering(g: Gathered, s: Seq<char>, c: char)
    ensures
        ({
            let before = gather(g, s);
            let after = gather(g, s.push(c));
            &&& gather(g, Seq::empty()) == g
            &&& c == '(' ==> after.text == before.text && after.depth == before.depth + 1
            &&& c == ')' && before.depth > 0 ==> after.text == before.text && after.depth
                == before.depth - 1
            &&& c != '(' && !(c == ')' && before.depth > 0) ==> after.text == before.text + seq![c]
                && after.depth == before.depth
        }),
{
    assert(s.push(c).drop_last() =~= s);
    assert(gather(g, s).text.push(c) =~= gather(g, s).text + seq![c]);
}

/// A source line counts without its comment and the white space at its end. With all
/// parentheses closed it ends the logical line; else a space joins it to the next.
pub proof fn source_lines(j: Joining, line: Seq<char>)
    ensures
        ({
            let g = gather(j.open, trimmed_end(uncommented(line)));
            let after = join_line(j, line);
            &&& g.depth == 0 ==> after.lines == with_line(j.lines, g.text) && after.open.text.len()
                == 0 && after.open.depth == 0
            &&& g.depth > 0 ==> after.lines == j.lines && after.open.text == g.text + seq![' ']
                && after.open.depth == g.depth
        }),
{
    let g = gather(j.open, trimmed_end(uncommented(line)));
    assert(g.text.push(' ') =~= g.text + seq![' ']);
}

/// Lines are written out one behind the other, each with a line feed.
pub proof fn lines_written_out(ls: Seq<Seq<char>>, line: Seq<char>)
    ensures
        unlines(Seq::empty()).len() == 0,
        unlines(ls.push(line)) == unlines(ls) + line + seq!['\n'],
{
    assert(ls.push(line).drop_last() =~= ls);
    assert(unlines(ls.push(line)) =~= unlines(ls) + line + seq!['\n']);
}

/// The logical lines of a file: its lines in turn, from nothing on, and what an
/// unclosed parenthesis leaves at the end.
pub proof fn logical_lines_in_turn(source: Seq<Seq<char>>, line: Seq<char>, content: Seq<char>)
    ensures
        join_lines(Seq::empty()) == (Joining {
            lines: Seq::empty(),
            open: Gathered { text: Seq::empty(), depth: 0 },
        }),
        join_lines(source.push(line)) == join_line(join_lines(source), line),
        logical_lines(content) == with_line(
            join_lines(lines(content)).lines,
            join_lines(lines(content)).open.text,
        ),
{
    assert(source.push(line).drop_last() =~= source);
}

// ── Lines ───────────────────────────────────────────────────────────────────

/// Whether `word` is `keyword`, in capitals and small letters alike.
pub open spec fn spells(word: Seq<char>, keyword: Seq<char>) -> bool {
    word.len() == keyword.len() && forall|i: int|
        0 <= i < word.len() ==> #[trigger] word[i] == keyword[i] || (97 <= word[i] as int <= 122
            && word[i] as int - 32 == keyword[i] as int)
}

/// A directive is its keyword, in capitals and small letters alike, and then nothing or
/// white space; what follows is its argument, without the white space around it.
pub proof fn directives(line: Seq<char>, keyword: Seq<char>)
    requires
        forall|i: int| 0 <= i < keyword.len() ==> !(97 <= #[trigger] keyword[i] as int <= 122),
    ensures
        directive_argument(line, keyword) is Some <==> {
            &&& line.len() >= keyword.len()
            &&& spells(line.take(keyword.len() as int), keyword)
            &&& line.len() > keyword.len() ==> is_white_space(line[keyword.len() as int])
        },
        directive_argument(line, keyword) is Some ==> directive_argument(line, keyword)->0
            == trimmed(line.skip(keyword.len() as int)),
{
    let n = keyword.len() as int;
    if line.len() >= n {
        let word = line.take(n);
        let u = ascii_upper(word);
        assert(forall|i: int| 0 <= i < n ==> #[trigger] u[i] == ascii_upper_char(word[i]));
        if spells(word, keyword) {
            assert(u =~= keyword) by {
                assert forall|i: int| 0 <= i < n implies u[i] == keyword[i] by {
                    assert(word[i] == keyword[i] || (97 <= word[i] as int <= 122 && word[i] as int
                        - 32 == keyword[i] as int));
                    assert(!(97 <= keyword[i] as int <= 122));
                }
            }
        }
        if is_keyword(word, keyword) {
            assert forall|i: int| 0 <= i < n implies #[trigger] word[i] == keyword[i] || (97
                <= word[i] as int <= 122 && word[i] as int - 32 == keyword[i] as int) by {
                if u == keyword {
                    assert(u[i] == keyword[i]);
                }
            }
        }
    }
}

/// What a line with a directive does. `$ORIGIN` sets the origin, which is also the
/// owner of a record that names none. `$TTL` sets the default TTL to the number that it
/// gives, and is refused without one. `$INCLUDE` is refused.
pub proof fn directive_lines(st: Reading, raw: Seq<char>, n: u32)
    ensures
        ({
            let line = trimmed(raw);
            let origin = directive_argument(line, "$ORIGIN"@);
            let ttl = directive_argument(line, "$TTL"@);
            let more = directive_argument(line, "$INCLUDE"@);
            &&& line.len() > 0 && origin is Some ==> after_line(st, raw) == Ok::<_, Seq<char>>(
                Reading {
                    origin: canonical(origin->0),
                    ttl: st.ttl,
                    last_name: canonical(origin->0),
                    records: st.records,
                },
            )
            &&& line.len() > 0 && ttl == Some(decimal_text(n as nat)) ==> after_line(st, raw)
                == Ok::<_, Seq<char>>(
                Reading {
                    origin: st.origin,
                    ttl: n,
                    last_name: st.last_name,
                    records: st.records,
                },
            )
            &&& line.len() > 0 && ttl is Some && decimal(ttl->0, u32::MAX as nat) is None
                ==> after_line(st, raw) == Err::<Reading, _>("invalid $TTL value: "@ + ttl->0)
            &&& line.len() > 0 && more is Some ==> after_line(st, raw) == Err::<Reading, _>(
                "$INCLUDE is not supported"@,
            )
        }),
{
    reveal_strlit("$ORIGIN");
    reveal_strlit("$TTL");
    reveal_strlit("$INCLUDE");
    let line = trimmed(raw);
    numbers_are_read(n as nat, u32::MAX as nat, Seq::empty());
    lemma_one_directive(line, "$ORIGIN"@, "$TTL"@);
    lemma_one_directive(line, "$ORIGIN"@, "$INCLUDE"@);
    lemma_one_directive(line, "$TTL"@, "$INCLUDE"@);
}

proof fn lemma_one_directive(line: Seq<char>, k: Seq<char>, l: Seq<char>)
    requires
        k.len() > 1,
        l.len() > 1,
        k[1] != l[1],
        ascii_upper_char(k[1]) == k[1],
        ascii_upper_char(l[1]) == l[1],
    ensures
        directive_argument(line, k) is None || directive_argument(line, l) is None,
{
    if directive_argument(line, k) is Some && directive_argument(line, l) is Some {
        let a = line.take(k.len() as int);
        let b = line.take(l.len() as int);
        assert(a[1] == line[1] && b[1] == line[1]);
        assert(ascii_upper(a)[1] == ascii_upper_char(line[1]));
        assert(ascii_upper(b)[1] == ascii_upper_char(line[1]));
        assert(k[1] == line[1] || k[1] == ascii_upper_char(line[1]));
        assert(l[1] == line[1] || l[1] == ascii_upper_char(line[1]));
    }
}

/// What any other line does. A blank line does nothing. A line that starts with white
/// space has a record of the last owner, whose fields are its words. Any other has its
/// owner as its first word, and the fields behind it.
pub proof fn record_lines(st: Reading, raw: Seq<char>)
    requires
        directive_argument(trimmed(raw), "$ORIGIN"@) is None,
        directive_argument(trimmed(raw), "$TTL"@) is None,
        directive_argument(trimmed(raw), "$INCLUDE"@) is None,
    ensures
        blank(raw) ==> after_line(st, raw) == Ok::<_, Seq<char>>(st),
        !blank(raw) && words(trimmed(raw)).len() > 0 ==> after_line(st, raw) == (
        if is_white_space(raw[0]) {
            after_record(st, st.last_name, words(trimmed(raw)))
        } else {
            after_record(
                st,
                resolved(words(trimmed(raw))[0], st.origin),
                words(trimmed(raw)).skip(1),
            )
        }),
{
    lemma_trimmed_len(raw);
    let fields = words(trimmed(raw));
    if fields.len() > 0 {
        assert(fields.skip(1) =~= fields.drop_first());
    }
    if !blank(raw) {
        let i = choose|i: int| 0 <= i < raw.len() && !is_white_space(#[trigger] raw[i]);
        assert(raw.len() > 0);
    }
}

/// A file is read line by line, each line on what those before it have left: without
/// an origin, an owner and a record, and with a default TTL of 3600 at first. The first
/// line that is refused has the file refused. The zone has the last origin and all
/// records.
pub proof fn file_in_turn(content: Seq<char>, st: Reading, ls: Seq<Seq<char>>, line: Seq<char>)
    ensures
        after_lines(st, Seq::empty()) == Ok::<_, Seq<char>>(st),
        after_lines(st, ls.push(line)) == (match after_lines(st, ls) {
            Ok(mid) => after_line(mid, line),
            Err(e) => Err(e),
        }),
        ({
            let start = Reading {
                origin: Seq::empty(),
                ttl: 3600,
                last_name: Seq::empty(),
                records: Seq::empty(),
            };
            match after_lines(start, logical_lines(content)) {
                Ok(end) => zone_of(content) == Ok::<_, Seq<char>>(
                    ZoneModel { origin: end.origin, records: end.records },
                ),
                Err(e) => zone_of(content) == Err::<ZoneModel, _>(e),
            }
        }),
{
    let all = ls.push(line);
    let n = ls.len() as int;
    lemma_after_lines_split(st, all, n);
    assert(all.take(n) =~= ls);
    assert(all.skip(n) =~= seq![line]);
    if let Ok(mid) = after_lines(st, ls) {
        reveal_with_fuel(after_lines, 2);
        assert(seq![line].drop_first() =~= Seq::empty());
    }
    logical_lines_are_the_lines(content);
    assert(unread() == (Reading {
        origin: Seq::empty(),
        ttl: 3600,
        last_name: Seq::empty(),
        records: Seq::empty(),
    }));
}

} // verus!
