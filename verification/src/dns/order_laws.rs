//! A TTL and a class may change places in a zone file.

use vstd::prelude::*;

use super::message::{DataModel, RecordModel, CLASS_IN};
use super::zone::{
    after_line, after_lines, after_record, comment_at, comment_start, directive_argument, gather,
    in_quotes, is_keyword, join_line, join_lines, lemma_comment_start, logical_lines, names_class,
    record_data, resolved, type_field, uncommented, unread, with_line, zone_of, Gathered, Joining,
    Reading, ZoneModel,
};
use super::zone_laws::{
    lemma_after_lines_split, lemma_class_is_no_number, lemma_gather_plain, lemma_gather_then,
    logical_lines_are_the_lines, one_ended_line, ttl_and_class_in_either_order,
};
use crate::text::{
    ascii_upper, ascii_upper_char, decimal, is_white_space, lemma_trimmed_end_prefix,
    lemma_trimmed_len, lemma_words_nonempty, lines, trimmed_end, trimmed_start, words,
};

verus! {

/// Whether `s` is one word without quotes, parentheses and semicolons.
pub open spec fn plain_word(s: Seq<char>) -> bool {
    &&& s.len() > 0
    &&& forall|i: int| 0 <= i < s.len() ==> plain_char(#[trigger] s[i])
}

/// Whether `c` is neither white space nor a quote, a parenthesis or a semicolon.
pub open spec fn plain_char(c: char) -> bool {
    !is_white_space(c) && c != '"' && c != ';' && c != '(' && c != ')'
}

/// Whether `s` can stand as the owner of a record: a plain word that is no directive,
/// or nothing, where the owner is left out.
pub open spec fn owner_word(s: Seq<char>) -> bool {
    s.len() == 0 || (plain_word(s) && !is_keyword(s, "$ORIGIN"@) && !is_keyword(s, "$TTL"@)
        && !is_keyword(s, "$INCLUDE"@))
}

/// The start of a line with a record: the owner, two fields and the type, with a space
/// between each two.
pub open spec fn record_head(
    owner: Seq<char>,
    first: Seq<char>,
    second: Seq<char>,
    rtype: Seq<char>,
) -> Seq<char> {
    owner.push(' ') + first.push(' ') + second.push(' ') + rtype
}

/// Whether `s` is empty or starts with white space.
pub open spec fn set_off(s: Seq<char>) -> bool {
    s.len() > 0 ==> is_white_space(s[0])
}

// ── Words ───────────────────────────────────────────────────────────────────

proof fn lemma_words_concat(u: Seq<char>, v: Seq<char>)
    requires
        (u.len() > 0 && !is_white_space(u.last())) ==> set_off(v),
    ensures
        words(u + v) == words(u) + words(v),
    decreases v.len(),
{
    if v.len() == 0 {
        assert(u + v =~= u);
        assert(words(u) + words(v) =~= words(u));
    } else {
        let init = v.drop_last();
        lemma_words_concat(u, init);
        assert((u + v).drop_last() =~= u + init);
        if !is_white_space(v.last()) {
            if v.len() > 1 {
                assert((u + v)[(u + v).len() - 2] == v[v.len() - 2]);
                if !is_white_space(v[v.len() - 2]) {
                    lemma_words_nonempty(init);
                    let before = words(u) + words(init);
                    assert(before.drop_last() =~= words(u) + words(init).drop_last());
                    assert(before.last() == words(init).last());
                }
            } else {
                assert(init =~= Seq::empty());
            }
            assert(words(u + v) =~= words(u) + words(v));
        }
    }
}

proof fn lemma_one_word(s: Seq<char>)
    requires
        plain_word(s),
    ensures
        words(s) == seq![s],
    decreases s.len(),
{
    assert(plain_char(s[s.len() - 1]));
    if s.len() == 1 {
        assert(words(s.drop_last()) =~= Seq::empty());
        assert(seq![s.last()] =~= s);
        assert(words(s) =~= seq![s]);
    } else {
        let init = s.drop_last();
        assert forall|i: int| 0 <= i < init.len() implies plain_char(#[trigger] init[i]) by {
            assert(init[i] == s[i]);
        }
        lemma_one_word(init);
        assert(plain_char(s[s.len() - 2]));
        assert(init.push(s.last()) =~= s);
        assert(words(s) =~= seq![s]);
    }
}

proof fn lemma_word_then(w: Seq<char>, rest: Seq<char>)
    requires
        plain_word(w),
    ensures
        words(w.push(' ') + rest) == seq![w] + words(rest),
{
    lemma_one_word(w);
    assert(w.push(' ').drop_last() =~= w);
    lemma_words_concat(w.push(' '), rest);
}

proof fn lemma_number_plain(s: Seq<char>)
    requires
        decimal(s, u32::MAX as nat) is Some,
    ensures
        plain_word(s),
        s[0] != '$',
{
    assert forall|i: int| 0 <= i < s.len() implies plain_char(#[trigger] s[i]) && s[i] != '$' by {
        if s[0] == '+' {
            if i > 0 {
                assert(s.drop_first()[i - 1] == s[i]);
            }
        }
    }
}

proof fn lemma_class_plain(s: Seq<char>)
    requires
        names_class(s),
    ensures
        plain_word(s),
        s[0] != '$',
{
    reveal_strlit("IN");
    reveal_strlit("CH");
    reveal_strlit("HS");
    reveal_strlit("ANY");
    let u = ascii_upper(s);
    assert(u.len() == s.len());
    assert forall|i: int| 0 <= i < s.len() implies plain_char(#[trigger] s[i]) && s[i] != '$' by {
        assert(u[i] == ascii_upper_char(s[i]));
        assert('A' <= u[i] <= 'Z');
    }
}

/// Two fields, a type and what follows them.
spec fn record_body(
    first: Seq<char>,
    second: Seq<char>,
    rtype: Seq<char>,
    y: Seq<char>,
) -> Seq<char> {
    first.push(' ') + (second.push(' ') + (rtype + y))
}

proof fn lemma_body(first: Seq<char>, second: Seq<char>, rtype: Seq<char>, y: Seq<char>)
    requires
        plain_word(first),
        plain_word(second),
        plain_word(rtype),
        set_off(y),
        trimmed_end(y) == y,
    ensures
        ({
            let body = record_body(first, second, rtype, y);
            &&& words(body) == seq![first, second] + (seq![rtype] + words(y))
            &&& body.len() > 0
            &&& body[0] == first[0]
            &&& !is_white_space(body[0])
            &&& !is_white_space(body.last())
        }),
{
    let body = record_body(first, second, rtype, y);
    assert(plain_char(rtype[rtype.len() - 1]));
    assert(plain_char(first[0]));
    lemma_word_then(first, second.push(' ') + (rtype + y));
    lemma_word_then(second, rtype + y);
    lemma_words_concat(rtype, y);
    lemma_one_word(rtype);
    assert(words(body) =~= seq![first, second] + (seq![rtype] + words(y)));
    lemma_trimmed_end_prefix(y);
    if y.len() == 0 {
        assert(body.last() == rtype[rtype.len() - 1]);
    } else {
        assert(body.last() == y.last());
    }
}

proof fn lemma_line_without_owner(st: Reading, body: Seq<char>)
    requires
        body.len() > 0,
        !is_white_space(body[0]),
        !is_white_space(body.last()),
        body[0] != '$',
        words(body).len() > 0,
    ensures
        after_line(st, seq![' '] + body) == after_record(st, st.last_name, words(body)),
{
    let raw = seq![' '] + body;
    assert(raw[0] == ' ');
    assert(raw.drop_first() =~= body);
    assert(trimmed_start(body) == body);
    assert(trimmed_start(raw) == body);
    reveal_strlit("$ORIGIN");
    reveal_strlit("$TTL");
    reveal_strlit("$INCLUDE");
    lemma_no_dollar(body, "$ORIGIN"@);
    lemma_no_dollar(body, "$TTL"@);
    lemma_no_dollar(body, "$INCLUDE"@);
}

proof fn lemma_line_with_owner(st: Reading, owner: Seq<char>, body: Seq<char>)
    requires
        owner_word(owner),
        owner.len() > 0,
        body.len() > 0,
        !is_white_space(body.last()),
    ensures
        after_line(st, owner.push(' ') + body) == after_record(
            st,
            resolved(owner, st.origin),
            words(body),
        ),
{
    let raw = owner.push(' ') + body;
    assert(plain_char(owner[0]));
    assert(raw[0] == owner[0]);
    assert(raw.last() == body.last());
    assert(trimmed_start(raw) == raw);
    lemma_word_then(owner, body);
    assert((seq![owner] + words(body)).drop_first() =~= words(body));
    reveal_strlit("$ORIGIN");
    reveal_strlit("$TTL");
    reveal_strlit("$INCLUDE");
    lemma_no_directive(owner, body, "$ORIGIN"@);
    lemma_no_directive(owner, body, "$TTL"@);
    lemma_no_directive(owner, body, "$INCLUDE"@);
}

proof fn lemma_head_and_body(
    owner: Seq<char>,
    first: Seq<char>,
    second: Seq<char>,
    rtype: Seq<char>,
    y: Seq<char>,
)
    ensures
        record_head(owner, first, second, rtype) + y == owner.push(' ') + record_body(
            first,
            second,
            rtype,
            y,
        ),
        owner.len() == 0 ==> owner.push(' ') == seq![' '],
{
    assert(record_head(owner, first, second, rtype) + y =~= owner.push(' ') + record_body(
        first,
        second,
        rtype,
        y,
    ));
    if owner.len() == 0 {
        assert(owner.push(' ') =~= seq![' ']);
    }
}

/// What a line with a record says: whose record it is, and its fields.
proof fn lemma_record_line(
    st: Reading,
    owner: Seq<char>,
    first: Seq<char>,
    second: Seq<char>,
    rtype: Seq<char>,
    y: Seq<char>,
)
    requires
        owner_word(owner),
        plain_word(first),
        first[0] != '$',
        plain_word(second),
        plain_word(rtype),
        set_off(y),
        trimmed_end(y) == y,
    ensures
        after_line(st, record_head(owner, first, second, rtype) + y) == after_record(
            st,
            if owner.len() == 0 {
                st.last_name
            } else {
                resolved(owner, st.origin)
            },
            seq![first, second] + (seq![rtype] + words(y)),
        ),
{
    let body = record_body(first, second, rtype, y);
    lemma_body(first, second, rtype, y);
    lemma_head_and_body(owner, first, second, rtype, y);
    if owner.len() == 0 {
        lemma_line_without_owner(st, body);
    } else {
        lemma_line_with_owner(st, owner, body);
    }
}

proof fn lemma_no_dollar(line: Seq<char>, keyword: Seq<char>)
    requires
        line.len() > 0,
        line[0] != '$',
        keyword.len() > 0,
        keyword[0] == '$',
    ensures
        directive_argument(line, keyword) is None,
{
    let n = keyword.len() as int;
    if line.len() >= n {
        let word = line.take(n);
        assert(word[0] == line[0]);
        assert(ascii_upper(word)[0] == ascii_upper_char(word[0]));
    }
}

proof fn lemma_no_directive(owner: Seq<char>, body: Seq<char>, keyword: Seq<char>)
    requires
        plain_word(owner),
        !is_keyword(owner, keyword),
        forall|i: int| 0 <= i < keyword.len() ==> #[trigger] keyword[i] != ' ',
    ensures
        directive_argument(owner.push(' ') + body, keyword) is None,
{
    let line = owner.push(' ') + body;
    let n = keyword.len() as int;
    let m = owner.len() as int;
    if directive_argument(line, keyword) is Some {
        let word = line.take(n);
        if n > m {
            assert(word[m] == ' ');
            assert(ascii_upper(word)[m] == ascii_upper_char(word[m]));
            assert(keyword[m] != ' ');
        } else if n < m {
            assert(line[n] == owner[n]);
            assert(plain_char(owner[n]));
        } else {
            assert(word =~= owner);
        }
    }
}

// ── Lines ───────────────────────────────────────────────────────────────────

proof fn lemma_trimmed_end_head(h: Seq<char>, t: Seq<char>)
    requires
        h.len() > 0,
        !is_white_space(h.last()),
    ensures
        trimmed_end(h + t) == h + trimmed_end(t),
    decreases t.len(),
{
    if t.len() == 0 {
        assert(h + t =~= h);
        assert(h + trimmed_end(t) =~= h);
    } else {
        assert((h + t).drop_last() =~= h + t.drop_last());
        assert((h + t).last() == t.last());
        lemma_trimmed_end_head(h, t.drop_last());
    }
}

proof fn lemma_no_quotes(h: Seq<char>, t: Seq<char>)
    requires
        forall|i: int| 0 <= i < h.len() ==> #[trigger] h[i] != '"',
    ensures
        in_quotes(h + t) == in_quotes(t),
    decreases h.len() + t.len(),
{
    if t.len() > 0 {
        assert((h + t).drop_last() =~= h + t.drop_last());
        assert((h + t).last() == t.last());
        lemma_no_quotes(h, t.drop_last());
    } else if h.len() > 0 {
        assert((h + t).drop_last() =~= h.drop_last() + t);
        assert((h + t).last() == h[h.len() - 1]);
        let init = h.drop_last();
        assert forall|i: int| 0 <= i < init.len() implies #[trigger] init[i] != '"' by {
            assert(init[i] == h[i]);
        }
        lemma_no_quotes(init, t);
    }
}

proof fn lemma_comment_in_tail(h: Seq<char>, t: Seq<char>, from: int)
    requires
        forall|i: int| 0 <= i < h.len() ==> #[trigger] h[i] != '"' && h[i] != ';',
        0 <= from <= h.len() + t.len(),
    ensures
        comment_start(h + t, from) == h.len() + comment_start(
            t,
            if from <= h.len() {
                0
            } else {
                from - h.len()
            },
        ),
    decreases h.len() + t.len() - from,
{
    let whole = h + t;
    if from < h.len() {
        assert(whole[from] == h[from]);
        lemma_comment_in_tail(h, t, from + 1);
    } else if from < whole.len() {
        let k = from - h.len();
        assert(whole[from] == t[k]);
        assert(whole.take(from) =~= h + t.take(k));
        lemma_no_quotes(h, t.take(k));
        assert(comment_at(whole, from) == comment_at(t, k));
        lemma_comment_in_tail(h, t, from + 1);
    }
}

/// What is left of a line with a plain start: that start, and what is left of the
/// rest.
proof fn lemma_stripped(h: Seq<char>, t: Seq<char>)
    requires
        h.len() > 0,
        !is_white_space(h.last()),
        forall|i: int| 0 <= i < h.len() ==> #[trigger] h[i] != '"' && h[i] != ';',
    ensures
        trimmed_end(uncommented(h + t)) == h + trimmed_end(uncommented(t)),
{
    lemma_comment_in_tail(h, t, 0);
    lemma_comment_start(t, 0);
    assert(uncommented(h + t) =~= h + uncommented(t));
    lemma_trimmed_end_head(h, uncommented(t));
}

/// What is gathered behind a text does not depend on that text.
proof fn lemma_gather_shift(p: Seq<char>, g: Gathered, s: Seq<char>)
    ensures
        gather(Gathered { text: p + g.text, depth: g.depth }, s) == (Gathered {
            text: p + gather(g, s).text,
            depth: gather(g, s).depth,
        }),
    decreases s.len(),
{
    if s.len() > 0 {
        lemma_gather_shift(p, g, s.drop_last());
        let before = gather(g, s.drop_last());
        assert((p + before.text).push(s.last()) =~= p + before.text.push(s.last()));
    }
}

/// What has been gathered stays.
proof fn lemma_gather_keeps(g: Gathered, s: Seq<char>)
    ensures
        gather(g, s).text.len() >= g.text.len(),
        g.text.len() > 0 ==> gather(g, s).text[0] == g.text[0],
    decreases s.len(),
{
    if s.len() > 0 {
        lemma_gather_keeps(g, s.drop_last());
    }
}

proof fn lemma_gather_set_off(s: Seq<char>)
    requires
        set_off(s),
    ensures
        set_off(gather(Gathered { text: Seq::empty(), depth: 0 }, s).text),
{
    if s.len() > 0 {
        let none = Gathered { text: Seq::empty(), depth: 0 };
        let one = seq![s[0]];
        let rest = s.drop_first();
        assert(s =~= one + rest);
        lemma_gather_then(none, one, rest);
        lemma_gather_plain(none, one);
        assert(none.text + one =~= one);
        lemma_gather_keeps(gather(none, one), rest);
    }
}

proof fn lemma_set_off_prefix(s: Seq<char>)
    requires
        set_off(s),
    ensures
        set_off(trimmed_end(s)),
        trimmed_end(trimmed_end(s)) == trimmed_end(s),
{
    lemma_trimmed_end_prefix(s);
    let t = trimmed_end(s);
    if t.len() > 0 {
        assert(t =~= s.take(t.len() as int));
        assert(t[0] == s[0]);
    }
}

/// How far two readings of lines agree that differ in the start of one line: `p` in
/// the one, `q` in the other.
ghost enum Place {
    /// The line is still open; behind its start stands this.
    Open(Seq<char>),
    /// It is the logical line with this index; behind its start stands this.
    Done(int, Seq<char>),
}

/// Whether the lines are the same but for line `k`: `p` and then `y` in the one, `q`
/// and then `y` in the other.
spec fn lines_agree(
    a: Seq<Seq<char>>,
    b: Seq<Seq<char>>,
    p: Seq<char>,
    q: Seq<char>,
    k: int,
    y: Seq<char>,
) -> bool {
    &&& 0 <= k < a.len()
    &&& a[k] == p + y
    &&& b == a.update(k, q + y)
    &&& set_off(y)
    &&& trimmed_end(y) == y
}

spec fn agree(a: Joining, b: Joining, p: Seq<char>, q: Seq<char>, place: Place) -> bool {
    match place {
        Place::Open(r) => {
            &&& a.lines == b.lines
            &&& a.open.depth == b.open.depth
            &&& a.open.depth > 0
            &&& a.open.text == p + r
            &&& b.open.text == q + r
            &&& r.len() > 0
            &&& set_off(r)
        },
        Place::Done(k, y) => a.open == b.open && lines_agree(a.lines, b.lines, p, q, k, y),
    }
}

/// Whether `p` ends with a character that is not white space.
spec fn ends_plain(p: Seq<char>) -> bool {
    p.len() > 0 && !is_white_space(p.last())
}

proof fn lemma_with_line_agree(
    ls: Seq<Seq<char>>,
    p: Seq<char>,
    q: Seq<char>,
    r: Seq<char>,
)
    requires
        ends_plain(p),
        ends_plain(q),
        set_off(r),
    ensures
        lines_agree(
            with_line(ls, p + r),
            with_line(ls, q + r),
            p,
            q,
            ls.len() as int,
            trimmed_end(r),
        ),
{
    lemma_trimmed_end_head(p, r);
    lemma_trimmed_end_head(q, r);
    lemma_trimmed_len(p + r);
    lemma_trimmed_len(q + r);
    assert((p + r)[p.len() - 1] == p.last());
    assert((q + r)[q.len() - 1] == q.last());
    lemma_set_off_prefix(r);
    assert(with_line(ls, q + r) =~= with_line(ls, p + r).update(
        ls.len() as int,
        q + trimmed_end(r),
    ));
}

proof fn lemma_push_agree(
    a: Seq<Seq<char>>,
    b: Seq<Seq<char>>,
    p: Seq<char>,
    q: Seq<char>,
    k: int,
    y: Seq<char>,
    text: Seq<char>,
)
    requires
        lines_agree(a, b, p, q, k, y),
    ensures
        lines_agree(with_line(a, text), with_line(b, text), p, q, k, y),
{
    let t = trimmed_end(text);
    assert(a.update(k, q + y).push(t) =~= a.push(t).update(k, q + y));
}

proof fn lemma_step_agree(
    a: Joining,
    b: Joining,
    p: Seq<char>,
    q: Seq<char>,
    place: Place,
    line: Seq<char>,
) -> (next: Place)
    requires
        ends_plain(p),
        ends_plain(q),
        agree(a, b, p, q, place),
    ensures
        agree(join_line(a, line), join_line(b, line), p, q, next),
{
    let s = trimmed_end(uncommented(line));
    match place {
        Place::Open(r) => {
            let g = Gathered { text: r, depth: a.open.depth };
            lemma_gather_shift(p, g, s);
            lemma_gather_shift(q, g, s);
            let r2 = gather(g, s).text;
            lemma_gather_keeps(g, s);
            if gather(g, s).depth == 0 {
                lemma_with_line_agree(a.lines, p, q, r2);
                Place::Done(a.lines.len() as int, trimmed_end(r2))
            } else {
                assert((p + r2).push(' ') =~= p + r2.push(' '));
                assert((q + r2).push(' ') =~= q + r2.push(' '));
                Place::Open(r2.push(' '))
            }
        },
        Place::Done(k, y) => {
            lemma_push_agree(a.lines, b.lines, p, q, k, y, gather(a.open, s).text);
            place
        },
    }
}

proof fn lemma_nothing_open(source: Seq<Seq<char>>)
    ensures
        join_lines(source).open.depth == 0 ==> join_lines(source).open.text.len() == 0,
{
}

/// Where two files are that differ in the start of line `i`, once `n` lines are read.
proof fn lemma_files_agree(
    a: Seq<Seq<char>>,
    b: Seq<Seq<char>>,
    i: int,
    p: Seq<char>,
    q: Seq<char>,
    tail: Seq<char>,
    n: int,
) -> (place: Place)
    requires
        0 <= i < n <= a.len(),
        a[i] == p + tail,
        b == a.update(i, q + tail),
        ends_plain(p),
        ends_plain(q),
        plain_line(p),
        plain_line(q),
        set_off(tail),
        join_lines(a.take(i)).open.depth == 0,
    ensures
        agree(join_lines(a.take(n)), join_lines(b.take(n)), p, q, place),
    decreases n,
{
    assert(a.take(n).drop_last() =~= a.take(n - 1));
    assert(b.take(n).drop_last() =~= b.take(n - 1));
    if n == i + 1 {
        assert(a.take(i) =~= b.take(i));
        let before = join_lines(a.take(i));
        lemma_nothing_open(a.take(i));
        let none = Gathered { text: Seq::empty(), depth: 0 };
        assert(before.open.text =~= Seq::empty());
        let t = trimmed_end(uncommented(tail));
        lemma_stripped(p, tail);
        lemma_stripped(q, tail);
        lemma_comment_start(tail, 0);
        lemma_trimmed_end_prefix(uncommented(tail));
        if t.len() > 0 {
            assert(t =~= uncommented(tail).take(t.len() as int));
            assert(t[0] == tail[0]);
        }
        lemma_gather_head(p, t);
        lemma_gather_head(q, t);
        lemma_gather_set_off(t);
        let g = gather(none, t);
        if g.depth == 0 {
            lemma_with_line_agree(before.lines, p, q, g.text);
            Place::Done(before.lines.len() as int, trimmed_end(g.text))
        } else {
            assert((p + g.text).push(' ') =~= p + g.text.push(' '));
            assert((q + g.text).push(' ') =~= q + g.text.push(' '));
            Place::Open(g.text.push(' '))
        }
    } else {
        let place = lemma_files_agree(a, b, i, p, q, tail, n - 1);
        assert(a.take(n).last() == a[n - 1] && b.take(n).last() == a[n - 1]);
        lemma_step_agree(
            join_lines(a.take(n - 1)),
            join_lines(b.take(n - 1)),
            p,
            q,
            place,
            a[n - 1],
        )
    }
}

/// Whether `s` holds no white space but spaces, and no quotes, semicolons and
/// parentheses.
spec fn plain_line(s: Seq<char>) -> bool {
    forall|i: int| 0 <= i < s.len() ==> #[trigger] s[i] == ' ' || plain_char(s[i])
}

proof fn lemma_gather_head(p: Seq<char>, t: Seq<char>)
    requires
        plain_line(p),
    ensures
        ({
            let none = Gathered { text: Seq::empty(), depth: 0 };
            gather(none, p + t) == (Gathered {
                text: p + gather(none, t).text,
                depth: gather(none, t).depth,
            })
        }),
{
    let none = Gathered { text: Seq::empty(), depth: 0 };
    lemma_gather_then(none, p, t);
    lemma_gather_plain(none, p);
    assert(none.text + p =~= p + none.text);
    lemma_gather_shift(p, none, t);
}

proof fn lemma_head_plain(owner: Seq<char>, x: Seq<char>, y: Seq<char>, rtype: Seq<char>)
    requires
        owner_word(owner),
        plain_word(x),
        plain_word(y),
        plain_word(rtype),
    ensures
        plain_line(record_head(owner, x, y, rtype)),
        ends_plain(record_head(owner, x, y, rtype)),
{
    let h = record_head(owner, x, y, rtype);
    let a = owner.len() as int + 1;
    let b = a + x.len() + 1;
    let c = b + y.len() + 1;
    assert forall|i: int| 0 <= i < h.len() implies #[trigger] h[i] == ' ' || plain_char(h[i]) by {
        if i < a - 1 {
            assert(h[i] == owner[i]);
            assert(plain_char(owner[i]));
        } else if a <= i < b - 1 {
            assert(h[i] == x[i - a]);
            assert(plain_char(x[i - a]));
        } else if b <= i < c - 1 {
            assert(h[i] == y[i - b]);
            assert(plain_char(y[i - b]));
        } else if c <= i {
            assert(h[i] == rtype[i - c]);
            assert(plain_char(rtype[i - c]));
        } else {
            assert(h[i] == ' ');
        }
    }
    assert(h.last() == rtype[rtype.len() - 1]);
    assert(plain_char(rtype[rtype.len() - 1]));
}

proof fn lemma_swap(
    st: Reading,
    owner: Seq<char>,
    ttl: Seq<char>,
    class: Seq<char>,
    rtype: Seq<char>,
    y: Seq<char>,
)
    requires
        owner_word(owner),
        decimal(ttl, u32::MAX as nat) is Some,
        names_class(class),
        plain_word(rtype),
        decimal(rtype, u32::MAX as nat) is None,
        set_off(y),
        trimmed_end(y) == y,
    ensures
        after_line(st, record_head(owner, ttl, class, rtype) + y) == after_line(
            st,
            record_head(owner, class, ttl, rtype) + y,
        ),
{
    lemma_number_plain(ttl);
    lemma_class_plain(class);
    lemma_record_line(st, owner, ttl, class, rtype, y);
    lemma_record_line(st, owner, class, ttl, rtype, y);
    let name = if owner.len() == 0 {
        st.last_name
    } else {
        resolved(owner, st.origin)
    };
    let rest = seq![rtype] + words(y);
    ttl_and_class_in_either_order(st, name, ttl, class, rest);
}

/// Two zone files give the same zone, or the same message, if they differ only in the
/// order of the TTL and the class on a line: `owner ttl class type …` in the one,
/// `owner class ttl type …` in the other. The owner may be left out, and what follows
/// the type may be anything, on that line or, within parentheses, on the next ones.
pub proof fn order_of_ttl_and_class_does_not_matter(
    a: Seq<char>,
    b: Seq<char>,
    i: int,
    owner: Seq<char>,
    ttl: Seq<char>,
    class: Seq<char>,
    rtype: Seq<char>,
    tail: Seq<char>,
)
    requires
        0 <= i < lines(a).len(),
        lines(a)[i] == record_head(owner, ttl, class, rtype) + tail,
        lines(b) == lines(a).update(i, record_head(owner, class, ttl, rtype) + tail),
        join_lines(lines(a).take(i)).open.depth == 0,
        owner_word(owner),
        decimal(ttl, u32::MAX as nat) is Some,
        names_class(class),
        plain_word(rtype),
        decimal(rtype, u32::MAX as nat) is None,
        set_off(tail),
    ensures
        zone_of(a) == zone_of(b),
{
    let p = record_head(owner, ttl, class, rtype);
    let q = record_head(owner, class, ttl, rtype);
    lemma_number_plain(ttl);
    lemma_class_plain(class);
    lemma_head_plain(owner, ttl, class, rtype);
    lemma_head_plain(owner, class, ttl, rtype);
    let n = lines(a).len() as int;
    let place = lemma_files_agree(lines(a), lines(b), i, p, q, tail, n);
    assert(lines(a).take(n) =~= lines(a));
    assert(lines(b).take(n) =~= lines(b));
    let ja = join_lines(lines(a));
    let jb = join_lines(lines(b));
    let (k, y) = match place {
        Place::Open(r) => {
            lemma_with_line_agree(ja.lines, p, q, r);
            (ja.lines.len() as int, trimmed_end(r))
        },
        Place::Done(k, y) => {
            lemma_push_agree(ja.lines, jb.lines, p, q, k, y, ja.open.text);
            (k, y)
        },
    };
    let la = logical_lines(a);
    let lb = logical_lines(b);
    assert(lines_agree(la, lb, p, q, k, y));
    logical_lines_are_the_lines(a);
    logical_lines_are_the_lines(b);
    lemma_after_lines_split(unread(), la, k);
    lemma_after_lines_split(unread(), lb, k);
    assert(la.take(k) =~= lb.take(k));
    if let Ok(st) = after_lines(unread(), la.take(k)) {
        lemma_swap(st, owner, ttl, class, rtype, y);
        assert(la.skip(k)[0] == la[k] && lb.skip(k)[0] == lb[k]);
        assert(la.skip(k).drop_first() =~= lb.skip(k).drop_first());
    }
}

/// A file of one line with a record, `owner ttl class type …` without parentheses, is
/// read as that record: the fields behind the type are the words of the rest, without
/// its comment.
pub proof fn one_record_file(
    content: Seq<char>,
    owner: Seq<char>,
    ttl: Seq<char>,
    class: Seq<char>,
    rtype: Seq<char>,
    tail: Seq<char>,
)
    requires
        lines(content) == seq![record_head(owner, ttl, class, rtype) + tail],
        owner_word(owner),
        owner.len() > 0,
        decimal(ttl, u32::MAX as nat) is Some,
        names_class(class),
        plain_word(rtype),
        set_off(tail),
        forall|i: int| 0 <= i < tail.len() ==> #[trigger] tail[i] != '(' && tail[i] != ')',
    ensures
        zone_of(content) == (match after_record(
            unread(),
            resolved(owner, Seq::empty()),
            seq![ttl, class] + (seq![rtype] + words(trimmed_end(uncommented(tail)))),
        ) {
            Ok(st) => Ok::<_, Seq<char>>(ZoneModel { origin: st.origin, records: st.records }),
            Err(e) => Err::<ZoneModel, _>(e),
        }),
{
    let p = record_head(owner, ttl, class, rtype);
    let t = trimmed_end(uncommented(tail));
    let none = Gathered { text: Seq::empty(), depth: 0 };
    let source = lines(content);
    lemma_number_plain(ttl);
    lemma_class_plain(class);
    lemma_head_plain(owner, ttl, class, rtype);
    lemma_stripped(p, tail);
    lemma_comment_start(tail, 0);
    lemma_trimmed_end_prefix(uncommented(tail));
    assert(t =~= uncommented(tail).take(t.len() as int));
    assert forall|i: int| 0 <= i < t.len() implies #[trigger] t[i] != '(' && t[i] != ')' && t[i]
        == tail[i] by {
        assert(t[i] == uncommented(tail)[i]);
    }
    assert(set_off(t)) by {
        if t.len() > 0 {
            assert(t[0] == tail[0]);
        }
    }
    lemma_gather_head(p, t);
    lemma_gather_plain(none, t);
    assert(none.text + t =~= t);
    assert(source.drop_last() =~= Seq::empty());
    reveal_with_fuel(join_lines, 2);
    assert(source.last() == p + tail);
    lemma_trimmed_end_head(p, t);
    lemma_trimmed_len(p + t);
    assert((p + t)[p.len() - 1] == p.last());
    let all = logical_lines(content);
    lemma_trimmed_len(Seq::empty());
    assert(all =~= seq![p + t]);
    logical_lines_are_the_lines(content);
    lemma_record_line(unread(), owner, ttl, class, rtype, t);
    reveal_with_fuel(after_lines, 2);
    assert(all.drop_first() =~= Seq::empty());
}

proof fn lemma_one_line(head: Seq<char>, tail: Seq<char>, one: Seq<char>)
    requires
        ends_plain(head),
        one == head + tail,
        plain_line(head),
        forall|i: int| 0 <= i < tail.len() ==> #[trigger] tail[i] != '\n',
        tail.len() > 0 ==> tail.last() != '\r',
    ensures
        lines(one.push('\n')) == seq![one],
{
    assert forall|i: int| 0 <= i < one.len() implies #[trigger] one[i] != '\n' by {
        if i < head.len() {
            assert(one[i] == head[i]);
        } else {
            assert(one[i] == tail[i - head.len()]);
        }
    }
    if tail.len() == 0 {
        assert(one.last() == head.last());
    } else {
        assert(one.last() == tail.last());
    }
    one_ended_line(one);
}

/// A file of one line with a record that has a TTL and a class, in either order, is a
/// zone with that one record: of class IN whatever the class, and with that TTL.
pub proof fn one_record_in_either_order(
    owner: Seq<char>,
    ttl: Seq<char>,
    class: Seq<char>,
    rtype: Seq<char>,
    tail: Seq<char>,
    data: DataModel,
)
    requires
        owner_word(owner),
        owner.len() > 0,
        decimal(ttl, u32::MAX as nat) is Some,
        names_class(class),
        plain_word(rtype),
        decimal(rtype, u32::MAX as nat) is None,
        set_off(tail),
        forall|i: int|
            0 <= i < tail.len() ==> #[trigger] tail[i] != '(' && tail[i] != ')' && tail[i] != '\n',
        tail.len() > 0 ==> tail.last() != '\r',
        record_data(
            ascii_upper(rtype),
            words(trimmed_end(uncommented(tail))),
            Seq::empty(),
            resolved(owner, Seq::empty()),
        ) == Ok::<_, Seq<char>>(Some(data)),
    ensures
        ({
            let zone = ZoneModel {
                origin: Seq::empty(),
                records: seq![
                    RecordModel {
                        name: resolved(owner, Seq::empty()),
                        class: CLASS_IN,
                        ttl: decimal(ttl, u32::MAX as nat)->0 as u32,
                        data,
                    },
                ],
            };
            &&& zone_of((record_head(owner, ttl, class, rtype) + tail).push('\n')) == Ok::<
                _,
                Seq<char>,
            >(zone)
            &&& zone_of((record_head(owner, class, ttl, rtype) + tail).push('\n')) == Ok::<
                _,
                Seq<char>,
            >(zone)
        }),
{
    let p = record_head(owner, ttl, class, rtype);
    let q = record_head(owner, class, ttl, rtype);
    let a = (p + tail).push('\n');
    let b = (q + tail).push('\n');
    lemma_number_plain(ttl);
    lemma_class_plain(class);
    lemma_head_plain(owner, ttl, class, rtype);
    lemma_head_plain(owner, class, ttl, rtype);
    lemma_one_line(p, tail, p + tail);
    lemma_one_line(q, tail, q + tail);
    assert(lines(b) =~= lines(a).update(0, q + tail));
    assert(lines(a).take(0) =~= Seq::empty());
    order_of_ttl_and_class_does_not_matter(a, b, 0, owner, ttl, class, rtype, tail);
    one_record_file(a, owner, ttl, class, rtype, tail);
    let name = resolved(owner, Seq::empty());
    let more = words(trimmed_end(uncommented(tail)));
    let rest = seq![rtype] + more;
    let fields = seq![ttl, class] + rest;
    ttl_and_class_in_either_order(unread(), name, ttl, class, rest);
    assert(fields[0] == ttl && fields[1] == class && fields[2] == rtype);
    lemma_class_is_no_number(class);
    assert(type_field(fields) == 2);
    assert(fields.skip(3) =~= more);
    assert(unread().records.push(
        RecordModel {
            name,
            class: CLASS_IN,
            ttl: decimal(ttl, u32::MAX as nat)->0 as u32,
            data,
        },
    ) =~= seq![
        RecordModel {
            name,
            class: CLASS_IN,
            ttl: decimal(ttl, u32::MAX as nat)->0 as u32,
            data,
        },
    ]);
}

} // verus!
