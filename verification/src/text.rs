//! Character-level vocabulary shared by zone files and domain names.

use vstd::prelude::*;
use vstd::utf8::*;

verus! {

// ── Characters ──────────────────────────────────────────────────────────────

/// The characters with the Unicode `White_Space` property.
pub open spec fn is_white_space(c: char) -> bool {
    ||| '\u{9}' <= c <= '\u{d}'
    ||| c == '\u{20}'
    ||| c == '\u{85}'
    ||| c == '\u{a0}'
    ||| c == '\u{1680}'
    ||| '\u{2000}' <= c <= '\u{200a}'
    ||| c == '\u{2028}'
    ||| c == '\u{2029}'
    ||| c == '\u{202f}'
    ||| c == '\u{205f}'
    ||| c == '\u{3000}'
}

/// `char::is_whitespace` tests the Unicode `White_Space` property; the contract
/// lists the characters that have it.
pub assume_specification[ char::is_whitespace ](c: char) -> (r: bool)
    ensures
        r == is_white_space(c),
;

/// `String::push` appends one character.
pub assume_specification[ String::push ](s: &mut String, c: char)
    ensures
        final(s)@ == old(s)@.push(c),
;

/// The characters of a string slice, in order.
pub fn chars_of(s: &str) -> (r: Vec<char>)
    ensures
        r@ == s@,
{
    let mut out: Vec<char> = Vec::new();
    for c in it: s.chars()
        invariant
            out@ == it.seq().take(it.index()),
            it.seq() == s@,
    {
        out.push(c);
    }
    out
}

/// The string made of the characters `v`.
pub fn string_of(v: &[char]) -> (r: String)
    ensures
        r@ == v@,
{
    let mut out: String = String::new();
    let mut i: usize = 0;
    while i < v.len()
        invariant
            i <= v.len(),
            out@ == v@.take(i as int),
        decreases v.len() - i,
    {
        out.push(v[i]);
        i = i + 1;
    }
    out
}

// ── Sequences of texts ──────────────────────────────────────────────────────

/// What a sequence of strings holds.
pub open spec fn texts(v: Seq<String>) -> Seq<Seq<char>> {
    v.map_values(|s: String| s@)
}

pub(crate) proof fn lemma_texts_push(v: Seq<String>, s: String)
    ensures
        texts(v.push(s)) == texts(v).push(s@),
{
    assert(texts(v.push(s)) =~= texts(v).push(s@));
}

/// Whether two texts are the same.
pub fn same(a: &str, b: &str) -> (r: bool)
    ensures
        r == (a@ == b@),
{
    a.to_owned() == b.to_owned()
}

/// The parts in order, with `sep` between each two neighbours.
pub open spec fn joined(parts: Seq<Seq<char>>, sep: char) -> Seq<char>
    decreases parts.len(),
{
    if parts.len() == 0 {
        Seq::empty()
    } else if parts.len() == 1 {
        parts[0]
    } else {
        joined(parts.drop_last(), sep).push(sep) + parts.last()
    }
}

/// Joins the parts with `sep` between each two neighbours.
pub fn join(parts: &[String], sep: char) -> (r: String)
    ensures
        r@ == joined(texts(parts@), sep),
{
    let mut out: String = String::new();
    let mut i: usize = 0;
    while i < parts.len()
        invariant
            i <= parts.len(),
            out@ == joined(texts(parts@).take(i as int), sep),
        decreases parts.len() - i,
    {
        if i > 0 {
            out.push(sep);
        }
        out.append(parts[i].as_str());
        proof {
            let all = texts(parts@);
            assert(all.take(i + 1).drop_last() =~= all.take(i as int));
            assert(all.take(i + 1).last() == parts[i as int]@);
            if i == 0 {
                assert(out@ =~= parts[0]@);
            }
        }
        i = i + 1;
    }
    assert(texts(parts@).take(i as int) =~= texts(parts@));
    out
}

/// The pieces of `s` between the separators: one more than there are
/// separators, some of them possibly empty.
pub open spec fn split(s: Seq<char>, sep: char) -> Seq<Seq<char>>
    decreases s.len(),
{
    if s.len() == 0 {
        seq![Seq::empty()]
    } else {
        let init = split(s.drop_last(), sep);
        if s.last() == sep {
            init.push(Seq::empty())
        } else {
            init.drop_last().push(init.last().push(s.last()))
        }
    }
}

pub(crate) proof fn lemma_split_nonempty(s: Seq<char>, sep: char)
    ensures
        split(s, sep).len() >= 1,
    decreases s.len(),
{
    if s.len() > 0 {
        lemma_split_nonempty(s.drop_last(), sep);
    }
}

/// Splits `s` at every `sep`.
pub fn split_at_char(s: &str, sep: char) -> (r: Vec<String>)
    ensures
        texts(r@) == split(s@, sep),
{
    let v = chars_of(s);
    let mut done: Vec<String> = Vec::new();
    let mut current: String = String::new();
    let mut i: usize = 0;
    assert(texts(done@).push(current@) =~= split(s@.take(0), sep));
    while i < v.len()
        invariant
            i <= v.len(),
            v@ == s@,
            texts(done@).push(current@) == split(s@.take(i as int), sep),
        decreases v.len() - i,
    {
        let c = v[i];
        assert(s@.take(i + 1).drop_last() =~= s@.take(i as int));
        let ghost pieces = texts(done@).push(current@);
        if c == sep {
            proof {
                lemma_texts_push(done@, current);
            }
            done.push(current);
            current = String::new();
            assert(texts(done@).push(current@) =~= pieces.push(Seq::empty()));
        } else {
            current.push(c);
            assert(texts(done@).push(current@) =~= pieces.drop_last().push(pieces.last().push(c)));
        }
        i = i + 1;
    }
    assert(s@.take(i as int) =~= s@);
    proof {
        lemma_texts_push(done@, current);
    }
    done.push(current);
    done
}

/// Splitting and joining again with the same separator gives the text back.
pub proof fn split_then_join(s: Seq<char>, sep: char)
    ensures
        joined(split(s, sep), sep) == s,
    decreases s.len(),
{
    if s.len() > 0 {
        let init = split(s.drop_last(), sep);
        split_then_join(s.drop_last(), sep);
        lemma_split_nonempty(s.drop_last(), sep);
        if s.last() == sep {
            assert(init.push(Seq::empty()).drop_last() =~= init);
            assert(joined(split(s, sep), sep) =~= s);
        } else {
            let last = init.last().push(s.last());
            let all = init.drop_last().push(last);
            assert(all.drop_last() =~= init.drop_last());
            assert(joined(all, sep) =~= joined(init, sep).push(s.last()));
            assert(s =~= s.drop_last().push(s.last()));
        }
    }
}

// ── Trimming ────────────────────────────────────────────────────────────────

/// `s` without its leading white space.
pub open spec fn trimmed_start(s: Seq<char>) -> Seq<char>
    decreases s.len(),
{
    if s.len() > 0 && is_white_space(s[0]) {
        trimmed_start(s.drop_first())
    } else {
        s
    }
}

/// `s` without its trailing white space.
pub open spec fn trimmed_end(s: Seq<char>) -> Seq<char>
    decreases s.len(),
{
    if s.len() > 0 && is_white_space(s.last()) {
        trimmed_end(s.drop_last())
    } else {
        s
    }
}

/// `s` without its leading and trailing white space.
pub open spec fn trimmed(s: Seq<char>) -> Seq<char> {
    trimmed_end(trimmed_start(s))
}

/// `s` without its trailing dots.
pub open spec fn undotted(s: Seq<char>) -> Seq<char>
    decreases s.len(),
{
    if s.len() > 0 && s.last() == '.' {
        undotted(s.drop_last())
    } else {
        s
    }
}

/// Whether `s` begins with white space.
pub open spec fn starts_blank(s: Seq<char>) -> bool {
    s.len() > 0 && is_white_space(s[0])
}

/// Tests whether `s` begins with white space.
pub fn begins_blank(s: &str) -> (r: bool)
    ensures
        r == starts_blank(s@),
{
    if s.is_empty() {
        false
    } else {
        s.get_char(0).is_whitespace()
    }
}

/// Removes trailing white space.
pub fn trim_end(s: &str) -> (r: &str)
    ensures
        r@ == trimmed_end(s@),
{
    let v = chars_of(s);
    let mut n: usize = v.len();
    assert(s@.take(n as int) =~= s@);
    while n > 0 && v[n - 1].is_whitespace()
        invariant
            n <= v.len(),
            v@ == s@,
            trimmed_end(s@) == trimmed_end(s@.take(n as int)),
        decreases n,
    {
        assert(s@.take(n as int).drop_last() =~= s@.take(n - 1));
        n = n - 1;
    }
    assert(s@.take(n as int) =~= s@.subrange(0, n as int));
    s.substring_char(0, n)
}

/// Removes leading and trailing white space.
pub fn trim(s: &str) -> (r: &str)
    ensures
        r@ == trimmed(s@),
{
    let v = chars_of(s);
    let mut i: usize = 0;
    assert(s@.skip(0) =~= s@);
    while i < v.len() && v[i].is_whitespace()
        invariant
            i <= v.len(),
            v@ == s@,
            trimmed_start(s@) == trimmed_start(s@.skip(i as int)),
        decreases v.len() - i,
    {
        assert(s@.skip(i as int).drop_first() =~= s@.skip(i + 1));
        i = i + 1;
    }
    assert(s@.skip(i as int) =~= s@.subrange(i as int, s@.len() as int));
    trim_end(s.substring_char(i, v.len()))
}

/// Removes trailing dots.
pub fn strip_dots(s: &str) -> (r: &str)
    ensures
        r@ == undotted(s@),
{
    let v = chars_of(s);
    let mut n: usize = v.len();
    assert(s@.take(n as int) =~= s@);
    while n > 0 && v[n - 1] == '.'
        invariant
            n <= v.len(),
            v@ == s@,
            undotted(s@) == undotted(s@.take(n as int)),
        decreases n,
    {
        assert(s@.take(n as int).drop_last() =~= s@.take(n - 1));
        n = n - 1;
    }
    assert(s@.take(n as int) =~= s@.subrange(0, n as int));
    s.substring_char(0, n)
}

pub(crate) proof fn lemma_trimmed_end_prefix(s: Seq<char>)
    ensures
        trimmed_end(s).is_prefix_of(s),
        trimmed_end(s).len() > 0 ==> !is_white_space(trimmed_end(s).last()),
        trimmed_end(trimmed_end(s)) == trimmed_end(s),
    decreases s.len(),
{
    if s.len() > 0 && is_white_space(s.last()) {
        lemma_trimmed_end_prefix(s.drop_last());
        let t = trimmed_end(s);
        assert(t =~= s.drop_last().take(t.len() as int));
        assert(t =~= s.take(t.len() as int));
    }
}

/// Whether white space at the end is left out or not, a text is as blank.
pub(crate) proof fn lemma_trimmed_blank(s: Seq<char>)
    ensures
        trimmed(trimmed_end(s)).len() > 0 <==> trimmed(s).len() > 0,
{
    lemma_trimmed_len(s);
    lemma_trimmed_end_prefix(s);
    lemma_trimmed_len(trimmed_end(s));
    if trimmed_end(s).len() > 0 {
        let t = trimmed_end(s);
        assert(t =~= s.take(t.len() as int));
        assert(!is_white_space(t[t.len() - 1]));
        assert(!is_white_space(s[t.len() - 1]));
    } else {
        lemma_trimmed_end_blank(s);
    }
}

pub(crate) proof fn lemma_trimmed_end_blank(s: Seq<char>)
    ensures
        trimmed_end(s).len() == 0 <==> forall|i: int|
            0 <= i < s.len() ==> is_white_space(#[trigger] s[i]),
    decreases s.len(),
{
    if s.len() > 0 {
        if is_white_space(s.last()) {
            lemma_trimmed_end_blank(s.drop_last());
            if trimmed_end(s).len() == 0 {
                assert forall|i: int| 0 <= i < s.len() implies is_white_space(#[trigger] s[i]) by {
                    if i < s.len() - 1 {
                        assert(s.drop_last()[i] == s[i]);
                    }
                }
            } else {
                let i = choose|i: int|
                    0 <= i < s.len() - 1 && !is_white_space(#[trigger] s.drop_last()[i]);
                assert(!is_white_space(s[i]));
            }
        } else {
            assert(!is_white_space(s[s.len() - 1]));
        }
    }
}

pub(crate) proof fn lemma_trimmed_start_blank(s: Seq<char>)
    ensures
        trimmed_start(s).len() > 0 ==> !is_white_space(trimmed_start(s)[0]),
        trimmed_start(s).len() == 0 <==> forall|i: int|
            0 <= i < s.len() ==> is_white_space(#[trigger] s[i]),
    decreases s.len(),
{
    if s.len() > 0 {
        if is_white_space(s[0]) {
            lemma_trimmed_start_blank(s.drop_first());
            if trimmed_start(s).len() == 0 {
                assert forall|i: int| 0 <= i < s.len() implies is_white_space(#[trigger] s[i]) by {
                    if i > 0 {
                        assert(s.drop_first()[i - 1] == s[i]);
                    }
                }
            } else {
                let i = choose|i: int|
                    0 <= i < s.len() - 1 && !is_white_space(#[trigger] s.drop_first()[i]);
                assert(!is_white_space(s[i + 1]));
            }
        }
    }
}

/// A text is blank when all of it is white space.
pub(crate) proof fn lemma_trimmed_len(s: Seq<char>)
    ensures
        trimmed(s).len() == 0 <==> forall|i: int|
            0 <= i < s.len() ==> is_white_space(#[trigger] s[i]),
{
    lemma_trimmed_start_blank(s);
    let t = trimmed_start(s);
    lemma_trimmed_end_blank(t);
    if t.len() > 0 {
        assert(!is_white_space(t[0]));
    }
}

// ── Words and lines ─────────────────────────────────────────────────────────

/// The maximal runs of characters that are not white space.
pub open spec fn words(s: Seq<char>) -> Seq<Seq<char>>
    decreases s.len(),
{
    if s.len() == 0 {
        Seq::empty()
    } else {
        let init = words(s.drop_last());
        if is_white_space(s.last()) {
            init
        } else if s.len() > 1 && !is_white_space(s[s.len() - 2]) {
            init.drop_last().push(init.last().push(s.last()))
        } else {
            init.push(seq![s.last()])
        }
    }
}

/// Splits `s` into its words.
pub fn split_words(s: &str) -> (r: Vec<String>)
    ensures
        texts(r@) == words(s@),
{
    let v = chars_of(s);
    let mut done: Vec<String> = Vec::new();
    let mut current: String = String::new();
    let mut in_word: bool = false;
    let mut i: usize = 0;
    assert(texts(done@) =~= words(s@.take(0)));
    while i < v.len()
        invariant
            i <= v.len(),
            v@ == s@,
            in_word == (i > 0 && !is_white_space(s@[i - 1])),
            in_word ==> words(s@.take(i as int)) == texts(done@).push(current@),
            !in_word ==> words(s@.take(i as int)) == texts(done@) && current@.len() == 0,
        decreases v.len() - i,
    {
        let c = v[i];
        let ghost before = words(s@.take(i as int));
        let ghost old_done = done@;
        let ghost old_current = current@;
        assert(s@.take(i + 1).drop_last() =~= s@.take(i as int));
        if c.is_whitespace() {
            if in_word {
                proof {
                    lemma_texts_push(done@, current);
                }
                done.push(current);
                current = String::new();
                in_word = false;
            }
        } else {
            current.push(c);
            proof {
                if in_word {
                    assert(before.drop_last().push(before.last().push(c)) =~= texts(done@).push(
                        current@,
                    ));
                } else {
                    assert(current@ =~= seq![c]);
                }
            }
            in_word = true;
        }
        i = i + 1;
    }
    assert(s@.take(i as int) =~= s@);
    if in_word {
        proof {
            lemma_texts_push(done@, current);
        }
        done.push(current);
    }
    done
}

/// A piece that a line feed ended, without the carriage return before it.
pub open spec fn without_return(s: Seq<char>) -> Seq<char> {
    if s.len() > 0 && s.last() == '\r' {
        s.drop_last()
    } else {
        s
    }
}

/// The lines of a text. A line ends at `\n` or `\r\n`, which is not part of it;
/// the last line need not be ended.
pub open spec fn lines(s: Seq<char>) -> Seq<Seq<char>> {
    let pieces = split(s, '\n');
    let ended = pieces.drop_last().map_values(|p: Seq<char>| without_return(p));
    if pieces.last().len() == 0 {
        ended
    } else {
        ended.push(pieces.last())
    }
}

/// Splits a text into its lines.
pub fn split_lines(s: &str) -> (r: Vec<String>)
    ensures
        texts(r@) == lines(s@),
{
    let pieces = split_at_char(s, '\n');
    let mut out: Vec<String> = Vec::new();
    let mut i: usize = 0;
    proof {
        lemma_split_nonempty(s@, '\n');
    }
    let last: usize = pieces.len() - 1;
    let ghost all = split(s@, '\n');
    let ghost ended = all.drop_last().map_values(|p: Seq<char>| without_return(p));
    while i < last
        invariant
            i <= last,
            last + 1 == pieces.len(),
            texts(pieces@) == all,
            ended == all.drop_last().map_values(|p: Seq<char>| without_return(p)),
            texts(out@) == ended.take(i as int),
        decreases last - i,
    {
        let v = chars_of(pieces[i].as_str());
        assert(v@ == all[i as int]);
        let mut n: usize = v.len();
        if n > 0 && v[n - 1] == '\r' {
            n = n - 1;
        }
        let line = string_of(vstd::slice::slice_subrange(v.as_slice(), 0, n));
        assert(line@ =~= without_return(all[i as int]));
        proof {
            lemma_texts_push(out@, line);
            assert(ended.take(i as int).push(ended[i as int]) =~= ended.take(i + 1));
        }
        out.push(line);
        i = i + 1;
    }
    assert(ended.take(i as int) =~= ended);
    assert(all.last() == pieces@[last as int]@);
    if !pieces[last].as_str().is_empty() {
        let tail = pieces[last].clone();
        proof {
            lemma_texts_push(out@, tail);
        }
        out.push(tail);
    }
    out
}

/// Whether each of the texts is all ASCII.
pub open spec fn all_ascii(parts: Seq<Seq<char>>) -> bool {
    forall|i: int| 0 <= i < parts.len() ==> is_ascii_chars(#[trigger] parts[i])
}

pub(crate) proof fn lemma_ascii_part(s: Seq<char>, i: int, j: int)
    requires
        is_ascii_chars(s),
        0 <= i <= j <= s.len(),
    ensures
        is_ascii_chars(s.subrange(i, j)),
{
    let part = s.subrange(i, j);
    assert forall|k: int| 0 <= k < part.len() implies '\0' <= #[trigger] part[k] <= '\u{7f}' by {
        assert(part[k] == s[i + k]);
    }
}

pub(crate) proof fn lemma_ascii_trimmed(s: Seq<char>)
    requires
        is_ascii_chars(s),
    ensures
        is_ascii_chars(trimmed_end(s)),
        is_ascii_chars(trimmed(s)),
{
    lemma_ascii_trimmed_start(s);
    let t = trimmed_start(s);
    lemma_trimmed_end_prefix(s);
    lemma_trimmed_end_prefix(t);
    lemma_ascii_part(s, 0, trimmed_end(s).len() as int);
    lemma_ascii_part(t, 0, trimmed_end(t).len() as int);
    assert(trimmed_end(s) =~= s.subrange(0, trimmed_end(s).len() as int));
    assert(trimmed_end(t) =~= t.subrange(0, trimmed_end(t).len() as int));
}

proof fn lemma_ascii_trimmed_start(s: Seq<char>)
    requires
        is_ascii_chars(s),
    ensures
        is_ascii_chars(trimmed_start(s)),
    decreases s.len(),
{
    if s.len() > 0 && is_white_space(s[0]) {
        lemma_ascii_part(s, 1, s.len() as int);
        assert(s.drop_first() =~= s.subrange(1, s.len() as int));
        lemma_ascii_trimmed_start(s.drop_first());
    }
}

proof fn lemma_ascii_split(s: Seq<char>, sep: char)
    requires
        is_ascii_chars(s),
    ensures
        all_ascii(split(s, sep)),
    decreases s.len(),
{
    if s.len() > 0 {
        lemma_ascii_part(s, 0, s.len() - 1);
        assert(s.drop_last() =~= s.subrange(0, s.len() - 1));
        lemma_ascii_split(s.drop_last(), sep);
        lemma_split_nonempty(s.drop_last(), sep);
        let init = split(s.drop_last(), sep);
        assert(is_ascii_chars(init[init.len() - 1]));
        assert(s.last() == s[s.len() - 1]);
    }
}

pub(crate) proof fn lemma_ascii_lines(s: Seq<char>)
    requires
        is_ascii_chars(s),
    ensures
        all_ascii(lines(s)),
{
    let pieces = split(s, '\n');
    lemma_ascii_split(s, '\n');
    lemma_split_nonempty(s, '\n');
    assert forall|i: int| 0 <= i < lines(s).len() implies is_ascii_chars(
        #[trigger] lines(s)[i],
    ) by {
        let piece = pieces[i];
        assert(is_ascii_chars(piece));
        if piece.len() > 0 {
            lemma_ascii_part(piece, 0, piece.len() - 1);
            assert(piece.drop_last() =~= piece.subrange(0, piece.len() - 1));
        }
    }
}

pub(crate) proof fn lemma_ascii_words(s: Seq<char>)
    requires
        is_ascii_chars(s),
    ensures
        all_ascii(words(s)),
    decreases s.len(),
{
    if s.len() > 0 {
        lemma_ascii_part(s, 0, s.len() - 1);
        assert(s.drop_last() =~= s.subrange(0, s.len() - 1));
        lemma_ascii_words(s.drop_last());
        let init = words(s.drop_last());
        assert(s.last() == s[s.len() - 1]);
        if s.len() > 1 && !is_white_space(s[s.len() - 2]) {
            lemma_words_nonempty(s.drop_last());
            assert(is_ascii_chars(init[init.len() - 1]));
        }
    }
}

pub(crate) proof fn lemma_words_nonempty(s: Seq<char>)
    requires
        s.len() > 0,
        !is_white_space(s.last()),
    ensures
        words(s).len() > 0,
{
}

// ── Case ────────────────────────────────────────────────────────────────────

/// The lower-case equivalent, by the Unicode case mappings, of a text that is not
/// all ASCII.
pub uninterp spec fn unicode_lowercase(s: Seq<char>) -> Seq<char>;

/// The lower-case equivalent of a text.
pub open spec fn lowercase(s: Seq<char>) -> Seq<char> {
    if is_ascii_chars(s) {
        ascii_lower(s)
    } else {
        unicode_lowercase(s)
    }
}

/// An ASCII capital as the small letter, any other character as it is.
pub open spec fn ascii_lower_char(c: char) -> char {
    if 'A' <= c <= 'Z' {
        (c as u8 + 32) as char
    } else {
        c
    }
}

/// `s` with its ASCII capitals as small letters.
pub open spec fn ascii_lower(s: Seq<char>) -> Seq<char> {
    s.map_values(|c: char| ascii_lower_char(c))
}

/// An ASCII small letter as the capital, any other character as it is.
pub open spec fn ascii_upper_char(c: char) -> char {
    if 'a' <= c <= 'z' {
        (c as u8 - 32) as char
    } else {
        c
    }
}

/// `s` with its ASCII small letters as capitals.
pub open spec fn ascii_upper(s: Seq<char>) -> Seq<char> {
    s.map_values(|c: char| ascii_upper_char(c))
}

/// `str::to_lowercase` gives the lower-case equivalent of a text by the Unicode
/// case mappings. Of a text that is all ASCII those mappings change the letters `A`
/// to `Z` and nothing else; of any other text the result is named
/// [`unicode_lowercase`], and nothing is claimed of it but that it depends on the
/// text alone.
pub assume_specification[ str::to_lowercase ](s: &str) -> (r: String)
    ensures
        r@ == (if is_ascii_chars(s@) {
            ascii_lower(s@)
        } else {
            unicode_lowercase(s@)
        }),
;

pub(crate) proof fn lemma_ascii_lower(s: Seq<char>)
    requires
        is_ascii_chars(s),
    ensures
        is_ascii_chars(ascii_lower(s)),
        ascii_lower(ascii_lower(s)) == ascii_lower(s),
{
    let low = ascii_lower(s);
    assert forall|i: int| 0 <= i < low.len() implies '\0' <= #[trigger] low[i] <= '\u{7f}' by {
        assert('\0' <= s[i] <= '\u{7f}');
    }
    assert(ascii_lower(low) =~= low);
}

/// Turns the ASCII small letters of `s` into capitals.
pub fn to_ascii_upper(s: &str) -> (r: String)
    ensures
        r@ == ascii_upper(s@),
{
    let v = chars_of(s);
    let mut out: String = String::new();
    let mut i: usize = 0;
    while i < v.len()
        invariant
            i <= v.len(),
            v@ == s@,
            out@ == ascii_upper(s@).take(i as int),
        decreases v.len() - i,
    {
        let c = v[i];
        let u: char = if 'a' <= c && c <= 'z' {
            (c as u8 - 32) as char
        } else {
            c
        };
        out.push(u);
        assert(out@ =~= ascii_upper(s@).take(i + 1));
        i = i + 1;
    }
    out
}

// ── Numbers ─────────────────────────────────────────────────────────────────

/// Whether every character of `s` is a decimal digit.
pub open spec fn all_digits(s: Seq<char>) -> bool {
    forall|i: int| 0 <= i < s.len() ==> '0' <= #[trigger] s[i] <= '9'
}

/// The number that a row of decimal digits writes.
pub open spec fn decimal_value(s: Seq<char>) -> nat
    decreases s.len(),
{
    if s.len() == 0 {
        0
    } else {
        (decimal_value(s.drop_last()) * 10 + (s.last() as int - '0' as int)) as nat
    }
}

/// The number that a text writes in decimal, with or without a leading `+`;
/// `None` unless it is at least one digit and nothing else, and at most `max`.
pub open spec fn decimal(s: Seq<char>, max: nat) -> Option<nat> {
    let digits = if s.len() > 0 && s[0] == '+' {
        s.drop_first()
    } else {
        s
    };
    if digits.len() > 0 && all_digits(digits) && decimal_value(digits) <= max {
        Some(decimal_value(digits))
    } else {
        None
    }
}

proof fn lemma_decimal_value_grows(s: Seq<char>, n: int)
    requires
        all_digits(s),
        0 <= n <= s.len(),
    ensures
        decimal_value(s.take(n)) <= decimal_value(s),
    decreases s.len() - n,
{
    if n < s.len() {
        lemma_decimal_value_grows(s, n + 1);
        assert(s.take(n + 1).drop_last() =~= s.take(n));
        assert('0' <= s[n] <= '9');
    } else {
        assert(s.take(n) =~= s);
    }
}

/// Reads an unsigned decimal number that is at most `max`.
pub fn parse_decimal(s: &str, max: u32) -> (r: Option<u32>)
    ensures
        r is Some <==> decimal(s@, max as nat) is Some,
        r matches Some(n) ==> Some(n as nat) == decimal(s@, max as nat),
{
    let v = chars_of(s);
    let mut i: usize = 0;
    if v.len() > 0 && v[0] == '+' {
        i = 1;
    }
    let start: usize = i;
    let ghost digits = s@.skip(start as int);
    assert(start == 0 ==> digits =~= s@);
    assert(start == 1 ==> digits =~= s@.drop_first());
    if i == v.len() {
        return None;
    }
    let mut acc: u64 = 0;
    while i < v.len()
        invariant
            start <= i <= v.len(),
            start <= 1,
            v@ == s@,
            digits == s@.skip(start as int),
            decimal(s@, max as nat) == (if digits.len() > 0 && all_digits(digits) && decimal_value(
                digits,
            ) <= max {
                Some(decimal_value(digits))
            } else {
                None
            }),
            all_digits(digits.take(i - start)),
            acc == decimal_value(digits.take(i - start)),
            acc <= max,
        decreases v.len() - i,
    {
        let c = v[i];
        assert(c == digits[i - start]);
        if c < '0' || '9' < c {
            return None;
        }
        let d: u64 = (c as u8 - 48) as u64;
        proof {
            assert(digits.take(i - start + 1).drop_last() =~= digits.take(i - start));
        }
        acc = acc * 10 + d;
        if acc > max as u64 {
            proof {
                if all_digits(digits) {
                    lemma_decimal_value_grows(digits, i - start + 1);
                }
            }
            return None;
        }
        i = i + 1;
    }
    assert(digits.take(i - start) =~= digits);
    Some(acc as u32)
}

} // verus!
