//! What the text operations are for.

use vstd::prelude::*;
use vstd::utf8::is_ascii_chars;

use crate::text::{
    all_digits, ascii_lower, ascii_upper, decimal, decimal_value, is_white_space, joined,
    lemma_split_nonempty, lemma_words_nonempty, lines, lowercase, split, starts_blank, trimmed,
    trimmed_end, trimmed_start, undotted, unicode_lowercase, without_return, words,
};

verus! {

// ── Splitting and joining ───────────────────────────────────────────────────

/// Whether `c` does not stand in `s`.
pub open spec fn lacks(s: Seq<char>, c: char) -> bool {
    forall|i: int| 0 <= i < s.len() ==> #[trigger] s[i] != c
}

/// Joining puts the separator between each two neighbours and nothing else.
pub proof fn joining(parts: Seq<Seq<char>>, last: Seq<char>, sep: char)
    ensures
        joined(Seq::empty(), sep).len() == 0,
        joined(seq![last], sep) == last,
        parts.len() > 0 ==> joined(parts.push(last), sep) == joined(parts, sep) + seq![sep] + last,
{
    if parts.len() > 0 {
        assert(parts.push(last).drop_last() =~= parts);
        assert(joined(parts.push(last), sep) =~= joined(parts, sep) + seq![sep] + last);
    }
}

/// No piece of a split text holds the separator.
pub proof fn pieces_lack_separator(s: Seq<char>, sep: char)
    ensures
        split(s, sep).len() > 0,
        forall|i: int| 0 <= i < split(s, sep).len() ==> lacks(#[trigger] split(s, sep)[i], sep),
    decreases s.len(),
{
    if s.len() > 0 {
        pieces_lack_separator(s.drop_last(), sep);
        let init = split(s.drop_last(), sep);
        assert(lacks(init[init.len() - 1], sep));
    }
}

/// A text is split at its first separator into what stands before it and the pieces
/// of what stands behind it; without a separator it is one piece.
pub proof fn splitting(first: Seq<char>, rest: Seq<char>, sep: char)
    requires
        lacks(first, sep),
    ensures
        split(first, sep) == seq![first],
        split(first + seq![sep] + rest, sep) == seq![first] + split(rest, sep),
    decreases first.len() + rest.len(),
{
    let whole = first + seq![sep] + rest;
    lemma_one_piece(first, sep);
    if rest.len() == 0 {
        assert(whole.drop_last() =~= first);
        assert(whole.last() == sep);
        assert(split(whole, sep) =~= seq![first] + split(rest, sep));
    } else {
        let init = rest.drop_last();
        splitting(first, init, sep);
        lemma_split_nonempty(init, sep);
        assert(whole.drop_last() =~= first + seq![sep] + init);
        assert(whole.last() == rest.last());
        let before = seq![first] + split(init, sep);
        assert(before.drop_last() =~= seq![first] + split(init, sep).drop_last());
        assert(split(whole, sep) =~= seq![first] + split(rest, sep));
    }
}

proof fn lemma_one_piece(s: Seq<char>, sep: char)
    requires
        lacks(s, sep),
    ensures
        split(s, sep) == seq![s],
    decreases s.len(),
{
    if s.len() == 0 {
        assert(s =~= Seq::empty());
    } else {
        let init = s.drop_last();
        assert(lacks(init, sep)) by {
            assert forall|i: int| 0 <= i < init.len() implies #[trigger] init[i] != sep by {
                assert(init[i] == s[i]);
            }
        }
        lemma_one_piece(init, sep);
        assert(s.last() == s[s.len() - 1]);
        assert(init.push(s.last()) =~= s);
        assert(split(s, sep) =~= seq![s]);
    }
}

/// Parts without the separator come back from the text that they are joined to.
pub proof fn join_then_split(parts: Seq<Seq<char>>, sep: char)
    requires
        parts.len() > 0,
        forall|i: int| 0 <= i < parts.len() ==> lacks(#[trigger] parts[i], sep),
    ensures
        split(joined(parts, sep), sep) == parts,
    decreases parts.len(),
{
    assert(lacks(parts[0], sep));
    if parts.len() == 1 {
        splitting(parts[0], Seq::empty(), sep);
        assert(parts =~= seq![parts[0]]);
    } else {
        let rest = parts.drop_first();
        assert forall|i: int| 0 <= i < rest.len() implies lacks(#[trigger] rest[i], sep) by {
            assert(rest[i] == parts[i + 1]);
        }
        join_then_split(rest, sep);
        lemma_joined_first(parts, sep);
        splitting(parts[0], joined(rest, sep), sep);
        assert(seq![parts[0]] + rest =~= parts);
    }
}

pub(crate) proof fn lemma_joined_first(parts: Seq<Seq<char>>, sep: char)
    requires
        parts.len() > 1,
    ensures
        joined(parts, sep) == parts[0] + seq![sep] + joined(parts.drop_first(), sep),
    decreases parts.len(),
{
    let init = parts.drop_last();
    let rest = parts.drop_first();
    if parts.len() == 2 {
        assert(joined(init, sep) == parts[0]);
        assert(joined(rest, sep) == parts[1]);
        assert(joined(parts, sep) =~= parts[0] + seq![sep] + joined(rest, sep));
    } else {
        lemma_joined_first(init, sep);
        assert(rest.drop_last() =~= init.drop_first());
        assert(rest.last() == parts.last());
        assert(joined(parts, sep) =~= parts[0] + seq![sep] + joined(rest, sep));
    }
}

// ── White space and dots at the ends ────────────────────────────────────────

/// Whether `s` is white space and nothing else.
pub open spec fn blank(s: Seq<char>) -> bool {
    forall|i: int| 0 <= i < s.len() ==> is_white_space(#[trigger] s[i])
}

/// Trimming takes the white space off the ends and leaves what is between.
pub proof fn trimming(a: Seq<char>, middle: Seq<char>, b: Seq<char>)
    requires
        blank(a),
        blank(b),
        middle.len() > 0 ==> !is_white_space(middle[0]) && !is_white_space(middle.last()),
    ensures
        trimmed(a + middle + b) == middle,
        middle.len() > 0 ==> trimmed_end(a + middle + b) == a + middle,
        trimmed_end(a).len() == 0,
{
    let whole = a + middle + b;
    lemma_blank_end(Seq::empty(), a);
    assert(Seq::empty() + a =~= a);
    if middle.len() == 0 {
        assert(blank(whole));
        lemma_blank_start(whole, Seq::empty());
        assert(whole + Seq::empty() =~= whole);
        assert(middle =~= Seq::empty());
    } else {
        lemma_blank_end(a + middle, b);
        lemma_blank_start(a, middle + b);
        assert(whole =~= a + (middle + b));
        assert((middle + b)[0] == middle[0]);
        lemma_blank_end(middle, b);
    }
}

proof fn lemma_blank_end(s: Seq<char>, b: Seq<char>)
    requires
        blank(b),
        s.len() > 0 ==> !is_white_space(s.last()),
    ensures
        trimmed_end(s + b) == s,
    decreases b.len(),
{
    if b.len() == 0 {
        assert(s + b =~= s);
    } else {
        assert(is_white_space(b[b.len() - 1]));
        assert((s + b).drop_last() =~= s + b.drop_last());
        assert(blank(b.drop_last())) by {
            assert forall|i: int| 0 <= i < b.len() - 1 implies is_white_space(
                #[trigger] b.drop_last()[i],
            ) by {
                assert(b.drop_last()[i] == b[i]);
            }
        }
        lemma_blank_end(s, b.drop_last());
    }
}

proof fn lemma_blank_start(a: Seq<char>, s: Seq<char>)
    requires
        blank(a),
        s.len() > 0 ==> !is_white_space(s[0]),
    ensures
        trimmed_start(a + s) == s,
    decreases a.len(),
{
    if a.len() == 0 {
        assert(a + s =~= s);
    } else {
        assert(is_white_space(a[0]));
        assert((a + s).drop_first() =~= a.drop_first() + s);
        assert(blank(a.drop_first())) by {
            assert forall|i: int| 0 <= i < a.len() - 1 implies is_white_space(
                #[trigger] a.drop_first()[i],
            ) by {
                assert(a.drop_first()[i] == a[i + 1]);
            }
        }
        lemma_blank_start(a.drop_first(), s);
    }
}

/// A text starts with white space exactly if its first character is white space.
pub proof fn starting_blank(c: char, rest: Seq<char>)
    ensures
        starts_blank(seq![c] + rest) <==> is_white_space(c),
        !starts_blank(Seq::empty()),
{
    assert((seq![c] + rest)[0] == c);
}

/// Dots at the end are taken off, and no other character.
pub proof fn taking_dots_off(s: Seq<char>, dots: Seq<char>)
    requires
        s.len() > 0 ==> s.last() != '.',
        forall|i: int| 0 <= i < dots.len() ==> #[trigger] dots[i] == '.',
    ensures
        undotted(s + dots) == s,
    decreases dots.len(),
{
    if dots.len() == 0 {
        assert(s + dots =~= s);
    } else {
        let fewer = dots.drop_last();
        assert(dots[dots.len() - 1] == '.');
        assert((s + dots).drop_last() =~= s + fewer);
        assert forall|i: int| 0 <= i < fewer.len() implies #[trigger] fewer[i] == '.' by {
            assert(fewer[i] == dots[i]);
        }
        taking_dots_off(s, fewer);
    }
}

// ── Words and lines ─────────────────────────────────────────────────────────

/// Whether `s` is not empty and holds no white space.
pub open spec fn solid(s: Seq<char>) -> bool {
    s.len() > 0 && forall|i: int| 0 <= i < s.len() ==> !is_white_space(#[trigger] s[i])
}

/// The words of a text: white space in front does not count, the first word reaches
/// to the next white space, and then come the words of the rest.
pub proof fn words_of_a_text(gap: Seq<char>, word: Seq<char>, rest: Seq<char>)
    requires
        blank(gap),
        solid(word),
        rest.len() > 0 ==> is_white_space(rest[0]),
    ensures
        words(gap).len() == 0,
        words(gap + word + rest) == seq![word] + words(rest),
    decreases rest.len(),
{
    lemma_no_words(gap);
    let whole = gap + word + rest;
    if rest.len() == 0 {
        assert(whole =~= gap + word);
        lemma_one_word(gap, word);
        assert(words(rest) =~= Seq::empty());
        assert(seq![word] + words(rest) =~= seq![word]);
    } else {
        let init = rest.drop_last();
        words_of_a_text(gap, word, init);
        assert(whole.drop_last() =~= gap + word + init);
        assert(whole.last() == rest.last());
        if !is_white_space(rest.last()) {
            assert(rest.len() > 1);
            assert(whole[whole.len() - 2] == rest[rest.len() - 2]);
            let before = seq![word] + words(init);
            if !is_white_space(rest[rest.len() - 2]) {
                lemma_words_nonempty(init);
                assert(before.drop_last() =~= seq![word] + words(init).drop_last());
                assert(before.last() == words(init).last());
            }
            assert(words(whole) =~= seq![word] + words(rest));
        }
    }
}

proof fn lemma_no_words(s: Seq<char>)
    requires
        blank(s),
    ensures
        words(s).len() == 0,
    decreases s.len(),
{
    if s.len() > 0 {
        assert(is_white_space(s[s.len() - 1]));
        assert(blank(s.drop_last())) by {
            assert forall|i: int| 0 <= i < s.len() - 1 implies is_white_space(
                #[trigger] s.drop_last()[i],
            ) by {
                assert(s.drop_last()[i] == s[i]);
            }
        }
        lemma_no_words(s.drop_last());
    }
}

proof fn lemma_one_word(gap: Seq<char>, word: Seq<char>)
    requires
        blank(gap),
        solid(word),
    ensures
        words(gap + word) == seq![word],
    decreases word.len(),
{
    let s = gap + word;
    let n = word.len() - 1;
    assert(!is_white_space(word[n]));
    assert(s.last() == word[n]);
    if n == 0 {
        assert(s.drop_last() =~= gap);
        lemma_no_words(gap);
        if gap.len() > 0 {
            assert(s[s.len() - 2] == gap[gap.len() - 1]);
            assert(is_white_space(gap[gap.len() - 1]));
        }
        assert(seq![s.last()] =~= word);
        assert(words(s) =~= seq![word]);
    } else {
        let init = word.drop_last();
        assert(solid(init)) by {
            assert forall|i: int| 0 <= i < init.len() implies !is_white_space(
                #[trigger] init[i],
            ) by {
                assert(init[i] == word[i]);
            }
        }
        lemma_one_word(gap, init);
        assert(s.drop_last() =~= gap + init);
        assert(s[s.len() - 2] == word[n - 1]);
        assert(!is_white_space(word[n - 1]));
        assert(init.push(word[n]) =~= word);
        assert(words(s) =~= seq![word]);
    }
}

/// Words with single spaces between them are the words of that text.
pub proof fn spaced_words(ws: Seq<Seq<char>>)
    requires
        forall|i: int| 0 <= i < ws.len() ==> solid(#[trigger] ws[i]),
    ensures
        words(joined(ws, ' ')) == ws,
    decreases ws.len(),
{
    if ws.len() == 0 {
        assert(words(joined(ws, ' ')) =~= ws);
    } else {
        let none = Seq::<char>::empty();
        let first = ws[0];
        assert(solid(first));
        if ws.len() == 1 {
            words_of_a_text(none, first, none);
            assert(none + first + none =~= first);
            assert(seq![first] + words(none) =~= ws);
        } else {
            let rest = ws.drop_first();
            assert forall|i: int| 0 <= i < rest.len() implies solid(#[trigger] rest[i]) by {
                assert(rest[i] == ws[i + 1]);
            }
            spaced_words(rest);
            lemma_joined_first(ws, ' ');
            let tail = seq![' '] + joined(rest, ' ');
            words_of_a_text(none, first, tail);
            assert(none + first + tail =~= joined(ws, ' '));
            lemma_leading_space(joined(rest, ' '));
            assert(seq![first] + rest =~= ws);
        }
    }
}

proof fn lemma_leading_space(s: Seq<char>)
    ensures
        words(seq![' '] + s) == words(s),
    decreases s.len(),
{
    let t = seq![' '] + s;
    if s.len() == 0 {
        assert(t.drop_last() =~= Seq::empty());
        assert(t.last() == ' ');
        assert(words(t.drop_last()) =~= Seq::empty());
        assert(words(t) =~= words(s));
    } else {
        assert(t.drop_last() =~= seq![' '] + s.drop_last());
        assert(t.last() == s.last());
        lemma_leading_space(s.drop_last());
        assert(t[t.len() - 2] == if s.len() > 1 {
            s[s.len() - 2]
        } else {
            ' '
        });
    }
}

/// A line ends at the first line feed, or at a carriage return and line feed; the
/// lines of the rest follow. Text without a line feed is one line.
pub proof fn lines_of_a_text(line: Seq<char>, rest: Seq<char>)
    requires
        lacks(line, '\n'),
    ensures
        lines(Seq::empty()).len() == 0,
        line.len() > 0 ==> lines(line) == seq![line],
        (line.len() > 0 ==> line.last() != '\r') ==> lines(line + seq!['\n'] + rest) == seq![line]
            + lines(rest),
        lines(line + seq!['\r', '\n'] + rest) == seq![line] + lines(rest),
{
    let none = Seq::<char>::empty();
    splitting(none, none, '\n');
    splitting(line, rest, '\n');
    assert(seq![none].drop_last() =~= Seq::empty());
    assert(lines(none) =~= Seq::empty());
    if line.len() > 0 {
        assert(seq![line].drop_last() =~= Seq::empty());
        assert(lines(line) =~= seq![line]);
    }
    lemma_line_then(line, rest);
    let cr = line.push('\r');
    assert(lacks(cr, '\n'));
    splitting(cr, rest, '\n');
    lemma_line_then(cr, rest);
    assert(cr + seq!['\n'] + rest =~= line + seq!['\r', '\n'] + rest);
    assert(cr.drop_last() =~= line);
}

proof fn lemma_line_then(line: Seq<char>, rest: Seq<char>)
    requires
        lacks(line, '\n'),
        split(line + seq!['\n'] + rest, '\n') == seq![line] + split(rest, '\n'),
    ensures
        lines(line + seq!['\n'] + rest) == seq![without_return(line)] + lines(rest),
{
    lemma_split_nonempty(rest, '\n');
    let pieces = split(rest, '\n');
    let whole = seq![line] + pieces;
    let f = |p: Seq<char>| without_return(p);
    assert(whole.drop_last() =~= seq![line] + pieces.drop_last());
    assert(whole.drop_last().map_values(f) =~= seq![without_return(line)]
        + pieces.drop_last().map_values(f));
    assert(whole.last() == pieces.last());
    assert(lines(line + seq!['\n'] + rest) =~= seq![without_return(line)] + lines(rest));
}

// ── Case ────────────────────────────────────────────────────────────────────

/// Lower case of ASCII text: each capital becomes the letter 32 further on, and every
/// other character stays. Of any other text it is what the Unicode case mappings give.
pub proof fn ascii_lower_case(s: Seq<char>)
    ensures
        ascii_lower(s).len() == s.len(),
        is_ascii_chars(s) ==> lowercase(s) == ascii_lower(s),
        !is_ascii_chars(s) ==> lowercase(s) == unicode_lowercase(s),
        forall|i: int|
            0 <= i < s.len() ==> #[trigger] ascii_lower(s)[i] as int == s[i] as int + (if 65
                <= s[i] as int <= 90 {
                32int
            } else {
                0int
            }),
{
}

/// Capitals of ASCII text: each small letter becomes the letter 32 before it, and
/// every other character stays.
pub proof fn ascii_upper_case(s: Seq<char>)
    ensures
        ascii_upper(s).len() == s.len(),
        forall|i: int|
            0 <= i < s.len() ==> #[trigger] ascii_upper(s)[i] as int == s[i] as int - (if 97
                <= s[i] as int <= 122 {
                32int
            } else {
                0int
            }),
{
}

// ── Numbers ─────────────────────────────────────────────────────────────────

/// The character of a decimal digit.
pub open spec fn digit_char(d: int) -> char {
    (48 + d) as char
}

/// How a number is written in decimal, without leading zeros.
pub open spec fn decimal_text(n: nat) -> Seq<char>
    decreases n,
{
    if n < 10 {
        seq![digit_char(n as int)]
    } else {
        decimal_text(n / 10).push(digit_char((n % 10) as int))
    }
}

pub(crate) proof fn lemma_decimal_text(n: nat)
    ensures
        decimal_text(n).len() > 0,
        all_digits(decimal_text(n)),
        decimal_value(decimal_text(n)) == n,
        decimal_text(n)[0] == '0' ==> n == 0,
        n < 10 ==> decimal_text(n).len() == 1,
        10 <= n < 100 ==> decimal_text(n).len() == 2,
        100 <= n < 1000 ==> decimal_text(n).len() == 3,
    decreases n,
{
    let t = decimal_text(n);
    if n < 10 {
        assert(t.drop_last() =~= Seq::empty());
        assert(decimal_value(t.drop_last()) == 0);
        assert(t.last() as int == 48 + n);
    } else {
        let init = decimal_text(n / 10);
        lemma_decimal_text(n / 10);
        assert(t.drop_last() =~= init);
        assert(t.last() as int == 48 + n % 10);
        assert forall|i: int| 0 <= i < t.len() implies '0' <= #[trigger] t[i] <= '9' by {
            if i < init.len() {
                assert(t[i] == init[i]);
            }
        }
        assert(t[0] == init[0]);
    }
}

proof fn lemma_leading_zero(t: Seq<char>)
    ensures
        decimal_value(seq!['0'] + t) == decimal_value(t),
        all_digits(seq!['0'] + t) == all_digits(t),
    decreases t.len(),
{
    let z = seq!['0'] + t;
    if t.len() == 0 {
        assert(z.drop_last() =~= Seq::empty());
        assert(decimal_value(z.drop_last()) == 0);
        assert(z.last() == '0');
    } else {
        assert(z.drop_last() =~= seq!['0'] + t.drop_last());
        assert(z.last() == t.last());
        lemma_leading_zero(t.drop_last());
    }
    if all_digits(z) {
        assert forall|i: int| 0 <= i < t.len() implies '0' <= #[trigger] t[i] <= '9' by {
            assert(t[i] == z[i + 1]);
        }
    }
    if all_digits(t) {
        assert forall|i: int| 0 <= i < z.len() implies '0' <= #[trigger] z[i] <= '9' by {
            if i > 0 {
                assert(z[i] == t[i - 1]);
            }
        }
    }
}

/// A number in decimal is read as that number if it is not too large, and is refused
/// if it is. A zero in front of a number, and a plus sign in front of a number without
/// one, change nothing.
pub proof fn numbers_are_read(n: nat, max: nat, s: Seq<char>)
    ensures
        decimal(decimal_text(n), max) == (if n <= max {
            Some(n)
        } else {
            None::<nat>
        }),
        s.len() > 0 && s[0] != '+' ==> decimal(seq!['0'] + s, max) == decimal(s, max),
        s.len() > 0 && s[0] != '+' ==> decimal(seq!['+'] + s, max) == decimal(s, max),
{
    let t = decimal_text(n);
    lemma_decimal_text(n);
    assert('0' <= t[0] <= '9');
    lemma_leading_zero(s);
    if s.len() > 0 {
        assert((seq!['+'] + s).drop_first() =~= s);
    }
}

/// What is read as a number consists of decimal digits, at least one, behind at most
/// one plus sign.
pub proof fn only_numbers_are_read(s: Seq<char>, max: nat)
    requires
        decimal(s, max) is Some,
    ensures
        decimal(s, max)->0 <= max,
        s.len() > 0,
        48 <= s.last() as int <= 57,
        forall|i: int|
            0 <= i < s.len() ==> 48 <= #[trigger] s[i] as int <= 57 || (i == 0 && s[i] == '+'),
{
    if s[0] == '+' {
        let d = s.drop_first();
        assert forall|i: int| 0 < i < s.len() implies 48 <= #[trigger] s[i] as int <= 57 by {
            assert(s[i] == d[i - 1]);
        }
    }
}

/// The only way to write a number without leading zeros.
pub(crate) proof fn lemma_only_text(s: Seq<char>)
    requires
        s.len() > 0,
        all_digits(s),
        s[0] == '0' ==> s.len() == 1,
    ensures
        s == decimal_text(decimal_value(s)),
        s[0] != '0' ==> decimal_value(s) > 0,
    decreases s.len(),
{
    let n = decimal_value(s);
    let init = s.drop_last();
    let last = s[s.len() - 1];
    assert('0' <= last <= '9');
    if s.len() == 1 {
        assert(init =~= Seq::empty());
        assert(decimal_value(init) == 0);
        assert(digit_char(n as int) == last);
        assert(s =~= decimal_text(n));
    } else {
        assert(init[0] == s[0]);
        assert forall|i: int| 0 <= i < init.len() implies '0' <= #[trigger] init[i] <= '9' by {
            assert(init[i] == s[i]);
        }
        lemma_only_text(init);
        let d = last as int - '0' as int;
        assert(n == decimal_value(init) * 10 + d);
        assert(n / 10 == decimal_value(init) && n % 10 == d);
        assert(digit_char(d) == last);
        assert(s =~= decimal_text(n));
    }
}

} // verus!
