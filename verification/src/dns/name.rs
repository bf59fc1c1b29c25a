//! Domain names on the wire (RFC 1035 §3.1, §4.1.4).
//!
//! A name is a row of length-prefixed labels that a zero byte ends. On reading, a
//! compression pointer may stand in place of the rest of a name; on writing, no
//! compression is applied.

use std::str::Utf8Error;

use vstd::prelude::*;
use vstd::slice::slice_subrange;
use vstd::utf8::*;

use super::message::ParseError;
use super::wire::push_bytes;
use crate::text::{
    join, joined, lemma_texts_push, lowercase, split, split_at_char, split_then_join,
    strip_dots, texts, undotted,
};

verus! {

/// `std::str::Utf8Error`, of which nothing is read.
#[verifier::external_type_specification]
#[verifier::external_body]
pub struct ExUtf8Error(Utf8Error);

/// `std::str::from_utf8` succeeds on exactly the byte sequences that are valid
/// UTF-8, and then gives the text that they encode.
pub assume_specification[ std::str::from_utf8 ](v: &[u8]) -> (r: Result<&str, Utf8Error>)
    ensures
        r is Ok <==> valid_utf8(v@),
        r matches Ok(s) ==> s@ == decode_utf8(v@),
;

/// How many compression pointers a name may take to read.
pub const MAX_POINTERS: u8 = 10;

/// The least first byte of a compression pointer: its top two bits are set.
pub const POINTER: u8 = 0xC0;

// ── Reading ─────────────────────────────────────────────────────────────────

/// Where the compression pointer at `pos` points: its low 14 bits.
pub open spec fn pointer_target(buf: Seq<u8>, pos: int) -> int {
    (buf[pos] - POINTER) * 256 + buf[pos + 1]
}

/// The bytes of the label whose length byte stands at `pos`.
pub open spec fn label_at(buf: Seq<u8>, pos: int) -> Seq<u8> {
    buf.subrange(pos + 1, pos + 1 + buf[pos])
}

/// The labels of the name at `pos`, when `hops` pointers have been followed to
/// get there.
pub open spec fn labels_at(buf: Seq<u8>, pos: int, hops: int) -> Result<
    Seq<Seq<char>>,
    ParseError,
>
    decreases MAX_POINTERS - hops, buf.len() - pos,
{
    if pos < 0 || pos >= buf.len() {
        Err(ParseError::Truncated)
    } else if buf[pos] == 0 {
        Ok(Seq::empty())
    } else if buf[pos] >= POINTER {
        if pos + 1 >= buf.len() {
            Err(ParseError::Truncated)
        } else if hops >= MAX_POINTERS {
            Err(ParseError::InvalidName)
        } else {
            labels_at(buf, pointer_target(buf, pos), hops + 1)
        }
    } else if pos + 1 + buf[pos] > buf.len() {
        Err(ParseError::Truncated)
    } else if !valid_utf8(label_at(buf, pos)) {
        Err(ParseError::InvalidName)
    } else {
        match labels_at(buf, pos + 1 + buf[pos], hops) {
            Ok(rest) => Ok(seq![decode_utf8(label_at(buf, pos))] + rest),
            Err(e) => Err(e),
        }
    }
}

/// Where reading goes on after the name at `pos`: past its zero byte, or past
/// its first pointer. `None` if neither is reached.
pub open spec fn name_end(buf: Seq<u8>, pos: int) -> Option<int>
    decreases buf.len() - pos,
{
    if pos < 0 || pos >= buf.len() {
        None
    } else if buf[pos] == 0 {
        Some(pos + 1)
    } else if buf[pos] >= POINTER {
        if pos + 1 >= buf.len() {
            None
        } else {
            Some(pos + 2)
        }
    } else if pos + 1 + buf[pos] > buf.len() || !valid_utf8(label_at(buf, pos)) {
        None
    } else {
        name_end(buf, pos + 1 + buf[pos])
    }
}

/// `first`, then what was read after it.
spec fn then_labels(
    first: Seq<Seq<char>>,
    rest: Result<Seq<Seq<char>>, ParseError>,
) -> Result<Seq<Seq<char>>, ParseError> {
    match rest {
        Ok(labels) => Ok(first + labels),
        Err(e) => Err(e),
    }
}

/// Reads the labels of the name at `*offset`, following compression pointers, and
/// moves `*offset` past the name. The cursor moves past the first pointer only;
/// further pointers do not move it.
pub fn read_labels(buf: &[u8], offset: &mut usize) -> (r: Result<Vec<String>, ParseError>)
    ensures
        match r {
            Ok(labels) => labels_at(buf@, *old(offset) as int, 0) == Ok::<_, ParseError>(
                texts(labels@),
            ),
            Err(e) => labels_at(buf@, *old(offset) as int, 0) == Err::<Seq<Seq<char>>, _>(e),
        },
        match name_end(buf@, *old(offset) as int) {
            Some(end) => *final(offset) == end,
            None => *final(offset) == *old(offset),
        },
{
    let mut labels: Vec<String> = Vec::new();
    let mut pos: usize = *offset;
    let mut jumped: bool = false;
    let mut hops: u8 = 0;
    let ghost start = *offset as int;
    assert(then_labels(texts(labels@), labels_at(buf@, start, 0)) == labels_at(buf@, start, 0)) by {
        if let Ok(rest) = labels_at(buf@, start, 0) {
            assert(texts(labels@) + rest =~= rest);
        }
    }
    loop
        invariant
            hops <= MAX_POINTERS,
            start == *old(offset) as int,
            labels_at(buf@, start, 0) == then_labels(
                texts(labels@),
                labels_at(buf@, pos as int, hops as int),
            ),
            jumped ==> name_end(buf@, start) == Some(*offset as int),
            !jumped ==> *offset == start && name_end(buf@, start) == name_end(buf@, pos as int),
        decreases MAX_POINTERS - hops, buf@.len() - pos,
    {
        if pos >= buf.len() {
            return Err(ParseError::Truncated);
        }
        let b: u8 = buf[pos];
        if b == 0 {
            if !jumped {
                *offset = pos + 1;
            }
            assert(texts(labels@) + Seq::<Seq<char>>::empty() =~= texts(labels@));
            return Ok(labels);
        }
        if b >= POINTER {
            if buf.len() - pos < 2 {
                return Err(ParseError::Truncated);
            }
            if !jumped {
                *offset = pos + 2;
            }
            jumped = true;
            if hops >= MAX_POINTERS {
                return Err(ParseError::InvalidName);
            }
            hops = hops + 1;
            pos = ((b - POINTER) as usize) * 256 + buf[pos + 1] as usize;
            continue;
        }
        let len: usize = b as usize;
        if buf.len() - pos - 1 < len {
            return Err(ParseError::Truncated);
        }
        let bytes = slice_subrange(buf, pos + 1, pos + 1 + len);
        assert(bytes@ == label_at(buf@, pos as int));
        match std::str::from_utf8(bytes) {
            Err(_) => {
                return Err(ParseError::InvalidName);
            },
            Ok(text) => {
                let label = text.to_owned();
                let ghost before = texts(labels@);
                proof {
                    lemma_texts_push(labels@, label);
                    if let Ok(rest) = labels_at(buf@, pos + 1 + len, hops as int) {
                        assert(before + (seq![label@] + rest) =~= before.push(label@) + rest);
                    }
                }
                labels.push(label);
            },
        }
        pos = pos + 1 + len;
    }
}

/// The dotted name that the labels make.
pub open spec fn dotted(labels: Seq<Seq<char>>) -> Seq<char> {
    joined(labels, '.')
}

/// The name at `pos`: its labels, dotted, in lower case.
pub open spec fn name_at(buf: Seq<u8>, pos: int) -> Result<Seq<char>, ParseError> {
    match labels_at(buf, pos, 0) {
        Ok(labels) => Ok(lowercase(dotted(labels))),
        Err(e) => Err(e),
    }
}

/// Reads the name at `*offset` as a dotted lower-case name, following
/// compression pointers, and moves `*offset` past it.
pub fn parse_name(buf: &[u8], offset: &mut usize) -> (r: Result<String, ParseError>)
    ensures
        match r {
            Ok(name) => name_at(buf@, *old(offset) as int) == Ok::<_, ParseError>(name@),
            Err(e) => name_at(buf@, *old(offset) as int) == Err::<Seq<char>, _>(e),
        },
        match name_end(buf@, *old(offset) as int) {
            Some(end) => *final(offset) == end,
            None => *final(offset) == *old(offset),
        },
{
    match read_labels(buf, offset) {
        Ok(labels) => {
            let name = join(labels.as_slice(), '.');
            Ok(name.as_str().to_lowercase())
        },
        Err(e) => Err(e),
    }
}

/// A name that can be read has an end, past its start and within the message.
pub(crate) proof fn lemma_name_end(buf: Seq<u8>, pos: int, hops: int)
    requires
        0 <= pos,
        labels_at(buf, pos, hops) is Ok,
    ensures
        name_end(buf, pos) matches Some(end) && pos < end <= buf.len(),
    decreases buf.len() - pos,
{
    if buf[pos] != 0 && buf[pos] < POINTER {
        lemma_name_end(buf, pos + 1 + buf[pos], hops);
    }
}

// ── Writing ─────────────────────────────────────────────────────────────────

/// One label on the wire: the low byte of its length, then its UTF-8 bytes.
pub open spec fn label_bytes(label: Seq<char>) -> Seq<u8> {
    seq![(encode_utf8(label).len() % 256) as u8] + encode_utf8(label)
}

/// The labels on the wire, in order.
pub open spec fn labels_bytes(labels: Seq<Seq<char>>) -> Seq<u8>
    decreases labels.len(),
{
    if labels.len() == 0 {
        Seq::empty()
    } else {
        labels_bytes(labels.drop_last()) + label_bytes(labels.last())
    }
}

/// The labels of a dotted name, its trailing dots apart. The root has none.
pub open spec fn labels_of(name: Seq<char>) -> Seq<Seq<char>> {
    if undotted(name).len() == 0 {
        Seq::empty()
    } else {
        split(undotted(name), '.')
    }
}

/// A name on the wire: its labels, then a zero byte.
pub open spec fn name_bytes(name: Seq<char>) -> Seq<u8> {
    labels_bytes(labels_of(name)).push(0)
}

/// Appends a name as length-prefixed labels that a zero byte ends. No compression
/// is applied.
pub fn encode_name(buf: &mut Vec<u8>, name: &str)
    ensures
        final(buf)@ == old(buf)@ + name_bytes(name@),
{
    let name = strip_dots(name);
    if name.is_empty() {
        buf.push(0);
        assert(buf@ =~= old(buf)@ + Seq::<u8>::empty().push(0));
        return;
    }
    let labels = split_at_char(name, '.');
    let ghost all = split(name@, '.');
    let mut i: usize = 0;
    assert(buf@ =~= old(buf)@ + labels_bytes(all.take(0)));
    while i < labels.len()
        invariant
            i <= labels.len(),
            texts(labels@) == all,
            buf@ == old(buf)@ + labels_bytes(all.take(i as int)),
        decreases labels.len() - i,
    {
        let bytes = labels[i].as_str().as_bytes();
        assert(all[i as int] == labels[i as int]@);
        assert(all.take(i + 1).drop_last() =~= all.take(i as int));
        buf.push((bytes.len() % 256) as u8);
        push_bytes(buf, bytes);
        assert(buf@ =~= old(buf)@ + labels_bytes(all.take(i + 1)));
        i = i + 1;
    }
    assert(all.take(i as int) =~= all);
    buf.push(0);
}

// ── Laws ────────────────────────────────────────────────────────────────────

/// Whether every label of `name` has a length that a length byte can hold: at
/// least one byte, and fewer than make a compression pointer.
pub open spec fn encodable(name: Seq<char>) -> bool {
    labels_encodable(labels_of(name))
}

/// Whether each of the labels has a length that a length byte can hold.
pub open spec fn labels_encodable(labels: Seq<Seq<char>>) -> bool {
    forall|i: int|
        0 <= i < labels.len() ==> 0 < encode_utf8(#[trigger] labels[i]).len() < POINTER
}

pub(crate) proof fn lemma_labels_bytes_first(labels: Seq<Seq<char>>)
    requires
        labels.len() > 0,
    ensures
        labels_bytes(labels) == label_bytes(labels[0]) + labels_bytes(labels.drop_first()),
    decreases labels.len(),
{
    let init = labels.drop_last();
    if init.len() == 0 {
        assert(labels.drop_first() =~= Seq::empty());
        assert(labels_bytes(init) =~= Seq::<u8>::empty());
        assert(labels_bytes(labels) =~= label_bytes(labels[0]));
        assert(labels_bytes(labels.drop_first()) =~= Seq::<u8>::empty());
    } else {
        lemma_labels_bytes_first(init);
        assert(labels.drop_first().drop_last() =~= init.drop_first());
    }
    assert(labels_bytes(labels) =~= label_bytes(labels[0]) + labels_bytes(labels.drop_first()));
}

/// Labels that were written, with a zero byte behind them, are read back as they
/// were, and reading goes on behind the zero byte.
pub proof fn labels_read_back(buf: Seq<u8>, pos: int, labels: Seq<Seq<char>>, hops: int)
    requires
        0 <= pos,
        pos + labels_bytes(labels).len() + 1 <= buf.len(),
        buf.subrange(pos, pos + labels_bytes(labels).len() + 1) == labels_bytes(labels).push(0),
        labels_encodable(labels),
    ensures
        labels_at(buf, pos, hops) == Ok::<_, ParseError>(labels),
        name_end(buf, pos) == Some(pos + labels_bytes(labels).len() + 1),
    decreases labels.len(),
{
    let bytes = labels_bytes(labels).push(0);
    let here = buf.subrange(pos, pos + bytes.len());
    assert(buf[pos] == here[0]);
    if labels.len() == 0 {
        assert(labels =~= Seq::empty());
    } else {
        let label = labels[0];
        let rest = labels.drop_first();
        let text = encode_utf8(label);
        lemma_labels_bytes_first(labels);
        assert(buf[pos] == text.len());
        let next = pos + 1 + text.len();
        assert(label_at(buf, pos) =~= text) by {
            assert forall|i: int| 0 <= i < text.len() implies label_at(buf, pos)[i] == text[i] by {
                assert(buf[pos + 1 + i] == here[1 + i]);
            }
        }
        let there = buf.subrange(next, next + labels_bytes(rest).len() + 1);
        assert(there =~= labels_bytes(rest).push(0)) by {
            assert forall|i: int| 0 <= i < there.len() implies there[i] == labels_bytes(rest).push(
                0,
            )[i] by {
                assert(buf[next + i] == here[1 + text.len() + i]);
            }
        }
        assert forall|i: int| 0 <= i < rest.len() implies 0 < encode_utf8(
            #[trigger] rest[i],
        ).len() < POINTER by {
            assert(rest[i] == labels[i + 1]);
        }
        labels_read_back(buf, next, rest, hops);
        encode_utf8_valid_utf8(label);
        encode_utf8_decode_utf8(label);
        assert(seq![label] + rest =~= labels);
    }
}

/// A name that was written is read back in lower case and without its trailing
/// dots, and reading goes on behind it.
pub proof fn name_read_back(buf: Seq<u8>, pos: int, name: Seq<char>)
    requires
        0 <= pos,
        pos + name_bytes(name).len() <= buf.len(),
        buf.subrange(pos, pos + name_bytes(name).len()) == name_bytes(name),
        encodable(name),
    ensures
        labels_at(buf, pos, 0) == Ok::<_, ParseError>(labels_of(name)),
        name_at(buf, pos) == Ok::<_, ParseError>(lowercase(undotted(name))),
        name_end(buf, pos) == Some(pos + name_bytes(name).len()),
{
    labels_read_back(buf, pos, labels_of(name), 0);
    split_then_join(undotted(name), '.');
    assert(dotted(labels_of(name)) =~= undotted(name));
}

/// Fewer pointers on the way never spoil a name.
proof fn lemma_fewer_hops(buf: Seq<u8>, pos: int, hops: int, fewer: int)
    requires
        fewer <= hops,
        labels_at(buf, pos, hops) is Ok,
    ensures
        labels_at(buf, pos, fewer) == labels_at(buf, pos, hops),
    decreases MAX_POINTERS - hops, buf.len() - pos,
{
    if buf[pos] == 0 {
    } else if buf[pos] >= POINTER {
        lemma_fewer_hops(buf, pointer_target(buf, pos), hops + 1, fewer + 1);
    } else {
        lemma_fewer_hops(buf, pos + 1 + buf[pos], hops, fewer);
    }
}

/// A name that is a compression pointer reads as the name it points to, and takes
/// two bytes.
pub proof fn pointer_reads_as_target(buf: Seq<u8>, pos: int)
    requires
        0 <= pos,
        pos + 1 < buf.len(),
        buf[pos] >= POINTER,
        labels_at(buf, pos, 0) is Ok,
    ensures
        labels_at(buf, pos, 0) == labels_at(buf, pointer_target(buf, pos), 0),
        name_at(buf, pos) == name_at(buf, pointer_target(buf, pos)),
        name_end(buf, pos) == Some(pos + 2),
{
    lemma_fewer_hops(buf, pointer_target(buf, pos), 1, 0);
}

/// Where reading a name goes on from `pos`: at the pointer's target, or behind
/// the label.
pub open spec fn next_position(buf: Seq<u8>, pos: int) -> int {
    if buf[pos] >= POINTER {
        pointer_target(buf, pos)
    } else {
        pos + 1 + buf[pos]
    }
}

/// A name whose labels and pointers never lead to a zero byte is refused: reading
/// does not run on in a loop.
pub proof fn endless_name_refused(buf: Seq<u8>, positions: Set<int>, pos: int, hops: int)
    requires
        positions.contains(pos),
        forall|p: int| #[trigger]
            positions.contains(p) ==> 0 <= p < buf.len() && buf[p] != 0 && positions.contains(
                next_position(buf, p),
            ),
    ensures
        labels_at(buf, pos, hops) is Err,
    decreases MAX_POINTERS - hops, buf.len() - pos,
{
    let next = next_position(buf, pos);
    assert(positions.contains(next));
    if buf[pos] >= POINTER {
        if hops < MAX_POINTERS {
            endless_name_refused(buf, positions, next, hops + 1);
        }
    } else {
        endless_name_refused(buf, positions, next, hops);
    }
}

/// Whether `n` compression pointers follow upon one another from `pos`.
pub open spec fn pointer_chain(buf: Seq<u8>, pos: int, n: nat) -> bool
    decreases n,
{
    n > 0 ==> {
        &&& 0 <= pos
        &&& pos + 1 < buf.len()
        &&& buf[pos] >= POINTER
        &&& pointer_chain(buf, pointer_target(buf, pos), (n - 1) as nat)
    }
}

/// A name is refused once it takes more than [`MAX_POINTERS`] pointers to reach,
/// whatever they lead to.
pub proof fn long_chain_refused(buf: Seq<u8>, pos: int, hops: int)
    requires
        0 <= hops <= MAX_POINTERS,
        pointer_chain(buf, pos, (MAX_POINTERS + 1 - hops) as nat),
    ensures
        labels_at(buf, pos, hops) == Err::<Seq<Seq<char>>, _>(ParseError::InvalidName),
    decreases MAX_POINTERS - hops,
{
    if hops < MAX_POINTERS {
        long_chain_refused(buf, pointer_target(buf, pos), hops + 1);
    }
}

} // verus!
