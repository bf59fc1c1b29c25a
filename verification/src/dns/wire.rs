//! Bytes in network order.

use vstd::prelude::*;

verus! {

/// The two bytes of `v`, most significant first.
pub open spec fn be16(v: u16) -> Seq<u8> {
    seq![(v / 256) as u8, (v % 256) as u8]
}

/// The four bytes of `v`, most significant first.
pub open spec fn be32(v: u32) -> Seq<u8> {
    seq![
        (v / 0x100_0000) as u8,
        (v / 0x1_0000 % 256) as u8,
        (v / 256 % 256) as u8,
        (v % 256) as u8,
    ]
}

/// The number whose two bytes, most significant first, stand at `pos`.
pub open spec fn u16_at(buf: Seq<u8>, pos: int) -> u16 {
    (buf[pos] * 256 + buf[pos + 1]) as u16
}

/// What a 16-bit count field holds of a count: its low 16 bits.
pub open spec fn count16(n: nat) -> u16 {
    (n % 0x1_0000) as u16
}

/// Appends `v`, most significant byte first.
pub fn push_u16(buf: &mut Vec<u8>, v: u16)
    ensures
        final(buf)@ == old(buf)@ + be16(v),
{
    buf.push((v / 256) as u8);
    buf.push((v % 256) as u8);
    assert(buf@ =~= old(buf)@ + be16(v));
}

/// Appends `v`, most significant byte first.
pub fn push_u32(buf: &mut Vec<u8>, v: u32)
    ensures
        final(buf)@ == old(buf)@ + be32(v),
{
    buf.push((v / 0x100_0000) as u8);
    buf.push((v / 0x1_0000 % 256) as u8);
    buf.push((v / 256 % 256) as u8);
    buf.push((v % 256) as u8);
    assert(buf@ =~= old(buf)@ + be32(v));
}

/// Appends all of `bytes`.
pub fn push_bytes(buf: &mut Vec<u8>, bytes: &[u8])
    ensures
        final(buf)@ == old(buf)@ + bytes@,
{
    buf.extend_from_slice(bytes);
    assert(buf@ =~= old(buf)@ + bytes@);
}

/// Reads the 16-bit number at `pos`.
pub fn read_u16(buf: &[u8], pos: usize) -> (r: u16)
    requires
        pos + 1 < buf@.len(),
    ensures
        r == u16_at(buf@, pos as int),
{
    (buf[pos] as u16) * 256 + (buf[pos + 1] as u16)
}

/// A 16-bit number reads back as it was written.
pub proof fn be16_read_back(buf: Seq<u8>, pos: int, v: u16)
    requires
        0 <= pos,
        pos + 2 <= buf.len(),
        buf.subrange(pos, pos + 2) == be16(v),
    ensures
        u16_at(buf, pos) == v,
{
    assert(buf[pos] == buf.subrange(pos, pos + 2)[0]);
    assert(buf[pos + 1] == buf.subrange(pos, pos + 2)[1]);
}

/// The two bytes of a 16-bit number, read most significant first, give it back.
pub proof fn be16_value(v: u16)
    ensures
        be16(v).len() == 2,
        be16(v)[0] * 256 + be16(v)[1] == v,
{
}

/// The four bytes of a 32-bit number, read most significant first, give it back, so
/// no two numbers are written alike.
pub proof fn be32_value(v: u32)
    ensures
        be32(v).len() == 4,
        be32(v)[0] * 0x100_0000 + be32(v)[1] * 0x1_0000 + be32(v)[2] * 0x100 + be32(v)[3] == v,
{
}

/// The number in two bytes counts the first 256 times as much as the second, wherever
/// they stand.
pub proof fn number_in_two_bytes(before: Seq<u8>, high: u8, low: u8, behind: Seq<u8>)
    ensures
        u16_at(before + seq![high, low] + behind, before.len() as int) == high * 256 + low,
{
    let buf = before + seq![high, low] + behind;
    let n = before.len() as int;
    assert(buf[n] == high && buf[n + 1] == low);
}

/// A count field holds a count below 65536 as it is, and a larger one less 65536 as
/// often as it takes.
pub proof fn counts_wrap(n: nat)
    ensures
        n < 65536 ==> count16(n) == n,
        count16(n + 65536) == count16(n),
{
}

/// A count that fits its field is held exactly.
pub proof fn count16_exact(n: nat)
    requires
        n < 0x1_0000,
    ensures
        count16(n) == n,
{
}

} // verus!
