//! Length-prefixed byte strings: a big-endian 32-bit length, then the bytes.

use vstd::prelude::*;

verus! {

/// The four bytes of `n`, most significant first.
pub open spec fn be32(n: int) -> Seq<u8> {
    seq![
        (n / 0x1000000 % 0x100) as u8,
        (n / 0x10000 % 0x100) as u8,
        (n / 0x100 % 0x100) as u8,
        (n % 0x100) as u8,
    ]
}

/// The number that four bytes write, most significant first.
pub open spec fn be32_value(bytes: Seq<u8>) -> int {
    bytes[0] * 0x1000000 + bytes[1] * 0x10000 + bytes[2] * 0x100 + bytes[3]
}

/// A byte string behind its length. A length past 32 bits keeps its low bits
/// only.
pub open spec fn frame(bytes: Seq<u8>) -> Seq<u8> {
    be32(bytes.len() as int % 0x1_0000_0000) + bytes
}

/// The byte string framed at `position`, and where it ends; nothing if the
/// input ends first.
pub open spec fn framed_at(bytes: Seq<u8>, position: int) -> Option<(Seq<u8>, int)> {
    if position + 4 > bytes.len() {
        None
    } else {
        let start = position + 4;
        let end = start + be32_value(bytes.subrange(position, start));
        if end > bytes.len() {
            None
        } else {
            Some((bytes.subrange(start, end), end))
        }
    }
}

/// A number below two to the thirty-second reads back from its bytes.
proof fn lemma_be32(n: int)
    requires
        0 <= n < 0x1_0000_0000,
    ensures
        be32(n).len() == 4,
        be32_value(be32(n)) == n,
{
}

/// A frame reads back wherever it stands.
pub proof fn frame_reads_back(before: Seq<u8>, content: Seq<u8>, after: Seq<u8>)
    requires
        content.len() < 0x1_0000_0000,
    ensures
        framed_at(before + frame(content) + after, before.len() as int) == Some(
            (content, (before.len() + frame(content).len()) as int),
        ),
{
    let all = before + frame(content) + after;
    let position = before.len() as int;
    lemma_be32(content.len() as int);
    assert(all.subrange(position, position + 4) =~= be32(content.len() as int));
    assert(all.subrange(position + 4, position + 4 + content.len()) =~= content);
}

/// Appends `value` behind its length.
pub fn push_frame(buffer: &mut Vec<u8>, value: &[u8])
    ensures
        final(buffer)@ == old(buffer)@ + frame(value@),
{
    let length: u64 = value.len() as u64 % 0x1_0000_0000;
    buffer.push((length / 0x1000000 % 0x100) as u8);
    buffer.push((length / 0x10000 % 0x100) as u8);
    buffer.push((length / 0x100 % 0x100) as u8);
    buffer.push((length % 0x100) as u8);
    buffer.extend_from_slice(value);
    assert(buffer@ =~= old(buffer)@ + frame(value@));
}

/// A copy of part of `bytes`.
pub fn copy_range(bytes: &[u8], start: usize, end: usize) -> (copy: Vec<u8>)
    requires
        start <= end <= bytes@.len(),
    ensures
        copy@ == bytes@.subrange(start as int, end as int),
{
    vstd::slice::slice_to_vec(vstd::slice::slice_subrange(bytes, start, end))
}

/// Reads the byte string framed at `position`.
pub fn read_frame(bytes: &[u8], position: usize) -> (read: Option<(Vec<u8>, usize)>)
    requires
        position <= bytes@.len(),
    ensures
        match read {
            Some((content, end)) => framed_at(bytes@, position as int) == Some(
                (content@, end as int),
            ) && end <= bytes@.len(),
            None => framed_at(bytes@, position as int) is None,
        },
{
    if bytes.len() - position < 4 {
        return None;
    }
    let length: u64 = bytes[position] as u64 * 0x1000000 + bytes[position + 1] as u64 * 0x10000
        + bytes[position + 2] as u64 * 0x100 + bytes[position + 3] as u64;
    let start: usize = position + 4;
    assert(length == be32_value(bytes@.subrange(position as int, start as int)));
    if length > (bytes.len() - start) as u64 {
        return None;
    }
    let end: usize = start + length as usize;
    Some((copy_range(bytes, start, end), end))
}

} // verus!
