//! The LZ4 block format: which byte strings are blocks, and which bytes a block
//! stands for.
//!
//! A block is a series of sequences. A sequence is a token, the literals, and a
//! match; the last sequence of a block has literals only. The upper four bits of
//! the token are the number of literals and the lower four bits are the match
//! length less [`MINMATCH`]; either is 15 where an extension follows that is to
//! be added. The match is a 16-bit little-endian offset, which says how far back
//! in the output the bytes to repeat begin.

use vstd::prelude::*;

use crate::block::MINMATCH;

verus! {

/// The length extension at `pos`: the sum of bytes up to and with the first one
/// that is not 255, and the position after it. None if the bytes end before.
pub open spec fn extension(bytes: Seq<u8>, pos: int) -> Option<(nat, int)>
    decreases bytes.len() - pos,
{
    if pos < 0 || bytes.len() <= pos {
        None
    } else if bytes[pos] != 255 {
        Some((bytes[pos] as nat, pos + 1))
    } else {
        match extension(bytes, pos + 1) {
            Some((rest, next)) => Some((255 + rest, next)),
            None => None,
        }
    }
}

/// The length that four bits of a token stand for where the extension, if there
/// is one, is at `pos`; and the position after the extension.
pub open spec fn length_field(bytes: Seq<u8>, nibble: nat, pos: int) -> Option<(nat, int)> {
    if nibble != 15 {
        Some((nibble, pos))
    } else {
        match extension(bytes, pos) {
            Some((rest, next)) => Some((15 + rest, next)),
            None => None,
        }
    }
}

/// The number of literals of the sequence whose token is at `pos`, and the
/// position of the first of them.
pub open spec fn literal_field(bytes: Seq<u8>, pos: int) -> Option<(nat, int)> {
    length_field(bytes, bytes[pos] as nat / 16, pos + 1)
}

/// The match length of the sequence whose token is at `pos` and whose offset is
/// at `offset_pos`, and the position after the sequence.
pub open spec fn match_field(bytes: Seq<u8>, pos: int, offset_pos: int) -> Option<(nat, int)> {
    match length_field(bytes, bytes[pos] as nat % 16, offset_pos + 2) {
        Some((length, next)) => Some((MINMATCH as nat + length, next)),
        None => None,
    }
}

/// The match offset at `pos`.
pub open spec fn offset_field(bytes: Seq<u8>, pos: int) -> nat {
    bytes[pos] as nat + 256 * (bytes[pos + 1] as nat)
}

/// `out` with `length` bytes appended, each of them the byte that stood `offset`
/// places before its own. A match that is longer than its offset repeats bytes
/// that it appended itself.
pub open spec fn copy_match(out: Seq<u8>, offset: nat, length: nat) -> Seq<u8>
    decreases length,
{
    if length == 0 {
        out
    } else {
        let before = copy_match(out, offset, (length - 1) as nat);
        before.push(before[before.len() - offset])
    }
}

/// The bytes that the sequences from `pos` on append to `out`, with `out` before
/// them. None if what stands from `pos` on is not the rest of a block.
pub open spec fn payload_from(block: Seq<u8>, pos: int, out: Seq<u8>) -> Option<Seq<u8>>
    decreases block.len() - pos,
{
    if pos < 0 || block.len() <= pos {
        None
    } else {
        match literal_field(block, pos) {
            None => None,
            Some((literals, first)) => {
                let end = first + literals;
                let with_literals = out + block.subrange(first, end);
                if block.len() < end {
                    None
                } else if block.len() == end {
                    Some(with_literals)
                } else if block.len() < end + 2 {
                    None
                } else {
                    match match_field(block, pos, end) {
                        None => None,
                        Some((length, next)) => {
                            let offset = offset_field(block, end);
                            proof {
                                lemma_field_bounds(block, block[pos] as nat / 16, pos + 1);
                                lemma_field_bounds(block, block[pos] as nat % 16, end + 2);
                            }
                            if offset == 0 || with_literals.len() < offset {
                                None
                            } else {
                                payload_from(block, next, copy_match(with_literals, offset, length))
                            }
                        },
                    }
                }
            },
        }
    }
}

/// The bytes that `block` stands for, or None if it is not a block.
pub open spec fn payload(block: Seq<u8>) -> Option<Seq<u8>> {
    payload_from(block, 0, Seq::empty())
}

/// A match appends as many bytes as it is long.
pub proof fn lemma_copy_match_len(out: Seq<u8>, offset: nat, length: nat)
    ensures
        copy_match(out, offset, length).len() == out.len() + length,
    decreases length,
{
    if length > 0 {
        lemma_copy_match_len(out, offset, (length - 1) as nat);
    }
}

/// A match can be appended in two runs.
pub proof fn lemma_copy_match_split(out: Seq<u8>, offset: nat, a: nat, b: nat)
    ensures
        copy_match(copy_match(out, offset, a), offset, b) == copy_match(out, offset, a + b),
    decreases b,
{
    if b > 0 {
        lemma_copy_match_split(out, offset, a, (b - 1) as nat);
    }
}

/// A match does not see what stands further back than its offset.
pub proof fn lemma_copy_match_prefix(prefix: Seq<u8>, out: Seq<u8>, offset: nat, length: nat)
    requires
        0 < offset <= out.len(),
    ensures
        copy_match(prefix + out, offset, length) == prefix + copy_match(out, offset, length),
    decreases length,
{
    if length > 0 {
        let shorter = (length - 1) as nat;
        lemma_copy_match_prefix(prefix, out, offset, shorter);
        lemma_copy_match_len(out, offset, shorter);
        assert(copy_match(prefix + out, offset, length) =~= prefix + copy_match(
            out,
            offset,
            length,
        ));
    } else {
        assert(copy_match(prefix + out, offset, length) =~= prefix + copy_match(
            out,
            offset,
            length,
        ));
    }
}

/// An extension takes at least one byte.
pub proof fn lemma_extension_bounds(bytes: Seq<u8>, pos: int)
    ensures
        extension(bytes, pos) matches Some((n, next)) ==> pos < next <= bytes.len(),
    decreases bytes.len() - pos,
{
    if 0 <= pos < bytes.len() {
        lemma_extension_bounds(bytes, pos + 1);
    }
}

/// A length field does not end before it begins.
pub proof fn lemma_field_bounds(bytes: Seq<u8>, nibble: nat, pos: int)
    ensures
        length_field(bytes, nibble, pos) matches Some((n, next)) ==> pos <= next && (next == pos
            || next <= bytes.len()),
{
    lemma_extension_bounds(bytes, pos);
}

/// Whether `bytes` begins with `start`.
pub open spec fn begins_with(bytes: Seq<u8>, start: Seq<u8>) -> bool {
    start.len() <= bytes.len() && bytes.take(start.len() as int) == start
}

/// A match leaves what it is appended to as it is.
pub proof fn lemma_copy_match_begins(out: Seq<u8>, offset: nat, a: nat, b: nat)
    requires
        a <= b,
    ensures
        begins_with(copy_match(out, offset, b), copy_match(out, offset, a)),
    decreases b,
{
    lemma_copy_match_len(out, offset, a);
    lemma_copy_match_len(out, offset, b);
    if a < b {
        lemma_copy_match_begins(out, offset, a, (b - 1) as nat);
        lemma_copy_match_len(out, offset, (b - 1) as nat);
        assert(copy_match(out, offset, b).take(copy_match(out, offset, a).len() as int)
            =~= copy_match(out, offset, (b - 1) as nat).take(
            copy_match(out, offset, a).len() as int,
        ));
    } else {
        assert(copy_match(out, offset, b).take(copy_match(out, offset, b).len() as int)
            =~= copy_match(out, offset, b));
    }
}

/// Beginnings of beginnings.
pub proof fn lemma_begins_transitive(a: Seq<u8>, b: Seq<u8>, c: Seq<u8>)
    requires
        begins_with(a, b),
        begins_with(b, c),
    ensures
        begins_with(a, c),
{
    assert(a.take(c.len() as int) =~= b.take(c.len() as int));
}

/// The rest of a block leaves what it is appended to as it is.
pub proof fn lemma_payload_begins(block: Seq<u8>, pos: int, out: Seq<u8>)
    ensures
        payload_from(block, pos, out) matches Some(bytes) ==> begins_with(bytes, out),
    decreases block.len() - pos,
{
    if 0 <= pos < block.len() && payload_from(block, pos, out) is Some {
        let (literals, first) = literal_field(block, pos).unwrap();
        let end = first + literals;
        let so_far = out + block.subrange(first, end);
        lemma_field_bounds(block, block[pos] as nat / 16, pos + 1);
        assert(so_far.take(out.len() as int) =~= out);
        if end < block.len() {
            let (length, next) = match_field(block, pos, end).unwrap();
            let offset = offset_field(block, end);
            let more = copy_match(so_far, offset, length);
            lemma_field_bounds(block, block[pos] as nat % 16, end + 2);
            lemma_payload_begins(block, next, more);
            lemma_copy_match_begins(so_far, offset, 0, length);
            lemma_begins_transitive(more, so_far, out);
            lemma_begins_transitive(payload_from(block, pos, out).unwrap(), more, out);
        }
    }
}

/// A stretch of a block holds the same extensions as the block.
pub proof fn lemma_extension_embeds(block: Seq<u8>, base: int, part: Seq<u8>, pos: int)
    requires
        0 <= base,
        base + part.len() <= block.len(),
        part == block.subrange(base, base + part.len()),
        0 <= pos,
    ensures
        extension(part, pos) matches Some((n, next)) ==> extension(block, base + pos) == Some(
            (n, base + next),
        ),
        extension(part, pos) is None && base + part.len() == block.len() ==> extension(
            block,
            base + pos,
        ) is None,
    decreases part.len() - pos,
{
    if pos < part.len() {
        assert(part[pos] == block[base + pos]);
        lemma_extension_embeds(block, base, part, pos + 1);
    }
}

} // verus!
