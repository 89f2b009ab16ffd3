//! What a decoder does with input that is not a block or that finds no room.
//!
//! These laws say of the bytes of a block, as numbers, with which error decoding
//! stops at a sequence and what has been written by then, and where it goes on. The
//! first of them are on a block in one piece and one buffer, the others on fragments
//! and buffers.

use vstd::prelude::*;

use crate::block::format::{
    extension, lemma_copy_match_begins, lemma_copy_match_len, lemma_extension_bounds,
    lemma_extension_embeds, lemma_field_bounds, literal_field, offset_field,
};
use crate::block::meaning::{
    lemma_extension_open, lemma_literals_at, lemma_match_at, lemma_repeats,
};
use crate::block::outcome::{
    contiguous_from, decompressed, lemma_shape_bounds, lemma_view_end, scattered_from,
    scattered_step, straddling_step, view_end, with_literals, Outcome, Step,
};
use crate::block::parts::{
    flat, lemma_flat_len, lemma_flat_part, lemma_flat_take, lemma_part_at, lemma_part_at_unique,
    lemma_start_step, lens, part_at, start, total,
};
use crate::block::DecompressError;

verus! {

/// One fragment and one buffer are decoded in one piece, and everything else is
/// decoded fragment by fragment and buffer by buffer, each from the start.
pub proof fn law_decoded_from_the_start(frags: Seq<Seq<u8>>, rooms: Seq<nat>)
    ensures
        decompressed(frags, rooms) == if frags.len() == 1 && rooms.len() == 1 {
            contiguous_from(frags[0], rooms[0], 0, Seq::empty())
        } else {
            scattered_from(frags, rooms, 0, Seq::empty())
        },
{
}

/// In one piece: where the input ends on a match, or within the number of literals,
/// another byte is expected, and nothing more has been written.
pub proof fn law_piece_ends_early(block: Seq<u8>, room: nat, pos: int, out: Seq<u8>)
    requires
        0 <= pos,
        block.len() <= pos || 240 <= block[pos],
        forall|i: int| pos < i < block.len() ==> #[trigger] block[i] == 255,
    ensures
        contiguous_from(block, room, pos, out) == (Outcome {
            written: out,
            error: Some(DecompressError::ExpectedAnotherByte),
        }),
{
    if pos < block.len() {
        lemma_extension_open(block, pos + 1);
        assert(with_literals(block, out, pos, pos) =~= out);
    }
}

/// In one piece: literals that the input does not hold, or that the output has no
/// room for, are not written. Otherwise they are, and then the block has ended, or
/// its input ends within the offset, or the offset is zero.
pub proof fn law_piece_at_literals(
    block: Seq<u8>,
    room: nat,
    pos: int,
    out: Seq<u8>,
    first: int,
    end: int,
)
    requires
        0 <= pos < block.len(),
        if block[pos] < 240 {
            first == pos + 1 && end == first + block[pos] / 16
        } else {
            &&& pos + 2 <= first <= block.len()
            &&& block[first - 1] < 255
            &&& forall|i: int| pos < i < first - 1 ==> #[trigger] block[i] == 255
            &&& end == first + 15 + 255 * (first - pos - 2) + block[first - 1]
        },
        out.len() <= room <= usize::MAX,
    ensures
        block.len() < end ==> contiguous_from(block, room, pos, out) == (Outcome {
            written: out,
            error: Some(DecompressError::LiteralOutOfBounds),
        }),
        end <= block.len() && room < out.len() + (end - first) <= usize::MAX ==> contiguous_from(
            block,
            room,
            pos,
            out,
        ) == (Outcome {
            written: out,
            error: Some(
                DecompressError::OutputTooSmall {
                    expected: (out.len() + (end - first)) as usize,
                    actual: room as usize,
                },
            ),
        }),
        end == block.len() && out.len() + (end - first) <= room ==> contiguous_from(
            block,
            room,
            pos,
            out,
        ) == (Outcome { written: out + block.subrange(first, end), error: None }),
        end + 1 == block.len() && out.len() + (end - first) <= room ==> contiguous_from(
            block,
            room,
            pos,
            out,
        ) == (Outcome {
            written: out + block.subrange(first, end),
            error: Some(DecompressError::ExpectedAnotherByte),
        }),
        end + 2 <= block.len() && out.len() + (end - first) <= room && block[end] == 0 && block[end
            + 1] == 0 ==> contiguous_from(block, room, pos, out) == (Outcome {
            written: out + block.subrange(first, end),
            error: Some(DecompressError::OffsetZero),
        }),
{
    lemma_literals_at(block, pos, first, end);
    assert(with_literals(block, out, pos, pos) =~= out);
}

/// In one piece: where the input ends within the length of a match, another byte is
/// expected, and the literals have been written.
pub proof fn law_piece_ends_in_match_length(
    block: Seq<u8>,
    room: nat,
    pos: int,
    out: Seq<u8>,
    first: int,
    end: int,
)
    requires
        0 <= pos < block.len(),
        if block[pos] < 240 {
            first == pos + 1 && end == first + block[pos] / 16
        } else {
            &&& pos + 2 <= first <= block.len()
            &&& block[first - 1] < 255
            &&& forall|i: int| pos < i < first - 1 ==> #[trigger] block[i] == 255
            &&& end == first + 15 + 255 * (first - pos - 2) + block[first - 1]
        },
        out.len() + (end - first) <= room,
        end + 2 <= block.len(),
        0 < block[end] || 0 < block[end + 1],
        block[pos] % 16 == 15,
        forall|i: int| end + 2 <= i < block.len() ==> #[trigger] block[i] == 255,
    ensures
        contiguous_from(block, room, pos, out) == (Outcome {
            written: out + block.subrange(first, end),
            error: Some(DecompressError::ExpectedAnotherByte),
        }),
{
    lemma_literals_at(block, pos, first, end);
    lemma_extension_open(block, end + 2);
}

/// In one piece: a match that reaches back past the first byte, or that the output has
/// no room for, is not written, but its literals are.
pub proof fn law_piece_at_match(
    block: Seq<u8>,
    room: nat,
    pos: int,
    out: Seq<u8>,
    first: int,
    end: int,
    next: int,
    length: int,
)
    requires
        0 <= pos < block.len(),
        if block[pos] < 240 {
            first == pos + 1 && end == first + block[pos] / 16
        } else {
            &&& pos + 2 <= first <= block.len()
            &&& block[first - 1] < 255
            &&& forall|i: int| pos < i < first - 1 ==> #[trigger] block[i] == 255
            &&& end == first + 15 + 255 * (first - pos - 2) + block[first - 1]
        },
        end + 2 <= block.len(),
        if block[pos] % 16 < 15 {
            next == end + 2 && length == 4 + block[pos] % 16
        } else {
            &&& end + 3 <= next <= block.len()
            &&& block[next - 1] < 255
            &&& forall|i: int| end + 2 <= i < next - 1 ==> #[trigger] block[i] == 255
            &&& length == 19 + 255 * (next - end - 3) + block[next - 1]
        },
        out.len() <= room <= usize::MAX,
        out.len() + (end - first) <= room,
        0 < block[end] || 0 < block[end + 1],
    ensures
        out.len() + (end - first) < block[end] + 256 * block[end + 1] ==> contiguous_from(
            block,
            room,
            pos,
            out,
        ) == (Outcome {
            written: out + block.subrange(first, end),
            error: Some(DecompressError::OffsetOutOfBounds),
        }),
        block[end] + 256 * block[end + 1] <= out.len() + (end - first) && room < out.len() + (end
            - first) + length <= usize::MAX ==> contiguous_from(block, room, pos, out) == (Outcome {
            written: out + block.subrange(first, end),
            error: Some(
                DecompressError::OutputTooSmall {
                    expected: (out.len() + (end - first) + length) as usize,
                    actual: room as usize,
                },
            ),
        }),
{
    lemma_literals_at(block, pos, first, end);
    lemma_match_at(block, pos, end, next, length);
}

/// In one piece: after a sequence that finds room, decoding goes on behind it.
pub proof fn law_piece_goes_on(
    block: Seq<u8>,
    room: nat,
    pos: int,
    out: Seq<u8>,
    first: int,
    end: int,
    next: int,
    length: int,
    more: Seq<u8>,
)
    requires
        0 <= pos < block.len(),
        if block[pos] < 240 {
            first == pos + 1 && end == first + block[pos] / 16
        } else {
            &&& pos + 2 <= first <= block.len()
            &&& block[first - 1] < 255
            &&& forall|i: int| pos < i < first - 1 ==> #[trigger] block[i] == 255
            &&& end == first + 15 + 255 * (first - pos - 2) + block[first - 1]
        },
        end + 2 <= block.len(),
        if block[pos] % 16 < 15 {
            next == end + 2 && length == 4 + block[pos] % 16
        } else {
            &&& end + 3 <= next <= block.len()
            &&& block[next - 1] < 255
            &&& forall|i: int| end + 2 <= i < next - 1 ==> #[trigger] block[i] == 255
            &&& length == 19 + 255 * (next - end - 3) + block[next - 1]
        },
        0 < block[end] + 256 * block[end + 1] <= out.len() + (end - first),
        more.len() == out.len() + (end - first) + length,
        more.take(out.len() + (end - first)) == out + block.subrange(first, end),
        forall|i: int|
            out.len() + (end - first) <= i < more.len() ==> #[trigger] more[i] == more[i - (
            block[end] + 256 * block[end + 1])],
        more.len() <= room,
    ensures
        contiguous_from(block, room, pos, out) == contiguous_from(block, room, next, more),
{
    lemma_literals_at(block, pos, first, end);
    lemma_match_at(block, pos, end, next, length);
    lemma_repeats(more, out.len() + (end - first), block[end] + 256 * block[end + 1]);
}

/// A sequence that is taken as a whole comes to what it comes to byte by byte, but for
/// two errors that are noticed earlier.
proof fn lemma_step_is_bytewise(frags: Seq<Seq<u8>>, rooms: Seq<nat>, pos: int, out: Seq<u8>)
    requires
        0 <= pos < flat(frags).len(),
        rooms.len() > 0,
        out.len() <= total(rooms),
    ensures
        ({
            let block = flat(frags);
            let edge = start(lens(frags), part_at(lens(frags), pos) + 1);
            let limit = view_end(rooms, out.len() as int);
            let bytewise = straddling_step(block, total(rooms), pos, out);
            scattered_step(frags, rooms, pos, out) == match literal_field(block, pos) {
                None => bytewise,
                Some((n, first)) => if edge == block.len() && block.len() < first + n {
                    Step::Failed { out, error: DecompressError::LiteralOutOfBounds }
                } else if first + n + 2 <= edge && out.len() + n <= limit && offset_field(
                    block,
                    first + n,
                ) == 0 {
                    Step::Failed {
                        out: out + block.subrange(first, first + n),
                        error: DecompressError::OffsetZero,
                    }
                } else {
                    bytewise
                },
            }
        }),
{
    let block = flat(frags);
    let cuts = lens(frags);
    let i = part_at(cuts, pos);
    let base = start(cuts, i);
    let frag = frags[i];
    let limit = view_end(rooms, out.len() as int) as nat;
    let at = pos - base;
    lemma_flat_len(frags);
    lemma_part_at(cuts, pos);
    lemma_flat_part(frags, i);
    lemma_view_end(rooms, out.len() as int);
    lemma_shape_bounds(frag, at, out.len(), limit);
    assert(frag[at] == block[pos]);
    lemma_extension_embeds(block, base, frag, at + 1);
    lemma_field_bounds(frag, frag[at] as nat / 16, at + 1);
    assert(with_literals(frag, out, at, at) =~= out);
    if let Some((n, first)) = literal_field(frag, at) {
        let end = first + n;
        lemma_extension_embeds(block, base, frag, end + 2);
        if end <= frag.len() {
            assert(block.subrange(base + first, base + end) =~= frag.subrange(first, end));
        }
        if end + 2 <= frag.len() {
            assert(offset_field(frag, end) == offset_field(block, base + end));
        }
    } else {
        lemma_field_bounds(block, block[pos] as nat / 16, pos + 1);
        if let Some((n, first)) = literal_field(block, pos) {
            lemma_extension_reaches(block, base, frag, at + 1);
        }
    }
}

/// An extension that a stretch does not hold ends behind it.
proof fn lemma_extension_reaches(block: Seq<u8>, base: int, part: Seq<u8>, pos: int)
    requires
        0 <= base,
        base + part.len() <= block.len(),
        part == block.subrange(base, base + part.len()),
        0 <= pos,
        extension(part, pos) is None,
    ensures
        extension(block, base + pos) matches Some((n, next)) ==> base
            + part.len() < next,
    decreases part.len() - pos,
{
    if pos < part.len() {
        assert(part[pos] == block[base + pos]);
        lemma_extension_reaches(block, base, part, pos + 1);
    } else {
        lemma_extension_bounds(block, base + pos);
    }
}

/// In fragments: where the input ends on a match, or within the number of literals,
/// another byte is expected, and nothing more has been written. Without a buffer, one
/// byte of room is asked for as soon as there is input.
pub proof fn law_fragments_end_early(
    block: Seq<u8>,
    frags: Seq<Seq<u8>>,
    rooms: Seq<nat>,
    pos: int,
    out: Seq<u8>,
)
    requires
        block == flat(frags),
        0 <= pos,
        out.len() <= total(rooms),
    ensures
        block.len() <= pos ==> scattered_from(frags, rooms, pos, out) == (Outcome {
            written: out,
            error: Some(DecompressError::ExpectedAnotherByte),
        }),
        pos < block.len() && rooms.len() == 0 ==> scattered_from(frags, rooms, pos, out) == (
        Outcome {
            written: out,
            error: Some(DecompressError::OutputTooSmall { expected: 1, actual: 0 }),
        }),
        pos < block.len() && rooms.len() > 0 && 240 <= block[pos] && (forall|i: int|
            pos < i < block.len() ==> #[trigger] block[i] == 255) ==> scattered_from(
            frags,
            rooms,
            pos,
            out,
        ) == (Outcome { written: out, error: Some(DecompressError::ExpectedAnotherByte) }),
{
    if pos < block.len() && rooms.len() > 0 && 240 <= block[pos] && (forall|i: int|
        pos < i < block.len() ==> #[trigger] block[i] == 255) {
        lemma_extension_open(block, pos + 1);
        lemma_step_is_bytewise(frags, rooms, pos, out);
    }
}

/// In fragments: literals that the output has no room for are written as far as there
/// is any, and one byte more than the output holds is asked for. Where there is room,
/// they are written, and then the block has ended, or its input ends within the
/// offset.
pub proof fn law_fragments_at_literals(
    block: Seq<u8>,
    frags: Seq<Seq<u8>>,
    rooms: Seq<nat>,
    pos: int,
    out: Seq<u8>,
    first: int,
    end: int,
)
    requires
        0 <= pos < block.len(),
        if block[pos] < 240 {
            first == pos + 1 && end == first + block[pos] / 16
        } else {
            &&& pos + 2 <= first <= block.len()
            &&& block[first - 1] < 255
            &&& forall|i: int| pos < i < first - 1 ==> #[trigger] block[i] == 255
            &&& end == first + 15 + 255 * (first - pos - 2) + block[first - 1]
        },
        block == flat(frags),
        rooms.len() > 0,
        out.len() <= total(rooms) < usize::MAX,
        end <= block.len(),
    ensures
        total(rooms) < out.len() + (end - first) ==> scattered_from(frags, rooms, pos, out) == (
        Outcome {
            written: out + block.subrange(first, first + (total(rooms) - out.len())),
            error: Some(
                DecompressError::OutputTooSmall {
                    expected: (total(rooms) + 1) as usize,
                    actual: total(rooms) as usize,
                },
            ),
        }),
        out.len() + (end - first) <= total(rooms) && end == block.len() ==> scattered_from(
            frags,
            rooms,
            pos,
            out,
        ) == (Outcome { written: out + block.subrange(first, end), error: None }),
        out.len() + (end - first) <= total(rooms) && end + 1 == block.len() ==> scattered_from(
            frags,
            rooms,
            pos,
            out,
        ) == (Outcome {
            written: out + block.subrange(first, end),
            error: Some(DecompressError::ExpectedAnotherByte),
        }),
{
    lemma_literals_at(block, pos, first, end);
    lemma_step_is_bytewise(frags, rooms, pos, out);
    lemma_view_end(rooms, out.len() as int);
    lemma_flat_len(frags);
    lemma_part_at(lens(frags), pos);
    lemma_flat_part(frags, part_at(lens(frags), pos));
}

/// In fragments: where the input ends within the literals of a sequence that begins in
/// fragment `f`, they are out of bounds if nothing comes after that fragment.
/// Otherwise they are written as far as there is input and room, and what is missing
/// decides: another byte, or room for it.
pub proof fn law_fragments_end_in_literals(
    block: Seq<u8>,
    frags: Seq<Seq<u8>>,
    rooms: Seq<nat>,
    pos: int,
    out: Seq<u8>,
    first: int,
    end: int,
    f: int,
)
    requires
        0 <= pos < block.len(),
        if block[pos] < 240 {
            first == pos + 1 && end == first + block[pos] / 16
        } else {
            &&& pos + 2 <= first <= block.len()
            &&& block[first - 1] < 255
            &&& forall|i: int| pos < i < first - 1 ==> #[trigger] block[i] == 255
            &&& end == first + 15 + 255 * (first - pos - 2) + block[first - 1]
        },
        block == flat(frags),
        rooms.len() > 0,
        out.len() <= total(rooms) < usize::MAX,
        block.len() < end,
        0 <= f < frags.len(),
        flat(frags.take(f)).len() <= pos < flat(frags.take(f + 1)).len(),
    ensures
        scattered_from(frags, rooms, pos, out) == if flat(frags.take(f + 1)).len() == block.len() {
            Outcome { written: out, error: Some(DecompressError::LiteralOutOfBounds) }
        } else if out.len() + (block.len() - first) <= total(rooms) {
            Outcome {
                written: out + block.skip(first),
                error: Some(DecompressError::ExpectedAnotherByte),
            }
        } else {
            Outcome {
                written: out + block.subrange(first, first + (total(rooms) - out.len())),
                error: Some(
                    DecompressError::OutputTooSmall {
                        expected: (total(rooms) + 1) as usize,
                        actual: total(rooms) as usize,
                    },
                ),
            }
        },
{
    lemma_literals_at(block, pos, first, end);
    lemma_step_is_bytewise(frags, rooms, pos, out);
    lemma_flat_take(frags, f);
    lemma_flat_take(frags, f + 1);
    lemma_flat_len(frags);
    lemma_part_at_unique(lens(frags), pos, f);
    lemma_flat_part(frags, f);
    assert(block.subrange(first, block.len() as int) =~= block.skip(first));
}

/// In fragments: where the input ends within the length of a match whose offset is not
/// zero, another byte is expected, and the literals have been written.
pub proof fn law_fragments_end_in_match_length(
    block: Seq<u8>,
    frags: Seq<Seq<u8>>,
    rooms: Seq<nat>,
    pos: int,
    out: Seq<u8>,
    first: int,
    end: int,
)
    requires
        0 <= pos < block.len(),
        if block[pos] < 240 {
            first == pos + 1 && end == first + block[pos] / 16
        } else {
            &&& pos + 2 <= first <= block.len()
            &&& block[first - 1] < 255
            &&& forall|i: int| pos < i < first - 1 ==> #[trigger] block[i] == 255
            &&& end == first + 15 + 255 * (first - pos - 2) + block[first - 1]
        },
        block == flat(frags),
        rooms.len() > 0,
        out.len() <= total(rooms),
        out.len() + (end - first) <= total(rooms),
        end + 2 <= block.len(),
        0 < block[end] || 0 < block[end + 1],
        block[pos] % 16 == 15,
        forall|i: int| end + 2 <= i < block.len() ==> #[trigger] block[i] == 255,
    ensures
        scattered_from(frags, rooms, pos, out) == (Outcome {
            written: out + block.subrange(first, end),
            error: Some(DecompressError::ExpectedAnotherByte),
        }),
{
    lemma_literals_at(block, pos, first, end);
    lemma_extension_open(block, end + 2);
    lemma_step_is_bytewise(frags, rooms, pos, out);
}

/// In fragments: where the input ends within the length of a match whose offset is
/// zero, that is noticed if the sequence up to the offset lies in the fragment `f` that
/// it begins in, and its literals in the buffer `b` that they begin in, and there
/// within the first 65536 bytes if they begin there and other buffers hold bytes
/// before. Otherwise another byte is expected.
pub proof fn law_fragments_zero_offset_unfinished(
    block: Seq<u8>,
    frags: Seq<Seq<u8>>,
    rooms: Seq<nat>,
    pos: int,
    out: Seq<u8>,
    first: int,
    end: int,
    f: int,
    b: int,
)
    requires
        0 <= pos < block.len(),
        if block[pos] < 240 {
            first == pos + 1 && end == first + block[pos] / 16
        } else {
            &&& pos + 2 <= first <= block.len()
            &&& block[first - 1] < 255
            &&& forall|i: int| pos < i < first - 1 ==> #[trigger] block[i] == 255
            &&& end == first + 15 + 255 * (first - pos - 2) + block[first - 1]
        },
        block == flat(frags),
        rooms.len() > 0,
        out.len() <= total(rooms),
        out.len() + (end - first) <= total(rooms),
        end + 2 <= block.len(),
        block[end] == 0 && block[end + 1] == 0,
        block[pos] % 16 == 15,
        forall|i: int| end + 2 <= i < block.len() ==> #[trigger] block[i] == 255,
        0 <= f < frags.len(),
        flat(frags.take(f)).len() <= pos < flat(frags.take(f + 1)).len(),
        0 <= b < rooms.len(),
        total(rooms.take(b)) <= out.len(),
        out.len() < total(rooms.take(b)) + rooms[b] || b == rooms.len() - 1,
    ensures
        ({
            let before = total(rooms.take(b));
            let view = if 0 < before && out.len() < before + 65536 && 65536 < rooms[b] {
                before + 65536
            } else {
                before + rooms[b]
            };
            scattered_from(frags, rooms, pos, out) == (Outcome {
                written: out + block.subrange(first, end),
                error: Some(
                    if end + 2 <= flat(frags.take(f + 1)).len() && out.len() + (end - first)
                        <= view {
                        DecompressError::OffsetZero
                    } else {
                        DecompressError::ExpectedAnotherByte
                    },
                ),
            })
        }),
{
    lemma_literals_at(block, pos, first, end);
    lemma_extension_open(block, end + 2);
    lemma_step_is_bytewise(frags, rooms, pos, out);
    lemma_flat_take(frags, f);
    lemma_flat_take(frags, f + 1);
    lemma_part_at_unique(lens(frags), pos, f);
    lemma_start_step(rooms, b);
    lemma_part_at_unique(rooms, out.len() as int, b);
}

/// In fragments: a match with the offset zero, or one that reaches back past the first
/// byte, is not written, but its literals are.
pub proof fn law_fragments_at_match(
    block: Seq<u8>,
    frags: Seq<Seq<u8>>,
    rooms: Seq<nat>,
    pos: int,
    out: Seq<u8>,
    first: int,
    end: int,
    next: int,
    length: int,
)
    requires
        0 <= pos < block.len(),
        if block[pos] < 240 {
            first == pos + 1 && end == first + block[pos] / 16
        } else {
            &&& pos + 2 <= first <= block.len()
            &&& block[first - 1] < 255
            &&& forall|i: int| pos < i < first - 1 ==> #[trigger] block[i] == 255
            &&& end == first + 15 + 255 * (first - pos - 2) + block[first - 1]
        },
        end + 2 <= block.len(),
        if block[pos] % 16 < 15 {
            next == end + 2 && length == 4 + block[pos] % 16
        } else {
            &&& end + 3 <= next <= block.len()
            &&& block[next - 1] < 255
            &&& forall|i: int| end + 2 <= i < next - 1 ==> #[trigger] block[i] == 255
            &&& length == 19 + 255 * (next - end - 3) + block[next - 1]
        },
        block == flat(frags),
        rooms.len() > 0,
        out.len() <= total(rooms),
        out.len() + (end - first) <= total(rooms),
    ensures
        block[end] == 0 && block[end + 1] == 0 ==> scattered_from(frags, rooms, pos, out) == (
        Outcome {
            written: out + block.subrange(first, end),
            error: Some(DecompressError::OffsetZero),
        }),
        out.len() + (end - first) < block[end] + 256 * block[end + 1] ==> scattered_from(
            frags,
            rooms,
            pos,
            out,
        ) == (Outcome {
            written: out + block.subrange(first, end),
            error: Some(DecompressError::OffsetOutOfBounds),
        }),
{
    lemma_literals_at(block, pos, first, end);
    lemma_match_at(block, pos, end, next, length);
    lemma_step_is_bytewise(frags, rooms, pos, out);
}

/// In fragments: a match that the output has no room for is written as far as there is
/// any, and one byte more than the output holds is asked for. After one that finds
/// room, decoding goes on behind it.
pub proof fn law_fragments_go_on(
    block: Seq<u8>,
    frags: Seq<Seq<u8>>,
    rooms: Seq<nat>,
    pos: int,
    out: Seq<u8>,
    first: int,
    end: int,
    next: int,
    length: int,
    more: Seq<u8>,
)
    requires
        0 <= pos < block.len(),
        if block[pos] < 240 {
            first == pos + 1 && end == first + block[pos] / 16
        } else {
            &&& pos + 2 <= first <= block.len()
            &&& block[first - 1] < 255
            &&& forall|i: int| pos < i < first - 1 ==> #[trigger] block[i] == 255
            &&& end == first + 15 + 255 * (first - pos - 2) + block[first - 1]
        },
        end + 2 <= block.len(),
        if block[pos] % 16 < 15 {
            next == end + 2 && length == 4 + block[pos] % 16
        } else {
            &&& end + 3 <= next <= block.len()
            &&& block[next - 1] < 255
            &&& forall|i: int| end + 2 <= i < next - 1 ==> #[trigger] block[i] == 255
            &&& length == 19 + 255 * (next - end - 3) + block[next - 1]
        },
        0 < block[end] + 256 * block[end + 1] <= out.len() + (end - first),
        more.len() == out.len() + (end - first) + length,
        more.take(out.len() + (end - first)) == out + block.subrange(first, end),
        forall|i: int|
            out.len() + (end - first) <= i < more.len() ==> #[trigger] more[i] == more[i - (
            block[end] + 256 * block[end + 1])],
        block == flat(frags),
        rooms.len() > 0,
        out.len() <= total(rooms) < usize::MAX,
        out.len() + (end - first) <= total(rooms),
    ensures
        scattered_from(frags, rooms, pos, out) == if more.len() <= total(rooms) {
            scattered_from(frags, rooms, next, more)
        } else {
            Outcome {
                written: more.take(total(rooms) as int),
                error: Some(
                    DecompressError::OutputTooSmall {
                        expected: (total(rooms) + 1) as usize,
                        actual: total(rooms) as usize,
                    },
                ),
            }
        },
{
    let written = out.len() + (end - first);
    let offset = block[end] + 256 * block[end + 1];
    lemma_literals_at(block, pos, first, end);
    lemma_match_at(block, pos, end, next, length);
    lemma_repeats(more, written, offset);
    lemma_step_is_bytewise(frags, rooms, pos, out);
    if total(rooms) < more.len() {
        let base = more.take(written);
        let part = (total(rooms) - written) as nat;
        lemma_copy_match_begins(base, offset as nat, part, length as nat);
        lemma_copy_match_len(base, offset as nat, part);
    }
}

} // verus!
