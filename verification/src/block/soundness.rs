//! That the decoders find what the format says: each step of a decoder, and then
//! a decoder as a whole, against the bytes that a block stands for.

use vstd::prelude::*;

use crate::block::format::{
    begins_with, copy_match, lemma_begins_transitive, lemma_copy_match_begins, lemma_copy_match_len,
    lemma_extension_embeds, lemma_field_bounds, lemma_payload_begins, literal_field, match_field,
    offset_field, payload, payload_from,
};
use crate::block::outcome::{
    bytewise_from, contiguous_from, decompressed, lemma_shape_bounds, lemma_step_advances,
    lemma_straddling_advances, lemma_straddling_bounds, lemma_view_end, no_room, scattered_from,
    scattered_step, shape, straddling_step, view_end, with_literals, with_sequence, Outcome, Shape,
    Step,
};
use crate::block::parts::{
    flat, lemma_flat_insert, lemma_flat_len, lemma_flat_part, lemma_part_at, lemma_part_at_insert,
    lemma_start_ends, lemma_start_insert, lens, part_at, start, total,
};
use crate::block::DecompressError;

verus! {

/// What the byte-wise path makes of the sequence at a position.
pub proof fn lemma_straddle_sound(block: Seq<u8>, room: nat, pos: int, out: Seq<u8>)
    requires
        0 <= pos < block.len(),
        out.len() <= room,
    ensures
        match straddling_step(block, room, pos, out) {
            Step::Next { pos: next, out: end } => {
                &&& payload_from(block, pos, out) == payload_from(block, next, end)
                &&& end.len() <= room
            },
            Step::Finished { out: end } => {
                &&& payload_from(block, pos, out) == Some(end)
                &&& end.len() <= room
            },
            Step::Failed { out: end, error } => match payload_from(block, pos, out) {
                Some(bytes) => {
                    &&& room < bytes.len()
                    &&& error == no_room(room)
                    &&& begins_with(bytes, end)
                },
                None => true,
            },
        },
{
    lemma_straddling_bounds(block, room, pos, out);
    lemma_payload_begins(block, pos, out);
    lemma_field_bounds(block, block[pos] as nat / 16, pos + 1);
    if payload_from(block, pos, out) is Some {
        let bytes = payload_from(block, pos, out).unwrap();
        let (literals, first) = literal_field(block, pos).unwrap();
        let end = first + literals;
        let so_far = with_literals(block, out, first, end);
        assert(so_far.take(so_far.len() as int) =~= so_far);
        if end < block.len() {
            let (length, next) = match_field(block, pos, end).unwrap();
            let offset = offset_field(block, end);
            let more = copy_match(so_far, offset, length);
            lemma_payload_begins(block, next, more);
            lemma_copy_match_begins(so_far, offset, 0, length);
            lemma_begins_transitive(bytes, more, so_far);
            lemma_copy_match_len(so_far, offset, length);
            if so_far.len() <= room < so_far.len() + length {
                let part = (room - so_far.len()) as nat;
                lemma_copy_match_begins(so_far, offset, part, length);
                lemma_begins_transitive(bytes, more, copy_match(so_far, offset, part));
            }
        }
        if room < so_far.len() {
            let part = with_literals(block, out, first, first + (room - out.len()));
            assert(so_far.take(part.len() as int) =~= part);
            lemma_begins_transitive(bytes, so_far, part);
        }
    }
}

/// What one stretch of a block says of the sequence at a position in it.
pub proof fn lemma_shape_sound(
    block: Seq<u8>,
    base: int,
    part: Seq<u8>,
    pos: int,
    out: Seq<u8>,
    limit: nat,
)
    requires
        0 <= base,
        base + part.len() <= block.len(),
        part == block.subrange(base, base + part.len()),
        0 <= pos < part.len(),
        out.len() <= limit,
    ensures
        match shape(part, pos, out.len(), limit) {
            Shape::Complete { first, end, offset, length, next } => {
                let more = with_sequence(part, out, first, end, offset, length);
                &&& payload_from(block, base + pos, out) == payload_from(block, base + next, more)
                &&& more.len() <= limit
            },
            Shape::Invalid { .. } => payload_from(block, base + pos, out) is None,
            Shape::Truncated { .. } => base + part.len() == block.len() ==> payload_from(
                block,
                base + pos,
                out,
            ) is None,
            Shape::Final { first, end } => base + part.len() == block.len() ==> payload_from(
                block,
                base + pos,
                out,
            ) == Some(with_literals(part, out, first, end)) && with_literals(
                part,
                out,
                first,
                end,
            ).len() <= limit,
            Shape::Oversized { .. } => true,
        },
{
    lemma_shape_bounds(part, pos, out.len(), limit);
    assert(part[pos] == block[base + pos]);
    lemma_extension_embeds(block, base, part, pos + 1);
    lemma_field_bounds(part, part[pos] as nat / 16, pos + 1);
    if let Some((literals, first)) = literal_field(part, pos) {
        let end = first + literals;
        lemma_extension_embeds(block, base, part, end + 2);
        if end <= part.len() {
            assert(block.subrange(base + first, base + end) =~= part.subrange(first, end));
        }
        if end + 2 <= part.len() {
            assert(offset_field(part, end) == offset_field(block, base + end));
            if let Some((length, next)) = match_field(part, pos, end) {
                lemma_copy_match_len(
                    with_literals(part, out, first, end),
                    offset_field(part, end),
                    length,
                );
            }
        }
    }
}

/// How the sequence at a position goes on in the block, given what one output
/// holds of it.
pub proof fn lemma_step_sound(frags: Seq<Seq<u8>>, rooms: Seq<nat>, pos: int, out: Seq<u8>)
    requires
        0 <= pos < flat(frags).len(),
        rooms.len() > 0,
        out.len() <= total(rooms),
    ensures
        match scattered_step(frags, rooms, pos, out) {
            Step::Next { pos: next, out: end } => {
                &&& payload_from(flat(frags), pos, out) == payload_from(flat(frags), next, end)
                &&& end.len() <= total(rooms)
            },
            Step::Finished { out: end } => {
                &&& payload_from(flat(frags), pos, out) == Some(end)
                &&& end.len() <= total(rooms)
            },
            Step::Failed { out: end, error } => match payload_from(flat(frags), pos, out) {
                Some(bytes) => {
                    &&& total(rooms) < bytes.len()
                    &&& error == no_room(total(rooms))
                    &&& begins_with(bytes, end)
                },
                None => true,
            },
        },
{
    let block = flat(frags);
    let cuts = lens(frags);
    let i = part_at(cuts, pos);
    let base = start(cuts, i);
    let frag = frags[i];
    let last = start(cuts, i + 1) == block.len();
    let limit = view_end(rooms, out.len() as int) as nat;
    let at = pos - base;
    lemma_flat_len(frags);
    lemma_part_at(cuts, pos);
    lemma_flat_part(frags, i);
    lemma_view_end(rooms, out.len() as int);
    lemma_shape_sound(block, base, frag, at, out, limit);
    lemma_straddle_sound(block, total(rooms), pos, out);
}

/// Whether `outcome` is what decoding into `room` bytes of a block that stands
/// for `bytes` should come to.
pub open spec fn agrees(outcome: Outcome, bytes: Option<Seq<u8>>, room: nat) -> bool {
    match bytes {
        Some(bytes) => if bytes.len() <= room {
            outcome == Outcome { written: bytes, error: None }
        } else {
            &&& begins_with(bytes, outcome.written)
            &&& room < usize::MAX ==> {
                &&& outcome.error matches Some(DecompressError::OutputTooSmall { expected, actual })
                &&& actual == room
                &&& actual < expected <= bytes.len()
            }
            &&& outcome.error is Some
        },
        None => outcome.error is Some,
    }
}

/// Decoding a block in one piece finds what the block stands for.
pub proof fn lemma_contiguous_agrees(block: Seq<u8>, room: nat, pos: int, out: Seq<u8>)
    requires
        0 <= pos,
        out.len() <= room,
    ensures
        agrees(contiguous_from(block, room, pos, out), payload_from(block, pos, out), room),
    decreases block.len() - pos,
{
    if pos < block.len() {
        assert(block =~= block.subrange(0, block.len() as int));
        lemma_shape_sound(block, 0, block, pos, out, room);
        lemma_shape_bounds(block, pos, out.len(), room);
        match shape(block, pos, out.len(), room) {
            Shape::Complete { first, end, offset, length, next } => {
                lemma_contiguous_agrees(
                    block,
                    room,
                    next,
                    with_sequence(block, out, first, end, offset, length),
                );
            },
            Shape::Oversized { needed, first, end } => {
                lemma_oversized(block, room, pos, out);
            },
            _ => {},
        }
    }
}

/// A sequence that finds no room.
pub proof fn lemma_oversized(block: Seq<u8>, room: nat, pos: int, out: Seq<u8>)
    requires
        0 <= pos < block.len(),
        out.len() <= room,
    ensures
        shape(block, pos, out.len(), room) matches Shape::Oversized { needed, first, end } ==> {
            payload_from(block, pos, out) matches Some(bytes) ==> {
                &&& room < bytes.len()
                &&& begins_with(bytes, with_literals(block, out, first, end))
                &&& needed <= bytes.len()
                &&& room < usize::MAX ==> room < needed
            }
        },
{
    if shape(block, pos, out.len(), room) is Oversized && payload_from(block, pos, out) is Some {
        let bytes = payload_from(block, pos, out).unwrap();
        let (literals, first) = literal_field(block, pos).unwrap();
        let end = first + literals;
        let so_far = with_literals(block, out, first, end);
        lemma_payload_begins(block, pos, out);
        lemma_field_bounds(block, block[pos] as nat / 16, pos + 1);
        assert(with_literals(block, out, pos, pos) =~= out);
        assert(so_far.take(so_far.len() as int) =~= so_far);
        if end < block.len() {
            let (length, next) = match_field(block, pos, end).unwrap();
            let offset = offset_field(block, end);
            let more = copy_match(so_far, offset, length);
            lemma_payload_begins(block, next, more);
            lemma_copy_match_begins(so_far, offset, 0, length);
            lemma_begins_transitive(bytes, more, so_far);
            lemma_copy_match_len(so_far, offset, length);
        }
    }
}

/// Decoding a block in fragments and buffers finds what the block stands for.
pub proof fn lemma_scattered_agrees(
    frags: Seq<Seq<u8>>,
    rooms: Seq<nat>,
    pos: int,
    out: Seq<u8>,
)
    requires
        0 <= pos,
        rooms.len() > 0,
        out.len() <= total(rooms),
    ensures
        agrees(
            scattered_from(frags, rooms, pos, out),
            payload_from(flat(frags), pos, out),
            total(rooms),
        ),
    decreases flat(frags).len() - pos,
{
    if pos < flat(frags).len() {
        lemma_step_sound(frags, rooms, pos, out);
        lemma_step_advances(frags, rooms, pos, out);
        if let Step::Next { pos: next, out: end } = scattered_step(frags, rooms, pos, out) {
            lemma_scattered_agrees(frags, rooms, next, end);
        }
    }
}

/// Decoding a block byte by byte finds what the block stands for.
pub proof fn lemma_bytewise_agrees(block: Seq<u8>, room: nat, pos: int, out: Seq<u8>)
    requires
        0 <= pos,
        out.len() <= room,
    ensures
        agrees(bytewise_from(block, room, pos, out), payload_from(block, pos, out), room),
    decreases block.len() - pos,
{
    if pos < block.len() {
        lemma_straddle_sound(block, room, pos, out);
        lemma_straddling_advances(block, room, pos, out);
        if let Step::Next { pos: next, out: end } = straddling_step(block, room, pos, out) {
            lemma_bytewise_agrees(block, room, next, end);
        }
    }
}

/// Decompression finds what the block stands for.
pub proof fn lemma_decompressed_agrees(frags: Seq<Seq<u8>>, rooms: Seq<nat>)
    requires
        rooms.len() > 0,
    ensures
        agrees(decompressed(frags, rooms), payload(flat(frags)), total(rooms)),
{
    lemma_scattered_agrees(frags, rooms, 0, Seq::empty());
    if frags.len() == 1 && rooms.len() == 1 {
        reveal_with_fuel(flat, 2);
        reveal_with_fuel(total, 2);
        assert(flat(frags) =~= frags[0]);
        lemma_contiguous_agrees(frags[0], rooms[0], 0, Seq::empty());
    }
}

/// The part of a block up to `n`, where the block is longer, does not stand for as
/// many bytes as the rest of the block from `pos` on with `out` before it.
pub proof fn lemma_truncated(block: Seq<u8>, n: int, pos: int, out: Seq<u8>)
    requires
        0 <= n < block.len(),
        0 <= pos,
    ensures
        payload_from(block, pos, out) matches Some(bytes) ==> {
            payload_from(block.take(n), pos, out) matches Some(fewer) ==> {
                &&& fewer.len() < bytes.len()
                &&& begins_with(bytes, fewer)
            }
        },
    decreases block.len() - pos,
{
    let part = block.take(n);
    if pos < n && payload_from(block, pos, out) is Some && payload_from(part, pos, out) is Some {
        let bytes = payload_from(block, pos, out).unwrap();
        let (literals, first) = literal_field(part, pos).unwrap();
        let end = first + literals;
        let so_far = out + part.subrange(first, end);
        assert(part =~= block.subrange(0, n));
        lemma_extension_embeds(block, 0, part, pos + 1);
        lemma_field_bounds(part, part[pos] as nat / 16, pos + 1);
        lemma_extension_embeds(block, 0, part, end + 2);
        assert(literal_field(block, pos) == Some((literals, first)));
        assert(block.subrange(first, end) =~= part.subrange(first, end));
        let (length, next) = match_field(block, pos, end).unwrap();
        let offset = offset_field(block, end);
        let more = copy_match(so_far, offset, length);
        lemma_field_bounds(block, block[pos] as nat % 16, end + 2);
        if end == n {
            lemma_payload_begins(block, next, more);
            lemma_copy_match_begins(so_far, offset, 0, length);
            lemma_copy_match_len(so_far, offset, length);
            lemma_begins_transitive(bytes, more, so_far);
        } else {
            assert(match_field(part, pos, end) == Some((length, next)));
            assert(offset_field(part, end) == offset);
            lemma_truncated(block, n, next, more);
        }
    }
}

/// A fragment without a byte makes no difference to a sequence.
pub proof fn lemma_step_skips_fragment(
    frags: Seq<Seq<u8>>,
    rooms: Seq<nat>,
    i: int,
    pos: int,
    out: Seq<u8>,
)
    requires
        0 <= i <= frags.len(),
        0 <= pos < flat(frags).len(),
    ensures
        scattered_step(frags.insert(i, Seq::empty()), rooms, pos, out) == scattered_step(
            frags,
            rooms,
            pos,
            out,
        ),
{
    let cuts = lens(frags);
    let k = part_at(cuts, pos);
    let moved = if k < i { k } else { k + 1 };
    lemma_flat_len(frags);
    lemma_flat_insert(frags, i);
    lemma_part_at(cuts, pos);
    lemma_part_at_insert(cuts, i, pos);
    lemma_start_insert(cuts, i, moved);
    lemma_start_insert(cuts, i, moved + 1);
}

/// A fragment without a byte makes no difference from any position on.
pub proof fn lemma_scattered_skips_fragment(
    frags: Seq<Seq<u8>>,
    rooms: Seq<nat>,
    i: int,
    pos: int,
    out: Seq<u8>,
)
    requires
        0 <= i <= frags.len(),
    ensures
        scattered_from(frags.insert(i, Seq::empty()), rooms, pos, out) == scattered_from(
            frags,
            rooms,
            pos,
            out,
        ),
    decreases flat(frags).len() - pos,
{
    lemma_flat_insert(frags, i);
    if 0 <= pos < flat(frags).len() && rooms.len() > 0 {
        lemma_step_skips_fragment(frags, rooms, i, pos, out);
        lemma_step_advances(frags, rooms, pos, out);
        if let Step::Next { pos: next, out: more } = scattered_step(frags, rooms, pos, out) {
            lemma_scattered_skips_fragment(frags, rooms, i, next, more);
        }
    }
}

/// A buffer without room leaves every view as it is.
pub proof fn lemma_view_insert(rooms: Seq<nat>, i: int, written: int)
    requires
        0 <= i <= rooms.len(),
        0 < rooms.len(),
        0 <= written <= total(rooms),
    ensures
        total(rooms.insert(i, 0)) == total(rooms),
        view_end(rooms.insert(i, 0), written) == view_end(rooms, written),
{
    let longer = rooms.insert(i, 0);
    lemma_start_ends(rooms);
    lemma_start_ends(longer);
    lemma_start_insert(rooms, i, longer.len() as int);
    if written < total(rooms) {
        let k = part_at(rooms, written);
        let moved = if k < i { k } else { k + 1 };
        lemma_part_at(rooms, written);
        lemma_part_at_insert(rooms, i, written);
        lemma_start_insert(rooms, i, moved);
        lemma_start_insert(rooms, i, moved + 1);
    } else {
        lemma_view_end(rooms, written);
        lemma_view_end(longer, written);
    }
}

/// A buffer without room makes no difference from any position on.
pub proof fn lemma_scattered_skips_buffer(
    frags: Seq<Seq<u8>>,
    rooms: Seq<nat>,
    i: int,
    pos: int,
    out: Seq<u8>,
)
    requires
        0 <= i <= rooms.len(),
        0 < rooms.len(),
        out.len() <= total(rooms),
    ensures
        scattered_from(frags, rooms.insert(i, 0), pos, out) == scattered_from(
            frags,
            rooms,
            pos,
            out,
        ),
    decreases flat(frags).len() - pos,
{
    if 0 <= pos < flat(frags).len() {
        lemma_view_insert(rooms, i, out.len() as int);
        lemma_step_advances(frags, rooms, pos, out);
        lemma_step_sound(frags, rooms, pos, out);
        if let Step::Next { pos: next, out: more } = scattered_step(frags, rooms, pos, out) {
            lemma_scattered_skips_buffer(frags, rooms, i, next, more);
        }
    }
}

} // verus!
