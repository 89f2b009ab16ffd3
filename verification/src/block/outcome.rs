//! What decompressing a block comes to: the bytes that are written, and the
//! error if there is one.
//!
//! Whether a block is decoded, and to which bytes, depends only on the block and
//! on the room in the output. Which error comes where it is not decoded, and how
//! many bytes have been written by then, also depends on where the input and the
//! output are cut: a sequence that lies within one fragment and one buffer is
//! taken as a whole, and one that crosses an edge is taken byte by byte.

use vstd::prelude::*;

use crate::block::format::{
    copy_match, lemma_copy_match_len, lemma_field_bounds, literal_field, match_field, offset_field,
};
use crate::block::parts::{
    flat, lemma_flat_len, lemma_flat_part, lemma_part_at, lemma_start_monotone, lens, part_at,
    start, total,
};
use crate::block::{DecompressError, WINDOW_SIZE};

verus! {

/// The bytes written by a decoder, and why it stopped before the end of the
/// block if it did.
pub struct Outcome {
    pub written: Seq<u8>,
    pub error: Option<DecompressError>,
}

impl Outcome {
    /// What a decoder with this outcome returns.
    pub open spec fn result(self) -> Result<usize, DecompressError> {
        match self.error {
            None => Ok(self.written.len() as usize),
            Some(error) => Err(error),
        }
    }
}

/// What a bounded stretch of input and a bounded output hold of the sequence at
/// a position. The literals stand at `first..end`.
pub enum Shape {
    /// The input ends within the sequence; `error` says how.
    Truncated { error: DecompressError, first: int, end: int },
    /// The output ends within the sequence, which fills it up to `needed`.
    Oversized { needed: usize, first: int, end: int },
    /// The match has an offset that no block has at this place.
    Invalid { error: DecompressError, first: int, end: int },
    /// The input ends on the literals.
    Final { first: int, end: int },
    /// Input and output hold the whole sequence, and `next` is the position
    /// after it.
    Complete { first: int, end: int, offset: nat, length: nat, next: int },
}

/// `n`, or the largest machine integer if `n` is larger.
pub open spec fn saturated(n: nat) -> usize {
    if n <= usize::MAX { n as usize } else { usize::MAX }
}

/// What `input` holds of the sequence at `pos`, where `written` bytes precede it
/// in an output that ends at `limit`.
pub open spec fn shape(input: Seq<u8>, pos: int, written: nat, limit: nat) -> Shape {
    match literal_field(input, pos) {
        None => Shape::Truncated {
            error: DecompressError::ExpectedAnotherByte,
            first: pos,
            end: pos,
        },
        Some((literals, first)) => {
            let end = first + literals;
            let reached = written + literals;
            if input.len() < end {
                Shape::Truncated {
                    error: DecompressError::LiteralOutOfBounds,
                    first: pos,
                    end: pos,
                }
            } else if limit < reached {
                Shape::Oversized { needed: saturated(reached), first: pos, end: pos }
            } else if input.len() == end {
                Shape::Final { first, end }
            } else if input.len() < end + 2 {
                Shape::Truncated { error: DecompressError::ExpectedAnotherByte, first, end }
            } else {
                let offset = offset_field(input, end);
                if offset == 0 {
                    Shape::Invalid { error: DecompressError::OffsetZero, first, end }
                } else {
                    match match_field(input, pos, end) {
                        None => Shape::Truncated {
                            error: DecompressError::ExpectedAnotherByte,
                            first,
                            end,
                        },
                        Some((length, next)) => if reached < offset {
                            Shape::Invalid {
                                error: DecompressError::OffsetOutOfBounds,
                                first,
                                end,
                            }
                        } else if limit < reached + length {
                            Shape::Oversized { needed: saturated(reached + length), first, end }
                        } else {
                            Shape::Complete { first, end, offset, length, next }
                        },
                    }
                }
            }
        },
    }
}

/// `out` with the literals of a sequence appended.
pub open spec fn with_literals(input: Seq<u8>, out: Seq<u8>, first: int, end: int) -> Seq<u8> {
    out + input.subrange(first, end)
}

/// `out` with a whole sequence appended.
pub open spec fn with_sequence(
    input: Seq<u8>,
    out: Seq<u8>,
    first: int,
    end: int,
    offset: nat,
    length: nat,
) -> Seq<u8> {
    copy_match(with_literals(input, out, first, end), offset, length)
}

/// What decoding `block` from `pos` on comes to, where the input is one fragment,
/// the output is one buffer of `room` bytes, and `out` has been written to it.
pub open spec fn contiguous_from(block: Seq<u8>, room: nat, pos: int, out: Seq<u8>) -> Outcome
    decreases block.len() - pos,
{
    if block.len() <= pos {
        Outcome { written: out, error: Some(DecompressError::ExpectedAnotherByte) }
    } else {
        match shape(block, pos, out.len(), room) {
            Shape::Truncated { error, first, end } => Outcome {
                written: with_literals(block, out, first, end),
                error: Some(error),
            },
            Shape::Oversized { needed, first, end } => Outcome {
                written: with_literals(block, out, first, end),
                error: Some(
                    DecompressError::OutputTooSmall { expected: needed, actual: room as usize },
                ),
            },
            Shape::Invalid { error, first, end } => Outcome {
                written: with_literals(block, out, first, end),
                error: Some(error),
            },
            Shape::Final { first, end } => Outcome {
                written: with_literals(block, out, first, end),
                error: None,
            },
            Shape::Complete { first, end, offset, length, next } => {
                proof {
                    lemma_shape_bounds(block, pos, out.len(), room);
                }
                contiguous_from(
                    block,
                    room,
                    next,
                    with_sequence(block, out, first, end, offset, length),
                )
            },
        }
    }
}

/// `old_bytes` with `out` written over its beginning.
pub open spec fn overwritten(old_bytes: Seq<u8>, out: Seq<u8>) -> Seq<u8> {
    out + old_bytes.skip(out.len() as int)
}

/// How far a decoder came in one go.
pub enum Step {
    /// The block ended.
    Finished { out: Seq<u8> },
    /// The decoder cannot go on.
    Failed { out: Seq<u8>, error: DecompressError },
    /// The next sequence is at `pos`.
    Next { pos: int, out: Seq<u8> },
}

/// The error of a byte that finds no room in an output of `room` bytes.
pub open spec fn no_room(room: nat) -> DecompressError {
    DecompressError::OutputTooSmall { expected: (room + 1) as usize, actual: room as usize }
}

/// What decoding the sequence at `pos` byte by byte comes to, where the output
/// has `room` bytes in all and `out` has been written to it.
pub open spec fn straddling_step(block: Seq<u8>, room: nat, pos: int, out: Seq<u8>) -> Step {
    if pos < 0 || block.len() <= pos {
        Step::Failed { out, error: DecompressError::ExpectedAnotherByte }
    } else {
        match literal_field(block, pos) {
            None => Step::Failed { out, error: DecompressError::ExpectedAnotherByte },
            Some((literals, first)) => {
                let end = first + literals;
                if block.len() < end && out.len() + (block.len() - first) <= room {
                    Step::Failed {
                        out: with_literals(block, out, first, block.len() as int),
                        error: DecompressError::ExpectedAnotherByte,
                    }
                } else if room < out.len() + literals {
                    Step::Failed {
                        out: with_literals(block, out, first, first + (room - out.len())),
                        error: no_room(room),
                    }
                } else {
                    let so_far = with_literals(block, out, first, end);
                    if block.len() == end {
                        Step::Finished { out: so_far }
                    } else if block.len() < end + 2 {
                        Step::Failed { out: so_far, error: DecompressError::ExpectedAnotherByte }
                    } else {
                        let offset = offset_field(block, end);
                        match match_field(block, pos, end) {
                            None => Step::Failed {
                                out: so_far,
                                error: DecompressError::ExpectedAnotherByte,
                            },
                            Some((length, next)) => if offset == 0 {
                                Step::Failed { out: so_far, error: DecompressError::OffsetZero }
                            } else if so_far.len() < offset {
                                Step::Failed {
                                    out: so_far,
                                    error: DecompressError::OffsetOutOfBounds,
                                }
                            } else if room < so_far.len() + length {
                                Step::Failed {
                                    out: copy_match(so_far, offset, (room - so_far.len()) as nat),
                                    error: no_room(room),
                                }
                            } else {
                                Step::Next { pos: next, out: copy_match(so_far, offset, length) }
                            },
                        }
                    }
                }
            },
        }
    }
}

/// Up to where the block has been read when the sequence at `pos` has been decoded
/// byte by byte, or has failed to be, where the output has `room` bytes in all and
/// `written` bytes precede the sequence in it.
pub open spec fn straddling_end(block: Seq<u8>, room: nat, pos: int, written: nat) -> int {
    if pos < 0 || block.len() <= pos {
        block.len() as int
    } else {
        match literal_field(block, pos) {
            None => block.len() as int,
            Some((literals, first)) => {
                let end = first + literals;
                if block.len() < end && written + (block.len() - first) <= room {
                    block.len() as int
                } else if room < written + literals {
                    // The literal that finds no room has been read.
                    first + (room - written) + 1
                } else if block.len() == end {
                    end
                } else if block.len() < end + 2 {
                    block.len() as int
                } else {
                    match match_field(block, pos, end) {
                        None => block.len() as int,
                        Some((_, next)) => next,
                    }
                }
            },
        }
    }
}

/// Up to where a sequence that begins after `written` bytes may write if it is to
/// be taken as a whole: to the end of its buffer, but no further than the match
/// window into a buffer that has others before it.
pub open spec fn view_end(rooms: Seq<nat>, written: int) -> int {
    let buffer = part_at(rooms, written);
    let first = start(rooms, buffer);
    let end = start(rooms, buffer + 1);
    if 0 < first && written < first + WINDOW_SIZE && first + WINDOW_SIZE < end {
        first + WINDOW_SIZE
    } else {
        end
    }
}

/// What decoding the sequence at `pos` of the block comes to, where the block
/// consists of `frags`, the output of buffers of sizes `rooms`, and `out` has been
/// written to them.
pub open spec fn scattered_step(
    frags: Seq<Seq<u8>>,
    rooms: Seq<nat>,
    pos: int,
    out: Seq<u8>,
) -> Step {
    let i = part_at(lens(frags), pos);
    let base = start(lens(frags), i);
    let last = start(lens(frags), i + 1) == flat(frags).len();
    match shape(frags[i], pos - base, out.len(), view_end(rooms, out.len() as int) as nat) {
        Shape::Complete { first, end, offset, length, next } => Step::Next {
            pos: base + next,
            out: with_sequence(frags[i], out, first, end, offset, length),
        },
        Shape::Invalid { error, first, end } => Step::Failed {
            out: with_literals(frags[i], out, first, end),
            error,
        },
        Shape::Truncated { error, first, end } if last => Step::Failed {
            out: with_literals(frags[i], out, first, end),
            error,
        },
        Shape::Final { first, end } if last => Step::Finished {
            out: with_literals(frags[i], out, first, end),
        },
        _ => straddling_step(flat(frags), total(rooms), pos, out),
    }
}

/// What decoding the block that consists of `frags` from `pos` on comes to, where
/// the output consists of buffers of sizes `rooms`, and `out` has been written to
/// them.
pub open spec fn scattered_from(
    frags: Seq<Seq<u8>>,
    rooms: Seq<nat>,
    pos: int,
    out: Seq<u8>,
) -> Outcome
    decreases flat(frags).len() - pos,
{
    if pos < 0 || flat(frags).len() <= pos {
        Outcome { written: out, error: Some(DecompressError::ExpectedAnotherByte) }
    } else if rooms.len() == 0 {
        Outcome {
            written: out,
            error: Some(DecompressError::OutputTooSmall { expected: 1, actual: 0 }),
        }
    } else {
        match scattered_step(frags, rooms, pos, out) {
            Step::Finished { out } => Outcome { written: out, error: None },
            Step::Failed { out, error } => Outcome { written: out, error: Some(error) },
            Step::Next { pos: next, out: so_far } => {
                proof {
                    lemma_step_advances(frags, rooms, pos, out);
                }
                scattered_from(frags, rooms, next, so_far)
            },
        }
    }
}

/// What decompressing the block that consists of `frags` into buffers of sizes
/// `rooms` comes to.
pub open spec fn decompressed(frags: Seq<Seq<u8>>, rooms: Seq<nat>) -> Outcome {
    if frags.len() == 1 && rooms.len() == 1 {
        contiguous_from(frags[0], rooms[0], 0, Seq::empty())
    } else {
        scattered_from(frags, rooms, 0, Seq::empty())
    }
}

/// What decoding `block` from `pos` on comes to if every sequence is decoded byte
/// by byte, where the output has `room` bytes in all and `out` has been written to
/// it.
pub open spec fn bytewise_from(block: Seq<u8>, room: nat, pos: int, out: Seq<u8>) -> Outcome
    decreases block.len() - pos,
{
    match straddling_step(block, room, pos, out) {
        Step::Finished { out } => Outcome { written: out, error: None },
        Step::Failed { out, error } => Outcome { written: out, error: Some(error) },
        Step::Next { pos: next, out: so_far } => {
            proof {
                lemma_straddling_advances(block, room, pos, out);
            }
            bytewise_from(block, room, next, so_far)
        },
    }
}

/// Where the pieces of a sequence lie.
pub proof fn lemma_shape_bounds(input: Seq<u8>, pos: int, written: nat, limit: nat)
    ensures
        match shape(input, pos, written, limit) {
            Shape::Truncated { first, end, .. } => pos <= first <= end && (first == end || end
                <= input.len()),
            Shape::Oversized { first, end, .. } => pos <= first <= end && (first == end || end
                <= input.len()),
            Shape::Invalid { first, end, .. } => pos < first <= end <= input.len(),
            Shape::Final { first, end } => pos < first <= end && end == input.len(),
            Shape::Complete { first, end, next, .. } => pos < first <= end && end + 2 <= next
                <= input.len(),
        },
{
    lemma_field_bounds(input, input[pos] as nat / 16, pos + 1);
    if let Some((literals, first)) = literal_field(input, pos) {
        lemma_field_bounds(input, input[pos] as nat % 16, first + literals + 2);
    }
}

/// A sequence that is decoded byte by byte takes at least one byte.
pub proof fn lemma_straddling_advances(block: Seq<u8>, room: nat, pos: int, out: Seq<u8>)
    ensures
        straddling_step(block, room, pos, out) matches Step::Next { pos: next, .. } ==> pos < next
            <= block.len(),
{
    lemma_field_bounds(block, block[pos] as nat / 16, pos + 1);
    if let Some((literals, first)) = literal_field(block, pos) {
        lemma_field_bounds(block, block[pos] as nat % 16, first + literals + 2);
    }
}

/// A sequence that is decoded takes at least one byte.
pub proof fn lemma_step_advances(frags: Seq<Seq<u8>>, rooms: Seq<nat>, pos: int, out: Seq<u8>)
    requires
        0 <= pos < flat(frags).len(),
    ensures
        scattered_step(frags, rooms, pos, out) matches Step::Next { pos: next, .. } ==> pos < next
            <= flat(frags).len(),
{
    lemma_flat_len(frags);
    lemma_part_at(lens(frags), pos);
    lemma_flat_part(frags, part_at(lens(frags), pos));
    let block = flat(frags);
    let i = part_at(lens(frags), pos);
    let base = start(lens(frags), i);
    lemma_shape_bounds(
        frags[i],
        pos - base,
        out.len(),
        view_end(rooms, out.len() as int) as nat,
    );
    lemma_straddling_advances(block, total(rooms), pos, out);
}

/// What stands where `out` has been written.
pub proof fn lemma_overwritten_take(old_bytes: Seq<u8>, out: Seq<u8>)
    requires
        out.len() <= old_bytes.len(),
    ensures
        overwritten(old_bytes, out).len() == old_bytes.len(),
        overwritten(old_bytes, out).take(out.len() as int) == out,
{
    assert(overwritten(old_bytes, out).take(out.len() as int) =~= out);
}

/// Writing `more` over `out` leaves nothing of `out`.
pub proof fn lemma_overwritten_twice(old_bytes: Seq<u8>, out: Seq<u8>, more: Seq<u8>)
    requires
        out.len() <= more.len() <= old_bytes.len(),
    ensures
        overwritten(overwritten(old_bytes, out), more) == overwritten(old_bytes, more),
{
    assert(overwritten(overwritten(old_bytes, out), more) =~= overwritten(old_bytes, more));
}

/// The byte-wise path takes at least one byte and keeps to the output.
pub proof fn lemma_straddling_bounds(block: Seq<u8>, room: nat, pos: int, out: Seq<u8>)
    requires
        0 <= pos < block.len(),
        out.len() <= room,
    ensures
        match straddling_step(block, room, pos, out) {
            Step::Finished { out: end } => out.len() <= end.len() <= room,
            Step::Failed { out: end, .. } => out.len() <= end.len() <= room,
            Step::Next { pos: next, out: end } => out.len() <= end.len() <= room && pos < next
                <= block.len(),
        },
{
    lemma_field_bounds(block, block[pos] as nat / 16, pos + 1);
    if let Some((literals, first)) = literal_field(block, pos) {
        let end = first + literals;
        lemma_field_bounds(block, block[pos] as nat % 16, end + 2);
        if let Some((length, next)) = match_field(block, pos, end) {
            let so_far = with_literals(block, out, first, end);
            let offset = offset_field(block, end);
            lemma_copy_match_len(so_far, offset, length);
            if so_far.len() <= room {
                lemma_copy_match_len(so_far, offset, (room - so_far.len()) as nat);
            }
        }
    }
}

/// Decoding byte by byte only adds to what has been written, and keeps to the
/// output.
pub proof fn lemma_bytewise_bounds(block: Seq<u8>, room: nat, pos: int, out: Seq<u8>)
    requires
        out.len() <= room,
    ensures
        out.len() <= bytewise_from(block, room, pos, out).written.len() <= room,
    decreases block.len() - pos,
{
    if 0 <= pos < block.len() {
        lemma_straddling_bounds(block, room, pos, out);
        if let Step::Next { pos: next, out: end } = straddling_step(block, room, pos, out) {
            lemma_bytewise_bounds(block, room, next, end);
        }
    }
}

/// Writing the byte after `out`.
pub proof fn lemma_overwrite_next(old_bytes: Seq<u8>, out: Seq<u8>, byte: u8)
    requires
        out.len() < old_bytes.len(),
    ensures
        overwritten(old_bytes, out).update(out.len() as int, byte) == overwritten(
            old_bytes,
            out.push(byte),
        ),
{
    assert(overwritten(old_bytes, out).update(out.len() as int, byte) =~= overwritten(
        old_bytes,
        out.push(byte),
    ));
}

/// A view does not end before it begins.
pub proof fn lemma_view_end(sizes: Seq<nat>, pos: int)
    requires
        sizes.len() > 0,
        0 <= pos <= total(sizes),
    ensures
        pos <= view_end(sizes, pos) <= total(sizes),
        pos == total(sizes) ==> view_end(sizes, pos) == total(sizes),
{
    lemma_part_at(sizes, pos);
    lemma_start_monotone(sizes, part_at(sizes, pos) + 1, part_at(sizes, pos) + 1);
}

} // verus!
