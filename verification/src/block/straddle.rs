//! Decoding one sequence byte by byte across fragment and buffer edges.

use vstd::prelude::*;

use crate::block::cursor::{ScatteredReader, ScatteredWriter};
use crate::block::format::{
    copy_match, lemma_copy_match_len, lemma_field_bounds, literal_field, match_field,
};
use crate::block::outcome::{
    lemma_overwrite_next, lemma_overwritten_take, lemma_overwritten_twice, no_room, overwritten,
    straddling_end, straddling_step, with_literals, Step,
};
use crate::block::parts::{contents, flat, lemma_flat_len, lemma_start_ends, rooms, total};
use crate::block::{DecompressError, MINMATCH};

verus! {

/// Copy `count` literals from the input to the output byte by byte.
pub(crate) fn straddling_literals(
    reader: &mut ScatteredReader<'_>,
    writer: &mut ScatteredWriter,
    output: &mut [&mut [u8]],
    count: usize,
) -> (res: Result<(), DecompressError>)
    requires
        old(reader).wf(),
        old(writer).wf(rooms(old(output)@)),
        total(rooms(old(output)@)) < usize::MAX,
    ensures
        final(output)@.len() == old(output)@.len(),
        forall|k: int|
            0 <= k < old(output)@.len() ==> final(#[trigger] final(output)@[k])@
                == final(old(output)@[k])@,
        rooms(final(output)@) == rooms(old(output)@),
        final(reader).input == old(reader).input,
        final(reader).wf(),
        final(writer).wf(rooms(old(output)@)),
        ({
            let sizes = rooms(old(output)@);
            let bytes = flat(contents(old(output)@));
            let new_bytes = flat(contents(final(output)@));
            let block = old(reader).block();
            let first = old(reader).pos();
            let out = bytes.take(old(writer).pos(sizes));
            let left = block.len() - first;
            let room = total(sizes) - out.len();
            if left < count && left <= room {
                &&& res == Err::<(), DecompressError>(DecompressError::ExpectedAnotherByte)
                &&& final(reader).at_end()
                &&& final(reader).frag_idx is None
                &&& final(writer).pos(sizes) == out.len() + left
                &&& final(writer).behind_writes(*old(writer), sizes)
                &&& new_bytes == overwritten(
                    bytes,
                    with_literals(block, out, first, first + left),
                )
            } else if room < count {
                &&& res == Err::<(), DecompressError>(no_room(total(sizes)))
                &&& final(reader).pos() == first + room + 1
                &&& final(reader).behind_byte()
                &&& final(writer).past_end(sizes)
                &&& new_bytes == overwritten(
                    bytes,
                    with_literals(block, out, first, first + room),
                )
            } else {
                &&& res == Ok::<(), DecompressError>(())
                &&& final(reader).pos() == first + count
                &&& if count == 0 {
                    *final(reader) == *old(reader)
                } else {
                    final(reader).behind_byte()
                }
                &&& final(writer).pos(sizes) == out.len() + count
                &&& final(writer).behind_writes(*old(writer), sizes)
                &&& new_bytes == overwritten(
                    bytes,
                    with_literals(block, out, first, first + count),
                )
            }
        }),
{
    let ghost sizes = rooms(output@);
    let ghost bytes = flat(contents(output@));
    let ghost block = reader.block();
    let ghost first = reader.pos();
    let ghost out = bytes.take(writer.pos(sizes));
    proof {
        reader.lemma_pos();
        writer.lemma_pos(sizes);
        lemma_flat_len(contents(output@));
        assert(with_literals(block, out, first, first) =~= out);
        assert(bytes =~= overwritten(bytes, out));
    }
    let mut i: usize = 0;
    while i < count
        invariant
            i <= count,
            sizes == rooms(old(output)@),
            bytes == flat(contents(old(output)@)),
            block == old(reader).block(),
            first == old(reader).pos(),
            out == bytes.take(old(writer).pos(sizes)),
            out.len() == old(writer).pos(sizes),
            bytes.len() == total(sizes),
            total(sizes) < usize::MAX,
            0 <= first,
            out.len() + i <= total(sizes),
            first + i <= block.len(),
            block == reader.block(),
            reader.wf(),
            reader.input == old(reader).input,
            reader.pos() == first + i,
            if i == 0 {
                *reader == *old(reader)
            } else {
                reader.behind_byte()
            },
            output@.len() == old(output)@.len(),
            forall|k: int|
                0 <= k < old(output)@.len() ==> final(#[trigger] output@[k])@
                    == final(old(output)@[k])@,
            rooms(output@) == sizes,
            writer.wf(sizes),
            writer.pos(sizes) == out.len() + i,
            writer.behind_writes(*old(writer), sizes),
            flat(contents(output@)) == overwritten(
                bytes,
                with_literals(block, out, first, first + i),
            ),
        decreases count - i,
    {
        let byte = reader.read_byte()?;
        writer.write_byte(output, byte)?;
        proof {
            lemma_overwrite_next(bytes, with_literals(block, out, first, first + i), byte);
            assert(with_literals(block, out, first, first + i).push(byte) =~= with_literals(
                block,
                out,
                first,
                first + i + 1,
            ));
        }
        i += 1;
    }
    Ok(())
}

/// Append a match of `count` bytes to the output byte by byte.
pub(crate) fn straddling_match(
    writer: &mut ScatteredWriter,
    output: &mut [&mut [u8]],
    offset: usize,
    count: usize,
) -> (res: Result<(), DecompressError>)
    requires
        old(writer).wf(rooms(old(output)@)),
        total(rooms(old(output)@)) < usize::MAX,
        0 < offset <= old(writer).pos(rooms(old(output)@)),
    ensures
        final(output)@.len() == old(output)@.len(),
        forall|k: int|
            0 <= k < old(output)@.len() ==> final(#[trigger] final(output)@[k])@
                == final(old(output)@[k])@,
        rooms(final(output)@) == rooms(old(output)@),
        final(writer).wf(rooms(old(output)@)),
        ({
            let sizes = rooms(old(output)@);
            let bytes = flat(contents(old(output)@));
            let new_bytes = flat(contents(final(output)@));
            let out = bytes.take(old(writer).pos(sizes));
            let room = total(sizes) - out.len();
            if room < count {
                &&& res == Err::<(), DecompressError>(no_room(total(sizes)))
                &&& final(writer).past_end(sizes)
                &&& new_bytes == overwritten(bytes, copy_match(out, offset as nat, room as nat))
            } else {
                &&& res == Ok::<(), DecompressError>(())
                &&& final(writer).pos(sizes) == out.len() + count
                &&& final(writer).behind_writes(*old(writer), sizes)
                &&& new_bytes == overwritten(bytes, copy_match(out, offset as nat, count as nat))
            }
        }),
{
    let ghost sizes = rooms(output@);
    let ghost bytes = flat(contents(output@));
    let ghost out = bytes.take(writer.pos(sizes));
    proof {
        writer.lemma_pos(sizes);
        lemma_flat_len(contents(output@));
        assert(bytes =~= overwritten(bytes, out));
    }
    // Re-derive the source position every iteration: an overlapping match
    // (offset < count) reads bytes this same loop just produced.
    let mut i: usize = 0;
    while i < count
        invariant
            i <= count,
            sizes == rooms(old(output)@),
            bytes == flat(contents(old(output)@)),
            out == bytes.take(old(writer).pos(sizes)),
            out.len() == old(writer).pos(sizes),
            bytes.len() == total(sizes),
            total(sizes) < usize::MAX,
            0 < offset <= out.len(),
            out.len() + i <= total(sizes),
            copy_match(out, offset as nat, i as nat).len() == out.len() + i,
            output@.len() == old(output)@.len(),
            forall|k: int|
                0 <= k < old(output)@.len() ==> final(#[trigger] output@[k])@
                    == final(old(output)@[k])@,
            rooms(output@) == sizes,
            writer.wf(sizes),
            writer.pos(sizes) == out.len() + i,
            writer.behind_writes(*old(writer), sizes),
            flat(contents(output@)) == overwritten(bytes, copy_match(out, offset as nat, i as nat)),
        decreases count - i,
    {
        let ghost before = copy_match(out, offset as nat, i as nat);
        let byte = writer.read_at(output, writer.total_written(output) - offset);
        assert(byte == before[before.len() - offset]);
        writer.write_byte(output, byte)?;
        proof {
            lemma_overwrite_next(bytes, before, byte);
        }
        i += 1;
    }
    Ok(())
}

/// Whether decoding one sequence byte by byte, with the cursors `reader` and
/// `writer`, into buffers of the given sizes that hold `bytes`, gives `res` and leaves
/// the cursors at `next_reader` and `next_writer` and the buffers with `new_bytes`.
pub open spec fn straddles(
    reader: ScatteredReader<'_>,
    writer: ScatteredWriter,
    sizes: Seq<nat>,
    bytes: Seq<u8>,
    next_reader: ScatteredReader<'_>,
    next_writer: ScatteredWriter,
    new_bytes: Seq<u8>,
    res: Result<bool, DecompressError>,
) -> bool {
    let block = reader.block();
    let pos = reader.pos();
    let out = bytes.take(writer.pos(sizes));
    &&& next_reader.input == reader.input
    &&& next_reader.wf()
    &&& next_writer.wf(sizes)
    &&& next_reader.pos() == straddling_end(block, total(sizes), pos, out.len())
    &&& match straddling_step(block, total(sizes), pos, out) {
        Step::Finished { out: end } => {
            &&& res == Ok::<bool, DecompressError>(true)
            &&& next_reader.at_end()
            &&& next_reader.behind_byte()
            &&& next_writer.pos(sizes) == end.len()
            &&& next_writer.behind_writes(writer, sizes)
            &&& new_bytes == overwritten(bytes, end)
        },
        Step::Failed { out: end, error } => {
            &&& res == Err::<bool, DecompressError>(error)
            &&& if error is ExpectedAnotherByte {
                next_reader.at_end() && next_reader.frag_idx is None
            } else {
                next_reader.behind_byte()
            }
            &&& end.len() <= total(sizes)
            &&& next_writer.pos(sizes) == end.len()
            &&& if error is OutputTooSmall {
                next_writer.past_end(sizes)
            } else {
                next_writer.behind_writes(writer, sizes)
            }
            &&& new_bytes == overwritten(bytes, end)
        },
        Step::Next { pos: next, out: end } => {
            &&& res == Ok::<bool, DecompressError>(false)
            &&& next_reader.pos() == next
            &&& next_reader.behind_byte()
            &&& next_writer.pos(sizes) == end.len()
            &&& next_writer.behind_writes(writer, sizes)
            &&& new_bytes == overwritten(bytes, end)
        },
    }
}

/// Decode exactly one sequence byte by byte across fragment and buffer edges.
/// Returns `true` when it was the block's final, literals-only sequence.
#[verifier::rlimit(60)]
pub(crate) fn straddling_sequence(
    reader: &mut ScatteredReader<'_>,
    writer: &mut ScatteredWriter,
    output: &mut [&mut [u8]],
) -> (res: Result<bool, DecompressError>)
    requires
        old(reader).wf(),
        old(writer).wf(rooms(old(output)@)),
        total(rooms(old(output)@)) < usize::MAX,
    ensures
        final(output)@.len() == old(output)@.len(),
        forall|k: int|
            0 <= k < old(output)@.len() ==> final(#[trigger] final(output)@[k])@
                == final(old(output)@[k])@,
        rooms(final(output)@) == rooms(old(output)@),
        straddles(
            *old(reader),
            *old(writer),
            rooms(old(output)@),
            flat(contents(old(output)@)),
            *final(reader),
            *final(writer),
            flat(contents(final(output)@)),
            res,
        ),
{
    let ghost sizes = rooms(output@);
    let ghost room = total(sizes);
    let ghost bytes = flat(contents(output@));
    let ghost block = reader.block();
    let ghost pos = reader.pos();
    let ghost out = bytes.take(writer.pos(sizes));
    proof {
        reader.lemma_pos();
        writer.lemma_pos(sizes);
        lemma_start_ends(sizes);
        lemma_flat_len(contents(output@));
        assert(bytes =~= overwritten(bytes, out));
    }
    let token = reader.read_byte()?;
    assert(token >> 4 == token / 16) by (bit_vector);
    assert(token & 0xF == token % 16) by (bit_vector);

    let mut literal_length: usize = (token >> 4) as usize;
    proof {
        lemma_field_bounds(block, block[pos] as nat / 16, pos + 1);
    }
    if literal_length == 15 {
        literal_length = literal_length.saturating_add(reader.read_extension()?);
    }
    let ghost literals = literal_field(block, pos).unwrap().0;
    let ghost first = literal_field(block, pos).unwrap().1;
    straddling_literals(reader, writer, output, literal_length)?;
    let ghost end = first + literals;
    let ghost so_far = with_literals(block, out, first, end);
    if reader.exhausted() {
        return Ok(true);
    }

    let low = reader.read_byte()?;
    let high = reader.read_byte()?;
    let offset: usize = low as usize + 256 * (high as usize);
    let mut match_length: usize = MINMATCH + (token & 0xF) as usize;
    proof {
        lemma_field_bounds(block, block[pos] as nat % 16, end + 2);
    }
    if match_length == MINMATCH + 15 {
        match_length = match_length.saturating_add(reader.read_extension()?);
    }
    let ghost length = match_field(block, pos, end).unwrap().0;
    if offset == 0 {
        return Err(DecompressError::OffsetZero);
    }
    if offset > writer.total_written(output) {
        return Err(DecompressError::OffsetOutOfBounds);
    }
    proof {
        lemma_overwritten_take(bytes, so_far);
        lemma_copy_match_len(so_far, offset as nat, length);
        lemma_copy_match_len(so_far, offset as nat, (room - so_far.len()) as nat);
        lemma_overwritten_twice(
            bytes,
            so_far,
            copy_match(so_far, offset as nat, if room < so_far.len() + length {
                (room - so_far.len()) as nat
            } else {
                length
            }),
        );
    }
    straddling_match(writer, output, offset, match_length)?;
    Ok(false)
}

} // verus!
