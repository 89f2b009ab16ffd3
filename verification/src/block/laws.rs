//! What holds of decompression as a whole.

use vstd::prelude::*;

use crate::block::cursor::{ScatteredReader, ScatteredWriter};
use crate::block::encoding::{
    encodable, encode_last, encode_sequences, ends_on_literals, expand, law_cut_block,
    law_encoded_block, Sequence,
};
use crate::block::format::{
    begins_with, copy_match, lemma_copy_match_len, lemma_copy_match_prefix, lemma_field_bounds,
    literal_field, match_field, offset_field, payload, payload_from,
};
use crate::block::fragment::{fragment_decodes, fragment_run, FragmentExit};
use crate::block::outcome::{
    bytewise_from, decompressed, lemma_bytewise_bounds, lemma_overwritten_take,
    lemma_overwritten_twice, lemma_straddling_bounds, overwritten, straddling_step, Outcome, Step,
};
use crate::block::parts::{flat, fragments, total};
use crate::block::search::{compressed, law_compressed, parse, END_OFFSET};
use crate::block::soundness::{
    lemma_bytewise_agrees, lemma_decompressed_agrees, lemma_scattered_skips_buffer,
    lemma_scattered_skips_fragment, lemma_truncated,
};
use crate::block::straddle::straddles;
use crate::block::{DecompressError, WINDOW_SIZE};

verus! {

/// Decompression succeeds exactly if there is a buffer, the input is a block, and
/// the output has room for what the block stands for; and then that is what it
/// writes.
pub proof fn law_success(frags: Seq<Seq<u8>>, rooms: Seq<nat>)
    ensures
        decompressed(frags, rooms).error is None <==> {
            &&& rooms.len() > 0
            &&& payload(flat(frags)) is Some
            &&& payload(flat(frags)).unwrap().len() <= total(rooms)
        },
        decompressed(frags, rooms).error is None ==> payload(flat(frags)) == Some(
            decompressed(frags, rooms).written,
        ),
{
    if rooms.len() > 0 {
        lemma_decompressed_agrees(frags, rooms);
    }
}

/// Where the input and the output are cut makes no difference to whether a block
/// is decoded and to which bytes.
pub proof fn law_cuts_do_not_matter(
    frags: Seq<Seq<u8>>,
    rooms: Seq<nat>,
    other_frags: Seq<Seq<u8>>,
    other_rooms: Seq<nat>,
)
    requires
        flat(frags) == flat(other_frags),
        total(rooms) == total(other_rooms),
        rooms.len() > 0 <==> other_rooms.len() > 0,
    ensures
        decompressed(frags, rooms).error is None <==> decompressed(
            other_frags,
            other_rooms,
        ).error is None,
        decompressed(frags, rooms).error is None ==> decompressed(frags, rooms)
            == decompressed(other_frags, other_rooms),
{
    law_success(frags, rooms);
    law_success(other_frags, other_rooms);
}

/// Decoding the whole block byte by byte succeeds on the same blocks as
/// decompression, which takes sequences as a whole where it can, and writes the same
/// bytes.
pub proof fn law_bytewise_agrees(frags: Seq<Seq<u8>>, rooms: Seq<nat>)
    requires
        rooms.len() > 0,
    ensures
        ({
            let bytewise = bytewise_from(flat(frags), total(rooms), 0, Seq::empty());
            &&& bytewise.error is None <==> decompressed(frags, rooms).error is None
            &&& bytewise.error is None ==> bytewise == decompressed(frags, rooms)
        }),
{
    lemma_bytewise_agrees(flat(frags), total(rooms), 0, Seq::empty());
    lemma_decompressed_agrees(frags, rooms);
}

/// A block that is decoded is decoded to the same bytes however else it and the
/// output are cut, and with any amount of surplus room; where the room is less than
/// those bytes, there is an error.
pub proof fn law_room_decides(
    frags: Seq<Seq<u8>>,
    rooms: Seq<nat>,
    other_frags: Seq<Seq<u8>>,
    other_rooms: Seq<nat>,
)
    requires
        decompressed(frags, rooms).error is None,
        flat(frags) == flat(other_frags),
        other_rooms.len() > 0,
    ensures
        if decompressed(frags, rooms).written.len() <= total(other_rooms) {
            decompressed(other_frags, other_rooms) == decompressed(frags, rooms)
        } else {
            decompressed(other_frags, other_rooms).error is Some
        },
{
    law_success(frags, rooms);
    law_success(other_frags, other_rooms);
}

/// A block that is too large for the output is refused for want of room: the
/// error gives the room there is, and asks for more than that but for no more than
/// the block needs. What has been written by then is the beginning of what the
/// block stands for.
pub proof fn law_too_small(frags: Seq<Seq<u8>>, rooms: Seq<nat>)
    requires
        rooms.len() > 0,
        total(rooms) < usize::MAX,
        payload(flat(frags)) is Some,
        total(rooms) < payload(flat(frags)).unwrap().len(),
    ensures
        ({
            let outcome = decompressed(frags, rooms);
            let bytes = payload(flat(frags)).unwrap();
            &&& outcome.error matches Some(DecompressError::OutputTooSmall { expected, actual })
            &&& actual == total(rooms)
            &&& actual < expected <= bytes.len()
            &&& begins_with(bytes, outcome.written)
        }),
{
    lemma_decompressed_agrees(frags, rooms);
}

/// Every error but one for want of room says that the input is not a block.
pub proof fn law_other_errors(frags: Seq<Seq<u8>>, rooms: Seq<nat>)
    requires
        rooms.len() > 0,
        total(rooms) < usize::MAX,
        decompressed(frags, rooms).error is Some,
        !(decompressed(frags, rooms).error.unwrap() is OutputTooSmall),
    ensures
        payload(flat(frags)) is None,
{
    lemma_decompressed_agrees(frags, rooms);
}

/// Sequences that are written down as a block come back from decompression,
/// however the block and the output are cut.
pub proof fn law_round_trip(
    sequences: Seq<Sequence>,
    last: Seq<u8>,
    frags: Seq<Seq<u8>>,
    rooms: Seq<nat>,
)
    requires
        encodable(Seq::empty(), sequences),
        flat(frags) == encode_sequences(sequences) + encode_last(last),
        rooms.len() > 0,
        (expand(Seq::empty(), sequences) + last).len() <= total(rooms),
    ensures
        decompressed(frags, rooms) == (Outcome {
            written: expand(Seq::empty(), sequences) + last,
            error: None,
        }),
{
    law_encoded_block(sequences, last);
    lemma_decompressed_agrees(frags, rooms);
}

/// What is compressed comes back from decompression, however the block and the
/// output are cut.
pub proof fn law_compressed_comes_back(input: Seq<u8>, frags: Seq<Seq<u8>>, rooms: Seq<nat>)
    requires
        flat(frags) == compressed(input),
        rooms.len() > 0,
        input.len() <= total(rooms),
    ensures
        decompressed(frags, rooms) == (Outcome { written: input, error: None }),
{
    law_compressed(input);
    law_success(frags, rooms);
}

/// What is left of a compressed input that is cut off is a block exactly if the cut
/// comes right after the literals of a sequence with a match. So it is none if no more
/// than the last sequence is cut off, and none if no more than [`END_OFFSET`] bytes
/// are.
pub proof fn law_compressed_cut_off(input: Seq<u8>, end: int)
    requires
        0 <= end < compressed(input).len(),
    ensures
        payload(compressed(input).take(end)) is Some <==> ends_on_literals(
            parse(input).sequences,
            end,
        ),
        encode_sequences(parse(input).sequences).len() <= end ==> payload(
            compressed(input).take(end),
        ) is None,
        compressed(input).len() <= end + END_OFFSET ==> payload(
            compressed(input).take(end),
        ) is None,
{
    law_compressed(input);
    law_cut_block(parse(input).sequences, parse(input).last, end);
}

/// Decompressing a compressed input that has lost up to [`END_OFFSET`] bytes at its
/// end is an error, however it and the output are cut.
pub proof fn law_cut_off_is_an_error(
    input: Seq<u8>,
    cut: int,
    frags: Seq<Seq<u8>>,
    rooms: Seq<nat>,
)
    requires
        0 < cut <= END_OFFSET,
        cut <= compressed(input).len(),
        flat(frags) == compressed(input).take(compressed(input).len() - cut),
    ensures
        decompressed(frags, rooms).error is Some,
{
    law_compressed_cut_off(input, compressed(input).len() - cut);
    law_success(frags, rooms);
}

/// A block that has lost its end is not taken for the whole: either it is no
/// block, or it stands for fewer bytes, with which those of the whole begin.
pub proof fn law_truncation_shows(block: Seq<u8>, n: int)
    requires
        0 <= n < block.len(),
        payload(block) is Some,
    ensures
        payload(block.take(n)) matches Some(fewer) ==> {
            &&& fewer.len() < payload(block).unwrap().len()
            &&& begins_with(payload(block).unwrap(), fewer)
        },
{
    lemma_truncated(block, n, 0, Seq::empty());
}

/// Where the match window has been written, what precedes it makes no difference:
/// no match reaches back further.
pub proof fn law_window_suffices(block: Seq<u8>, pos: int, earlier: Seq<u8>, window: Seq<u8>)
    requires
        WINDOW_SIZE <= window.len(),
    ensures
        payload_from(block, pos, earlier + window) == match payload_from(block, pos, window) {
            Some(bytes) => Some(earlier + bytes),
            None => None,
        },
    decreases block.len() - pos,
{
    if 0 <= pos < block.len() {
        if let Some((literals, first)) = literal_field(block, pos) {
            let end = first + literals;
            let so_far = window + block.subrange(first, end);
            assert((earlier + window) + block.subrange(first, end) =~= earlier + so_far);
            lemma_field_bounds(block, block[pos] as nat / 16, pos + 1);
            if end + 2 <= block.len() {
                if let Some((length, next)) = match_field(block, pos, end) {
                    let offset = offset_field(block, end);
                    lemma_field_bounds(block, block[pos] as nat % 16, end + 2);
                    if offset > 0 {
                        lemma_copy_match_prefix(earlier, so_far, offset, length);
                        lemma_copy_match_len(so_far, offset, length);
                        law_window_suffices(
                            block,
                            next,
                            earlier,
                            copy_match(so_far, offset, length),
                        );
                    }
                }
            }
        }
    }
}

/// Fragments without a byte are skipped: putting one in changes neither what is
/// written nor the error, unless the input was one fragment and the output one
/// buffer, which are decoded in one piece.
pub proof fn law_empty_fragment_skipped(frags: Seq<Seq<u8>>, rooms: Seq<nat>, i: int)
    requires
        0 <= i <= frags.len(),
        !(frags.len() == 1 && rooms.len() == 1),
    ensures
        decompressed(frags.insert(i, Seq::empty()), rooms) == decompressed(frags, rooms),
{
    lemma_scattered_skips_fragment(frags, rooms, i, 0, Seq::empty());
}

/// Buffers without room are skipped: putting one in among others changes neither
/// what is written nor the error, unless the input was one fragment and the output
/// one buffer, which are decoded in one piece.
pub proof fn law_empty_buffer_skipped(frags: Seq<Seq<u8>>, rooms: Seq<nat>, i: int)
    requires
        0 <= i <= rooms.len(),
        0 < rooms.len(),
        !(frags.len() == 1 && rooms.len() == 1),
    ensures
        decompressed(frags, rooms.insert(i, 0)) == decompressed(frags, rooms),
{
    lemma_scattered_skips_buffer(frags, rooms, i, 0, Seq::empty());
}

/// Reading one byte after the other gives the bytes of the block from the cursor
/// on, and then fails each time.
pub proof fn law_reads_give_the_block(
    cursors: Seq<ScatteredReader<'_>>,
    results: Seq<Result<u8, DecompressError>>,
)
    requires
        cursors.len() == results.len() + 1,
        cursors[0].wf(),
        forall|k: int|
            0 <= k < results.len() ==> cursors[k].reads(cursors[k + 1], #[trigger] results[k]),
    ensures
        ({
            let block = cursors[0].block();
            let first = cursors[0].pos();
            &&& forall|k: int|
                0 <= k < results.len() ==> #[trigger] results[k] == if first + k < block.len() {
                    Ok::<u8, DecompressError>(block[first + k])
                } else {
                    Err::<u8, DecompressError>(DecompressError::ExpectedAnotherByte)
                }
            &&& cursors.last().wf()
            &&& cursors.last().input == cursors[0].input
            &&& cursors.last().pos() == if first + results.len() <= block.len() {
                first + results.len()
            } else {
                block.len() as int
            }
        }),
    decreases results.len(),
{
    cursors[0].lemma_pos();
    if results.len() > 0 {
        let n = results.len() - 1;
        assert(results[n] == results.last());
        assert forall|k: int| 0 <= k < n implies cursors.drop_last()[k].reads(
            cursors.drop_last()[k + 1],
            #[trigger] results.drop_last()[k],
        ) by {
            assert(results.drop_last()[k] == results[k]);
        }
        law_reads_give_the_block(cursors.drop_last(), results.drop_last());
        assert forall|k: int| 0 <= k < n implies results[k] == results.drop_last()[k] by {}
    }
}

/// The input is exhausted exactly where reading a byte fails.
pub proof fn law_exhausted_where_reading_fails(
    reader: ScatteredReader<'_>,
    next: ScatteredReader<'_>,
    res: Result<u8, DecompressError>,
)
    requires
        reader.wf(),
        reader.reads(next, res),
    ensures
        reader.at_end() <==> res is Err,
        reader.at_end() ==> next.at_end(),
{
    reader.lemma_pos();
}

/// Bytes that are written one after the other stand in the output from the cursor
/// on, in their order, as far as there is room; the others fail. The cursor counts
/// those that were written, and nothing else changes.
pub proof fn law_writes_read_back(
    sizes: Seq<nat>,
    bytes: Seq<u8>,
    cursors: Seq<ScatteredWriter>,
    outputs: Seq<Seq<u8>>,
    results: Seq<Result<(), DecompressError>>,
)
    requires
        results.len() == bytes.len(),
        cursors.len() == bytes.len() + 1,
        outputs.len() == bytes.len() + 1,
        outputs[0].len() == total(sizes),
        cursors[0].wf(sizes),
        forall|k: int|
            0 <= k < bytes.len() ==> cursors[k].writes(
                sizes,
                outputs[k],
                bytes[k],
                cursors[k + 1],
                outputs[k + 1],
                #[trigger] results[k],
            ),
    ensures
        ({
            let first = cursors[0].pos(sizes);
            let n = if first + bytes.len() <= total(sizes) {
                bytes.len() as int
            } else {
                total(sizes) - first
            };
            &&& 0 <= n
            &&& forall|k: int| 0 <= k < bytes.len() ==> (#[trigger] results[k] is Ok <==> k < n)
            &&& cursors.last().wf(sizes)
            &&& cursors.last().pos(sizes) == first + n
            &&& outputs.last() == outputs[0].take(first) + bytes.take(n) + outputs[0].skip(
                first + n,
            )
        }),
    decreases bytes.len(),
{
    let first = cursors[0].pos(sizes);
    cursors[0].lemma_pos(sizes);
    if bytes.len() == 0 {
        assert(outputs[0] =~= outputs[0].take(first) + bytes.take(0) + outputs[0].skip(first));
    } else {
        let last = bytes.len() - 1;
        assert(results[last] == results.last());
        assert forall|k: int| 0 <= k < last implies cursors.drop_last()[k].writes(
            sizes,
            outputs.drop_last()[k],
            bytes.drop_last()[k],
            cursors.drop_last()[k + 1],
            outputs.drop_last()[k + 1],
            #[trigger] results.drop_last()[k],
        ) by {
            assert(results.drop_last()[k] == results[k]);
        }
        law_writes_read_back(
            sizes,
            bytes.drop_last(),
            cursors.drop_last(),
            outputs.drop_last(),
            results.drop_last(),
        );
        assert forall|k: int| 0 <= k < last implies results[k] == results.drop_last()[k] by {}
        let n = if first + bytes.len() <= total(sizes) {
            bytes.len() as int
        } else {
            total(sizes) - first
        };
        assert(outputs.last() =~= outputs[0].take(first) + bytes.take(n) + outputs[0].skip(
            first + n,
        ));
    }
}

/// Decoding within a fragment and a buffer has one result, whichever variant of the
/// decoder is taken: one that can use a dictionary does without one as one that
/// cannot.
pub proof fn law_fragment_variants_agree(
    input: Seq<u8>,
    ext_dict: Seq<u8>,
    last: bool,
    in_pos: int,
    out_pos: int,
    old_output: Seq<u8>,
    ends: (int, int, Seq<u8>, Result<FragmentExit, DecompressError>),
    other_ends: (int, int, Seq<u8>, Result<FragmentExit, DecompressError>),
)
    requires
        fragment_decodes(
            input,
            ext_dict,
            last,
            in_pos,
            out_pos,
            old_output,
            ends.0,
            ends.1,
            ends.2,
            ends.3,
        ),
        fragment_decodes(
            input,
            ext_dict,
            last,
            in_pos,
            out_pos,
            old_output,
            other_ends.0,
            other_ends.1,
            other_ends.2,
            other_ends.3,
        ),
    ensures
        ends == other_ends,
{
    let out = match fragment_run(
        input,
        ext_dict.len() + old_output.len(),
        last,
        in_pos,
        ext_dict + old_output.take(out_pos),
    ) {
        Step::Finished { out } => out,
        Step::Failed { out, .. } => out,
        Step::Next { out, .. } => out,
    };
    let n = out.len() - ext_dict.len();
    assert(ends.2 =~= (ext_dict + ends.2.take(n)).skip(ext_dict.len() as int) + ends.2.skip(n));
    assert(other_ends.2 =~= (ext_dict + other_ends.2.take(n)).skip(ext_dict.len() as int)
        + other_ends.2.skip(n));
}

/// What decoding sequence after sequence byte by byte comes to, from any cursors on.
proof fn lemma_straddling_chain(
    sizes: Seq<nat>,
    readers: Seq<ScatteredReader<'_>>,
    writers: Seq<ScatteredWriter>,
    outputs: Seq<Seq<u8>>,
    results: Seq<Result<bool, DecompressError>>,
)
    requires
        results.len() > 0,
        readers.len() == results.len() + 1,
        writers.len() == results.len() + 1,
        outputs.len() == results.len() + 1,
        readers[0].wf(),
        writers[0].wf(sizes),
        outputs[0].len() == total(sizes),
        forall|k: int|
            0 <= k < results.len() ==> straddles(
                readers[k],
                writers[k],
                sizes,
                outputs[k],
                readers[k + 1],
                writers[k + 1],
                outputs[k + 1],
                #[trigger] results[k],
            ),
        forall|k: int|
            0 <= k < results.len() - 1 ==> #[trigger] results[k] == Ok::<bool, DecompressError>(
                false,
            ),
        results.last() != Ok::<bool, DecompressError>(false),
    ensures
        ({
            let out = outputs[0].take(writers[0].pos(sizes));
            let outcome = bytewise_from(readers[0].block(), total(sizes), readers[0].pos(), out);
            &&& results.last() == match outcome.error {
                None => Ok::<bool, DecompressError>(true),
                Some(error) => Err::<bool, DecompressError>(error),
            }
            &&& writers.last().pos(sizes) == outcome.written.len()
            &&& outcome.written.len() <= total(sizes)
            &&& outputs.last() == overwritten(outputs[0], outcome.written)
        }),
    decreases results.len(),
{
    let block = readers[0].block();
    let pos = readers[0].pos();
    let out = outputs[0].take(writers[0].pos(sizes));
    readers[0].lemma_pos();
    writers[0].lemma_pos(sizes);
    assert(results[0] == results.first());
    writers[1].lemma_pos(sizes);
    if results.len() > 1 {
        let more_readers = readers.drop_first();
        let more_writers = writers.drop_first();
        let more_outputs = outputs.drop_first();
        let more_results = results.drop_first();
        let end = straddling_step(block, total(sizes), pos, out)->Next_out;
        lemma_straddling_bounds(block, total(sizes), pos, out);
        lemma_overwritten_take(outputs[0], end);
        assert forall|k: int| 0 <= k < more_results.len() implies straddles(
            more_readers[k],
            more_writers[k],
            sizes,
            more_outputs[k],
            more_readers[k + 1],
            more_writers[k + 1],
            more_outputs[k + 1],
            #[trigger] more_results[k],
        ) by {
            assert(more_results[k] == results[k + 1]);
        }
        assert forall|k: int| 0 <= k < more_results.len() - 1 implies #[trigger] more_results[k]
            == Ok::<bool, DecompressError>(false) by {
            assert(more_results[k] == results[k + 1]);
        }
        lemma_straddling_chain(sizes, more_readers, more_writers, more_outputs, more_results);
        lemma_bytewise_bounds(block, total(sizes), more_readers[0].pos(), end);
        lemma_overwritten_twice(
            outputs[0],
            end,
            bytewise_from(block, total(sizes), more_readers[0].pos(), end).written,
        );
    }
}

/// Decoding sequence after sequence byte by byte until the block ends or an error
/// comes ends as decompression does: with the same bytes, as many of them, or with an
/// error where that has one.
pub proof fn law_straddling_agrees(
    sizes: Seq<nat>,
    readers: Seq<ScatteredReader<'_>>,
    writers: Seq<ScatteredWriter>,
    outputs: Seq<Seq<u8>>,
    results: Seq<Result<bool, DecompressError>>,
)
    requires
        sizes.len() > 0,
        results.len() > 0,
        readers.len() == results.len() + 1,
        writers.len() == results.len() + 1,
        outputs.len() == results.len() + 1,
        readers[0].wf(),
        readers[0].pos() == 0,
        writers[0].wf(sizes),
        writers[0].pos(sizes) == 0,
        outputs[0].len() == total(sizes),
        forall|k: int|
            0 <= k < results.len() ==> straddles(
                readers[k],
                writers[k],
                sizes,
                outputs[k],
                readers[k + 1],
                writers[k + 1],
                outputs[k + 1],
                #[trigger] results[k],
            ),
        forall|k: int|
            0 <= k < results.len() - 1 ==> #[trigger] results[k] == Ok::<bool, DecompressError>(
                false,
            ),
        results.last() != Ok::<bool, DecompressError>(false),
    ensures
        ({
            let outcome = decompressed(fragments(readers[0].input@), sizes);
            if outcome.error is None {
                &&& results.last() == Ok::<bool, DecompressError>(true)
                &&& writers.last().pos(sizes) == outcome.written.len()
                &&& outputs.last() == overwritten(outputs[0], outcome.written)
            } else {
                results.last() is Err
            }
        }),
{
    lemma_straddling_chain(sizes, readers, writers, outputs, results);
    law_bytewise_agrees(fragments(readers[0].input@), sizes);
    assert(outputs[0].take(0) =~= Seq::empty());
}

} // verus!
