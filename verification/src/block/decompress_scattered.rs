//! Scattered (vectored) block decompression: decode one LZ4 block whose
//! compressed bytes are split across multiple input fragments into multiple
//! output buffers, without gathering the input or staging the output.
//!
//! [`decompress_fragment`] decodes within one fragment and one buffer, and stops
//! cleanly at their edges: a sequence is decoded only if it fits entirely within
//! the current (input fragment, output buffer) pair, and otherwise the positions
//! stay at the sequence's token and control returns to the driver. The driver
//! advances to the next fragment or buffer, and decodes the one sequence actually
//! straddling an edge byte by byte.
//!
//! Back-references reaching into earlier output buffers go through a dictionary:
//! each output buffer is decoded with the previous (up to) 64 KiB of history as
//! its dictionary, which covers every offset a 16-bit match can encode. When that
//! window lies entirely in the previous buffer it is borrowed in place; only a
//! window spanning several buffers (all smaller than 64 KiB) is assembled into a
//! scratch allocation.

use vstd::prelude::*;

use crate::block::cursor::{is_last_fragment, size_before, ScatteredReader, ScatteredWriter};
use crate::block::decompress::decompress_internal;
use crate::block::format::payload;
use crate::block::fragment::{
    decompress_fragment, fragment_decodes, fragment_holds, fragment_run, lemma_fragment_placed,
    lemma_fragment_run, lemma_is_view, window_covered, FragmentExit,
};
use crate::block::history::{build_dict, window};
use crate::block::laws::law_success;
use crate::block::outcome::{
    decompressed, lemma_overwritten_take, lemma_overwritten_twice, lemma_straddling_bounds,
    lemma_view_end, overwritten, scattered_from, scattered_step, straddling_step, view_end, Step,
};
use crate::block::parts::{
    contents, flat, fragments, lemma_flat_len, lemma_flat_part, lemma_flat_replace, lemma_flat_take,
    lemma_start_ends, lens, rooms, start, total,
};
use crate::block::straddle::straddling_sequence;
use crate::block::{DecompressError, WINDOW_SIZE};

verus! {

/// What the driver has to do after decoding within one fragment and one buffer.
enum PairExit {
    /// The block has ended.
    BlockEnd,
    /// A fragment, a buffer or the dictionary phase of a buffer has been used up:
    /// go on with the next.
    UsedUp,
    /// The next sequence straddles an edge.
    Straddles,
}

/// The history that matches in a buffer which begins after `first` bytes are
/// resolved in.
spec fn dict_before(bytes: Seq<u8>, first: int, dict_free: bool) -> Seq<u8> {
    if dict_free {
        Seq::empty()
    } else {
        window(bytes.take(first))
    }
}

/// Decode within one fragment and the first `clip` bytes of buffer `buf_idx`.
fn decode_view(
    input: &[u8],
    in_pos: &mut usize,
    output: &mut [&mut [u8]],
    buf_idx: usize,
    clip: usize,
    out_pos: &mut usize,
    dict_free: bool,
    last_input: bool,
    window_scratch: &mut Vec<u8>,
) -> (res: Result<FragmentExit, DecompressError>)
    requires
        *old(in_pos) < input@.len(),
        buf_idx < old(output)@.len(),
        *old(out_pos) <= clip <= rooms(old(output)@)[buf_idx as int],
        dict_free ==> clip == rooms(old(output)@)[buf_idx as int],
        total(rooms(old(output)@)) < usize::MAX,
    ensures
        final(output)@.len() == old(output)@.len(),
        forall|k: int|
            0 <= k < old(output)@.len() ==> final(#[trigger] final(output)@[k])@
                == final(old(output)@[k])@,
        ({
            let i = buf_idx as int;
            let parts = contents(old(output)@);
            let dict = dict_before(flat(parts), start(lens(parts), i), dict_free);
            let old_view = parts[i].take(clip as int);
            let view = contents(final(output)@)[i].take(clip as int);
            &&& contents(final(output)@) == parts.update(i, view + parts[i].skip(clip as int))
            &&& fragment_decodes(
                input@,
                dict,
                last_input,
                *old(in_pos) as int,
                *old(out_pos) as int,
                old_view,
                *final(in_pos) as int,
                *final(out_pos) as int,
                view,
                res,
            )
        }),
{
    let history: usize = size_before(output, buf_idx);
    let ghost sizes = rooms(output@);
    let ghost parts = contents(output@);
    let ghost slots = output@;
    let ghost i = buf_idx as int;
    proof {
        lemma_flat_len(parts);
        lemma_flat_part(parts, i);
        lemma_flat_take(parts, i);
    }
    let (finished, rest) = output.split_at_mut(buf_idx);
    proof {
        assert(contents(finished@) =~= parts.take(i));
        assert(rooms(finished@) =~= sizes.take(i));
    }
    let ghost dict_bytes = dict_before(flat(parts), start(sizes, i), dict_free);
    let ghost mut new_view: Seq<u8> = Seq::empty();
    let exit = if dict_free {
        let dict: &[u8] = &[];
        assert(dict@ =~= dict_bytes);
        assert(parts[i].take(clip as int) =~= parts[i]);
        let exit = decompress_fragment::<false>(
            input,
            in_pos,
            rest[0],
            out_pos,
            dict,
            last_input,
        );
        proof {
            new_view = rest@[0]@;
        }
        exit
    } else {
        let dict = build_dict(finished, window_scratch, history);
        assert(dict@ =~= dict_bytes);
        let (view, _) = rest[0].split_at_mut(clip);
        assert(view@ =~= parts[i].take(clip as int));
        let exit = decompress_fragment::<true>(input, in_pos, view, out_pos, dict, last_input);
        proof {
            new_view = view@;
        }
        exit
    };
    proof {
        let view = contents(output@)[i].take(clip as int);
        let part = view + parts[i].skip(clip as int);
        assert(view =~= new_view);
        assert(parts[i].take(parts[i].len() as int) =~= parts[i]);
        assert(output@.len() == parts.len());
        assert(contents(output@)[i] =~= part);
        assert forall|m: int| 0 <= m < parts.len() && m != i implies contents(output@)[m]
            == parts[m] by {
            assert(output@[m] == slots[m]);
        }
        assert(contents(output@) =~= parts.update(i, view + parts[i].skip(clip as int)));
    }
    exit
}

/// How much of a buffer a sequence that begins at `out_pos` in it may fill if it
/// is to be taken as a whole.
spec fn clip_of(sizes: Seq<nat>, i: int, dict_free: bool) -> int {
    if dict_free || sizes[i] < WINDOW_SIZE { sizes[i] as int } else { WINDOW_SIZE as int }
}

/// The dictionary and what a buffer holds are the end of what has been written.
proof fn lemma_near(parts: Seq<Seq<u8>>, i: int, out_pos: int, dict_free: bool)
    requires
        0 <= i < parts.len(),
        0 <= out_pos <= clip_of(lens(parts), i, dict_free),
        dict_free == (start(lens(parts), i) == 0 || WINDOW_SIZE <= out_pos),
    ensures
        ({
            let bytes = flat(parts);
            let first = start(lens(parts), i);
            let dict = dict_before(bytes, first, dict_free);
            let clip = clip_of(lens(parts), i, dict_free);
            let prefix = bytes.take(first - dict.len());
            let near = dict + parts[i].take(clip).take(out_pos);
            &&& dict.len() <= first
            &&& prefix + dict == bytes.take(first)
            &&& prefix + near == bytes.take(first + out_pos)
            &&& window_covered(prefix, near)
        }),
{
    let bytes = flat(parts);
    let first = start(lens(parts), i);
    let dict = dict_before(bytes, first, dict_free);
    let clip = clip_of(lens(parts), i, dict_free);
    let prefix = bytes.take(first - dict.len());
    let near = dict + parts[i].take(clip).take(out_pos);
    lemma_flat_part(parts, i);
    assert(prefix + dict =~= bytes.take(first));
    assert(prefix + near =~= (prefix + dict) + parts[i].take(out_pos));
    assert(parts[i].take(out_pos) =~= bytes.subrange(first, first + out_pos)) by {
        assert(bytes.subrange(first, first + out_pos) =~= bytes.subrange(
            first,
            first + parts[i].len(),
        ).take(out_pos));
    }
    assert(bytes.take(first) + bytes.subrange(first, first + out_pos) =~= bytes.take(
        first + out_pos,
    ));
}

/// What decoding within fragment `f` and a view of buffer `i` comes to for the
/// block and the output as a whole.
#[verifier::rlimit(30)]
proof fn lemma_decoded_view(
    frags: Seq<Seq<u8>>,
    parts: Seq<Seq<u8>>,
    f: int,
    i: int,
    in_pos: int,
    out_pos: int,
    dict_free: bool,
    view: Seq<u8>,
)
    requires
        0 <= f < frags.len(),
        0 <= in_pos < frags[f].len(),
        0 <= i < parts.len(),
        0 <= out_pos <= parts[i].len(),
        dict_free == (start(lens(parts), i) == 0 || WINDOW_SIZE <= out_pos),
        ({
            let dict = dict_before(flat(parts), start(lens(parts), i), dict_free);
            let clip = clip_of(lens(parts), i, dict_free);
            let old_view = parts[i].take(clip);
            let last = start(lens(frags), f + 1) == flat(frags).len();
            match fragment_run(
                frags[f],
                (dict.len() + clip) as nat,
                last,
                in_pos,
                dict + old_view.take(out_pos),
            ) {
                Step::Finished { out } => fragment_holds(dict, old_view, view, out),
                Step::Failed { out, .. } => fragment_holds(dict, old_view, view, out),
                Step::Next { out, .. } => fragment_holds(dict, old_view, view, out),
            }
        }),
    ensures
        ({
            let sizes = lens(parts);
            let base = start(lens(frags), f);
            let first = start(sizes, i);
            let dict = dict_before(flat(parts), first, dict_free);
            let clip = clip_of(sizes, i, dict_free);
            let bytes = flat(parts);
            let new_parts = parts.update(i, view + parts[i].skip(clip));
            let new_bytes = flat(new_parts);
            let outcome = scattered_from(frags, sizes, base + in_pos, bytes.take(first + out_pos));
            let last = start(lens(frags), f + 1) == flat(frags).len();
            &&& lens(new_parts) == sizes
            &&& match fragment_run(
                frags[f],
                (dict.len() + clip) as nat,
                last,
                in_pos,
                dict + parts[i].take(clip).take(out_pos),
            ) {
                Step::Finished { out: end } => {
                    &&& outcome.error is None
                    &&& first + out_pos <= outcome.written.len() <= total(sizes)
                    &&& outcome.written.len() == first + (end.len() - dict.len())
                    &&& new_bytes == overwritten(bytes, outcome.written)
                },
                Step::Failed { out: end, error } => {
                    &&& outcome.error == Some(error)
                    &&& first + out_pos <= outcome.written.len() <= total(sizes)
                    &&& new_bytes == overwritten(bytes, outcome.written)
                },
                Step::Next { pos, out: end } => {
                    let n = end.len() - dict.len();
                    let out = new_bytes.take(first + n);
                    &&& in_pos <= pos <= frags[f].len()
                    &&& out_pos <= n <= clip
                    &&& pos == in_pos ==> n == out_pos
                    &&& outcome == scattered_from(frags, sizes, base + pos, out)
                    &&& new_bytes == overwritten(bytes, out)
                    &&& pos < frags[f].len() && (n < clip || (clip == sizes[i] && i == sizes.len()
                        - 1)) ==> scattered_step(frags, sizes, base + pos, out) == straddling_step(
                        flat(frags),
                        total(sizes),
                        base + pos,
                        out,
                    )
                },
            }
        }),
{
    let sizes = lens(parts);
    let bytes = flat(parts);
    let first = start(sizes, i);
    let dict = dict_before(bytes, first, dict_free);
    let clip = clip_of(sizes, i, dict_free);
    let prefix = bytes.take(first - dict.len());
    let near = dict + parts[i].take(clip).take(out_pos);
    let limit = (dict.len() + clip) as nat;
    let last = start(lens(frags), f + 1) == flat(frags).len();
    let out = bytes.take(first + out_pos);
    lemma_flat_len(parts);
    lemma_flat_part(parts, i);
    lemma_start_ends(sizes);
    lemma_near(parts, i, out_pos, dict_free);
    lemma_is_view(sizes, i, out_pos, clip);
    lemma_fragment_run(frags, sizes, f, limit, prefix, in_pos, near);
    let run = fragment_run(frags[f], limit, last, in_pos, near);
    let end = match run {
        Step::Finished { out } => out,
        Step::Failed { out, .. } => out,
        Step::Next { out, .. } => out,
    };
    assert(bytes =~= overwritten(bytes, out));
    lemma_fragment_placed(bytes, parts, i, clip, out_pos, prefix, dict, view, out, end);
    lemma_overwritten_take(bytes, prefix + end);
    if run is Next {
        let q = first + (end.len() - dict.len());
        if end.len() < limit {
            assert(view_end(sizes, q) == first + clip);
        } else if clip == sizes[i] && i == sizes.len() - 1 {
            lemma_view_end(sizes, q);
        }
    }
}

/// Decode as many sequences as lie within the current fragment and the current
/// buffer.
fn decode_pair(
    reader: &mut ScatteredReader<'_>,
    writer: &mut ScatteredWriter,
    output: &mut [&mut [u8]],
    window_scratch: &mut Vec<u8>,
) -> (res: Result<PairExit, DecompressError>)
    requires
        old(reader).wf(),
        old(reader).frag_idx matches Some(i) && old(reader).in_pos < old(
            reader,
        ).input@[i as int]@.len(),
        old(writer).wf(rooms(old(output)@)),
        old(writer).buf_idx < old(output)@.len(),
        old(writer).out_pos < rooms(old(output)@)[old(writer).buf_idx as int] || old(
            writer,
        ).buf_idx == old(output)@.len() - 1,
        total(rooms(old(output)@)) < usize::MAX,
    ensures
        final(output)@.len() == old(output)@.len(),
        forall|k: int|
            0 <= k < old(output)@.len() ==> final(#[trigger] final(output)@[k])@
                == final(old(output)@[k])@,
        rooms(final(output)@) == rooms(old(output)@),
        final(reader).input == old(reader).input,
        final(reader).frag_idx == old(reader).frag_idx,
        final(writer).buf_idx == old(writer).buf_idx,
        final(reader).wf(),
        final(writer).wf(rooms(old(output)@)),
        ({
            let frags = fragments(old(reader).input@);
            let sizes = rooms(old(output)@);
            let bytes = flat(contents(old(output)@));
            let new_bytes = flat(contents(final(output)@));
            let outcome = scattered_from(
                frags,
                sizes,
                old(reader).pos(),
                bytes.take(old(writer).pos(sizes)),
            );
            match res {
                Err(error) => {
                    &&& *final(reader) == *old(reader)
                    &&& *final(writer) == *old(writer)
                    &&& outcome.error == Some(error)
                    &&& old(writer).pos(sizes) <= outcome.written.len() <= total(sizes)
                    &&& new_bytes == overwritten(bytes, outcome.written)
                },
                Ok(PairExit::BlockEnd) => {
                    &&& outcome.error is None
                    &&& old(writer).pos(sizes) <= outcome.written.len() <= total(sizes)
                    &&& final(writer).pos(sizes) == outcome.written.len()
                    &&& new_bytes == overwritten(bytes, outcome.written)
                },
                Ok(exit) => {
                    let pos = final(reader).pos();
                    let out = new_bytes.take(final(writer).pos(sizes));
                    &&& old(reader).pos() <= pos
                    &&& old(writer).pos(sizes) <= final(writer).pos(sizes)
                    &&& outcome == scattered_from(frags, sizes, pos, out)
                    &&& new_bytes == overwritten(bytes, out)
                    &&& exit is UsedUp ==> old(reader).pos() < pos
                    &&& exit is Straddles ==> pos < flat(frags).len() && scattered_step(
                        frags,
                        sizes,
                        pos,
                        out,
                    ) == straddling_step(flat(frags), total(sizes), pos, out)
                },
            }
        }),
{
    let input: &[&[u8]] = reader.input;
    let cur_frag: usize = reader.frag_idx.unwrap();
    let fragment: &[u8] = input[cur_frag];
    let last_input: bool = is_last_fragment(input, cur_frag);
    let buf_idx: usize = writer.buf_idx;
    let room: usize = output[buf_idx].len();
    let last_buffer: bool = buf_idx == output.len() - 1;
    // Only a sequence starting within the first WINDOW_SIZE bytes of a buffer can
    // back-reference past its start (offsets are 16-bit), so the dict-aware
    // variant decodes at most that prefix, through a clipped view of the buffer;
    // everything past it runs dict-free.
    let dict_free: bool = size_before(output, buf_idx) == 0 || writer.out_pos >= WINDOW_SIZE;
    let clip: usize = if dict_free || room < WINDOW_SIZE { room } else { WINDOW_SIZE };
    let ghost parts = contents(output@);
    let ghost in_pos = reader.in_pos as int;
    let ghost out_pos = writer.out_pos as int;
    proof {
        lemma_flat_part(fragments(input@), cur_frag as int);
        lemma_flat_part(parts, buf_idx as int);
    }
    let exit = decode_view(
        fragment,
        &mut reader.in_pos,
        output,
        buf_idx,
        clip,
        &mut writer.out_pos,
        dict_free,
        last_input,
        window_scratch,
    );
    proof {
        let view = contents(output@)[buf_idx as int].take(clip as int);
        lemma_decoded_view(
            fragments(input@),
            parts,
            cur_frag as int,
            buf_idx as int,
            in_pos,
            out_pos,
            dict_free,
            view,
        );
    }
    match exit {
        Err(error) => Err(error),
        Ok(FragmentExit::BlockEnd) => Ok(PairExit::BlockEnd),
        Ok(FragmentExit::Boundary) => {
            // A clean stop on a fragment edge, the dict-phase clip, or a buffer
            // edge: just re-enter.
            if reader.in_pos == fragment.len() || (!dict_free && writer.out_pos == WINDOW_SIZE)
                || (writer.out_pos == room && !last_buffer) {
                Ok(PairExit::UsedUp)
            } else {
                Ok(PairExit::Straddles)
            }
        },
    }
}

/// Decompress a block of any number of fragments into any number of buffers.
fn decode_scattered(input: &[&[u8]], output: &mut [&mut [u8]]) -> (res: Result<
    usize,
    DecompressError,
>)
    requires
        total(rooms(old(output)@)) < usize::MAX,
    ensures
        final(output)@.len() == old(output)@.len(),
        forall|k: int|
            0 <= k < old(output)@.len() ==> final(#[trigger] final(output)@[k])@
                == final(old(output)@[k])@,
        rooms(final(output)@) == rooms(old(output)@),
        ({
            let outcome = scattered_from(
                fragments(input@),
                rooms(old(output)@),
                0,
                Seq::empty(),
            );
            &&& res == outcome.result()
            &&& outcome.written.len() <= total(rooms(old(output)@))
            &&& flat(contents(final(output)@)) == overwritten(
                flat(contents(old(output)@)),
                outcome.written,
            )
        }),
{
    let ghost sizes = rooms(output@);
    let ghost frags = fragments(input@);
    let ghost bytes = flat(contents(output@));
    let mut reader = ScatteredReader::new(input);
    let mut writer = ScatteredWriter { buf_idx: 0, out_pos: 0 };
    let mut window_scratch: Vec<u8> = Vec::new();
    let ghost outcome = scattered_from(frags, sizes, 0, Seq::empty());
    let ghost mut out: Seq<u8> = Seq::empty();
    proof {
        lemma_flat_len(contents(output@));
        lemma_start_ends(sizes);
        assert(bytes =~= overwritten(bytes, out));
    }

    loop
        invariant
            sizes == rooms(old(output)@),
            frags == fragments(input@),
            bytes == flat(contents(old(output)@)),
            bytes.len() == total(sizes),
            total(sizes) < usize::MAX,
            outcome == scattered_from(frags, sizes, 0, Seq::empty()),
            reader.input == input,
            reader.wf(),
            writer.wf(sizes),
            sizes.len() > 0 ==> writer.buf_idx < sizes.len(),
            writer.pos(sizes) == out.len(),
            output@.len() == old(output)@.len(),
            forall|k: int|
                0 <= k < old(output)@.len() ==> final(#[trigger] output@[k])@
                    == final(old(output)@[k])@,
            rooms(output@) == sizes,
            flat(contents(output@)) == overwritten(bytes, out),
            outcome == scattered_from(frags, sizes, reader.pos(), out),
        decreases
                flat(frags).len() - reader.pos(),
                match reader.frag_idx {
                    Some(i) => input@.len() - i,
                    None => 0,
                },
    {
        proof {
            reader.lemma_pos();
            writer.lemma_pos(sizes);
            lemma_overwritten_take(bytes, out);
        }
        let cur_frag: usize = match reader.frag_idx {
            Some(i) => i,
            None => {
                // Input exhausted without the block-end exit: the final
                // literals-only sequence never materialized.
                return Err(DecompressError::ExpectedAnotherByte);
            },
        };
        // Normalize positions left exactly on an edge (by the byte-wise path or a
        // prior exit): the fragment decoder expects unread input, and a filled
        // buffer with successors should rotate rather than bounce.
        if reader.in_pos == input[cur_frag].len() {
            reader.next_fragment(cur_frag);
            continue;
        }
        proof {
            lemma_flat_part(frags, cur_frag as int);
        }
        if output.len() == 0 {
            return Err(DecompressError::OutputTooSmall { expected: 1, actual: 0 });
        }
        writer.skip_filled(output);
        let exit = decode_pair(&mut reader, &mut writer, output, &mut window_scratch);
        let ghost old_out = out;
        proof {
            if exit is Err || exit->Ok_0 is BlockEnd {
                lemma_overwritten_twice(bytes, old_out, outcome.written);
            } else {
                reader.lemma_pos();
                writer.lemma_pos(sizes);
                lemma_flat_len(contents(output@));
                out = flat(contents(output@)).take(writer.pos(sizes));
                lemma_overwritten_twice(bytes, old_out, out);
                lemma_overwritten_take(bytes, out);
            }
        }
        match exit? {
            PairExit::BlockEnd => {
                return Ok(writer.total_written(output));
            },
            PairExit::UsedUp => {},
            PairExit::Straddles => {
                // A sequence truly straddles an edge; decode it byte-wise.
                let ghost step = straddling_step(flat(frags), total(sizes), reader.pos(), out);
                let ghost end = match step {
                    Step::Finished { out } => out,
                    Step::Failed { out, .. } => out,
                    Step::Next { out, .. } => out,
                };
                proof {
                    reader.lemma_pos();
                    lemma_straddling_bounds(flat(frags), total(sizes), reader.pos(), out);
                    lemma_overwritten_twice(bytes, out, end);
                    lemma_overwritten_take(bytes, end);
                }
                if straddling_sequence(&mut reader, &mut writer, output)? {
                    return Ok(writer.total_written(output));
                }
                proof {
                    out = end;
                }
            },
        }
    }
}

/// Decompress all bytes of the block spread across `input` fragments into the
/// `output` buffers, filled in order. Returns the number of bytes written,
/// which may be less than the buffers' total capacity.
///
/// The buffers stay the same and keep their sizes. What has been written, also
/// before an error, stands at the beginning of the output, and the bytes behind it
/// are left as they were.
pub fn decompress_scattered(input: &[&[u8]], output: &mut [&mut [u8]]) -> (res: Result<
    usize,
    DecompressError,
>)
    requires
        total(rooms(old(output)@)) < usize::MAX,
    ensures
        final(output)@.len() == old(output)@.len(),
        forall|k: int|
            0 <= k < old(output)@.len() ==> final(#[trigger] final(output)@[k])@
                == final(old(output)@[k])@,
        rooms(final(output)@) == rooms(old(output)@),
        ({
            let outcome = decompressed(fragments(input@), rooms(old(output)@));
            &&& res == outcome.result()
            &&& outcome.written.len() <= total(rooms(old(output)@))
            &&& flat(contents(final(output)@)) == overwritten(
                flat(contents(old(output)@)),
                outcome.written,
            )
        }),
        match payload(flat(fragments(input@))) {
            Some(bytes) => if old(output)@.len() > 0 && bytes.len() <= total(
                rooms(old(output)@),
            ) {
                &&& res == Ok::<usize, DecompressError>(bytes.len() as usize)
                &&& flat(contents(final(output)@)) == overwritten(
                    flat(contents(old(output)@)),
                    bytes,
                )
            } else {
                res is Err
            },
            None => res is Err,
        },
{
    proof {
        law_success(fragments(input@), rooms(output@));
    }
    // The common shape, one fragment into one buffer, is exactly a contiguous
    // decode.
    if input.len() == 1 && output.len() == 1 {
        let ghost parts = contents(output@);
        let res = decompress_internal(input[0], output[0]);
        proof {
            let part = contents(output@)[0];
            lemma_flat_len(parts);
            lemma_flat_part(parts, 0);
            lemma_flat_replace(parts, 0, part);
            lemma_start_ends(lens(parts));
            assert(parts.update(0, part) =~= contents(output@));
            assert(flat(parts) =~= parts[0]);
            assert(flat(contents(output@)) =~= part);
        }
        return res;
    }
    decode_scattered(input, output)
}

} // verus!
