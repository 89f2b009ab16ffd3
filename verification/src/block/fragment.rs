//! Decoding within one input fragment and one output buffer.

use vstd::prelude::*;

use crate::block::decompress::{
    append_match, copy_literals, lemma_rest_kept, parse_sequence, Parsed,
};
use crate::block::format::{lemma_copy_match_len, lemma_copy_match_prefix};
use crate::block::outcome::{
    lemma_shape_bounds, lemma_view_end, overwritten, scattered_from, scattered_step, shape,
    straddling_step, view_end, with_literals, with_sequence, Outcome, Shape, Step,
};
use crate::block::parts::{
    flat, lemma_flat_len, lemma_flat_part, lemma_flat_replace, lemma_part_at_unique,
    lemma_start_monotone, lemma_start_step, lens, start, total,
};
use crate::block::{DecompressError, WINDOW_SIZE};

verus! {

/// Why [`decompress_fragment`] stopped.
pub enum FragmentExit {
    /// The last input fragment was consumed exactly after a literals-only
    /// sequence: the block's end.
    BlockEnd,
    /// The next sequence crosses a fragment or buffer edge. The positions point
    /// at its token, or at the fragment's end when it was consumed exactly on a
    /// sequence boundary.
    Boundary,
}

/// How far decoding within the fragment `input` from `pos` on comes, where `out`
/// precedes in an output that ends at `limit`.
#[verifier::opaque]
pub open spec fn fragment_run(
    input: Seq<u8>,
    limit: nat,
    last: bool,
    pos: int,
    out: Seq<u8>,
) -> Step
    decreases input.len() - pos,
{
    if input.len() <= pos {
        if last {
            Step::Failed { out, error: DecompressError::ExpectedAnotherByte }
        } else {
            Step::Next { pos, out }
        }
    } else {
        match shape(input, pos, out.len(), limit) {
            Shape::Complete { first, end, offset, length, next } => {
                proof {
                    lemma_shape_bounds(input, pos, out.len(), limit);
                }
                fragment_run(
                    input,
                    limit,
                    last,
                    next,
                    with_sequence(input, out, first, end, offset, length),
                )
            },
            Shape::Invalid { error, first, end } => Step::Failed {
                out: with_literals(input, out, first, end),
                error,
            },
            Shape::Truncated { error, first, end } if last => Step::Failed {
                out: with_literals(input, out, first, end),
                error,
            },
            Shape::Final { first, end } if last => Step::Finished {
                out: with_literals(input, out, first, end),
            },
            _ => Step::Next { pos, out },
        }
    }
}

/// Whether `output`, with `ext_dict` before it, holds `out` and is `old_output`
/// from there on.
pub open spec fn fragment_holds(
    ext_dict: Seq<u8>,
    old_output: Seq<u8>,
    output: Seq<u8>,
    out: Seq<u8>,
) -> bool {
    let n = out.len() - ext_dict.len();
    &&& 0 <= n <= output.len()
    &&& output.len() == old_output.len()
    &&& ext_dict + output.take(n) == out
    &&& output.skip(n) == old_output.skip(n)
}

/// Whether decoding within the fragment `input` and one buffer that holds
/// `old_output`, from the positions `in_pos` and `out_pos` on and with `ext_dict`
/// before the buffer, gives `res` and leaves the positions at `new_in` and `new_out`
/// and the buffer with `output`.
pub open spec fn fragment_decodes(
    input: Seq<u8>,
    ext_dict: Seq<u8>,
    last: bool,
    in_pos: int,
    out_pos: int,
    old_output: Seq<u8>,
    new_in: int,
    new_out: int,
    output: Seq<u8>,
    res: Result<FragmentExit, DecompressError>,
) -> bool {
    match fragment_run(
        input,
        ext_dict.len() + old_output.len(),
        last,
        in_pos,
        ext_dict + old_output.take(out_pos),
    ) {
        Step::Finished { out } => {
            &&& res == Ok::<FragmentExit, DecompressError>(FragmentExit::BlockEnd)
            &&& new_in == input.len()
            &&& new_out == out.len() - ext_dict.len()
            &&& fragment_holds(ext_dict, old_output, output, out)
        },
        Step::Failed { out, error } => {
            &&& res == Err::<FragmentExit, DecompressError>(error)
            &&& new_in == in_pos
            &&& new_out == out_pos
            &&& fragment_holds(ext_dict, old_output, output, out)
        },
        Step::Next { pos, out } => {
            &&& res == Ok::<FragmentExit, DecompressError>(FragmentExit::Boundary)
            &&& new_in == pos
            &&& new_out == out.len() - ext_dict.len()
            &&& fragment_holds(ext_dict, old_output, output, out)
        },
    }
}

/// Run the contiguous decode loop on one (input fragment, output buffer) pair,
/// resuming from `in_pos`/`out_pos`, with `ext_dict` holding the history
/// preceding this buffer.
///
/// A sequence that would cross the fragment's or buffer's end leaves the
/// positions at its token and returns [`FragmentExit::Boundary`] instead of an
/// error, unless `last_input` proves the input is truncated. Only definitive
/// corruption (zero offset, an offset beyond the history) errors here, and an
/// error leaves `in_pos` and `out_pos` as they were.
#[verifier::rlimit(30)]
pub(crate) fn decompress_fragment<const USE_DICT: bool>(
    input: &[u8],
    in_pos: &mut usize,
    output: &mut [u8],
    out_pos: &mut usize,
    ext_dict: &[u8],
    last_input: bool,
) -> (res: Result<FragmentExit, DecompressError>)
    requires
        *old(in_pos) < input@.len(),
        *old(out_pos) <= old(output)@.len(),
        ext_dict@.len() + old(output)@.len() <= usize::MAX,
        !USE_DICT ==> ext_dict@.len() == 0,
    ensures
        fragment_decodes(
            input@,
            ext_dict@,
            last_input,
            *old(in_pos) as int,
            *old(out_pos) as int,
            old(output)@,
            *final(in_pos) as int,
            *final(out_pos) as int,
            final(output)@,
            res,
        ),
{
    reveal_with_fuel(fragment_run, 1);
    let dict: &[u8] = if USE_DICT { ext_dict } else { &[] };
    assert(dict@ =~= ext_dict@);
    let dict_len: usize = dict.len();
    let limit: usize = dict_len + output.len();
    let ghost old_output = output@;
    let ghost run = fragment_run(
        input@,
        limit as nat,
        last_input,
        *in_pos as int,
        dict@ + output@.take(*out_pos as int),
    );
    let mut next_in: usize = *in_pos;
    let mut next_out: usize = *out_pos;
    while next_in < input.len()
        invariant
            *in_pos == *old(in_pos),
            *out_pos == *old(out_pos),
            next_in <= input@.len(),
            next_out <= output@.len(),
            old_output == old(output)@,
            output@.len() == old_output.len(),
            dict@ == ext_dict@,
            dict_len == dict@.len(),
            limit == dict_len + output@.len(),
            output@.skip(next_out as int) == old_output.skip(next_out as int),
            run == fragment_run(
                input@,
                ext_dict@.len() + old(output)@.len(),
                last_input,
                *old(in_pos) as int,
                ext_dict@ + old(output)@.take(*old(out_pos) as int),
            ),
            run == fragment_run(
                input@,
                limit as nat,
                last_input,
                next_in as int,
                dict@ + output@.take(next_out as int),
            ),
        decreases input@.len() - next_in,
    {
        let ghost before = output@;
        let ghost out = dict@ + before.take(next_out as int);
        proof {
            reveal_with_fuel(fragment_run, 1);
            lemma_shape_bounds(input@, next_in as int, out.len(), limit as nat);
        }
        let (first, end, res): (usize, usize, Result<FragmentExit, DecompressError>) =
            match parse_sequence(input, next_in, dict_len + next_out, limit) {
            Parsed::Complete { first, end, offset, length, next } => {
                copy_literals(input, first, end, output, next_out);
                let ghost middle = output@;
                let match_pos: usize = next_out + (end - first);
                append_match(output, match_pos, dict, offset, length);
                proof {
                    let with_match = match_pos + length;
                    lemma_rest_kept(old_output, before, middle, next_out as int, match_pos as int);
                    lemma_rest_kept(old_output, middle, output@, match_pos as int, with_match);
                    assert(dict@ + middle.take(match_pos as int) =~= with_literals(
                        input@,
                        out,
                        first as int,
                        end as int,
                    ));
                }
                next_in = next;
                next_out = match_pos + length;
                continue;
            },
            Parsed::Invalid { error, first, end } => (first, end, Err(error)),
            // A mid-sequence shortage of input is a fragment edge unless this is the
            // last fragment, where it means the block is truncated.
            Parsed::Truncated { error, first, end } if last_input => (first, end, Err(error)),
            // The block's mandated literals-only final sequence.
            Parsed::Final { first, end } if last_input => (first, end, Ok(FragmentExit::BlockEnd)),
            // The sequence goes on in the next fragment, or its output in the next
            // buffer: nothing of it is taken here.
            _ => (next_in, next_in, Ok(FragmentExit::Boundary)),
        };
        copy_literals(input, first, end, output, next_out);
        proof {
            let to = next_out + (end - first);
            lemma_rest_kept(old_output, before, output@, next_out as int, to);
            assert(dict@ + output@.take(to) =~= with_literals(
                input@,
                out,
                first as int,
                end as int,
            ));
        }
        if res.is_ok() {
            *in_pos = end;
            *out_pos = next_out + (end - first);
        }
        return res;
    }
    if last_input {
        // A block may not end on a match; the final sequence must be
        // literals-only.
        return Err(DecompressError::ExpectedAnotherByte);
    }
    // Fragment consumed on a sequence boundary.
    *in_pos = next_in;
    *out_pos = next_out;
    Ok(FragmentExit::Boundary)
}

/// Whether a match in a sequence that begins after `out` cannot tell whether
/// `prefix` precedes it.
pub open spec fn window_covered(prefix: Seq<u8>, out: Seq<u8>) -> bool {
    prefix.len() == 0 || WINDOW_SIZE <= out.len()
}

/// Whether `limit` is where a sequence taken as a whole must end, whichever
/// position from `from` up to `limit` it begins at.
pub open spec fn is_view(sizes: Seq<nat>, from: int, limit: int) -> bool {
    &&& limit <= total(sizes)
    &&& forall|q: int| from <= q < limit ==> #[trigger] view_end(sizes, q) == limit
}

/// The view of buffer `i` that decoding from `out_pos` on in it goes by.
pub proof fn lemma_is_view(sizes: Seq<nat>, i: int, out_pos: int, clip: int)
    requires
        0 <= i < sizes.len(),
        0 <= out_pos <= sizes[i],
        if start(sizes, i) == 0 || WINDOW_SIZE <= out_pos {
            clip == sizes[i]
        } else {
            clip == if sizes[i] < WINDOW_SIZE { sizes[i] as int } else { WINDOW_SIZE as int }
        },
    ensures
        is_view(sizes, start(sizes, i) + out_pos, start(sizes, i) + clip),
{
    let first = start(sizes, i);
    lemma_start_step(sizes, i);
    lemma_start_monotone(sizes, i + 1, i + 1);
    assert forall|q: int| first + out_pos <= q < first + clip implies #[trigger] view_end(sizes, q)
        == first + clip by {
        lemma_part_at_unique(sizes, q, i);
    }
}

/// The window is all that a sequence can see of the output before it.
pub proof fn lemma_shape_window(
    input: Seq<u8>,
    pos: int,
    prefix: Seq<u8>,
    out: Seq<u8>,
    limit: nat,
    far_limit: nat,
)
    requires
        0 <= pos < input.len(),
        window_covered(prefix, out),
        out.len() <= limit,
        prefix.len() + limit <= far_limit,
    ensures
        match shape(input, pos, out.len(), limit) {
            Shape::Oversized { .. } => prefix.len() + limit == far_limit ==> shape(
                input,
                pos,
                prefix.len() + out.len(),
                far_limit,
            ) is Oversized,
            near => shape(input, pos, prefix.len() + out.len(), far_limit) == near,
        },
        match shape(input, pos, out.len(), limit) {
            Shape::Complete { first, end, offset, length, .. } => {
                &&& with_sequence(input, prefix + out, first, end, offset, length) == prefix
                    + with_sequence(input, out, first, end, offset, length)
                &&& with_sequence(input, out, first, end, offset, length).len() == out.len() + (end
                    - first) + length
                &&& out.len() + (end - first) + length <= limit
            },
            Shape::Invalid { first, end, .. } => with_literals(input, prefix + out, first, end)
                == prefix + with_literals(input, out, first, end),
            Shape::Truncated { first, end, .. } => with_literals(input, prefix + out, first, end)
                == prefix + with_literals(input, out, first, end),
            Shape::Final { first, end } => with_literals(input, prefix + out, first, end) == prefix
                + with_literals(input, out, first, end),
            Shape::Oversized { .. } => true,
        },
{
    lemma_shape_bounds(input, pos, out.len(), limit);
    match shape(input, pos, out.len(), limit) {
        Shape::Complete { first, end, offset, length, next } => {
            let near = with_literals(input, out, first, end);
            assert(with_literals(input, prefix + out, first, end) =~= prefix + near);
            lemma_copy_match_prefix(prefix, near, offset, length);
            lemma_copy_match_len(near, offset, length);
        },
        Shape::Invalid { first, end, .. } => {
            assert(with_literals(input, prefix + out, first, end) =~= prefix + with_literals(
                input,
                out,
                first,
                end,
            ));
        },
        Shape::Truncated { first, end, .. } => {
            assert(with_literals(input, prefix + out, first, end) =~= prefix + with_literals(
                input,
                out,
                first,
                end,
            ));
        },
        Shape::Final { first, end } => {
            assert(with_literals(input, prefix + out, first, end) =~= prefix + with_literals(
                input,
                out,
                first,
                end,
            ));
        },
        Shape::Oversized { .. } => {},
    }
}

/// Decoding within fragment `i` and a view of the output does what decoding the
/// whole block does.
#[verifier::rlimit(30)]
pub proof fn lemma_fragment_run(
    frags: Seq<Seq<u8>>,
    sizes: Seq<nat>,
    i: int,
    limit: nat,
    prefix: Seq<u8>,
    pos: int,
    out: Seq<u8>,
)
    requires
        0 <= i < frags.len(),
        sizes.len() > 0,
        0 <= pos <= frags[i].len(),
        window_covered(prefix, out),
        out.len() <= limit,
        is_view(sizes, (prefix.len() + out.len()) as int, (prefix.len() + limit) as int),
    ensures
        ({
            let base = start(lens(frags), i);
            let last = start(lens(frags), i + 1) == flat(frags).len();
            let outcome = scattered_from(frags, sizes, base + pos, prefix + out);
            match fragment_run(frags[i], limit, last, pos, out) {
                Step::Finished { out: end } => {
                    &&& out.len() <= end.len()
                    &&& outcome == Outcome { written: prefix + end, error: None }
                },
                Step::Failed { out: end, error } => {
                    &&& out.len() <= end.len()
                    &&& outcome == Outcome { written: prefix + end, error: Some(error) }
                },
                Step::Next { pos: next, out: end } => {
                    &&& pos <= next <= frags[i].len()
                    &&& next == pos ==> end == out
                    &&& out.len() <= end.len() <= limit
                    &&& outcome == scattered_from(frags, sizes, base + next, prefix + end)
                    &&& next < frags[i].len() && view_end(sizes, (prefix.len() + end.len()) as int)
                        == prefix.len() + limit ==> scattered_step(
                        frags,
                        sizes,
                        base + next,
                        prefix + end,
                    ) == straddling_step(flat(frags), total(sizes), base + next, prefix + end)
                },
            }
        }),
    decreases frags[i].len() - pos,
{
    reveal_with_fuel(fragment_run, 1);
    let cuts = lens(frags);
    let base = start(cuts, i);
    let last = start(cuts, i + 1) == flat(frags).len();
    let input = frags[i];
    let written = (prefix.len() + out.len()) as int;
    lemma_flat_part(frags, i);
    lemma_flat_len(frags);
    if pos < input.len() {
        lemma_part_at_unique(cuts, base + pos, i);
        lemma_view_end(sizes, written);
        lemma_shape_window(input, pos, prefix, out, limit, view_end(sizes, written) as nat);
        lemma_shape_bounds(input, pos, out.len(), limit);
        match shape(input, pos, out.len(), limit) {
            Shape::Complete { first, end, offset, length, next } => {
                lemma_fragment_run(
                    frags,
                    sizes,
                    i,
                    limit,
                    prefix,
                    next,
                    with_sequence(input, out, first, end, offset, length),
                );
            },
            _ => {},
        }
    }
}

/// What was written to the beginning of a view leaves the rest of its buffer.
proof fn lemma_view_placed(buffer: Seq<u8>, clip: int, view: Seq<u8>, n: int)
    requires
        0 <= n <= clip <= buffer.len(),
        view.len() == clip,
        view.skip(n) == buffer.take(clip).skip(n),
    ensures
        view + buffer.skip(clip) == view.take(n) + buffer.skip(n),
{
    assert(buffer.take(clip).skip(n) + buffer.skip(clip) =~= buffer.skip(n));
    assert(view =~= view.take(n) + view.skip(n));
    assert((view.take(n) + view.skip(n)) + buffer.skip(clip) =~= view.take(n) + (view.skip(n)
        + buffer.skip(clip)));
}

/// What follows position `n` of a stretch is the rest of the stretch and what
/// follows the stretch.
proof fn lemma_skip_stretch(all: Seq<u8>, first: int, stretch: Seq<u8>, n: int)
    requires
        0 <= first,
        first + stretch.len() <= all.len(),
        stretch == all.subrange(first, first + stretch.len()),
        0 <= n <= stretch.len(),
    ensures
        stretch.skip(n) + all.skip(first + stretch.len()) == all.skip(first + n),
{
    assert(stretch.skip(n) + all.skip(first + stretch.len()) =~= all.skip(first + n));
}

/// Nothing differs behind what was written.
proof fn lemma_skip_overwritten(bytes: Seq<u8>, out: Seq<u8>, n: int)
    requires
        out.len() <= n <= bytes.len(),
    ensures
        overwritten(bytes, out).skip(n) == bytes.skip(n),
{
    assert(overwritten(bytes, out).skip(n) =~= bytes.skip(n));
}

/// What decoding into a view of one buffer did to the output as a whole.
pub proof fn lemma_fragment_placed(
    bytes: Seq<u8>,
    parts: Seq<Seq<u8>>,
    i: int,
    clip: int,
    out_pos: int,
    prefix: Seq<u8>,
    dict: Seq<u8>,
    view: Seq<u8>,
    out: Seq<u8>,
    end: Seq<u8>,
)
    requires
        0 <= i < parts.len(),
        0 <= out_pos <= clip <= parts[i].len(),
        out.len() == start(lens(parts), i) + out_pos,
        bytes.len() == flat(parts).len(),
        flat(parts) == overwritten(bytes, out),
        prefix + dict == flat(parts).take(start(lens(parts), i)),
        fragment_holds(dict, parts[i].take(clip), view, end),
        dict.len() + out_pos <= end.len(),
    ensures
        ({
            let new_parts = parts.update(i, view + parts[i].skip(clip));
            &&& lens(new_parts) == lens(parts)
            &&& flat(new_parts) == overwritten(bytes, prefix + end)
            &&& (prefix + end).len() <= bytes.len()
        }),
{
    let part = view + parts[i].skip(clip);
    let all = flat(parts);
    let first = start(lens(parts), i);
    let n = end.len() - dict.len();
    let head = all.take(first);
    let rest = parts[i].skip(n);
    let tail = all.skip(first + parts[i].len());
    lemma_flat_part(parts, i);
    lemma_flat_replace(parts, i, part);
    lemma_view_placed(parts[i], clip, view, n);
    lemma_skip_stretch(all, first, parts[i], n);
    lemma_skip_overwritten(bytes, out, first + n);
    assert(prefix.len() + dict.len() == first);
    assert(prefix + (dict + view.take(n)) =~= head + view.take(n)) by {
        assert(prefix + (dict + view.take(n)) =~= (prefix + dict) + view.take(n));
    }
    assert((head + (view.take(n) + rest)) + tail =~= (head + view.take(n)) + (rest + tail));
}

} // verus!
