//! The pieces of a decoder that works on one stretch of input and one output
//! buffer, and the decoder for a block that lies in one piece.

use vstd::prelude::*;

use crate::block::format::{
    copy_match, extension, lemma_copy_match_prefix, lemma_copy_match_split, lemma_extension_bounds,
    payload,
};
use crate::block::outcome::{
    contiguous_from, lemma_shape_bounds, overwritten, saturated, shape, with_literals, Shape,
};
use crate::block::soundness::lemma_contiguous_agrees;
use crate::block::{DecompressError, MINMATCH};

verus! {

/// What a stretch of input and an output hold of one sequence.
pub enum Parsed {
    Truncated { error: DecompressError, first: usize, end: usize },
    Oversized { needed: usize, first: usize, end: usize },
    Invalid { error: DecompressError, first: usize, end: usize },
    Final { first: usize, end: usize },
    Complete { first: usize, end: usize, offset: usize, length: usize, next: usize },
}

impl View for Parsed {
    type V = Shape;

    open spec fn view(&self) -> Shape {
        match *self {
            Parsed::Truncated { error, first, end } => Shape::Truncated {
                error,
                first: first as int,
                end: end as int,
            },
            Parsed::Oversized { needed, first, end } => Shape::Oversized {
                needed,
                first: first as int,
                end: end as int,
            },
            Parsed::Invalid { error, first, end } => Shape::Invalid {
                error,
                first: first as int,
                end: end as int,
            },
            Parsed::Final { first, end } => Shape::Final { first: first as int, end: end as int },
            Parsed::Complete { first, end, offset, length, next } => Shape::Complete {
                first: first as int,
                end: end as int,
                offset: offset as nat,
                length: length as nat,
                next: next as int,
            },
        }
    }
}

/// Whether neither length in the token has an extension.
fn does_token_fit(token: u8) -> (fits: bool)
    ensures
        fits == (token / 16 != 15 && token % 16 != 15),
{
    assert(token & 0x0F == token % 16) by (bit_vector);
    assert((token & 0xF0 == 0xF0) == (token / 16 == 15)) by (bit_vector);
    !(token & 0x0F == 0x0F || token & 0xF0 == 0xF0)
}

/// Sum the length extension at `*pos` and move `*pos` past it.
fn read_integer(input: &[u8], pos: &mut usize) -> (res: Result<usize, DecompressError>)
    requires
        *old(pos) <= input@.len(),
    ensures
        match extension(input@, *old(pos) as int) {
            Some((n, next)) => res == Ok::<usize, DecompressError>(saturated(n)) && *final(pos)
                == next,
            None => res == Err::<usize, DecompressError>(DecompressError::ExpectedAnotherByte),
        },
{
    let mut n: usize = 0;
    let ghost mut sum: nat = 0;
    while *pos < input.len()
        invariant
            *old(pos) <= *pos <= input@.len(),
            n == saturated(sum),
            extension(input@, *old(pos) as int) == match extension(input@, *pos as int) {
                Some((rest, next)) => Some((sum + rest, next)),
                None => None,
            },
        decreases input@.len() - *pos,
    {
        let byte = input[*pos];
        *pos += 1;
        n = n.saturating_add(byte as usize);
        proof {
            sum = sum + byte as nat;
        }
        if byte != 255 {
            return Ok(n);
        }
    }
    Err(DecompressError::ExpectedAnotherByte)
}

/// Read the sequence at `pos` where `written` bytes precede it in an output that
/// ends at `limit`.
pub(crate) fn parse_sequence(input: &[u8], pos: usize, written: usize, limit: usize) -> (parsed:
    Parsed)
    requires
        pos < input@.len(),
        written <= limit,
    ensures
        parsed@ == shape(input@, pos as int, written as nat, limit as nat),
{
    let token = input[pos];
    let mut next: usize = pos + 1;
    assert(token >> 4 == token / 16) by (bit_vector);
    assert(token & 0xF == token % 16) by (bit_vector);
    let mut literals: usize = (token >> 4) as usize;
    let mut length: usize = MINMATCH + (token & 0xF) as usize;

    // Neither length has an extension, and both sides have room for any such
    // sequence: no bounds to check.
    if does_token_fit(token) && input.len() - next >= 16 && limit - written >= 32 {
        let first: usize = next;
        let end: usize = first + literals;
        let offset: usize = input[end] as usize + 256 * (input[end + 1] as usize);
        if offset == 0 {
            return Parsed::Invalid { error: DecompressError::OffsetZero, first, end };
        }
        if offset > written + literals {
            return Parsed::Invalid { error: DecompressError::OffsetOutOfBounds, first, end };
        }
        return Parsed::Complete { first, end, offset, length, next: end + 2 };
    }
    proof {
        lemma_extension_bounds(input@, next as int);
    }
    if literals == 15 {
        match read_integer(input, &mut next) {
            Ok(more) => {
                literals = literals.saturating_add(more);
            },
            Err(error) => {
                return Parsed::Truncated { error, first: pos, end: pos };
            },
        }
    }
    if literals > input.len() - next {
        return Parsed::Truncated {
            error: DecompressError::LiteralOutOfBounds,
            first: pos,
            end: pos,
        };
    }
    if literals > limit - written {
        return Parsed::Oversized {
            needed: written.saturating_add(literals),
            first: pos,
            end: pos,
        };
    }
    let first: usize = next;
    let end: usize = first + literals;
    let reached: usize = written + literals;
    if end == input.len() {
        return Parsed::Final { first, end };
    }
    if input.len() - end < 2 {
        return Parsed::Truncated { error: DecompressError::ExpectedAnotherByte, first, end };
    }
    let offset: usize = input[end] as usize + 256 * (input[end + 1] as usize);
    if offset == 0 {
        return Parsed::Invalid { error: DecompressError::OffsetZero, first, end };
    }
    next = end + 2;
    if length == MINMATCH + 15 {
        match read_integer(input, &mut next) {
            Ok(more) => {
                length = length.saturating_add(more);
            },
            Err(error) => {
                return Parsed::Truncated { error, first, end };
            },
        }
    }
    if offset > reached {
        return Parsed::Invalid { error: DecompressError::OffsetOutOfBounds, first, end };
    }
    if length > limit - reached {
        return Parsed::Oversized { needed: reached.saturating_add(length), first, end };
    }
    Parsed::Complete { first, end, offset, length, next }
}

/// What has been written to a buffer in two runs leaves the rest as it was.
pub proof fn lemma_rest_kept(
    old_output: Seq<u8>,
    before: Seq<u8>,
    output: Seq<u8>,
    from: int,
    to: int,
)
    requires
        0 <= from <= to <= output.len(),
        old_output.len() == before.len() == output.len(),
        before.skip(from) == old_output.skip(from),
        output.skip(to) == before.skip(to),
    ensures
        output.skip(to) == old_output.skip(to),
        output == output.take(to) + old_output.skip(to),
{
    assert(before.skip(to) =~= before.skip(from).skip(to - from));
    assert(old_output.skip(to) =~= old_output.skip(from).skip(to - from));
    assert(output =~= output.take(to) + output.skip(to));
}

/// Copy the literals `input[first..end]` to `output` from `out_pos` on.
pub(crate) fn copy_literals(
    input: &[u8],
    first: usize,
    end: usize,
    output: &mut [u8],
    out_pos: usize,
)
    requires
        first <= end <= input@.len(),
        out_pos + (end - first) <= old(output)@.len(),
    ensures
        final(output)@.len() == old(output)@.len(),
        final(output)@.take(out_pos + (end - first)) == with_literals(
            input@,
            old(output)@.take(out_pos as int),
            first as int,
            end as int,
        ),
        final(output)@.skip(out_pos + (end - first)) == old(output)@.skip(
            out_pos + (end - first),
        ),
{
    let mut i: usize = first;
    while i < end
        invariant
            first <= i <= end <= input@.len(),
            out_pos + (end - first) <= output.len(),
            output@.len() == old(output)@.len(),
            output@ =~= old(output)@.take(out_pos as int) + input@.subrange(first as int, i as int)
                + old(output)@.skip(out_pos + (i - first)),
        decreases end - i,
    {
        output[out_pos + (i - first)] = input[i];
        i += 1;
    }
}

/// Copy the part of a match that lies in `ext_dict`, the bytes that precede
/// `output`, and return its length.
fn copy_from_dict(
    output: &mut [u8],
    out_pos: usize,
    ext_dict: &[u8],
    offset: usize,
    match_length: usize,
) -> (copied: usize)
    requires
        out_pos < offset <= ext_dict@.len() + out_pos,
        ext_dict@.len() + out_pos <= usize::MAX,
        out_pos + match_length <= old(output)@.len(),
    ensures
        copied == if match_length < offset - out_pos {
            match_length as int
        } else {
            offset - out_pos
        },
        ext_dict@ + final(output)@.take(out_pos + copied) == copy_match(
            ext_dict@ + old(output)@.take(out_pos as int),
            offset as nat,
            copied as nat,
        ),
        final(output)@.len() == old(output)@.len(),
        final(output)@.skip(out_pos + copied) == old(output)@.skip(out_pos + copied),
{
    let dict_offset: usize = ext_dict.len() + out_pos - offset;
    let in_dict: usize = ext_dict.len() - dict_offset;
    let copied: usize = if match_length < in_dict { match_length } else { in_dict };
    let mut i: usize = 0;
    while i < copied
        invariant
            i <= copied <= in_dict,
            copied <= match_length,
            dict_offset + in_dict == ext_dict.len(),
            dict_offset == ext_dict@.len() + out_pos - offset,
            out_pos + match_length <= old(output)@.len(),
            output@.len() == old(output)@.len(),
            ext_dict@ + output@.take(out_pos + i) == copy_match(
                ext_dict@ + old(output)@.take(out_pos as int),
                offset as nat,
                i as nat,
            ),
            output@.skip(out_pos + i) == old(output)@.skip(out_pos + i),
        decreases copied - i,
    {
        let ghost before = ext_dict@ + output@.take(out_pos + i);
        let ghost tail = output@.skip(out_pos + i);
        let byte = ext_dict[dict_offset + i];
        output[out_pos + i] = byte;
        assert(before[before.len() - offset] == byte);
        i += 1;
        assert(ext_dict@ + output@.take(out_pos + i) =~= before.push(byte));
        assert(output@.skip(out_pos + i) =~= tail.skip(1));
        assert(old(output)@.skip(out_pos + i) =~= old(output)@.skip(out_pos + i - 1).skip(1));
    }
    copied
}

/// Append `match_length` bytes to `output[..out_pos]`, each of them the byte
/// `offset` places before its own.
fn duplicate(output: &mut [u8], out_pos: usize, offset: usize, match_length: usize)
    requires
        0 < offset <= out_pos,
        out_pos + match_length <= old(output)@.len(),
    ensures
        final(output)@.len() == old(output)@.len(),
        final(output)@.take(out_pos + match_length) == copy_match(
            old(output)@.take(out_pos as int),
            offset as nat,
            match_length as nat,
        ),
        final(output)@.skip(out_pos + match_length) == old(output)@.skip(out_pos + match_length),
{
    let mut i: usize = 0;
    while i < match_length
        invariant
            i <= match_length,
            0 < offset <= out_pos,
            out_pos + match_length <= output.len(),
            output@.len() == old(output)@.len(),
            output@.take(out_pos + i) == copy_match(
                old(output)@.take(out_pos as int),
                offset as nat,
                i as nat,
            ),
            output@.skip(out_pos + i) == old(output)@.skip(out_pos + i),
        decreases match_length - i,
    {
        let ghost before = output@.take(out_pos + i);
        let ghost tail = output@.skip(out_pos + i);
        let byte = output[out_pos + i - offset];
        output[out_pos + i] = byte;
        i += 1;
        assert(output@.take(out_pos + i) =~= before.push(byte));
        assert(output@.skip(out_pos + i) =~= tail.skip(1));
        assert(old(output)@.skip(out_pos + i) =~= old(output)@.skip(out_pos + i - 1).skip(1));
    }
}

/// Append a match to `output[..out_pos]`, where the bytes of `ext_dict` precede
/// those of `output`.
pub(crate) fn append_match(
    output: &mut [u8],
    out_pos: usize,
    ext_dict: &[u8],
    offset: usize,
    match_length: usize,
)
    requires
        0 < offset <= ext_dict@.len() + out_pos,
        ext_dict@.len() + out_pos <= usize::MAX,
        out_pos + match_length <= old(output)@.len(),
    ensures
        final(output)@.len() == old(output)@.len(),
        ext_dict@ + final(output)@.take(out_pos + match_length) == copy_match(
            ext_dict@ + old(output)@.take(out_pos as int),
            offset as nat,
            match_length as nat,
        ),
        final(output)@.skip(out_pos + match_length) == old(output)@.skip(out_pos + match_length),
{
    let mut copied: usize = 0;
    if offset > out_pos {
        copied = copy_from_dict(output, out_pos, ext_dict, offset, match_length);
        if copied == match_length {
            return;
        }
    }
    let ghost middle = output@;
    duplicate(output, out_pos + copied, offset, match_length - copied);
    proof {
        let rest = (match_length - copied) as nat;
        lemma_copy_match_prefix(ext_dict@, middle.take(out_pos + copied), offset as nat, rest);
        lemma_copy_match_split(
            ext_dict@ + old(output)@.take(out_pos as int),
            offset as nat,
            copied as nat,
            rest,
        );
        assert(output@.skip(out_pos + match_length) =~= middle.skip(out_pos + match_length));
        assert(middle.skip(out_pos + match_length) =~= middle.skip(out_pos + copied).skip(
            rest as int,
        ));
        assert(old(output)@.skip(out_pos + match_length) =~= old(output)@.skip(
            out_pos + copied,
        ).skip(rest as int));
    }
}

/// Decompress the block `input` into `output` and return the number of bytes
/// written.
pub(crate) fn decompress_internal(input: &[u8], output: &mut [u8]) -> (res: Result<
    usize,
    DecompressError,
>)
    ensures
        ({
            let outcome = contiguous_from(input@, old(output)@.len(), 0, Seq::empty());
            &&& res == outcome.result()
            &&& outcome.written.len() <= old(output)@.len()
            &&& final(output)@ == outcome.written + old(output)@.skip(
                outcome.written.len() as int,
            )
        }),
{
    let mut in_pos: usize = 0;
    let mut out_pos: usize = 0;
    let ghost room = output@.len();
    let ghost old_output = output@;
    let ghost outcome = contiguous_from(input@, room, 0, Seq::empty());
    assert(output@.take(0) =~= Seq::empty());
    while in_pos < input.len()
        invariant
            in_pos <= input@.len(),
            out_pos <= output@.len(),
            output@.len() == room,
            old_output == old(output)@,
            old_output.len() == room,
            outcome == contiguous_from(input@, room, 0, Seq::empty()),
            output@.skip(out_pos as int) == old_output.skip(out_pos as int),
            outcome == contiguous_from(input@, room, in_pos as int, output@.take(out_pos as int)),
        ensures
            in_pos == input@.len(),
        decreases input@.len() - in_pos,
    {
        let ghost before = output@;
        proof {
            lemma_shape_bounds(input@, in_pos as int, out_pos as nat, room);
        }
        let (first, end, res): (usize, usize, Result<usize, DecompressError>) =
            match parse_sequence(input, in_pos, out_pos, output.len()) {
            Parsed::Complete { first, end, offset, length, next } => {
                copy_literals(input, first, end, output, out_pos);
                let ghost middle = output@;
                let match_pos: usize = out_pos + (end - first);
                append_match(output, match_pos, &[], offset, length);
                proof {
                    let with_match = match_pos + length;
                    let no_dict: Seq<u8> = Seq::empty();
                    assert(no_dict + middle.take(match_pos as int) =~= middle.take(
                        match_pos as int,
                    ));
                    assert(no_dict + output@.take(with_match) =~= output@.take(with_match));
                    lemma_rest_kept(old_output, before, middle, out_pos as int, match_pos as int);
                    lemma_rest_kept(old_output, middle, output@, match_pos as int, with_match);
                }
                in_pos = next;
                out_pos = match_pos + length;
                continue;
            },
            Parsed::Truncated { error, first, end } => (first, end, Err(error)),
            Parsed::Oversized { needed, first, end } => (
                first,
                end,
                Err(DecompressError::OutputTooSmall { expected: needed, actual: output.len() }),
            ),
            Parsed::Invalid { error, first, end } => (first, end, Err(error)),
            Parsed::Final { first, end } => (first, end, Ok(out_pos + (end - first))),
        };
        copy_literals(input, first, end, output, out_pos);
        proof {
            lemma_rest_kept(old_output, before, output@, out_pos as int, out_pos + (end - first));
        }
        return res;
    }
    assert(output@ =~= output@.take(out_pos as int) + output@.skip(out_pos as int));
    Err(DecompressError::ExpectedAnotherByte)
}

/// Decompress all bytes of the block `input` into `output`. Returns the number of
/// bytes written.
pub fn decompress_into(input: &[u8], output: &mut [u8]) -> (res: Result<usize, DecompressError>)
    ensures
        ({
            let outcome = contiguous_from(input@, old(output)@.len(), 0, Seq::empty());
            &&& res == outcome.result()
            &&& outcome.written.len() <= old(output)@.len()
            &&& final(output)@ == overwritten(old(output)@, outcome.written)
        }),
        match payload(input@) {
            Some(bytes) => if bytes.len() <= old(output)@.len() {
                &&& res == Ok::<usize, DecompressError>(bytes.len() as usize)
                &&& final(output)@ == overwritten(old(output)@, bytes)
            } else {
                res is Err
            },
            None => res is Err,
        },
{
    proof {
        lemma_contiguous_agrees(input@, output@.len(), 0, Seq::empty());
    }
    decompress_internal(input, output)
}

/// Decompress all bytes of the block `input` into a new vector, for which
/// `min_uncompressed_size` bytes have to be enough.
pub fn decompress(input: &[u8], min_uncompressed_size: usize) -> (res: Result<
    Vec<u8>,
    DecompressError,
>)
    ensures
        match contiguous_from(input@, min_uncompressed_size as nat, 0, Seq::empty()).error {
            Some(error) => res == Err::<Vec<u8>, DecompressError>(error),
            None => res is Ok,
        },
        match payload(input@) {
            Some(bytes) => if bytes.len() <= min_uncompressed_size {
                res matches Ok(decompressed) && decompressed@ == bytes
            } else {
                res is Err
            },
            None => res is Err,
        },
{
    let mut decompressed: Vec<u8> = vec![0u8; min_uncompressed_size];
    let ghost zeros = decompressed@;
    let written = decompress_into(input, decompressed.as_mut_slice())?;
    decompressed.truncate(written);
    proof {
        let bytes = payload(input@).unwrap();
        assert(overwritten(zeros, bytes).take(bytes.len() as int) =~= bytes);
    }
    Ok(decompressed)
}

} // verus!
