//! Block compression.

use vstd::prelude::*;

use crate::block::density::{
    law_equal_bytes, law_hardly_longer, law_repetitions_used, matches_hold, repetitions_used,
};
use crate::block::encoding::{
    encodable, encode_last, encode_sequence, encode_sequences, extension_bytes,
    lemma_encode_push, length_bytes, token, Sequence,
};
use crate::block::format::payload;
use crate::block::search::{
    common_run, compressed, last_visited, law_compressed, lemma_last_visited, lemma_match_end,
    lemma_visit, match_at, parse, parse_from, table_entry, word_at, END_OFFSET, HASH_FACTOR,
    MAX_DISTANCE, MFLIMIT, TABLE_SIZE,
};
use crate::block::MINMATCH;

verus! {

/// The table entry of the four bytes at `pos`.
fn hash_at(input: &[u8], pos: usize) -> (hash: usize)
    requires
        pos + 4 <= input@.len(),
    ensures
        hash < TABLE_SIZE,
        hash == table_entry(word_at(input@, pos as int)),
{
    assert(pos < input.len());
    let b0: u32 = input[pos] as u32;
    let b1: u32 = input[pos + 1] as u32;
    let b2: u32 = input[pos + 2] as u32;
    let b3: u32 = input[pos + 3] as u32;
    let word: u32 = b0 | b1 << 8 | b2 << 16 | b3 << 24;
    assert(word == b0 + 256 * b1 + 65536 * b2 + 16777216 * b3) by (bit_vector)
        requires
            b0 < 256,
            b1 < 256,
            b2 < 256,
            b3 < 256,
            word == b0 | b1 << 8 | b2 << 16 | b3 << 24,
    ;
    let product: u32 = word.wrapping_mul(HASH_FACTOR);
    assert(product >> 20 == product / 1048576) by (bit_vector);
    (product >> 20) as usize
}

/// How many bytes from `pos` on, up to `end`, are the same as those from
/// `candidate` on.
fn common_length(input: &[u8], candidate: usize, pos: usize, end: usize) -> (length: usize)
    requires
        candidate < pos <= end <= input@.len(),
    ensures
        length == common_run(input@, candidate as int, pos as int, end as int),
{
    let mut length: usize = 0;
    while pos + length < end && input[candidate + length] == input[pos + length]
        invariant
            candidate < pos,
            pos + length <= end <= input.len(),
            common_run(input@, candidate as int, pos as int, end as int) == length + common_run(
                input@,
                candidate + length,
                pos + length,
                end as int,
            ),
        decreases end - pos - length,
    {
        length += 1;
    }
    length
}

/// Append the extension, if any, of a length.
fn push_length(out: &mut Vec<u8>, length: usize)
    ensures
        final(out)@ == old(out)@ + length_bytes(length as nat),
{
    if length < 15 {
        assert(out@ =~= old(out)@ + length_bytes(length as nat));
        return;
    }
    let mut rest: usize = length - 15;
    while rest >= 255
        invariant
            old(out)@ + extension_bytes((length - 15) as nat) == out@ + extension_bytes(
                rest as nat,
            ),
        decreases rest,
    {
        let ghost before = out@;
        out.push(255);
        rest = rest - 255;
        assert(before + (seq![255u8] + extension_bytes(rest as nat)) =~= out@ + extension_bytes(
            rest as nat,
        ));
    }
    out.push(rest as u8);
}

/// Append bytes of the input.
fn push_bytes(out: &mut Vec<u8>, input: &[u8], first: usize, end: usize)
    requires
        first <= end <= input@.len(),
    ensures
        final(out)@ == old(out)@ + input@.subrange(first as int, end as int),
{
    let mut i: usize = first;
    while i < end
        invariant
            first <= i <= end <= input@.len(),
            out@ =~= old(out)@ + input@.subrange(first as int, i as int),
        decreases end - i,
    {
        out.push(input[i]);
        i += 1;
    }
}

/// Append a token.
fn push_token(out: &mut Vec<u8>, literals: usize, length: usize)
    ensures
        final(out)@ == old(out)@.push(token(literals as nat, length as nat)),
{
    let upper: u8 = if literals < 15 { literals as u8 } else { 15 };
    let lower: u8 = if length < 15 { length as u8 } else { 15 };
    out.push(16 * upper + lower);
}

/// Append a sequence whose literals are `input[first..end]`.
fn push_sequence(
    out: &mut Vec<u8>,
    input: &[u8],
    first: usize,
    end: usize,
    offset: usize,
    length: usize,
)
    requires
        first <= end <= input@.len(),
        0 < offset <= MAX_DISTANCE,
        MINMATCH <= length,
    ensures
        final(out)@ == old(out)@ + encode_sequence(
            Sequence {
                literals: input@.subrange(first as int, end as int),
                offset: offset as nat,
                length: length as nat,
            },
        ),
{
    push_token(out, end - first, length - MINMATCH);
    push_length(out, end - first);
    push_bytes(out, input, first, end);
    out.push((offset % 256) as u8);
    out.push((offset / 256) as u8);
    push_length(out, length - MINMATCH);
    proof {
        let sequence = Sequence {
            literals: input@.subrange(first as int, end as int),
            offset: offset as nat,
            length: length as nat,
        };
        assert(out@ =~= old(out)@ + encode_sequence(sequence));
    }
}

/// Compress all bytes of `input` into a block.
///
/// The last sequence of the block has at least [`END_OFFSET`] literals, unless it is
/// the only one. Every repetition that can be used is, equal bytes are compressed to
/// little more than a 255th of them, and nothing gets longer by more than that.
pub fn compress(input: &[u8]) -> (block: Vec<u8>)
    ensures
        block@ == compressed(input@),
        payload(block@) == Some(input@),
        ({
            let parse = parse(input@);
            &&& block@ == encode_sequences(parse.sequences) + encode_last(parse.last)
            &&& encodable(Seq::empty(), parse.sequences)
            &&& if parse.sequences.len() > 0 {
                END_OFFSET <= parse.last.len()
            } else {
                parse.last == input@
            }
        }),
        block@.len() <= input@.len() + input@.len() / 255 + 2,
        13 <= input@.len() && (forall|i: int|
            0 <= i < input@.len() ==> #[trigger] input@[i] == input@[0]) ==> block@.len()
            <= input@.len() / 255 + 12,
        exists|sequences: Seq<Sequence>, last: Seq<u8>|
            block@ == #[trigger] encode_sequences(sequences) + #[trigger] encode_last(last)
                && encodable(Seq::empty(), sequences) && matches_hold(input@, sequences)
                && repetitions_used(input@, sequences),
{
    let mut out: Vec<u8> = Vec::new();
    // For each hash, one more than the last position of four bytes with it.
    let mut table: Vec<usize> = vec![0usize; TABLE_SIZE];
    let mut literal_start: usize = 0;
    let mut pos: usize = 0;
    let ghost mut sequences: Seq<Sequence> = Seq::empty();
    let ghost mut visited: Seq<int> = Seq::empty();
    assert(out@ =~= encode_sequences(sequences));
    assert(sequences + parse(input@).sequences =~= parse(input@).sequences);
    while input.len() >= MFLIMIT && pos <= input.len() - MFLIMIT
        invariant
            literal_start <= pos <= input@.len(),
            table@.len() == TABLE_SIZE,
            forall|k: int| 0 <= k < visited.len() ==> 0 <= #[trigger] visited[k] < pos,
            forall|k: int|
                0 <= k < TABLE_SIZE ==> #[trigger] table@[k] == match last_visited(
                    input@,
                    visited,
                    k as nat,
                ) {
                    Some(candidate) => candidate + 1,
                    None => 0,
                },
            out@ == encode_sequences(sequences),
            ({
                let rest = parse_from(input@, visited, literal_start as int, pos as int);
                &&& parse(input@).sequences == sequences + rest.sequences
                &&& parse(input@).last == rest.last
            }),
        decreases input@.len() - pos,
    {
        let hash = hash_at(input, pos);
        let entry: usize = table[hash];
        table.set(hash, pos + 1);
        let ghost before = visited;
        let ghost rest = parse_from(input@, before, literal_start as int, pos as int);
        proof {
            lemma_last_visited(input@, before, hash as nat);
            lemma_match_end(input@, before, pos as int);
            assert forall|k: nat| k < TABLE_SIZE implies #[trigger] last_visited(
                input@,
                before.push(pos as int),
                k,
            ) == if k == hash {
                Some(pos as int)
            } else {
                last_visited(input@, before, k)
            } by {
                lemma_visit(input@, before, pos as int, k);
            }
            visited = before.push(pos as int);
        }
        if entry > 0 && pos - (entry - 1) <= MAX_DISTANCE {
            let candidate: usize = entry - 1;
            let length = common_length(input, candidate, pos, input.len() - END_OFFSET);
            if length >= MINMATCH {
                let offset: usize = pos - candidate;
                assert(match_at(input@, before, pos as int) == Some(
                    (offset as nat, length as nat),
                ));
                push_sequence(&mut out, input, literal_start, pos, offset, length);
                proof {
                    let sequence = Sequence {
                        literals: input@.subrange(literal_start as int, pos as int),
                        offset: offset as nat,
                        length: length as nat,
                    };
                    let next = pos + length;
                    let after = parse_from(input@, visited, next, next);
                    assert(rest.sequences == seq![sequence] + after.sequences);
                    assert(sequences + (seq![sequence] + after.sequences) =~= sequences.push(
                        sequence,
                    ) + after.sequences);
                    lemma_encode_push(sequences, sequence);
                    sequences = sequences.push(sequence);
                }
                pos = pos + length;
                literal_start = pos;
                continue;
            }
        }
        assert(match_at(input@, before, pos as int) is None);
        pos += 1;
    }
    let ghost encoded = out@;
    let ghost last = input@.skip(literal_start as int);
    push_token(&mut out, input.len() - literal_start, 0);
    push_length(&mut out, input.len() - literal_start);
    push_bytes(&mut out, input, literal_start, input.len());
    proof {
        assert(last =~= input@.subrange(literal_start as int, input@.len() as int));
        assert(parse(input@).sequences =~= sequences);
        assert(out@ =~= encoded + encode_last(last));
        law_compressed(input@);
        law_hardly_longer(input@, out@);
        if 13 <= input@.len() && (forall|i: int|
            0 <= i < input@.len() ==> #[trigger] input@[i] == input@[0]) {
            law_equal_bytes(input@, out@);
        }
        law_repetitions_used(input@, out@);
    }
    out
}

} // verus!
