//! How sequences are written down as a block, and that reading the block gives
//! them back.

use vstd::prelude::*;

use crate::block::format::{
    copy_match, extension, length_field, literal_field, match_field, offset_field, payload,
    payload_from,
};
use crate::block::MINMATCH;

verus! {

/// A sequence that is not the last one of its block.
pub struct Sequence {
    pub literals: Seq<u8>,
    pub offset: nat,
    pub length: nat,
}

/// `out` with the literals of a sequence appended.
pub open spec fn before_match(out: Seq<u8>, sequence: Sequence) -> Seq<u8> {
    out + sequence.literals
}

/// What a series of sequences makes of `out`.
pub open spec fn expand(out: Seq<u8>, sequences: Seq<Sequence>) -> Seq<u8>
    decreases sequences.len(),
{
    if sequences.len() == 0 {
        out
    } else {
        let first = sequences[0];
        expand(
            copy_match(before_match(out, first), first.offset, first.length),
            sequences.drop_first(),
        )
    }
}

/// Whether a series of sequences can follow `out` in a block: matches are long
/// enough, and reach back no further than 16 bits can say and output there is.
pub open spec fn encodable(out: Seq<u8>, sequences: Seq<Sequence>) -> bool
    decreases sequences.len(),
{
    sequences.len() > 0 ==> {
        let first = sequences[0];
        &&& MINMATCH <= first.length
        &&& 0 < first.offset < 65536
        &&& first.offset <= before_match(out, first).len()
        &&& encodable(
            copy_match(before_match(out, first), first.offset, first.length),
            sequences.drop_first(),
        )
    }
}

/// The four bits of a token for the length `n`.
pub open spec fn nibble(n: nat) -> nat {
    if n < 15 { n } else { 15 }
}

/// The token for a number of literals and a match length less [`MINMATCH`].
pub open spec fn token(literals: nat, length: nat) -> u8 {
    (16 * nibble(literals) + nibble(length)) as u8
}

/// The extension that stands for `n`.
pub open spec fn extension_bytes(n: nat) -> Seq<u8>
    decreases n,
{
    if n < 255 {
        seq![n as u8]
    } else {
        seq![255u8] + extension_bytes((n - 255) as nat)
    }
}

/// The extension, if any, of a length `n`.
pub open spec fn length_bytes(n: nat) -> Seq<u8> {
    if n < 15 { Seq::empty() } else { extension_bytes((n - 15) as nat) }
}

/// A sequence with a match, written down.
pub open spec fn encode_sequence(sequence: Sequence) -> Seq<u8> {
    let length = (sequence.length - MINMATCH) as nat;
    seq![token(sequence.literals.len(), length)] + length_bytes(sequence.literals.len())
        + sequence.literals + seq![
        (sequence.offset % 256) as u8,
        (sequence.offset / 256) as u8,
    ] + length_bytes(length)
}

/// The last sequence of a block, written down.
pub open spec fn encode_last(literals: Seq<u8>) -> Seq<u8> {
    seq![token(literals.len(), 0)] + length_bytes(literals.len()) + literals
}

/// A series of sequences, written down one after the other.
pub open spec fn encode_sequences(sequences: Seq<Sequence>) -> Seq<u8>
    decreases sequences.len(),
{
    if sequences.len() == 0 {
        Seq::empty()
    } else {
        encode_sequence(sequences[0]) + encode_sequences(sequences.drop_first())
    }
}

/// Whether `piece` stands in `bytes` at `pos`.
pub open spec fn stands_at(bytes: Seq<u8>, pos: int, piece: Seq<u8>) -> bool {
    &&& 0 <= pos
    &&& pos + piece.len() <= bytes.len()
    &&& bytes.subrange(pos, pos + piece.len()) == piece
}

/// What stands at a position when a concatenation does.
pub proof fn lemma_stands_split(bytes: Seq<u8>, pos: int, a: Seq<u8>, b: Seq<u8>)
    requires
        stands_at(bytes, pos, a + b),
    ensures
        stands_at(bytes, pos, a),
        stands_at(bytes, pos + a.len(), b),
{
    let both = bytes.subrange(pos, pos + (a + b).len());
    assert(both.take(a.len() as int) =~= a);
    assert(both.skip(a.len() as int) =~= b);
    assert(bytes.subrange(pos, pos + a.len()) =~= both.take(a.len() as int));
    assert(bytes.subrange(pos + a.len(), pos + a.len() + b.len()) =~= both.skip(a.len() as int));
}

/// Reading back an extension.
pub proof fn lemma_extension_bytes(bytes: Seq<u8>, pos: int, n: nat)
    requires
        stands_at(bytes, pos, extension_bytes(n)),
    ensures
        extension(bytes, pos) == Some((n, pos + extension_bytes(n).len())),
    decreases n,
{
    if n < 255 {
        assert(bytes.subrange(pos, pos + 1)[0] == n);
    } else {
        let rest = (n - 255) as nat;
        lemma_stands_split(bytes, pos, seq![255u8], extension_bytes(rest));
        assert(bytes.subrange(pos, pos + 1)[0] == 255);
        lemma_extension_bytes(bytes, pos + 1, rest);
    }
}

/// Reading back a length.
pub proof fn lemma_length_bytes(bytes: Seq<u8>, pos: int, n: nat)
    requires
        stands_at(bytes, pos, length_bytes(n)),
    ensures
        length_field(bytes, nibble(n), pos) == Some((n, pos + length_bytes(n).len())),
{
    if n >= 15 {
        lemma_extension_bytes(bytes, pos, (n - 15) as nat);
    }
}

/// Reading back a sequence with a match.
pub proof fn lemma_sequence_read(block: Seq<u8>, pos: int, out: Seq<u8>, sequence: Sequence)
    requires
        stands_at(block, pos, encode_sequence(sequence)),
        MINMATCH <= sequence.length,
        0 < sequence.offset < 65536,
        sequence.offset <= before_match(out, sequence).len(),
    ensures
        payload_from(block, pos, out) == payload_from(
            block,
            pos + encode_sequence(sequence).len(),
            copy_match(before_match(out, sequence), sequence.offset, sequence.length),
        ),
{
    let count = sequence.literals.len();
    let length = (sequence.length - MINMATCH) as nat;
    let head = seq![token(count, length)];
    let more = length_bytes(count);
    let offset = seq![(sequence.offset % 256) as u8, (sequence.offset / 256) as u8];
    let tail = length_bytes(length);
    lemma_stands_split(block, pos, head + more + sequence.literals + offset, tail);
    lemma_stands_split(block, pos, head + more + sequence.literals, offset);
    lemma_stands_split(block, pos, head + more, sequence.literals);
    lemma_stands_split(block, pos, head, more);
    let first = pos + 1 + more.len();
    let end = first + count;
    assert(block.subrange(pos, pos + 1)[0] == token(count, length));
    assert(block.subrange(end, end + 2)[0] == offset[0]);
    assert(block.subrange(end, end + 2)[1] == offset[1]);
    lemma_length_bytes(block, pos + 1, count);
    lemma_length_bytes(block, end + 2, length);
    assert(literal_field(block, pos) == Some((count, first)));
    assert(match_field(block, pos, end) == Some((sequence.length, end + 2 + tail.len())));
    assert(offset_field(block, end) == sequence.offset);
}

/// Reading back the last sequence.
pub proof fn lemma_last_read(block: Seq<u8>, pos: int, out: Seq<u8>, literals: Seq<u8>)
    requires
        stands_at(block, pos, encode_last(literals)),
        pos + encode_last(literals).len() == block.len(),
    ensures
        payload_from(block, pos, out) == Some(out + literals),
{
    let count = literals.len();
    let head = seq![token(count, 0)];
    let more = length_bytes(count);
    lemma_stands_split(block, pos, head + more, literals);
    lemma_stands_split(block, pos, head, more);
    assert(block.subrange(pos, pos + 1)[0] == token(count, 0));
    lemma_length_bytes(block, pos + 1, count);
    assert(literal_field(block, pos) == Some((count, pos + 1 + more.len())));
}

/// A series of sequences with one more at its end, written down.
pub proof fn lemma_encode_push(sequences: Seq<Sequence>, sequence: Sequence)
    ensures
        encode_sequences(sequences.push(sequence)) == encode_sequences(sequences)
            + encode_sequence(sequence),
    decreases sequences.len(),
{
    let all = sequences.push(sequence);
    if sequences.len() > 0 {
        lemma_encode_push(sequences.drop_first(), sequence);
        assert(all.drop_first() =~= sequences.drop_first().push(sequence));
    } else {
        reveal_with_fuel(encode_sequences, 2);
        assert(all.drop_first() =~= Seq::empty());
    }
    assert(encode_sequences(all) =~= encode_sequences(sequences) + encode_sequence(sequence));
}

/// Reading back a series of sequences.
pub proof fn lemma_sequences_read(
    block: Seq<u8>,
    pos: int,
    out: Seq<u8>,
    sequences: Seq<Sequence>,
)
    requires
        stands_at(block, pos, encode_sequences(sequences)),
        encodable(out, sequences),
    ensures
        payload_from(block, pos, out) == payload_from(
            block,
            pos + encode_sequences(sequences).len(),
            expand(out, sequences),
        ),
    decreases sequences.len(),
{
    if sequences.len() > 0 {
        let first = sequences[0];
        let rest = sequences.drop_first();
        lemma_stands_split(block, pos, encode_sequence(first), encode_sequences(rest));
        lemma_sequence_read(block, pos, out, first);
        lemma_sequences_read(
            block,
            pos + encode_sequence(first).len(),
            copy_match(before_match(out, first), first.offset, first.length),
            rest,
        );
    }
}

/// Sequences that are written down as a block are what the block stands for.
pub proof fn law_encoded_block(sequences: Seq<Sequence>, last: Seq<u8>)
    requires
        encodable(Seq::empty(), sequences),
    ensures
        payload(encode_sequences(sequences) + encode_last(last)) == Some(
            expand(Seq::empty(), sequences) + last,
        ),
{
    let block = encode_sequences(sequences) + encode_last(last);
    assert(block.subrange(0, block.len() as int) =~= block);
    lemma_stands_split(block, 0, encode_sequences(sequences), encode_last(last));
    lemma_sequences_read(block, 0, Seq::empty(), sequences);
    lemma_last_read(
        block,
        encode_sequences(sequences).len() as int,
        expand(Seq::empty(), sequences),
        last,
    );
}

/// A block does not end on a match: the final sequence has literals only.
pub proof fn law_block_ends_on_literals(sequences: Seq<Sequence>)
    requires
        encodable(Seq::empty(), sequences),
    ensures
        payload(encode_sequences(sequences)) is None,
{
    let block = encode_sequences(sequences);
    assert(block.subrange(0, block.len() as int) =~= block);
    lemma_sequences_read(block, 0, Seq::empty(), sequences);
}

/// How many bytes of a sequence, written down, go before its match.
pub open spec fn literals_end(sequence: Sequence) -> nat {
    1 + length_bytes(sequence.literals.len()).len() + sequence.literals.len()
}

/// Whether the first `n` bytes of a series of sequences, written down, end on the
/// literals of one of them.
pub open spec fn ends_on_literals(sequences: Seq<Sequence>, n: int) -> bool
    decreases sequences.len(),
{
    sequences.len() > 0 && (n == literals_end(sequences[0]) || ends_on_literals(
        sequences.drop_first(),
        n - encode_sequence(sequences[0]).len(),
    ))
}

/// Literals end before their sequence does.
pub proof fn lemma_ends_on_literals(sequences: Seq<Sequence>, n: int)
    requires
        ends_on_literals(sequences, n),
    ensures
        0 < n < encode_sequences(sequences).len(),
    decreases sequences.len(),
{
    if n != literals_end(sequences[0]) {
        lemma_ends_on_literals(
            sequences.drop_first(),
            n - encode_sequence(sequences[0]).len(),
        );
    }
}

/// Where a stretch is cut off, its beginning still stands.
pub proof fn lemma_stands_cut(bytes: Seq<u8>, pos: int, piece: Seq<u8>, n: int)
    requires
        stands_at(bytes, pos, piece),
        pos + piece.len() <= n <= bytes.len(),
    ensures
        stands_at(bytes.take(n), pos, piece),
{
    assert(bytes.take(n).subrange(pos, pos + piece.len()) =~= bytes.subrange(
        pos,
        pos + piece.len(),
    ));
}

/// An extension that is cut off cannot be read.
pub proof fn lemma_extension_cut(bytes: Seq<u8>, pos: int, n: nat, end: int)
    requires
        stands_at(bytes, pos, extension_bytes(n)),
        0 <= end < pos + extension_bytes(n).len(),
    ensures
        extension(bytes.take(end), pos) is None,
    decreases n,
{
    if pos < end {
        let rest = (n - 255) as nat;
        lemma_stands_split(bytes, pos, seq![255u8], extension_bytes(rest));
        assert(bytes.subrange(pos, pos + 1)[0] == 255);
        lemma_extension_cut(bytes, pos + 1, rest, end);
    }
}

/// A length that is cut off cannot be read.
pub proof fn lemma_length_cut(bytes: Seq<u8>, pos: int, n: nat, end: int)
    requires
        stands_at(bytes, pos, length_bytes(n)),
        0 <= end <= bytes.len(),
    ensures
        length_field(bytes.take(end), nibble(n), pos) == if pos + length_bytes(n).len() <= end || n
            < 15 {
            Some((n, pos + length_bytes(n).len()))
        } else {
            None
        },
{
    if n >= 15 {
        if pos + length_bytes(n).len() <= end {
            lemma_stands_cut(bytes, pos, length_bytes(n), end);
            lemma_length_bytes(bytes.take(end), pos, n);
        } else {
            lemma_extension_cut(bytes, pos, (n - 15) as nat, end);
        }
    }
}

/// A sequence that is cut off can be read only if the cut comes right after its
/// literals.
pub proof fn lemma_sequence_cut(
    block: Seq<u8>,
    pos: int,
    out: Seq<u8>,
    sequence: Sequence,
    end: int,
)
    requires
        stands_at(block, pos, encode_sequence(sequence)),
        MINMATCH <= sequence.length,
        0 <= end < pos + encode_sequence(sequence).len(),
    ensures
        payload_from(block.take(end), pos, out) is Some <==> end == pos + literals_end(sequence),
{
    let part = block.take(end);
    let count = sequence.literals.len();
    let length = (sequence.length - MINMATCH) as nat;
    let head = seq![token(count, length)];
    let more = length_bytes(count);
    let offset = seq![(sequence.offset % 256) as u8, (sequence.offset / 256) as u8];
    let tail = length_bytes(length);
    lemma_stands_split(block, pos, head + more + sequence.literals + offset, tail);
    lemma_stands_split(block, pos, head + more + sequence.literals, offset);
    lemma_stands_split(block, pos, head + more, sequence.literals);
    lemma_stands_split(block, pos, head, more);
    if pos < end {
        let after = pos + literals_end(sequence);
        assert(block.subrange(pos, pos + 1)[0] == token(count, length));
        assert(part[pos] == token(count, length));
        lemma_length_cut(block, pos + 1, count, end);
        lemma_length_cut(block, after + 2, length, end);
    }
}

/// The last sequence of a block that is cut off cannot be read.
pub proof fn lemma_last_cut(block: Seq<u8>, pos: int, out: Seq<u8>, literals: Seq<u8>, end: int)
    requires
        stands_at(block, pos, encode_last(literals)),
        0 <= end < pos + encode_last(literals).len(),
    ensures
        payload_from(block.take(end), pos, out) is None,
{
    let count = literals.len();
    let head = seq![token(count, 0)];
    let more = length_bytes(count);
    lemma_stands_split(block, pos, head + more, literals);
    lemma_stands_split(block, pos, head, more);
    if pos < end {
        assert(block.subrange(pos, pos + 1)[0] == token(count, 0));
        assert(block.take(end)[pos] == token(count, 0));
        lemma_length_cut(block, pos + 1, count, end);
    }
}

/// A block that is cut off can be read, from a sequence on, only if the cut comes
/// right after the literals of a sequence with a match.
pub proof fn lemma_block_cut(
    block: Seq<u8>,
    pos: int,
    out: Seq<u8>,
    sequences: Seq<Sequence>,
    last: Seq<u8>,
    end: int,
)
    requires
        stands_at(block, pos, encode_sequences(sequences) + encode_last(last)),
        block.len() == pos + (encode_sequences(sequences) + encode_last(last)).len(),
        encodable(out, sequences),
        0 <= end < block.len(),
    ensures
        payload_from(block.take(end), pos, out) is Some <==> ends_on_literals(sequences, end - pos),
    decreases sequences.len(),
{
    if sequences.len() == 0 {
        assert(encode_sequences(sequences) + encode_last(last) =~= encode_last(last));
        lemma_last_cut(block, pos, out, last, end);
    } else {
        let first = sequences[0];
        let rest = sequences.drop_first();
        let size = encode_sequence(first).len();
        let tail = encode_sequences(rest) + encode_last(last);
        assert(encode_sequences(sequences) + encode_last(last) =~= encode_sequence(first) + tail);
        lemma_stands_split(block, pos, encode_sequence(first), tail);
        if end < pos + size {
            lemma_sequence_cut(block, pos, out, first, end);
            if ends_on_literals(rest, end - pos - size) {
                lemma_ends_on_literals(rest, end - pos - size);
            }
        } else {
            lemma_stands_cut(block, pos, encode_sequence(first), end);
            lemma_sequence_read(block.take(end), pos, out, first);
            lemma_block_cut(
                block,
                pos + size,
                copy_match(before_match(out, first), first.offset, first.length),
                rest,
                last,
                end,
            );
        }
    }
}

/// What is left of a block that is cut off is a block exactly if the cut comes right
/// after the literals of a sequence with a match.
pub proof fn law_cut_block(sequences: Seq<Sequence>, last: Seq<u8>, end: int)
    requires
        encodable(Seq::empty(), sequences),
        0 <= end < (encode_sequences(sequences) + encode_last(last)).len(),
    ensures
        payload((encode_sequences(sequences) + encode_last(last)).take(end)) is Some
            <==> ends_on_literals(sequences, end),
        encode_sequences(sequences).len() <= end ==> payload(
            (encode_sequences(sequences) + encode_last(last)).take(end),
        ) is None,
{
    let block = encode_sequences(sequences) + encode_last(last);
    assert(block.subrange(0, block.len() as int) =~= block);
    lemma_block_cut(block, 0, Seq::empty(), sequences, last, end);
    if ends_on_literals(sequences, end) {
        lemma_ends_on_literals(sequences, end);
    }
}

} // verus!
