//! What a block means, byte for byte.
//!
//! These laws say of the bytes of a block, as numbers, which bytes it stands for.
//! Together they leave nothing open: each says what the sequence at a position comes
//! to, for every way in which it can go on, and the last sequence has none after it.

use vstd::prelude::*;

use crate::block::encoding::{
    encode_last, encode_sequence, encode_sequences, extension_bytes, length_bytes, Sequence,
};
use crate::block::format::{
    copy_match, extension, literal_field, match_field, payload, payload_from,
};
use crate::block::laws::law_success;
use crate::block::outcome::{decompressed, overwritten, Outcome};
use crate::block::parts::{contents, flat, fragments, rooms, total};
use crate::block::DecompressError;

verus! {

/// An extension of bytes 255 and one that is not.
pub proof fn lemma_extension_sum(bytes: Seq<u8>, pos: int, next: int)
    requires
        0 <= pos < next <= bytes.len(),
        bytes[next - 1] < 255,
        forall|i: int| pos <= i < next - 1 ==> #[trigger] bytes[i] == 255,
    ensures
        extension(bytes, pos) == Some(((255 * (next - 1 - pos) + bytes[next - 1]) as nat, next)),
    decreases next - pos,
{
    if pos < next - 1 {
        assert(bytes[pos] == 255);
        lemma_extension_sum(bytes, pos + 1, next);
    }
}

/// An extension that does not end.
pub proof fn lemma_extension_open(bytes: Seq<u8>, pos: int)
    requires
        0 <= pos,
        forall|i: int| pos <= i < bytes.len() ==> #[trigger] bytes[i] == 255,
    ensures
        extension(bytes, pos) is None,
    decreases bytes.len() - pos,
{
    if pos < bytes.len() {
        assert(bytes[pos] == 255);
        lemma_extension_open(bytes, pos + 1);
    }
}

/// Where the literals of a sequence stand.
pub proof fn lemma_literals_at(block: Seq<u8>, pos: int, first: int, end: int)
    requires
        0 <= pos < block.len(),
        if block[pos] < 240 {
            first == pos + 1 && end == first + block[pos] / 16
        } else {
            &&& pos + 2 <= first <= block.len()
            &&& block[first - 1] < 255
            &&& forall|i: int| pos < i < first - 1 ==> #[trigger] block[i] == 255
            &&& end == first + 15 + 255 * (first - pos - 2) + block[first - 1]
        },
    ensures
        first <= end,
        literal_field(block, pos) == Some(((end - first) as nat, first)),
{
    if 240 <= block[pos] {
        lemma_extension_sum(block, pos + 1, first);
    }
}

/// How long the match of a sequence is.
pub proof fn lemma_match_at(block: Seq<u8>, pos: int, end: int, next: int, length: int)
    requires
        0 <= pos < end,
        end + 2 <= block.len(),
        if block[pos] % 16 < 15 {
            next == end + 2 && length == 4 + block[pos] % 16
        } else {
            &&& end + 3 <= next <= block.len()
            &&& block[next - 1] < 255
            &&& forall|i: int| end + 2 <= i < next - 1 ==> #[trigger] block[i] == 255
            &&& length == 19 + 255 * (next - end - 3) + block[next - 1]
        },
    ensures
        4 <= length,
        match_field(block, pos, end) == Some((length as nat, next)),
{
    if block[pos] % 16 == 15 {
        lemma_extension_sum(block, end + 2, next);
    }
}

/// A match is what is the same as `offset` places before.
pub proof fn lemma_repeats(more: Seq<u8>, written: int, offset: int)
    requires
        0 < offset <= written <= more.len(),
        forall|i: int| written <= i < more.len() ==> #[trigger] more[i] == more[i - offset],
    ensures
        copy_match(more.take(written), offset as nat, (more.len() - written) as nat) == more,
    decreases more.len() - written,
{
    if written < more.len() {
        let shorter = more.drop_last();
        assert(shorter.take(written) =~= more.take(written));
        assert forall|i: int| written <= i < shorter.len() implies #[trigger] shorter[i]
            == shorter[i - offset] by {
            assert(more[i] == more[i - offset]);
        }
        lemma_repeats(shorter, written, offset);
        assert(more[more.len() - 1] == more[more.len() - 1 - offset]);
        assert(shorter.push(shorter[shorter.len() - offset]) =~= more);
    } else {
        assert(more.take(written) =~= more);
    }
}

/// A block is read from its first byte on, with nothing written.
pub proof fn law_read_from_the_start(block: Seq<u8>)
    ensures
        payload(block) == payload_from(block, 0, Seq::empty()),
{
}

/// The last sequence of a block: the upper half of the token says how many literals
/// there are, or, where it is 15, how many more than 15 there are is the sum of the
/// bytes that follow, up to and with the first that is not 255. Where the block ends
/// on them, they are what the sequence adds.
pub proof fn law_last_sequence(block: Seq<u8>, pos: int, out: Seq<u8>, first: int, end: int)
    requires
        0 <= pos < block.len(),
        if block[pos] < 240 {
            first == pos + 1 && end == first + block[pos] / 16
        } else {
            &&& pos + 2 <= first <= block.len()
            &&& block[first - 1] < 255
            &&& forall|i: int| pos < i < first - 1 ==> #[trigger] block[i] == 255
            &&& end == first + 15 + 255 * (first - pos - 2) + block[first - 1]
        },
        end == block.len(),
    ensures
        payload_from(block, pos, out) == Some(out + block.skip(first)),
{
    lemma_literals_at(block, pos, first, end);
    assert(block.subrange(first, end) =~= block.skip(first));
}

/// A sequence with a match: after the literals come the two bytes of the offset, the
/// lower first. The match is 4 bytes long and as many more as the lower half of the
/// token says, or, where that is 15, by the sum of the bytes that follow as well. It
/// adds bytes each of which is the same as the one that stands the offset before it.
pub proof fn law_sequence_with_match(
    block: Seq<u8>,
    pos: int,
    out: Seq<u8>,
    first: int,
    end: int,
    next: int,
    length: int,
    more: Seq<u8>,
)
    requires
        0 <= pos < block.len(),
        if block[pos] < 240 {
            first == pos + 1 && end == first + block[pos] / 16
        } else {
            &&& pos + 2 <= first <= block.len()
            &&& block[first - 1] < 255
            &&& forall|i: int| pos < i < first - 1 ==> #[trigger] block[i] == 255
            &&& end == first + 15 + 255 * (first - pos - 2) + block[first - 1]
        },
        end + 2 <= block.len(),
        if block[pos] % 16 < 15 {
            next == end + 2 && length == 4 + block[pos] % 16
        } else {
            &&& end + 3 <= next <= block.len()
            &&& block[next - 1] < 255
            &&& forall|i: int| end + 2 <= i < next - 1 ==> #[trigger] block[i] == 255
            &&& length == 19 + 255 * (next - end - 3) + block[next - 1]
        },
        0 < block[end] + 256 * block[end + 1] <= out.len() + (end - first),
        more.len() == out.len() + (end - first) + length,
        more.take(out.len() + (end - first)) == out + block.subrange(first, end),
        forall|i: int|
            out.len() + (end - first) <= i < more.len() ==> #[trigger] more[i] == more[i - (
            block[end] + 256 * block[end + 1])],
    ensures
        payload_from(block, pos, out) == payload_from(block, next, more),
{
    lemma_literals_at(block, pos, first, end);
    lemma_match_at(block, pos, end, next, length);
    lemma_repeats(more, out.len() + (end - first), block[end] + 256 * block[end + 1]);
}

/// A block has a sequence left after every match.
pub proof fn law_no_sequence_left(block: Seq<u8>, pos: int, out: Seq<u8>)
    requires
        block.len() <= pos,
    ensures
        payload_from(block, pos, out) is None,
{
}

/// A block does not end within the number of literals.
pub proof fn law_literal_count_unfinished(block: Seq<u8>, pos: int, out: Seq<u8>)
    requires
        0 <= pos < block.len(),
        240 <= block[pos],
        forall|i: int| pos < i < block.len() ==> #[trigger] block[i] == 255,
    ensures
        payload_from(block, pos, out) is None,
{
    lemma_extension_open(block, pos + 1);
}

/// A block ends neither within the literals nor within the offset, and no match has
/// the offset zero or reaches back past the first byte.
pub proof fn law_literals_or_offset_wrong(
    block: Seq<u8>,
    pos: int,
    out: Seq<u8>,
    first: int,
    end: int,
)
    requires
        0 <= pos < block.len(),
        if block[pos] < 240 {
            first == pos + 1 && end == first + block[pos] / 16
        } else {
            &&& pos + 2 <= first <= block.len()
            &&& block[first - 1] < 255
            &&& forall|i: int| pos < i < first - 1 ==> #[trigger] block[i] == 255
            &&& end == first + 15 + 255 * (first - pos - 2) + block[first - 1]
        },
        ({
            ||| block.len() < end
            ||| block.len() == end + 1
            ||| end + 2 <= block.len() && block[end] == 0 && block[end + 1] == 0
            ||| end + 2 <= block.len() && out.len() + (end - first) < block[end] + 256 * block[end
                + 1]
        }),
    ensures
        payload_from(block, pos, out) is None,
{
    lemma_literals_at(block, pos, first, end);
}

/// A block does not end within the length of a match.
pub proof fn law_match_length_unfinished(
    block: Seq<u8>,
    pos: int,
    out: Seq<u8>,
    first: int,
    end: int,
)
    requires
        0 <= pos < block.len(),
        if block[pos] < 240 {
            first == pos + 1 && end == first + block[pos] / 16
        } else {
            &&& pos + 2 <= first <= block.len()
            &&& block[first - 1] < 255
            &&& forall|i: int| pos < i < first - 1 ==> #[trigger] block[i] == 255
            &&& end == first + 15 + 255 * (first - pos - 2) + block[first - 1]
        },
        end + 2 <= block.len(),
        block[pos] % 16 == 15,
        forall|i: int| end + 2 <= i < block.len() ==> #[trigger] block[i] == 255,
    ensures
        payload_from(block, pos, out) is None,
{
    lemma_literals_at(block, pos, first, end);
    lemma_extension_open(block, end + 2);
}

/// A token and literals are a block that stands for the literals, whatever the lower
/// half of the token is; the upper half is their number, or it is 15 and the bytes
/// after the token, 255 each but for the last, add up with 15 to their number.
/// Decompression gives them, however the block and the output are cut.
pub proof fn law_block_of_literals(
    token: u8,
    ext: Seq<u8>,
    literals: Seq<u8>,
    frags: Seq<Seq<u8>>,
    rooms: Seq<nat>,
)
    requires
        if token < 240 {
            ext.len() == 0 && literals.len() == token / 16
        } else {
            &&& ext.len() > 0
            &&& ext.last() < 255
            &&& forall|i: int| 0 <= i < ext.len() - 1 ==> #[trigger] ext[i] == 255
            &&& literals.len() == 15 + 255 * (ext.len() - 1) + ext.last()
        },
        flat(frags) == seq![token] + ext + literals,
    ensures
        payload(seq![token] + ext + literals) == Some(literals),
        rooms.len() > 0 && literals.len() <= total(rooms) ==> decompressed(frags, rooms) == (
        Outcome { written: literals, error: None }),
{
    let block = seq![token] + ext + literals;
    let first = 1 + ext.len() as int;
    assert(forall|i: int| 0 <= i < ext.len() ==> block[i + 1] == ext[i]);
    assert forall|i: int| 0 < i < first - 1 implies #[trigger] block[i] == 255 by {
        assert(block[i] == ext[i - 1]);
    }
    if 240 <= token {
        assert(block[first - 1] == ext[ext.len() - 1]);
    }
    law_last_sequence(block, 0, Seq::empty(), first, block.len() as int);
    assert(Seq::<u8>::empty() + block.skip(first) =~= literals);
    law_success(frags, rooms);
}

/// Where the pieces of a block with one match stand.
proof fn lemma_layout(
    token: u8,
    ext: Seq<u8>,
    literals: Seq<u8>,
    low: u8,
    high: u8,
    match_ext: Seq<u8>,
    last: u8,
    tail: Seq<u8>,
)
    ensures
        ({
            let block = seq![token] + ext + literals + seq![low, high] + match_ext + seq![last]
                + tail;
            let first = 1 + ext.len() as int;
            let end = first + literals.len();
            let next = end + 2 + match_ext.len();
            &&& block.len() == next + 1 + tail.len()
            &&& block[0] == token
            &&& block.subrange(1, first) == ext
            &&& block.subrange(first, end) == literals
            &&& block[end] == low
            &&& block[end + 1] == high
            &&& block.subrange(end + 2, next) == match_ext
            &&& block[next] == last
            &&& block.skip(next + 1) == tail
        }),
{
    let block = seq![token] + ext + literals + seq![low, high] + match_ext + seq![last] + tail;
    let first = 1 + ext.len() as int;
    let end = first + literals.len();
    let next = end + 2 + match_ext.len();
    assert(block.subrange(1, first) =~= ext);
    assert(block.subrange(first, end) =~= literals);
    assert(block.subrange(end + 2, next) =~= match_ext);
    assert(block.skip(next + 1) =~= tail);
}

/// Reading a block with one match.
proof fn lemma_read_with_match(
    block: Seq<u8>,
    ext: Seq<u8>,
    literals: Seq<u8>,
    match_ext: Seq<u8>,
    tail: Seq<u8>,
    result: Seq<u8>,
)
    requires
        ({
            let first = 1 + ext.len() as int;
            let end = first + literals.len();
            let next = end + 2 + match_ext.len();
            let offset = block[end] + 256 * block[end + 1];
            &&& block.len() == next + 1 + tail.len()
            &&& block.subrange(1, first) == ext
            &&& block.subrange(first, end) == literals
            &&& block.subrange(end + 2, next) == match_ext
            &&& block[next] == 16 * tail.len()
            &&& block.skip(next + 1) == tail
            &&& 0 < offset <= literals.len()
            &&& forall|i: int|
                literals.len() <= i < result.len() - tail.len() ==> #[trigger] result[i]
                    == result[i - offset]
        }),
        if block[0] < 240 {
            ext.len() == 0 && literals.len() == block[0] / 16
        } else {
            &&& ext.len() > 0
            &&& ext.last() < 255
            &&& forall|i: int| 0 <= i < ext.len() - 1 ==> #[trigger] ext[i] == 255
            &&& literals.len() == 15 + 255 * (ext.len() - 1) + ext.last()
        },
        if block[0] % 16 < 15 {
            match_ext.len() == 0 && result.len() == literals.len() + 4 + block[0] % 16 + tail.len()
        } else {
            &&& match_ext.len() > 0
            &&& match_ext.last() < 255
            &&& forall|i: int| 0 <= i < match_ext.len() - 1 ==> #[trigger] match_ext[i] == 255
            &&& result.len() == literals.len() + 19 + 255 * (match_ext.len() - 1)
                + match_ext.last() + tail.len()
        },
        tail.len() < 15,
        result.take(literals.len() as int) == literals,
        result.skip(result.len() - tail.len()) == tail,
    ensures
        payload(block) == Some(result),
{
    let first = 1 + ext.len() as int;
    let end = first + literals.len();
    let next = end + 2 + match_ext.len();
    let offset = block[end] + 256 * block[end + 1];
    let with_match = result.len() - tail.len();
    let more = result.take(with_match);
    assert forall|i: int| 0 < i < first implies #[trigger] block[i] == ext[i - 1] by {
        assert(block.subrange(1, first)[i - 1] == block[i]);
    }
    assert forall|i: int| end + 2 <= i < next implies #[trigger] block[i] == match_ext[i - end - 2]
        by {
        assert(block.subrange(end + 2, next)[i - end - 2] == block[i]);
    }
    assert(more.take(literals.len() as int) =~= Seq::<u8>::empty() + literals) by {
        assert(more.take(literals.len() as int) =~= result.take(literals.len() as int));
    }
    assert forall|i: int| literals.len() <= i < more.len() implies #[trigger] more[i] == more[i
        - offset] by {
        assert(result[i] == result[i - offset]);
    }
    law_sequence_with_match(
        block,
        0,
        Seq::empty(),
        first,
        end,
        next,
        with_match - literals.len(),
        more,
    );
    law_last_sequence(block, next, more, next + 1, block.len() as int);
    assert(result =~= more + result.skip(with_match));
}

/// A block with one match and up to 14 literals after it stands for the literals
/// before the match, the match and the literals after it. The match begins with the
/// byte `low + 256 * high` places back, and each of its bytes is the same as the one
/// that many places before. It is 4 bytes longer than the lower half of the token
/// says, or, where that is 15, than that and the bytes after the offset add up to.
/// Decompression gives all this, however the block and the output are cut: the bytes
/// that are repeated may stand in any earlier buffer.
pub proof fn law_block_with_match(
    token: u8,
    ext: Seq<u8>,
    literals: Seq<u8>,
    low: u8,
    high: u8,
    match_ext: Seq<u8>,
    tail: Seq<u8>,
    result: Seq<u8>,
    frags: Seq<Seq<u8>>,
    rooms: Seq<nat>,
)
    requires
        if token < 240 {
            ext.len() == 0 && literals.len() == token / 16
        } else {
            &&& ext.len() > 0
            &&& ext.last() < 255
            &&& forall|i: int| 0 <= i < ext.len() - 1 ==> #[trigger] ext[i] == 255
            &&& literals.len() == 15 + 255 * (ext.len() - 1) + ext.last()
        },
        0 < low + 256 * high <= literals.len(),
        if token % 16 < 15 {
            match_ext.len() == 0 && result.len() == literals.len() + 4 + token % 16 + tail.len()
        } else {
            &&& match_ext.len() > 0
            &&& match_ext.last() < 255
            &&& forall|i: int| 0 <= i < match_ext.len() - 1 ==> #[trigger] match_ext[i] == 255
            &&& result.len() == literals.len() + 19 + 255 * (match_ext.len() - 1)
                + match_ext.last() + tail.len()
        },
        tail.len() < 15,
        result.take(literals.len() as int) == literals,
        forall|i: int|
            literals.len() <= i < result.len() - tail.len() ==> #[trigger] result[i] == result[i - (
            low + 256 * high)],
        result.skip(result.len() - tail.len()) == tail,
        flat(frags) == seq![token] + ext + literals + seq![low, high] + match_ext + seq![
            (16 * tail.len()) as u8,
        ] + tail,
    ensures
        payload(
            seq![token] + ext + literals + seq![low, high] + match_ext + seq![
                (16 * tail.len()) as u8,
            ] + tail,
        ) == Some(result),
        rooms.len() > 0 && result.len() <= total(rooms) ==> decompressed(frags, rooms) == (
        Outcome { written: result, error: None }),
        rooms.len() > 0 && total(rooms) < result.len() ==> decompressed(frags, rooms).error is Some,
{
    let block = seq![token] + ext + literals + seq![low, high] + match_ext + seq![
        (16 * tail.len()) as u8,
    ] + tail;
    lemma_layout(token, ext, literals, low, high, match_ext, (16 * tail.len()) as u8, tail);
    lemma_read_with_match(block, ext, literals, match_ext, tail, result);
    law_success(frags, rooms);
}

/// The bytes of an extension: 255 each but for the last, and `n` in all.
pub proof fn lemma_extension_written(n: nat)
    ensures
        extension_bytes(n).len() == n / 255 + 1,
        extension_bytes(n).last() == n % 255,
        forall|i: int| 0 <= i < n / 255 ==> #[trigger] extension_bytes(n)[i] == 255,
    decreases n,
{
    if n >= 255 {
        let rest = (n - 255) as nat;
        let bytes = extension_bytes(n);
        lemma_extension_written(rest);
        assert(bytes == seq![255u8] + extension_bytes(rest));
        assert(bytes.last() == extension_bytes(rest).last());
        assert forall|i: int| 0 <= i < n / 255 implies #[trigger] bytes[i] == 255 by {
            if i > 0 {
                assert(bytes[i] == extension_bytes(rest)[i - 1]);
            }
        }
    }
}

/// The last sequence of a block is written down as a token whose lower half is zero,
/// the rest of the number of literals if that is 15 or more, and the literals.
pub proof fn law_last_sequence_written(literals: Seq<u8>)
    ensures
        ({
            let bytes = encode_last(literals);
            let count = literals.len();
            let first = if count < 15 { 1 } else { 2 + (count - 15) / 255 };
            &&& bytes.len() == first + count
            &&& bytes[0] == if count < 15 { 16 * count } else { 240 }
            &&& forall|i: int| 0 < i < first - 1 ==> #[trigger] bytes[i] == 255
            &&& 15 <= count ==> bytes[first - 1] == (count - 15) % 255
            &&& bytes.skip(first) == literals
        }),
{
    let bytes = encode_last(literals);
    let count = literals.len();
    let ext = length_bytes(count);
    if 15 <= count {
        lemma_extension_written((count - 15) as nat);
    }
    assert forall|i: int| 0 < i <= ext.len() implies #[trigger] bytes[i] == ext[i - 1] by {}
    assert(bytes.skip(1 + ext.len() as int) =~= literals);
}

/// A sequence with a match is written down as a token, the rest of the number of
/// literals if that is 15 or more, the literals, the offset with its lower byte first,
/// and the rest of the length of the match if that is 19 or more.
pub proof fn law_sequence_written(sequence: Sequence)
    requires
        4 <= sequence.length,
        0 < sequence.offset < 65536,
    ensures
        ({
            let bytes = encode_sequence(sequence);
            let count = sequence.literals.len();
            let length = sequence.length;
            let first = if count < 15 { 1 } else { 2 + (count - 15) / 255 };
            let end = first + count;
            let next = if length < 19 { end + 2 } else { end + 3 + (length - 19) / 255 };
            &&& bytes.len() == next
            &&& bytes[0] == (if count < 15 { 16 * count } else { 240 }) + if length < 19 {
                length - 4
            } else {
                15
            }
            &&& forall|i: int| 0 < i < first - 1 ==> #[trigger] bytes[i] == 255
            &&& 15 <= count ==> bytes[first - 1] == (count - 15) % 255
            &&& bytes.subrange(first, end) == sequence.literals
            &&& bytes[end] + 256 * bytes[end + 1] == sequence.offset
            &&& forall|i: int| end + 2 <= i < next - 1 ==> #[trigger] bytes[i] == 255
            &&& 19 <= length ==> bytes[next - 1] == (length - 19) % 255
        }),
{
    let bytes = encode_sequence(sequence);
    let count = sequence.literals.len();
    let ext = length_bytes(count);
    let match_ext = length_bytes((sequence.length - 4) as nat);
    let first = 1 + ext.len() as int;
    let end = first + count;
    if 15 <= count {
        lemma_extension_written((count - 15) as nat);
    }
    if 19 <= sequence.length {
        lemma_extension_written((sequence.length - 19) as nat);
    }
    assert forall|i: int| 0 < i < first implies #[trigger] bytes[i] == ext[i - 1] by {}
    assert forall|i: int| end + 2 <= i < bytes.len() implies #[trigger] bytes[i] == match_ext[i
        - end - 2] by {}
    assert(bytes.subrange(first, end) =~= sequence.literals);
}

/// Sequences are written down one after the other.
pub proof fn law_sequences_written(sequence: Sequence, rest: Seq<Sequence>)
    ensures
        encode_sequences(Seq::empty()) == Seq::<u8>::empty(),
        encode_sequences(seq![sequence] + rest) == encode_sequence(sequence) + encode_sequences(
            rest,
        ),
{
    assert((seq![sequence] + rest).drop_first() =~= rest);
}

/// The concatenation of no parts is empty, and that of one part more has that part at
/// its end.
pub proof fn law_parts_follow_each_other(parts: Seq<Seq<u8>>, part: Seq<u8>)
    ensures
        flat(Seq::empty()) == Seq::<u8>::empty(),
        flat(parts.push(part)) == flat(parts) + part,
{
    assert(parts.push(part).drop_last() =~= parts);
}

/// The room in no buffers is zero, and one buffer more adds its own.
pub proof fn law_rooms_add_up(sizes: Seq<nat>, size: nat)
    ensures
        total(Seq::empty()) == 0,
        total(sizes.push(size)) == total(sizes) + size,
{
    assert(sizes.push(size).drop_last() =~= sizes);
}

/// The fragments are those that are handed in, in their order.
pub proof fn law_fragments(input: Seq<&[u8]>)
    ensures
        fragments(input).len() == input.len(),
        forall|k: int| 0 <= k < input.len() ==> #[trigger] fragments(input)[k] == input[k]@,
{
}

/// The buffers are those that are handed in, in their order and with their sizes.
pub proof fn law_buffers(output: Seq<&mut [u8]>)
    ensures
        contents(output).len() == output.len(),
        rooms(output).len() == output.len(),
        forall|k: int| 0 <= k < output.len() ==> #[trigger] contents(output)[k] == output[k]@,
        forall|k: int| 0 <= k < output.len() ==> #[trigger] rooms(output)[k] == output[k]@.len(),
{
}

/// What is written stands at the beginning of the output, and the rest is as it was.
pub proof fn law_written_at_the_beginning(old_bytes: Seq<u8>, out: Seq<u8>)
    requires
        out.len() <= old_bytes.len(),
    ensures
        overwritten(old_bytes, out).len() == old_bytes.len(),
        forall|i: int|
            0 <= i < old_bytes.len() ==> #[trigger] overwritten(old_bytes, out)[i] == if i
                < out.len() {
                out[i]
            } else {
                old_bytes[i]
            },
{
}

/// A decoder returns the number of bytes it has written, or its error.
pub proof fn law_result(written: Seq<u8>, error: DecompressError)
    requires
        written.len() <= usize::MAX,
    ensures
        (Outcome { written, error: None }).result() matches Ok(n) && n == written.len(),
        (Outcome { written, error: Some(error) }).result() == Err::<usize, DecompressError>(error),
{
}

} // verus!
