//! How well the compressor compresses.

use vstd::prelude::*;

use crate::block::encoding::{encodable, encode_last, encode_sequences, length_bytes, Sequence};
use crate::block::meaning::{law_sequences_written, lemma_extension_written};
use crate::block::search::{
    common_run, compressed, last_visited, law_compressed, lemma_last_visited, lemma_match_end,
    match_at, parse, parse_from, table_entry, word_at, Parse, END_OFFSET,
};

verus! {

/// Whether position `p` of the bytes that a series of sequences stands for, which
/// begin at `base`, is a literal or the first byte of a match.
pub open spec fn looked_at(sequences: Seq<Sequence>, base: int, p: int) -> bool
    decreases sequences.len(),
{
    if sequences.len() == 0 {
        base <= p
    } else {
        let start = base + sequences[0].literals.len();
        let next = start + sequences[0].length;
        base <= p <= start || next <= p && looked_at(sequences.drop_first(), next, p)
    }
}

/// Whether a match with this offset and length begins at position `p` of the bytes
/// that a series of sequences stands for, which begin at `base`.
pub open spec fn has_match(
    sequences: Seq<Sequence>,
    base: int,
    p: int,
    offset: int,
    length: int,
) -> bool
    decreases sequences.len(),
{
    sequences.len() > 0 && {
        let start = base + sequences[0].literals.len();
        let next = start + sequences[0].length;
        ||| p == start && sequences[0].offset == offset && sequences[0].length == length
        ||| has_match(sequences.drop_first(), next, p, offset, length)
    }
}

/// Whether the four bytes at `p` fall into the same one of 4096 classes as those at
/// `q`: that of a word is the upper 12 bits of the lower 32 of its product with
/// 2654435761.
pub open spec fn same_class(input: Seq<u8>, p: int, q: int) -> bool {
    (input[p] + 256 * input[p + 1] + 65536 * input[p + 2] + 16777216 * input[p + 3]) * 2654435761
        % 4294967296 / 1048576 == (input[q] + 256 * input[q + 1] + 65536 * input[q + 2] + 16777216
        * input[q + 3]) * 2654435761 % 4294967296 / 1048576
}

/// Whether every repetition is used that can be: where the four bytes at a position
/// that is looked at, at least 12 bytes from the end, also stand at an earlier one, no
/// more than 65535 bytes before and with none of the same class between them, a match
/// begins that repeats the bytes from there on, as far as they are the same or up to 6
/// bytes from the end.
pub open spec fn repetitions_used(input: Seq<u8>, sequences: Seq<Sequence>) -> bool {
    forall|p: int, q: int|
        #![trigger looked_at(sequences, 0, p), looked_at(sequences, 0, q)]
        0 <= q < p && p - q <= 65535 && p + 12 <= input.len() && looked_at(sequences, 0, p)
            && looked_at(sequences, 0, q) && (forall|i: int|
            0 <= i < 4 ==> input[q + i] == #[trigger] input[p + i]) && (forall|r: int|
            q < r < p && #[trigger] looked_at(sequences, 0, r) ==> !same_class(input, r, p))
            ==> exists|length: int|
            {
                &&& 4 <= length <= input.len() - 6 - p
                &&& #[trigger] has_match(sequences, 0, p, p - q, length)
                &&& forall|i: int| 0 <= i < length ==> input[q + i] == #[trigger] input[p + i]
                &&& p + length < input.len() - 6 ==> input[q + length] != input[p + length]
            }
}

/// Whether every match begins at least 12 bytes from the end, ends at least 6 bytes
/// from it, and repeats at least 4 bytes that stand no more than 65535 bytes before.
pub open spec fn matches_hold(input: Seq<u8>, sequences: Seq<Sequence>) -> bool {
    forall|p: int, offset: int, length: int| #[trigger]
        has_match(sequences, 0, p, offset, length) ==> {
            &&& p + 12 <= input.len()
            &&& 4 <= length <= input.len() - 6 - p
            &&& 0 < offset <= 65535
            &&& offset <= p
            &&& forall|i: int|
                p <= i < p + length ==> #[trigger] input[i] == input[i - offset]
        }
}

/// How long a length is.
pub proof fn lemma_length_len(n: nat)
    ensures
        length_bytes(n).len() == if n < 15 { 0 } else { (n - 15) / 255 + 1 },
{
    if n >= 15 {
        lemma_extension_written((n - 15) as nat);
    }
}

/// What an input from `first` on is compressed into is hardly longer.
proof fn lemma_size(input: Seq<u8>, visited: Seq<int>, first: int, pos: int)
    requires
        0 <= first <= pos <= input.len(),
    ensures
        ({
            let parse = parse_from(input, visited, first, pos);
            let size = input.len() - first;
            encode_sequences(parse.sequences).len() + encode_last(parse.last).len() <= size + size
                / 255 + 2
        }),
    decreases input.len() - pos,
{
    if input.len() < pos + 12 {
        lemma_length_len((input.len() - first) as nat);
    } else {
        match match_at(input, visited, pos) {
            None => {
                lemma_size(input, visited.push(pos), first, pos + 1);
            },
            Some((offset, length)) => {
                let sequence = Sequence { literals: input.subrange(first, pos), offset, length };
                let next = pos + length;
                lemma_match_end(input, visited, pos);
                lemma_size(input, visited.push(pos), next, next);
                law_sequences_written(
                    sequence,
                    parse_from(input, visited.push(pos), next, next).sequences,
                );
                lemma_length_len((pos - first) as nat);
                lemma_length_len((length - 4) as nat);
            },
        }
    }
}

/// Compressing never makes an input longer by more than one byte in 255 and two.
pub proof fn law_hardly_longer(input: Seq<u8>, block: Seq<u8>)
    requires
        block == compressed(input),
    ensures
        block.len() <= input.len() + input.len() / 255 + 2,
{
    lemma_size(input, Seq::empty(), 0, 0);
}

/// Equal bytes are a run.
proof fn lemma_equal_run(input: Seq<u8>, candidate: int, pos: int, end: int)
    requires
        0 <= candidate <= pos <= end <= input.len(),
        forall|i: int| 0 <= i < input.len() ==> #[trigger] input[i] == input[0],
    ensures
        common_run(input, candidate, pos, end) == end - pos,
    decreases end - pos,
{
    if pos < end {
        assert(input[candidate] == input[0]);
        assert(input[pos] == input[0]);
        lemma_equal_run(input, candidate + 1, pos + 1, end);
    }
}

/// Equal bytes are compressed to a 255th of them and twelve bytes at most.
pub proof fn law_equal_bytes(input: Seq<u8>, block: Seq<u8>)
    requires
        block == compressed(input),
        13 <= input.len(),
        forall|i: int| 0 <= i < input.len() ==> #[trigger] input[i] == input[0],
    ensures
        block.len() <= input.len() / 255 + 12,
{
    let none: Seq<int> = Seq::empty();
    let length = (input.len() - 7) as nat;
    let next = input.len() - 6;
    let sequence = Sequence { literals: input.subrange(0, 1), offset: 1, length };
    let one = none.push(0);
    let two = one.push(1);
    reveal_with_fuel(last_visited, 2);
    assert(match_at(input, none, 0) is None);
    assert(word_at(input, 0) == word_at(input, 1)) by {
        assert(input[1] == input[0] && input[2] == input[0] && input[3] == input[0] && input[4]
            == input[0]);
    }
    assert(last_visited(input, one, table_entry(word_at(input, 1))) == Some(0int));
    lemma_equal_run(input, 0, 1, next);
    assert(match_at(input, one, 1) == Some((1nat, length)));
    let rest = parse_from(input, two, next, next);
    assert(rest == Parse { sequences: Seq::empty(), last: input.skip(next) });
    assert(parse_from(input, one, 0, 1).sequences == seq![sequence] + rest.sequences);
    assert(parse_from(input, one, 0, 1).last == rest.last);
    assert(parse(input) == parse_from(input, one, 0, 1));
    law_sequences_written(sequence, rest.sequences);
    lemma_length_len(1);
    lemma_length_len((length - 4) as nat);
    lemma_length_len(6);
}

/// A class is a table entry.
proof fn lemma_class(input: Seq<u8>, p: int, q: int)
    ensures
        same_class(input, p, q) == (table_entry(word_at(input, p)) == table_entry(
            word_at(input, q),
        )),
{
}

/// The last of the visited positions with an entry is found.
proof fn lemma_last_is(input: Seq<u8>, visited: Seq<int>, q: int, entry: nat)
    requires
        visited.contains(q),
        table_entry(word_at(input, q)) == entry,
        forall|a: int, b: int|
            0 <= a < b < visited.len() ==> #[trigger] visited[a] < #[trigger] visited[b],
        forall|k: int|
            0 <= k < visited.len() && q < #[trigger] visited[k] ==> table_entry(
                word_at(input, visited[k]),
            ) != entry,
    ensures
        last_visited(input, visited, entry) == Some(q),
    decreases visited.len(),
{
    let k = choose|k: int| 0 <= k < visited.len() && visited[k] == q;
    let last = visited.len() - 1;
    assert(visited[last] == visited.last());
    if k < last {
        assert(visited[k] < visited[last]);
        let shorter = visited.drop_last();
        assert(shorter[k] == q);
        assert forall|a: int, b: int| 0 <= a < b < shorter.len() implies #[trigger] shorter[a]
            < #[trigger] shorter[b] by {
            assert(visited[a] < visited[b]);
        }
        assert forall|j: int| 0 <= j < shorter.len() && q < #[trigger] shorter[j] implies
            table_entry(word_at(input, shorter[j])) != entry by {
            assert(visited[j] == shorter[j]);
        }
        lemma_last_is(input, shorter, q, entry);
    }
}

/// A common run is as long as it can be.
proof fn lemma_run_is_longest(input: Seq<u8>, candidate: int, pos: int, end: int)
    requires
        pos <= end,
    ensures
        ({
            let n = common_run(input, candidate, pos, end);
            &&& pos + n <= end
            &&& forall|i: int| 0 <= i < n ==> input[candidate + i] == #[trigger] input[pos + i]
            &&& pos + n < end ==> input[candidate + n] != input[pos + n]
        }),
    decreases end - pos,
{
    if pos < end && input[candidate] == input[pos] {
        lemma_run_is_longest(input, candidate + 1, pos + 1, end);
        let n = common_run(input, candidate, pos, end);
        assert forall|i: int| 0 <= i < n implies input[candidate + i] == #[trigger] input[pos
            + i] by {
            if i > 0 {
                assert(input[candidate + 1 + (i - 1)] == input[pos + 1 + (i - 1)]);
            }
        }
    }
}

/// Whether `p` has been visited, or will be.
spec fn seen(visited: Seq<int>, sequences: Seq<Sequence>, first: int, pos: int, p: int) -> bool {
    visited.contains(p) || pos <= p && looked_at(sequences, first, p)
}

/// A repetition is found.
proof fn lemma_found(
    input: Seq<u8>,
    visited: Seq<int>,
    first: int,
    pos: int,
    p: int,
    q: int,
)
    requires
        0 <= first <= pos <= p,
        p + 12 <= input.len(),
        q < p,
        p - q <= 65535,
        forall|k: int| 0 <= k < visited.len() ==> 0 <= #[trigger] visited[k] < pos,
        forall|a: int, b: int|
            0 <= a < b < visited.len() ==> #[trigger] visited[a] < #[trigger] visited[b],
        forall|i: int| 0 <= i < 4 ==> input[q + i] == #[trigger] input[p + i],
        ({
            let sequences = parse_from(input, visited, first, pos).sequences;
            &&& looked_at(sequences, first, p)
            &&& seen(visited, sequences, first, pos, q)
            &&& forall|r: int|
                q < r < p && #[trigger] seen(visited, sequences, first, pos, r) ==> table_entry(
                    word_at(input, r),
                ) != table_entry(word_at(input, p))
        }),
    ensures
        4 <= common_run(input, q, p, input.len() - 6),
        has_match(
            parse_from(input, visited, first, pos).sequences,
            first,
            p,
            p - q,
            common_run(input, q, p, input.len() - 6) as int,
        ),
    decreases input.len() - pos,
{
    let sequences = parse_from(input, visited, first, pos).sequences;
    let more = visited.push(pos);
    let entry = table_entry(word_at(input, p));
    assert(input[q + 0] == input[p + 0] && input[q + 1] == input[p + 1] && input[q + 2] == input[p
        + 2] && input[q + 3] == input[p + 3]);
    assert(word_at(input, q) == word_at(input, p));
    reveal_with_fuel(common_run, 5);
    assert(4 <= common_run(input, q, p, input.len() - 6));
    assert(more.last() == pos);
    assert forall|k: int| 0 <= k < more.len() implies 0 <= #[trigger] more[k] < pos + 1 by {
        if k < visited.len() {
            assert(more[k] == visited[k]);
        }
    }
    assert forall|a: int, b: int| 0 <= a < b < more.len() implies #[trigger] more[a]
        < #[trigger] more[b] by {
        assert(more[a] == visited[a]);
        if b < visited.len() {
            assert(more[b] == visited[b]);
        }
    }
    assert forall|r: int| more.contains(r) == (visited.contains(r) || r == pos) by {
        if visited.contains(r) {
            let k = choose|k: int| 0 <= k < visited.len() && visited[k] == r;
            assert(more[k] == r);
        }
        assert(more[visited.len() as int] == pos);
        if more.contains(r) && r != pos {
            let k = choose|k: int| 0 <= k < more.len() && more[k] == r;
            assert(visited[k] == r);
        }
    }
    if p == pos {
        assert(visited.contains(q));
        assert forall|k: int| 0 <= k < visited.len() && q < #[trigger] visited[k] implies
            table_entry(word_at(input, visited[k])) != entry by {
            assert(visited.contains(visited[k]));
            assert(seen(visited, sequences, first, pos, visited[k]));
        }
        lemma_last_is(input, visited, q, entry);
        let length = common_run(input, q, pos, input.len() - END_OFFSET);
        assert(match_at(input, visited, pos) == Some(((pos - q) as nat, length)));
    } else {
        match match_at(input, visited, pos) {
            None => {
                assert(sequences == parse_from(input, more, first, pos + 1).sequences);
                lemma_pos_looked_at(input, more, first, pos + 1);
                assert(looked_at(sequences, first, pos));
                assert forall|r: int| q <= r < p && #[trigger] seen(
                    more,
                    sequences,
                    first,
                    pos + 1,
                    r,
                ) implies seen(visited, sequences, first, pos, r) by {}
                assert(seen(more, sequences, first, pos + 1, q));
                lemma_found(input, more, first, pos + 1, p, q);
            },
            Some((offset, length)) => {
                let next = pos + length;
                let rest = parse_from(input, more, next, next).sequences;
                let sequence = Sequence { literals: input.subrange(first, pos), offset, length };
                lemma_match_end(input, visited, pos);
                assert(sequences == seq![sequence] + rest);
                assert(sequences.drop_first() =~= rest);
                assert(sequences[0] == sequence);
                assert forall|k: int| 0 <= k < more.len() implies 0 <= #[trigger] more[k]
                    < next by {
                    assert(more[k] < pos + 1);
                }
                assert forall|r: int| q <= r < p && #[trigger] seen(
                    more,
                    rest,
                    next,
                    next,
                    r,
                ) implies seen(visited, sequences, first, pos, r) by {}
                assert(seen(more, rest, next, next, q));
                lemma_found(input, more, next, next, p, q);
            },
        }
    }
}

/// Positions up to the first that has not been looked at lie outside of matches.
proof fn lemma_pos_looked_at(input: Seq<u8>, visited: Seq<int>, first: int, pos: int)
    requires
        0 <= first <= pos <= input.len(),
    ensures
        forall|p: int|
            first <= p <= pos ==> #[trigger] looked_at(
                parse_from(input, visited, first, pos).sequences,
                first,
                p,
            ),
    decreases input.len() - pos,
{
    let sequences = parse_from(input, visited, first, pos).sequences;
    if pos + 12 <= input.len() {
        match match_at(input, visited, pos) {
            None => {
                lemma_pos_looked_at(input, visited.push(pos), first, pos + 1);
                assert(sequences == parse_from(
                    input,
                    visited.push(pos),
                    first,
                    pos + 1,
                ).sequences);
            },
            Some((offset, length)) => {
                assert(sequences[0].literals.len() == pos - first);
                assert forall|p: int| first <= p <= pos implies #[trigger] looked_at(
                    sequences,
                    first,
                    p,
                ) by {}
            },
        }
    } else {
        assert(sequences.len() == 0);
        assert forall|p: int| first <= p <= pos implies #[trigger] looked_at(
            sequences,
            first,
            p,
        ) by {}
    }
}

/// A match that has been picked holds.
proof fn lemma_match_holds(
    input: Seq<u8>,
    visited: Seq<int>,
    first: int,
    pos: int,
    p: int,
    offset: int,
    length: int,
)
    requires
        0 <= first <= pos <= input.len(),
        forall|k: int| 0 <= k < visited.len() ==> 0 <= #[trigger] visited[k] < pos,
        has_match(parse_from(input, visited, first, pos).sequences, first, p, offset, length),
    ensures
        p + 12 <= input.len(),
        4 <= length <= input.len() - 6 - p,
        0 < offset <= 65535,
        offset <= p,
        forall|i: int| p <= i < p + length ==> #[trigger] input[i] == input[i - offset],
    decreases input.len() - pos,
{
    let sequences = parse_from(input, visited, first, pos).sequences;
    let more = visited.push(pos);
    if pos + 12 <= input.len() {
        match match_at(input, visited, pos) {
            None => {
                lemma_match_holds(input, more, first, pos + 1, p, offset, length);
            },
            Some((picked_offset, picked_length)) => {
                let next = pos + picked_length;
                let rest = parse_from(input, more, next, next).sequences;
                let sequence = Sequence {
                    literals: input.subrange(first, pos),
                    offset: picked_offset,
                    length: picked_length,
                };
                lemma_match_end(input, visited, pos);
                assert(sequences == seq![sequence] + rest);
                assert(sequences.drop_first() =~= rest);
                assert(sequences[0] == sequence);
                if has_match(rest, next, p, offset, length) {
                    assert forall|k: int| 0 <= k < more.len() implies 0 <= #[trigger] more[k]
                        < next by {
                        if k < visited.len() {
                            assert(more[k] == visited[k]);
                        }
                    }
                    lemma_match_holds(input, more, next, next, p, offset, length);
                } else {
                    let candidate = last_visited(
                        input,
                        visited,
                        table_entry(word_at(input, pos)),
                    ).unwrap();
                    lemma_last_visited(input, visited, table_entry(word_at(input, pos)));
                    let k = choose|k: int| 0 <= k < visited.len() && visited[k] == candidate;
                    assert(0 <= visited[k] < pos);
                    lemma_run_is_longest(input, candidate, pos, input.len() - 6);
                    assert forall|i: int| p <= i < p + length implies #[trigger] input[i]
                        == input[i - offset] by {
                        assert(input[candidate + (i - pos)] == input[pos + (i - pos)]);
                    }
                }
            },
        }
    }
}

/// Every match repeats what it says, and every repetition that can be used is: the
/// block that an input is compressed into is one of sequences of which this holds.
pub proof fn law_repetitions_used(input: Seq<u8>, block: Seq<u8>)
    requires
        block == compressed(input),
    ensures
        exists|sequences: Seq<Sequence>, last: Seq<u8>|
            block == #[trigger] encode_sequences(sequences) + #[trigger] encode_last(last)
                && encodable(Seq::empty(), sequences) && matches_hold(input, sequences)
                && repetitions_used(input, sequences),
{
    let sequences = parse(input).sequences;
    let none: Seq<int> = Seq::empty();
    law_compressed(input);
    assert forall|p: int, q: int|
        #![trigger looked_at(sequences, 0, p), looked_at(sequences, 0, q)]
        0 <= q < p && p - q <= 65535 && p + 12 <= input.len() && looked_at(sequences, 0, p)
            && looked_at(sequences, 0, q) && (forall|i: int|
            0 <= i < 4 ==> input[q + i] == #[trigger] input[p + i]) && (forall|r: int|
            q < r < p && #[trigger] looked_at(sequences, 0, r) ==> !same_class(input, r, p))
        implies exists|length: int|
        {
            &&& 4 <= length <= input.len() - 6 - p
            &&& #[trigger] has_match(sequences, 0, p, p - q, length)
            &&& forall|i: int| 0 <= i < length ==> input[q + i] == #[trigger] input[p + i]
            &&& p + length < input.len() - 6 ==> input[q + length] != input[p + length]
        } by {
        let length = common_run(input, q, p, input.len() - 6) as int;
        assert forall|r: int| q < r < p && #[trigger] seen(none, sequences, 0, 0, r) implies
            table_entry(word_at(input, r)) != table_entry(word_at(input, p)) by {
            assert(looked_at(sequences, 0, r));
            lemma_class(input, r, p);
        }
        assert(seen(none, sequences, 0, 0, q));
        lemma_found(input, none, 0, 0, p, q);
        lemma_run_is_longest(input, q, p, input.len() - 6);
        assert(has_match(sequences, 0, p, p - q, length));
    }
    assert forall|p: int, offset: int, length: int| #[trigger]
        has_match(sequences, 0, p, offset, length) implies {
        &&& p + 12 <= input.len()
        &&& 4 <= length <= input.len() - 6 - p
        &&& 0 < offset <= 65535
        &&& offset <= p
        &&& forall|i: int| p <= i < p + length ==> #[trigger] input[i] == input[i - offset]
    } by {
        lemma_match_holds(input, none, 0, 0, p, offset, length);
    }
    assert(block == encode_sequences(sequences) + encode_last(parse(input).last));
}

} // verus!
