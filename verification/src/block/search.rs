//! How the compressor picks its matches.

use vstd::prelude::*;

use crate::block::encoding::{
    before_match, encodable, encode_last, encode_sequences, expand, law_encoded_block, Sequence,
};
use crate::block::format::{copy_match, payload};
use crate::block::MINMATCH;

verus! {

/// The last match of a block starts at least this far from the end of the input.
pub const MFLIMIT: usize = 12;

/// The last match of a block ends at least this far from the end of the input.
pub const END_OFFSET: usize = 6;

/// The largest offset a match can have.
pub const MAX_DISTANCE: usize = 65535;

/// The number of entries in the table of positions.
pub const TABLE_SIZE: usize = 4096;

/// What a word is multiplied by to spread its bits over the table.
pub const HASH_FACTOR: u32 = 2654435761;

/// The four bytes at `pos` as a little-endian word.
pub open spec fn word_at(input: Seq<u8>, pos: int) -> nat {
    (input[pos] + 256 * input[pos + 1] + 65536 * input[pos + 2] + 16777216 * input[pos + 3]) as nat
}

/// The table entry of a word: the upper 12 bits of the lower 32 of its product with
/// [`HASH_FACTOR`].
pub open spec fn table_entry(word: nat) -> nat {
    (word * HASH_FACTOR as nat) % 0x1_0000_0000 / 0x10_0000
}

/// The last of the positions `visited` whose four bytes have the table entry
/// `entry`.
pub open spec fn last_visited(input: Seq<u8>, visited: Seq<int>, entry: nat) -> Option<int>
    decreases visited.len(),
{
    if visited.len() == 0 {
        None
    } else if table_entry(word_at(input, visited.last())) == entry {
        Some(visited.last())
    } else {
        last_visited(input, visited.drop_last(), entry)
    }
}

/// How many bytes from `pos` on, up to `end`, are the same as those from
/// `candidate` on.
pub open spec fn common_run(input: Seq<u8>, candidate: int, pos: int, end: int) -> nat
    decreases end - pos,
{
    if pos < end && input[candidate] == input[pos] {
        1 + common_run(input, candidate + 1, pos + 1, end)
    } else {
        0
    }
}

/// The offset and the length of the match at `pos`, where the positions `visited`
/// have been looked at: it repeats the bytes at the last of them with the same
/// table entry, if that is near enough and they are enough.
pub open spec fn match_at(input: Seq<u8>, visited: Seq<int>, pos: int) -> Option<(nat, nat)> {
    match last_visited(input, visited, table_entry(word_at(input, pos))) {
        None => None,
        Some(candidate) => {
            let length = common_run(input, candidate, pos, input.len() - END_OFFSET);
            if pos - candidate <= MAX_DISTANCE && MINMATCH <= length {
                Some(((pos - candidate) as nat, length))
            } else {
                None
            }
        },
    }
}

/// What an input is cut into: sequences with matches, and the literals of the last
/// sequence.
pub struct Parse {
    pub sequences: Seq<Sequence>,
    pub last: Seq<u8>,
}

/// What the input from `first` on is cut into, where there is no match before `pos`
/// and the positions `visited` have been looked at. Matches are taken as they come,
/// and positions within a match are not looked at.
pub open spec fn parse_from(input: Seq<u8>, visited: Seq<int>, first: int, pos: int) -> Parse
    decreases input.len() - pos,
{
    if input.len() < pos + MFLIMIT {
        Parse { sequences: Seq::empty(), last: input.skip(first) }
    } else {
        match match_at(input, visited, pos) {
            None => parse_from(input, visited.push(pos), first, pos + 1),
            Some((offset, length)) => {
                let sequence = Sequence { literals: input.subrange(first, pos), offset, length };
                proof {
                    lemma_match_end(input, visited, pos);
                }
                let rest = parse_from(input, visited.push(pos), pos + length, pos + length);
                Parse { sequences: seq![sequence] + rest.sequences, last: rest.last }
            },
        }
    }
}

/// What `input` is cut into.
pub open spec fn parse(input: Seq<u8>) -> Parse {
    parse_from(input, Seq::empty(), 0, 0)
}

/// The block that `input` is compressed into.
pub open spec fn compressed(input: Seq<u8>) -> Seq<u8> {
    encode_sequences(parse(input).sequences) + encode_last(parse(input).last)
}

/// The last visited position with an entry has been visited.
pub proof fn lemma_last_visited(input: Seq<u8>, visited: Seq<int>, entry: nat)
    ensures
        last_visited(input, visited, entry) matches Some(candidate) ==> visited.contains(candidate),
    decreases visited.len(),
{
    if visited.len() > 0 {
        lemma_last_visited(input, visited.drop_last(), entry);
        assert(visited[visited.len() - 1] == visited.last());
        if let Some(candidate) = last_visited(input, visited.drop_last(), entry) {
            let k = choose|k: int|
                0 <= k < visited.len() - 1 && visited.drop_last()[k] == candidate;
            assert(visited.drop_last().contains(candidate) ==> visited[k] == candidate);
        }
    }
}

/// Visiting one more position.
pub proof fn lemma_visit(input: Seq<u8>, visited: Seq<int>, pos: int, entry: nat)
    ensures
        last_visited(input, visited.push(pos), entry) == if table_entry(word_at(input, pos))
            == entry {
            Some(pos)
        } else {
            last_visited(input, visited, entry)
        },
{
    assert(visited.push(pos).drop_last() =~= visited);
}

/// A match of bytes that are the same repeats them.
pub proof fn lemma_copy_run(input: Seq<u8>, candidate: int, pos: int, end: int, n: nat)
    requires
        0 <= candidate < pos <= end <= input.len(),
        n <= common_run(input, candidate, pos, end),
    ensures
        pos + n <= end,
        copy_match(input.take(pos), (pos - candidate) as nat, n) == input.take(pos + n),
    decreases n,
{
    lemma_run_bytes(input, candidate, pos, end, n);
    if n > 0 {
        let shorter = (n - 1) as nat;
        lemma_copy_run(input, candidate, pos, end, shorter);
        assert(input.take(pos + n) =~= input.take(pos + shorter).push(input[pos + shorter]));
    } else {
        assert(input.take(pos + n) =~= input.take(pos));
    }
}

/// The bytes of a common run.
pub proof fn lemma_run_bytes(input: Seq<u8>, candidate: int, pos: int, end: int, n: nat)
    requires
        pos <= end,
        n <= common_run(input, candidate, pos, end),
    ensures
        pos + n <= end,
        n > 0 ==> input[candidate + n - 1] == input[pos + n - 1],
    decreases n,
{
    if n > 0 {
        lemma_run_bytes(input, candidate + 1, pos + 1, end, (n - 1) as nat);
    }
}

/// A match ends before the last bytes of the input.
pub proof fn lemma_match_end(input: Seq<u8>, visited: Seq<int>, pos: int)
    requires
        pos + END_OFFSET <= input.len(),
    ensures
        match_at(input, visited, pos) matches Some((offset, length)) ==> MINMATCH <= length && pos
            + length + END_OFFSET <= input.len(),
{
    if let Some(candidate) = last_visited(input, visited, table_entry(word_at(input, pos))) {
        let end = input.len() - END_OFFSET;
        lemma_run_bytes(input, candidate, pos, end, common_run(input, candidate, pos, end));
    }
}

/// What an input is cut into gives it back, and can be written down as a block
/// whose last sequence has at least [`END_OFFSET`] literals if there is a match.
pub proof fn lemma_parse_from(input: Seq<u8>, visited: Seq<int>, first: int, pos: int)
    requires
        0 <= first <= pos <= input.len(),
        forall|k: int| 0 <= k < visited.len() ==> 0 <= #[trigger] visited[k] < pos,
    ensures
        ({
            let parse = parse_from(input, visited, first, pos);
            &&& encodable(input.take(first), parse.sequences)
            &&& expand(input.take(first), parse.sequences) + parse.last == input
            &&& parse.sequences.len() > 0 ==> END_OFFSET <= parse.last.len()
            &&& parse.sequences.len() == 0 ==> parse.last == input.skip(first)
        }),
    decreases input.len() - pos,
{
    if input.len() < pos + MFLIMIT {
        assert(input.take(first) + input.skip(first) =~= input);
    } else {
        match match_at(input, visited, pos) {
            None => {
                lemma_parse_from(input, visited.push(pos), first, pos + 1);
            },
            Some((offset, length)) => {
                let sequence = Sequence { literals: input.subrange(first, pos), offset, length };
                let next = pos + length;
                let rest = parse_from(input, visited.push(pos), next, next);
                let sequences = seq![sequence] + rest.sequences;
                lemma_last_visited(input, visited, table_entry(word_at(input, pos)));
                lemma_copy_run(input, pos - offset, pos, input.len() - END_OFFSET, length);
                lemma_parse_from(input, visited.push(pos), next, next);
                assert(sequences.drop_first() =~= rest.sequences);
                assert(before_match(input.take(first), sequence) =~= input.take(pos));
            },
        }
    }
}

/// Compressing an input gives a block that stands for it, and whose last sequence
/// has at least [`END_OFFSET`] literals if there is a match.
pub proof fn law_compressed(input: Seq<u8>)
    ensures
        payload(compressed(input)) == Some(input),
        encodable(Seq::empty(), parse(input).sequences),
        parse(input).sequences.len() > 0 ==> END_OFFSET <= parse(input).last.len(),
        parse(input).sequences.len() == 0 ==> parse(input).last == input,
{
    lemma_parse_from(input, Seq::empty(), 0, 0);
    assert(input.take(0) =~= Seq::empty());
    law_encoded_block(parse(input).sequences, parse(input).last);
    if parse(input).sequences.len() == 0 {
        assert(input.skip(0) =~= input);
    }
}

} // verus!
