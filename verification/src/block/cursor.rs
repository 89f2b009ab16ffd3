//! Byte-wise cursors over input that is split into fragments and over output that
//! is split into buffers.

use vstd::prelude::*;

use crate::block::format::extension;
use crate::block::outcome::{no_room, saturated};
use crate::block::parts::{
    contents, flat, fragments, lemma_flat_len, lemma_flat_part, lemma_flat_replace,
    lemma_start_ends, lemma_start_monotone, lemma_start_skips_empty, lemma_start_step, lens, rooms,
    start, total,
};
use crate::block::DecompressError;

verus! {

/// The index of the first non-empty fragment at or after `from`.
pub(crate) fn next_nonempty(input: &[&[u8]], from: usize) -> (res: Option<usize>)
    ensures
        match res {
            Some(i) => {
                &&& from <= i < input@.len()
                &&& input@[i as int]@.len() > 0
                &&& forall|k: int| from <= k < i ==> (#[trigger] input@[k])@.len() == 0
            },
            None => forall|k: int| from <= k < input@.len() ==> (#[trigger] input@[k])@.len() == 0,
        },
{
    let mut i: usize = from;
    while i < input.len()
        invariant
            from <= i,
            forall|k: int| from <= k < i && k < input@.len() ==> (#[trigger] input@[k])@.len() == 0,
        decreases input@.len() - i,
    {
        if input[i].len() > 0 {
            return Some(i);
        }
        i += 1;
    }
    None
}

/// Whether no fragment after fragment `i` holds a byte.
pub(crate) fn is_last_fragment(input: &[&[u8]], i: usize) -> (last: bool)
    requires
        i < input@.len(),
    ensures
        last == (start(lens(fragments(input@)), i + 1) == flat(fragments(input@)).len()),
{
    assert(i < input.len());
    let next = next_nonempty(input, i + 1);
    proof {
        let sizes = lens(fragments(input@));
        lemma_flat_len(fragments(input@));
        lemma_start_ends(sizes);
        match next {
            Some(k) => {
                lemma_start_monotone(sizes, i + 1, k as int);
                lemma_start_step(sizes, k as int);
                lemma_start_monotone(sizes, k + 1, k + 1);
            },
            None => {
                lemma_start_skips_empty(sizes, i + 1, sizes.len() as int);
            },
        }
    }
    next.is_none()
}

/// The number of bytes that the first `n` buffers hold together.
pub(crate) fn size_before(output: &[&mut [u8]], n: usize) -> (size: usize)
    requires
        n <= output@.len(),
        total(rooms(output@)) <= usize::MAX,
    ensures
        size == start(rooms(output@), n as int),
{
    let mut size: usize = 0;
    let mut i: usize = 0;
    proof {
        lemma_start_ends(rooms(output@));
    }
    while i < n
        invariant
            i <= n <= output@.len(),
            total(rooms(output@)) <= usize::MAX,
            size == start(rooms(output@), i as int),
        decreases n - i,
    {
        proof {
            lemma_start_step(rooms(output@), i as int);
            lemma_start_monotone(rooms(output@), i + 1, i + 1);
        }
        size = size + output[i].len();
        i += 1;
    }
    size
}

/// Byte-wise cursor over the scattered input, advancing across fragments.
pub struct ScatteredReader<'a> {
    pub input: &'a [&'a [u8]],
    /// The fragment that the cursor is in. After the last byte of a fragment has
    /// been read, also of the last one, it is still that fragment; None once no
    /// further fragment was found.
    pub frag_idx: Option<usize>,
    /// The position in that fragment.
    pub in_pos: usize,
}

impl<'a> ScatteredReader<'a> {
    /// The block that is read.
    pub open spec fn block(&self) -> Seq<u8> {
        flat(fragments(self.input@))
    }

    /// The position in the block of the next byte.
    pub open spec fn pos(&self) -> int {
        match self.frag_idx {
            Some(i) => start(lens(fragments(self.input@)), i as int) + self.in_pos,
            None => self.block().len() as int,
        }
    }

    /// Whether the cursor points into its input.
    pub open spec fn wf(&self) -> bool {
        match self.frag_idx {
            Some(i) => i < self.input.len() && self.in_pos <= self.input@[i as int]@.len(),
            None => true,
        }
    }

    /// Whether no byte is left.
    pub open spec fn at_end(&self) -> bool {
        self.pos() == self.block().len()
    }

    /// Whether the cursor stands behind a byte of the fragment that it is in.
    pub open spec fn behind_byte(&self) -> bool {
        self.frag_idx is Some && self.in_pos > 0
    }

    /// Whether the cursor stands at the beginning of a fragment that holds a byte,
    /// or has found none.
    pub open spec fn before_byte(&self) -> bool {
        &&& self.in_pos == 0
        &&& self.frag_idx matches Some(i) ==> self.input@[i as int]@.len() > 0
    }

    /// Whether the cursor, which was `before`, has found no further fragment.
    pub open spec fn found_end(&self, before: Self) -> bool {
        &&& self.frag_idx is None
        &&& self.in_pos == if before.frag_idx is None { before.in_pos } else { 0 }
    }

    /// Whether reading a byte at this cursor gives `res` and leaves the cursor at
    /// `next`.
    pub open spec fn reads(self, next: Self, res: Result<u8, DecompressError>) -> bool {
        &&& next.input == self.input
        &&& next.wf()
        &&& if self.pos() < self.block().len() {
            &&& res == Ok::<u8, DecompressError>(self.block()[self.pos()])
            &&& next.pos() == self.pos() + 1
            &&& next.behind_byte()
        } else {
            &&& res == Err::<u8, DecompressError>(DecompressError::ExpectedAnotherByte)
            &&& next.pos() == self.pos()
            &&& next.found_end(self)
        }
    }

    /// A cursor before the first byte.
    pub(crate) fn new(input: &'a [&'a [u8]]) -> (reader: ScatteredReader<'a>)
        ensures
            reader.input == input,
            reader.wf(),
            reader.pos() == 0,
            reader.before_byte(),
    {
        let frag_idx = next_nonempty(input, 0);
        proof {
            lemma_flat_len(fragments(input@));
            lemma_start_ends(lens(fragments(input@)));
            lemma_start_skips_empty(
                lens(fragments(input@)),
                0,
                match frag_idx {
                    Some(i) => i as int,
                    None => input@.len() as int,
                },
            );
        }
        ScatteredReader { input, frag_idx, in_pos: 0 }
    }

    /// Move from the end of fragment `i` to the next fragment that holds a byte.
    pub(crate) fn next_fragment(&mut self, i: usize)
        requires
            old(self).wf(),
            old(self).frag_idx == Some(i),
            old(self).in_pos == old(self).input@[i as int]@.len(),
        ensures
            final(self).input == old(self).input,
            final(self).wf(),
            final(self).pos() == old(self).pos(),
            final(self).before_byte(),
            final(self).frag_idx matches Some(k) ==> i < k,
    {
        self.frag_idx = next_nonempty(self.input, i + 1);
        self.in_pos = 0;
        proof {
            let sizes = lens(fragments(self.input@));
            lemma_flat_len(fragments(self.input@));
            lemma_start_ends(sizes);
            lemma_start_step(sizes, i as int);
            lemma_start_skips_empty(
                sizes,
                i + 1,
                match self.frag_idx {
                    Some(k) => k as int,
                    None => self.input@.len() as int,
                },
            );
        }
    }

    /// Read the next byte.
    pub(crate) fn read_byte(&mut self) -> (res: Result<u8, DecompressError>)
        requires
            old(self).wf(),
        ensures
            old(self).reads(*final(self), res),
    {
        loop
            invariant
                self.input == old(self).input,
                self.wf(),
                self.pos() == old(self).pos(),
                self.frag_idx is None ==> self.found_end(*old(self)),
                old(self).frag_idx is None ==> self.frag_idx is None,
            decreases
                    match self.frag_idx {
                        Some(i) => self.input@.len() - i,
                        None => 0,
                    },
        {
            let i: usize = match self.frag_idx {
                Some(i) => i,
                None => {
                    return Err(DecompressError::ExpectedAnotherByte);
                },
            };
            proof {
                lemma_flat_part(fragments(self.input@), i as int);
            }
            let fragment: &[u8] = self.input[i];
            if self.in_pos < fragment.len() {
                let byte = fragment[self.in_pos];
                assert(byte == fragments(self.input@)[i as int][self.in_pos as int]);
                assert(byte == self.block()[self.pos()]);
                self.in_pos += 1;
                return Ok(byte);
            }
            self.next_fragment(i);
        }
    }

    /// Sum a length extension: bytes each adding 255, ending at the first
    /// non-255 byte, which adds itself.
    pub(crate) fn read_extension(&mut self) -> (res: Result<usize, DecompressError>)
        requires
            old(self).wf(),
        ensures
            final(self).input == old(self).input,
            final(self).wf(),
            match extension(old(self).block(), old(self).pos()) {
                Some((n, next)) => {
                    &&& res == Ok::<usize, DecompressError>(saturated(n))
                    &&& final(self).pos() == next
                    &&& final(self).behind_byte()
                },
                None => {
                    &&& res == Err::<usize, DecompressError>(DecompressError::ExpectedAnotherByte)
                    &&& final(self).at_end()
                    &&& final(self).found_end(*old(self))
                },
            },
    {
        let mut len: usize = 0;
        let ghost mut sum: nat = 0;
        proof {
            self.lemma_pos();
        }
        loop
            invariant
                self.input == old(self).input,
                self.wf(),
                0 <= self.pos() <= self.block().len(),
                self.frag_idx is None ==> *self == *old(self),
                old(self).frag_idx is None ==> self.frag_idx is None,
                len == saturated(sum),
                extension(old(self).block(), old(self).pos()) == match extension(
                    self.block(),
                    self.pos(),
                ) {
                    Some((rest, next)) => Some((sum + rest, next)),
                    None => None,
                },
            decreases self.block().len() - self.pos(),
        {
            let byte = self.read_byte()?;
            len = len.saturating_add(byte as usize);
            proof {
                sum = sum + byte as nat;
            }
            if byte != 255 {
                return Ok(len);
            }
        }
    }

    /// The position of a cursor lies in the block.
    pub proof fn lemma_pos(&self)
        requires
            self.wf(),
        ensures
            0 <= self.pos() <= self.block().len(),
    {
        if let Some(i) = self.frag_idx {
            lemma_flat_part(fragments(self.input@), i as int);
        }
    }

    /// Whether no byte is left.
    pub(crate) fn exhausted(&self) -> (res: bool)
        requires
            self.wf(),
        ensures
            res == self.at_end(),
    {
        match self.frag_idx {
            None => true,
            Some(i) => {
                proof {
                    lemma_start_step(lens(fragments(self.input@)), i as int);
                    lemma_flat_part(fragments(self.input@), i as int);
                }
                self.in_pos == self.input[i].len() && is_last_fragment(self.input, i)
            },
        }
    }
}

/// Byte-wise cursor over the scattered output, advancing across buffers, with
/// reads back into everything written so far.
pub struct ScatteredWriter {
    pub buf_idx: usize,
    pub out_pos: usize,
}

impl ScatteredWriter {
    /// The number of bytes written, in buffers of the given sizes.
    pub open spec fn pos(&self, sizes: Seq<nat>) -> int {
        start(sizes, self.buf_idx as int) + self.out_pos
    }

    /// Whether the cursor has left the last of the buffers of the given sizes.
    pub open spec fn past_end(&self, sizes: Seq<nat>) -> bool {
        self.buf_idx == sizes.len() && self.out_pos == 0
    }

    /// Whether the cursor points into buffers of the given sizes, or past the last
    /// one.
    pub open spec fn wf(&self, sizes: Seq<nat>) -> bool {
        if self.buf_idx < sizes.len() {
            self.out_pos <= sizes[self.buf_idx as int]
        } else {
            self.past_end(sizes)
        }
    }

    /// Whether the cursor, which was `before`, has been moved by nothing but writes
    /// that found room: it is behind the byte that was written last.
    pub open spec fn behind_writes(&self, before: Self, sizes: Seq<nat>) -> bool {
        if self.pos(sizes) == before.pos(sizes) {
            *self == before
        } else {
            self.out_pos > 0
        }
    }

    /// Whether writing `byte` at this cursor, to buffers of the given sizes that
    /// hold `bytes`, gives `res` and leaves the cursor at `next` and the buffers
    /// with `new_bytes`.
    pub open spec fn writes(
        self,
        sizes: Seq<nat>,
        bytes: Seq<u8>,
        byte: u8,
        next: Self,
        new_bytes: Seq<u8>,
        res: Result<(), DecompressError>,
    ) -> bool {
        &&& next.wf(sizes)
        &&& if self.pos(sizes) < total(sizes) {
            &&& res == Ok::<(), DecompressError>(())
            &&& next.pos(sizes) == self.pos(sizes) + 1
            &&& next.out_pos > 0
            &&& new_bytes == bytes.update(self.pos(sizes), byte)
        } else {
            &&& res == Err::<(), DecompressError>(no_room(total(sizes)))
            &&& next.pos(sizes) == self.pos(sizes)
            &&& next.past_end(sizes)
            &&& new_bytes == bytes
        }
    }

    /// The position of a cursor lies in the output.
    pub proof fn lemma_pos(&self, sizes: Seq<nat>)
        requires
            self.wf(sizes),
        ensures
            0 <= self.pos(sizes) <= total(sizes),
            self.buf_idx < sizes.len() ==> start(sizes, self.buf_idx + 1) == start(
                sizes,
                self.buf_idx as int,
            ) + sizes[self.buf_idx as int],
    {
        lemma_start_ends(sizes);
        if self.buf_idx < sizes.len() {
            lemma_start_step(sizes, self.buf_idx as int);
            lemma_start_monotone(sizes, self.buf_idx + 1, self.buf_idx + 1);
        }
    }

    /// Leave buffers that are full, as long as there is another one.
    pub(crate) fn skip_filled(&mut self, output: &[&mut [u8]])
        requires
            old(self).wf(rooms(output@)),
            old(self).buf_idx < output@.len(),
        ensures
            final(self).wf(rooms(output@)),
            final(self).buf_idx < output@.len(),
            final(self).pos(rooms(output@)) == old(self).pos(rooms(output@)),
            final(self).out_pos < rooms(output@)[final(self).buf_idx as int] || final(self).buf_idx
                == output@.len() - 1,
    {
        while self.buf_idx < output.len() - 1 && self.out_pos == output[self.buf_idx].len()
            invariant
                self.wf(rooms(output@)),
                self.pos(rooms(output@)) == old(self).pos(rooms(output@)),
                self.buf_idx < output@.len(),
            decreases output@.len() - self.buf_idx,
        {
            proof {
                self.lemma_pos(rooms(output@));
            }
            self.buf_idx += 1;
            self.out_pos = 0;
        }
    }

    /// Write one byte.
    pub(crate) fn write_byte(&mut self, output: &mut [&mut [u8]], byte: u8) -> (res: Result<
        (),
        DecompressError,
    >)
        requires
            old(self).wf(rooms(old(output)@)),
            total(rooms(old(output)@)) < usize::MAX,
        ensures
            final(output)@.len() == old(output)@.len(),
            forall|k: int|
                0 <= k < old(output)@.len() ==> final(#[trigger] final(output)@[k])@
                    == final(old(output)@[k])@,
            rooms(final(output)@) == rooms(old(output)@),
            old(self).writes(
                rooms(old(output)@),
                flat(contents(old(output)@)),
                byte,
                *final(self),
                flat(contents(final(output)@)),
                res,
            ),
            res is Err ==> contents(final(output)@) == contents(old(output)@),
    {
        let ghost sizes = rooms(output@);
        let ghost before = contents(output@);
        while self.buf_idx < output.len() && self.out_pos == output[self.buf_idx].len()
            invariant
                output@ == old(output)@,
                sizes == rooms(output@),
                self.wf(sizes),
                self.pos(sizes) == old(self).pos(sizes),
            decreases output@.len() - self.buf_idx,
        {
            proof {
                lemma_start_step(sizes, self.buf_idx as int);
            }
            self.buf_idx += 1;
            self.out_pos = 0;
        }
        proof {
            self.lemma_pos(sizes);
            lemma_start_ends(sizes);
            lemma_flat_len(before);
        }
        if self.buf_idx >= output.len() {
            let capacity: usize = size_before(output, output.len());
            return Err(
                DecompressError::OutputTooSmall { expected: capacity + 1, actual: capacity },
            );
        }
        let ghost i = self.buf_idx as int;
        let ghost part = before[i].update(self.out_pos as int, byte);
        proof {
            lemma_flat_replace(before, i, part);
            lemma_flat_part(before, i);
        }
        output[self.buf_idx][self.out_pos] = byte;
        proof {
            assert(contents(output@) =~= before.update(i, part));
            assert(flat(contents(output@)) =~= flat(before).update(
                start(sizes, i) + self.out_pos,
                byte,
            ));
        }
        self.out_pos += 1;
        Ok(())
    }

    /// The number of bytes written so far.
    pub(crate) fn total_written(&self, output: &[&mut [u8]]) -> (written: usize)
        requires
            self.wf(rooms(output@)),
            total(rooms(output@)) <= usize::MAX,
        ensures
            written == self.pos(rooms(output@)),
    {
        proof {
            self.lemma_pos(rooms(output@));
        }
        size_before(output, self.buf_idx) + self.out_pos
    }

    /// The already-written byte at absolute position `pos`.
    pub(crate) fn read_at(&self, output: &[&mut [u8]], pos: usize) -> (byte: u8)
        requires
            pos < total(rooms(output@)),
        ensures
            byte == flat(contents(output@))[pos as int],
    {
        let mut rest: usize = pos;
        let mut i: usize = 0;
        let ghost sizes = rooms(output@);
        proof {
            lemma_start_ends(sizes);
        }
        while i < output.len()
            invariant
                i <= output@.len(),
                sizes == rooms(output@),
                pos < total(sizes),
                start(sizes, i as int) + rest == pos,
            decreases output@.len() - i,
        {
            proof {
                lemma_start_step(sizes, i as int);
                lemma_flat_part(contents(output@), i as int);
            }
            let len: usize = output[i].len();
            if rest < len {
                assert(contents(output@)[i as int][rest as int] == flat(
                    contents(output@),
                )[pos as int]);
                return output[i][rest];
            }
            rest = rest - len;
            i += 1;
        }
        proof {
            lemma_start_ends(sizes);
            assert(false);
        }
        0
    }
}

} // verus!
