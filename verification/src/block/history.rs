//! The output that precedes a buffer, as far as matches can reach it.

use vstd::prelude::*;
use vstd::slice::slice_subrange;

use crate::block::parts::{
    contents, flat, lemma_flat_len, lemma_flat_part, lemma_start_ends, lemma_start_step, rooms,
    start, total,
};
use crate::block::WINDOW_SIZE;

verus! {

/// The end of `bytes`, as far back as a match can reach.
pub open spec fn window(bytes: Seq<u8>) -> Seq<u8> {
    bytes.skip(if bytes.len() <= WINDOW_SIZE { 0 } else { bytes.len() - WINDOW_SIZE })
}

/// The (up to) [`WINDOW_SIZE`] bytes of history preceding the current output
/// buffer, as the dictionary for its decode: borrowed straight from the previous
/// buffer when it holds the whole window, otherwise assembled into `scratch`.
///
/// What `scratch` held before makes no difference to the window, and where the
/// window is borrowed or empty `scratch` is left as it is.
pub(crate) fn build_dict<'a>(
    finished: &'a [&'a mut [u8]],
    scratch: &'a mut Vec<u8>,
    history: usize,
) -> (dict: &'a [u8])
    requires
        history == total(rooms(finished@)),
    ensures
        dict@ == window(flat(contents(finished@))),
        final(scratch)@ == if history == 0 || dict@.len() <= rooms(finished@).last() {
            old(scratch)@
        } else {
            dict@
        },
{
    let window: usize = if history < WINDOW_SIZE { history } else { WINDOW_SIZE };
    let ghost parts = contents(finished@);
    let ghost sizes = rooms(finished@);
    let ghost all = flat(parts);
    proof {
        lemma_flat_len(parts);
        lemma_start_ends(sizes);
    }
    if window == 0 {
        assert(all.skip(0) =~= Seq::empty());
        return &[];
    }
    let last: &[u8] = finished[finished.len() - 1];
    proof {
        lemma_flat_part(parts, finished@.len() - 1);
    }
    if last.len() >= window {
        assert(last@.subrange(last@.len() - window, last@.len() as int) =~= all.skip(
            history - window,
        ));
        return slice_subrange(last, last.len() - window, last.len());
    }
    scratch.clear();
    scratch.reserve(window);
    // Walk back `window` bytes from the end of the history to find where the
    // window starts, then collect from there forward.
    let mut start_buf: usize = finished.len();
    let mut start_off: usize = 0;
    let mut remaining: usize = window;
    while remaining > 0
        invariant
            sizes == rooms(finished@),
            history == total(sizes),
            window <= history,
            start_buf <= finished@.len(),
            remaining > 0 ==> start(sizes, start_buf as int) - remaining == history - window,
            remaining == 0 ==> start_buf < finished@.len() && start_off <= sizes[start_buf as int]
                && start(sizes, start_buf as int) + start_off == history - window,
        decreases remaining, start_buf,
    {
        proof {
            lemma_start_ends(sizes);
            lemma_start_step(sizes, start_buf - 1);
        }
        start_buf = start_buf - 1;
        let len: usize = finished[start_buf].len();
        if len >= remaining {
            start_off = len - remaining;
            remaining = 0;
        } else {
            remaining = remaining - len;
        }
    }
    let first: &[u8] = finished[start_buf];
    proof {
        lemma_flat_part(parts, start_buf as int);
    }
    scratch.extend_from_slice(slice_subrange(first, start_off, first.len()));
    assert(scratch@ =~= all.subrange(history - window, start(sizes, start_buf + 1)));
    let mut i: usize = start_buf + 1;
    while i < finished.len()
        invariant
            parts == contents(finished@),
            sizes == rooms(finished@),
            all == flat(parts),
            0 <= history - window <= start(sizes, i as int),
            i <= finished@.len(),
            scratch@ == all.subrange(history - window, start(sizes, i as int)),
        decreases finished@.len() - i,
    {
        proof {
            lemma_flat_part(parts, i as int);
        }
        let ghost before = scratch@;
        let buffer: &[u8] = finished[i];
        scratch.extend_from_slice(buffer);
        assert(scratch@ =~= before + parts[i as int]);
        assert(scratch@ =~= all.subrange(history - window, start(sizes, i + 1)));
        i += 1;
    }
    assert(scratch@ =~= all.skip(history - window));
    scratch.as_slice()
}

} // verus!
