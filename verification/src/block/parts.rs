//! Byte strings that are stored in several parts: the concatenation of the
//! parts, and where in it each part begins and ends.

use vstd::prelude::*;

verus! {

/// The concatenation of `parts`.
pub open spec fn flat(parts: Seq<Seq<u8>>) -> Seq<u8>
    decreases parts.len(),
{
    if parts.len() == 0 {
        Seq::empty()
    } else {
        flat(parts.drop_last()) + parts.last()
    }
}

/// The lengths of `parts`.
pub open spec fn lens(parts: Seq<Seq<u8>>) -> Seq<nat> {
    parts.map_values(|part: Seq<u8>| part.len())
}

/// The sum of `sizes`.
pub open spec fn total(sizes: Seq<nat>) -> nat
    decreases sizes.len(),
{
    if sizes.len() == 0 {
        0
    } else {
        total(sizes.drop_last()) + sizes.last()
    }
}

/// Where part `i` begins in the concatenation of parts of the given sizes.
pub open spec fn start(sizes: Seq<nat>, i: int) -> int {
    total(sizes.take(i)) as int
}

/// The part that position `pos` of the concatenation lies in: the one that ends
/// first after `pos`, or the last one if no part ends after `pos`.
pub open spec fn part_at(sizes: Seq<nat>, pos: int) -> int
    decreases sizes.len(),
{
    if sizes.len() <= 1 || total(sizes.drop_last()) <= pos {
        sizes.len() - 1
    } else {
        part_at(sizes.drop_last(), pos)
    }
}

/// The bytes of each fragment.
pub open spec fn fragments(input: Seq<&[u8]>) -> Seq<Seq<u8>> {
    input.map_values(|fragment: &[u8]| fragment@)
}

/// The bytes that each buffer holds.
pub open spec fn contents(output: Seq<&mut [u8]>) -> Seq<Seq<u8>> {
    output.map_values(|buffer: &mut [u8]| buffer@)
}

/// The size of each buffer.
pub open spec fn rooms(output: Seq<&mut [u8]>) -> Seq<nat> {
    lens(contents(output))
}

/// One part ends where the next one begins.
pub proof fn lemma_start_step(sizes: Seq<nat>, i: int)
    requires
        0 <= i < sizes.len(),
    ensures
        start(sizes, i + 1) == start(sizes, i) + sizes[i],
{
    assert(sizes.take(i + 1).drop_last() =~= sizes.take(i));
}

/// The first part begins at zero, and after the last one is the total.
pub proof fn lemma_start_ends(sizes: Seq<nat>)
    ensures
        start(sizes, 0) == 0,
        start(sizes, sizes.len() as int) == total(sizes),
{
    assert(sizes.take(sizes.len() as int) =~= sizes);
}

/// Later parts begin later.
pub proof fn lemma_start_monotone(sizes: Seq<nat>, i: int, j: int)
    requires
        0 <= i <= j <= sizes.len(),
    ensures
        start(sizes, i) <= start(sizes, j) <= total(sizes),
    decreases sizes.len() - i,
{
    lemma_start_ends(sizes);
    if i < j {
        lemma_start_step(sizes, i);
        lemma_start_monotone(sizes, i + 1, j);
    } else if j < sizes.len() {
        lemma_start_step(sizes, j);
        lemma_start_monotone(sizes, j + 1, j + 1);
    }
}

/// Parts without a byte do not move the start of what follows.
pub proof fn lemma_start_skips_empty(sizes: Seq<nat>, i: int, j: int)
    requires
        0 <= i <= j <= sizes.len(),
        forall|k: int| i <= k < j ==> sizes[k] == 0,
    ensures
        start(sizes, i) == start(sizes, j),
    decreases j - i,
{
    if i < j {
        lemma_start_step(sizes, i);
        lemma_start_skips_empty(sizes, i + 1, j);
    }
}

/// The concatenation is as long as its parts together.
pub proof fn lemma_flat_len(parts: Seq<Seq<u8>>)
    ensures
        flat(parts).len() == total(lens(parts)),
    decreases parts.len(),
{
    if parts.len() > 0 {
        lemma_flat_len(parts.drop_last());
        assert(lens(parts).drop_last() =~= lens(parts.drop_last()));
    }
}

/// Part `i` stands in the concatenation at its start.
pub proof fn lemma_flat_part(parts: Seq<Seq<u8>>, i: int)
    requires
        0 <= i < parts.len(),
    ensures
        start(lens(parts), i) + parts[i].len() <= flat(parts).len(),
        start(lens(parts), i + 1) == start(lens(parts), i) + parts[i].len(),
        flat(parts).subrange(
            start(lens(parts), i),
            start(lens(parts), i) + parts[i].len(),
        ) == parts[i],
    decreases parts.len(),
{
    let sizes = lens(parts);
    let shorter = parts.drop_last();
    lemma_start_step(sizes, i);
    lemma_flat_len(parts);
    lemma_flat_len(shorter);
    lemma_start_monotone(sizes, i + 1, sizes.len() as int);
    assert(sizes.drop_last() =~= lens(shorter));
    if i == parts.len() - 1 {
        assert(sizes.take(i) =~= lens(shorter));
        assert(flat(parts).subrange(start(sizes, i), start(sizes, i) + parts[i].len())
            =~= parts[i]);
    } else {
        lemma_flat_part(shorter, i);
        assert(lens(shorter).take(i) =~= sizes.take(i));
        assert(flat(parts).subrange(start(sizes, i), start(sizes, i) + parts[i].len())
            =~= flat(shorter).subrange(start(sizes, i), start(sizes, i) + parts[i].len()));
    }
}

/// The concatenation of the first parts is what precedes the next one.
pub proof fn lemma_flat_take(parts: Seq<Seq<u8>>, i: int)
    requires
        0 <= i <= parts.len(),
    ensures
        start(lens(parts), i) <= flat(parts).len(),
        flat(parts.take(i)) == flat(parts).take(start(lens(parts), i)),
    decreases parts.len(),
{
    let sizes = lens(parts);
    lemma_flat_len(parts);
    lemma_start_ends(sizes);
    if i == parts.len() {
        assert(parts.take(i) =~= parts);
        assert(flat(parts).take(start(sizes, i)) =~= flat(parts));
    } else {
        let shorter = parts.drop_last();
        lemma_flat_take(shorter, i);
        lemma_flat_len(shorter);
        assert(lens(shorter).take(i) =~= sizes.take(i));
        assert(shorter.take(i) =~= parts.take(i));
        assert(flat(parts).take(start(sizes, i)) =~= flat(shorter).take(
            start(sizes, i),
        ));
    }
}

/// Replacing a part by another of the same length replaces its bytes in the
/// concatenation.
pub proof fn lemma_flat_replace(parts: Seq<Seq<u8>>, i: int, part: Seq<u8>)
    requires
        0 <= i < parts.len(),
        part.len() == parts[i].len(),
    ensures
        lens(parts.update(i, part)) == lens(parts),
        start(lens(parts), i) + part.len() <= flat(parts).len(),
        flat(parts.update(i, part)) == flat(parts).take(start(lens(parts), i)) + part
            + flat(parts).skip(start(lens(parts), i) + part.len()),
    decreases parts.len(),
{
    let sizes = lens(parts);
    let new = parts.update(i, part);
    let shorter = parts.drop_last();
    assert(lens(new) =~= sizes);
    lemma_flat_part(parts, i);
    lemma_flat_len(shorter);
    assert(sizes.drop_last() =~= lens(shorter));
    if i == parts.len() - 1 {
        assert(sizes.take(i) =~= lens(shorter));
        assert(new.drop_last() =~= shorter);
        assert(flat(new) =~= flat(parts).take(start(sizes, i)) + part + flat(parts).skip(
            start(sizes, i) + part.len(),
        ));
    } else {
        lemma_flat_replace(shorter, i, part);
        lemma_flat_part(shorter, i);
        assert(new.drop_last() =~= shorter.update(i, part));
        assert(lens(shorter).take(i) =~= sizes.take(i));
        assert(flat(new) =~= flat(parts).take(start(sizes, i)) + part + flat(parts).skip(
            start(sizes, i) + part.len(),
        ));
    }
}

/// Where the part at a position begins and ends.
pub proof fn lemma_part_at(sizes: Seq<nat>, pos: int)
    requires
        sizes.len() > 0,
        0 <= pos <= total(sizes),
    ensures
        0 <= part_at(sizes, pos) < sizes.len(),
        start(sizes, part_at(sizes, pos)) <= pos <= start(sizes, part_at(sizes, pos) + 1),
        pos < total(sizes) ==> pos < start(sizes, part_at(sizes, pos) + 1),
        pos == start(sizes, part_at(sizes, pos) + 1) ==> part_at(sizes, pos) == sizes.len() - 1,
    decreases sizes.len(),
{
    let i = part_at(sizes, pos);
    let shorter = sizes.drop_last();
    lemma_start_ends(sizes);
    assert(sizes.take(sizes.len() - 1) =~= shorter);
    if sizes.len() <= 1 || total(shorter) <= pos {
        if sizes.len() == 1 {
            assert(shorter =~= Seq::empty());
        }
    } else {
        lemma_part_at(shorter, pos);
        assert(shorter.take(i) =~= sizes.take(i));
        assert(shorter.take(i + 1) =~= sizes.take(i + 1));
    }
}

/// A part that begins at or before a position and ends after it, or that is the
/// last one, is the part at that position.
pub proof fn lemma_part_at_unique(sizes: Seq<nat>, pos: int, i: int)
    requires
        0 <= i < sizes.len(),
        start(sizes, i) <= pos,
        pos < start(sizes, i + 1) || i == sizes.len() - 1,
    ensures
        part_at(sizes, pos) == i,
    decreases sizes.len(),
{
    let shorter = sizes.drop_last();
    assert(sizes.take(sizes.len() - 1) =~= shorter);
    if i < sizes.len() - 1 {
        lemma_start_monotone(sizes, i + 1, sizes.len() - 1);
        assert(shorter.take(i) =~= sizes.take(i));
        assert(shorter.take(i + 1) =~= sizes.take(i + 1));
        lemma_part_at_unique(shorter, pos, i);
    }
}

/// Where parts begin when one without a byte is put in.
pub proof fn lemma_start_insert(sizes: Seq<nat>, i: int, j: int)
    requires
        0 <= i <= sizes.len(),
        0 <= j <= sizes.len() + 1,
    ensures
        start(sizes.insert(i, 0), j) == start(sizes, if j <= i { j } else { j - 1 }),
    decreases j,
{
    let longer = sizes.insert(i, 0);
    if j == 0 {
        assert(longer.take(0) =~= sizes.take(0));
    } else {
        lemma_start_insert(sizes, i, j - 1);
        lemma_start_step(longer, j - 1);
        if j <= i {
            lemma_start_step(sizes, j - 1);
        } else if i < j - 1 {
            lemma_start_step(sizes, j - 2);
        }
    }
}

/// Which part a position lies in when one without a byte is put in.
pub proof fn lemma_part_at_insert(sizes: Seq<nat>, i: int, pos: int)
    requires
        0 <= i <= sizes.len(),
        0 <= pos < total(sizes),
    ensures
        total(sizes.insert(i, 0)) == total(sizes),
        part_at(sizes.insert(i, 0), pos) == if part_at(sizes, pos) < i {
            part_at(sizes, pos)
        } else {
            part_at(sizes, pos) + 1
        },
{
    let longer = sizes.insert(i, 0);
    let k = part_at(sizes, pos);
    lemma_part_at(sizes, pos);
    lemma_start_ends(sizes);
    lemma_start_ends(longer);
    lemma_start_insert(sizes, i, longer.len() as int);
    let moved = if k < i { k } else { k + 1 };
    lemma_start_insert(sizes, i, moved);
    lemma_start_insert(sizes, i, moved + 1);
    lemma_part_at_unique(longer, pos, moved);
}

/// A fragment without a byte leaves the concatenation as it is.
pub proof fn lemma_flat_insert(frags: Seq<Seq<u8>>, i: int)
    requires
        0 <= i <= frags.len(),
    ensures
        flat(frags.insert(i, Seq::empty())) == flat(frags),
        lens(frags.insert(i, Seq::empty())) == lens(frags).insert(i, 0),
    decreases frags.len(),
{
    let longer = frags.insert(i, Seq::empty());
    assert(lens(longer) =~= lens(frags).insert(i, 0));
    if i == frags.len() {
        assert(longer.drop_last() =~= frags);
        assert(flat(longer) =~= flat(frags));
    } else {
        lemma_flat_insert(frags.drop_last(), i);
        assert(longer.drop_last() =~= frags.drop_last().insert(i, Seq::empty()));
    }
}

} // verus!
