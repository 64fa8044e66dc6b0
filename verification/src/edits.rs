use crate::chunk::ChunkView;
use crate::tiling::at_boundary;
use crate::tiling::covers;
use crate::tiling::lemma_owner_exists;
use crate::tiling::lemma_owner_unique;
use crate::tiling::lemma_same_ranges_owner;
use crate::tiling::lemma_same_ranges_tiles;
use crate::tiling::lemma_split_idempotent;
use crate::tiling::lemma_split_render;
use crate::tiling::lemma_split_tiles;
use crate::tiling::lemma_tiles_ordered;
use crate::tiling::owner;
use crate::tiling::range_guarded;
use crate::tiling::range_removed;
use crate::tiling::render;
use crate::tiling::same_ranges;
use crate::tiling::split_chunks;
use crate::tiling::tiles;
use vstd::prelude::*;

verus! {

/// The buffer that an insertion at `index` goes to: on the left of the
/// boundary the right buffer of the chunk that ends there, on the right of
/// it the left buffer of the chunk that begins there. `None` once removed.
pub open spec fn target_buffer(chunks: Seq<ChunkView>, index: int, left: bool) -> Option<Seq<u8>> {
    let cut = split_chunks(chunks, index);
    let k = owner(chunks, index);
    if left {
        cut[k].right
    } else {
        cut[k + 1].left
    }
}

/// The chunk at a cut that an insertion goes to, after the insertion.
pub open spec fn insert_changed(
    chunk: ChunkView,
    bytes: Seq<u8>,
    left: bool,
    append: bool,
    essential: bool,
) -> ChunkView {
    if left {
        if append {
            chunk.appended(bytes, essential)
        } else {
            chunk.right_prepended(bytes, essential)
        }
    } else {
        if append {
            chunk.left_appended(bytes, essential)
        } else {
            chunk.prepended(bytes, essential)
        }
    }
}

/// The chunks after `bytes` were inserted at the boundary at `index`: the
/// list is cut there, and the bytes go to the end (`append`) or to the front
/// of the buffer on the left of the boundary (`left`) or on the right of it.
pub open spec fn inserted(
    chunks: Seq<ChunkView>,
    index: int,
    bytes: Seq<u8>,
    left: bool,
    append: bool,
    essential: bool,
) -> Seq<ChunkView> {
    let cut = split_chunks(chunks, index);
    let j = if left {
        owner(chunks, index)
    } else {
        owner(chunks, index) + 1
    };
    cut.update(j, insert_changed(cut[j], bytes, left, append, essential))
}

/// The chunks after `bytes` were inserted on the left of the boundary at
/// `index`: they come to stand immediately before the boundary, behind what
/// was inserted there before.
pub open spec fn inserted_left(
    chunks: Seq<ChunkView>,
    index: int,
    bytes: Seq<u8>,
    essential: bool,
) -> Seq<ChunkView> {
    inserted(chunks, index, bytes, true, true, essential)
}

/// The chunks after `bytes` were inserted on the right of the boundary at
/// `index`: they come to stand immediately behind the boundary, before what
/// was inserted there before.
pub open spec fn inserted_right(
    chunks: Seq<ChunkView>,
    index: int,
    bytes: Seq<u8>,
    essential: bool,
) -> Seq<ChunkView> {
    inserted(chunks, index, bytes, false, false, essential)
}

/// The chunks as a removal of the bytes from `start` up to `end` cuts them:
/// once at `start`, then at `end`.
pub open spec fn removal_cut(chunks: Seq<ChunkView>, start: int, end: int) -> Seq<ChunkView> {
    split_chunks(split_chunks(chunks, start), end)
}

/// The index, in the chunks cut for a removal, of the chunk that begins at
/// `start`.
pub open spec fn removal_first(chunks: Seq<ChunkView>, start: int) -> int {
    owner(chunks, start) + 1
}

/// The index, in the chunks cut for a removal, of the chunk that begins at
/// `end`.
pub open spec fn removal_last(chunks: Seq<ChunkView>, start: int, end: int) -> int {
    owner(split_chunks(chunks, start), end) + 1
}

/// Removing the bytes from `start` up to `end` would discard essential
/// content.
pub open spec fn removal_refused(chunks: Seq<ChunkView>, start: int, end: int) -> bool {
    range_guarded(
        removal_cut(chunks, start, end),
        removal_first(chunks, start),
        removal_last(chunks, start, end),
    )
}

/// The chunks after the bytes from `start` up to `end` were removed, with
/// what was inserted between them. What was inserted at `start` on the right
/// and at `end` on the left stays.
pub open spec fn removed(chunks: Seq<ChunkView>, start: int, end: int) -> Seq<ChunkView> {
    range_removed(
        removal_cut(chunks, start, end),
        removal_first(chunks, start),
        removal_last(chunks, start, end),
    )
}

/// The chunks after the bytes from `start` up to `end` were replaced by
/// `bytes`: removed, and `bytes` appended on the right of the boundary at
/// `start`.
pub open spec fn overwritten(chunks: Seq<ChunkView>, start: int, end: int, bytes: Seq<u8>) -> Seq<
    ChunkView,
> {
    inserted(removed(chunks, start, end), start, bytes, false, true, false)
}

/// An insertion cuts the chunks at `index` and changes one buffer at the
/// cut: the ranges stay, the chunks keep tiling, and the boundary is there
/// afterwards.
pub proof fn lemma_inserted_shape(
    chunks: Seq<ChunkView>,
    index: int,
    bytes: Seq<u8>,
    left: bool,
    append: bool,
    essential: bool,
)
    requires
        tiles(chunks),
        0 <= index <= chunks[0].original.len(),
    ensures
        tiles(inserted(chunks, index, bytes, left, append, essential)),
        same_ranges(
            split_chunks(chunks, index),
            inserted(chunks, index, bytes, left, append, essential),
        ),
        owner(inserted(chunks, index, bytes, left, append, essential), index) == owner(
            chunks,
            index,
        ),
        split_chunks(inserted(chunks, index, bytes, left, append, essential), index) == inserted(
            chunks,
            index,
            bytes,
            left,
            append,
            essential,
        ),
{
    let cut = split_chunks(chunks, index);
    let k = owner(chunks, index);
    let after = inserted(chunks, index, bytes, left, append, essential);
    lemma_split_tiles(chunks, index);
    lemma_split_idempotent(chunks, index);
    assert(cut[k].wf());
    assert(cut[k + 1].wf());
    assert(same_ranges(cut, after));
    assert forall|i: int| 0 <= i < after.len() implies (#[trigger] after[i]).wf() by {
        assert(cut[i].wf());
    }
    lemma_same_ranges_tiles(cut, after);
    lemma_split_tiles(cut, index);
    lemma_same_ranges_owner(cut, after, index);
}

/// What a removal of the bytes from `start` up to `end` leaves the chunks
/// like before anything is removed: cut at `start` and at `end`, with the
/// chunks between the two cuts standing for the bytes to be removed.
pub proof fn lemma_removal_shape(chunks: Seq<ChunkView>, start: int, end: int)
    requires
        tiles(chunks),
        0 <= start <= end <= chunks[0].original.len(),
    ensures
        tiles(removal_cut(chunks, start, end)),
        removal_cut(chunks, start, end)[0].original == chunks[0].original,
        render(removal_cut(chunks, start, end)) == render(chunks),
        1 <= removal_first(chunks, start) <= removal_last(chunks, start, end) < removal_cut(
            chunks,
            start,
            end,
        ).len(),
        start < end ==> removal_first(chunks, start) < removal_last(chunks, start, end),
        start == end ==> removal_first(chunks, start) == removal_last(chunks, start, end),
        removal_cut(chunks, start, end)[removal_first(chunks, start) - 1].end == start,
        removal_cut(chunks, start, end)[removal_first(chunks, start)].start == start,
        removal_cut(chunks, start, end)[removal_last(chunks, start, end) - 1].end == end,
        removal_cut(chunks, start, end)[removal_last(chunks, start, end)].start == end,
        owner(removal_cut(chunks, start, end), start) == removal_first(chunks, start) - 1,
        at_boundary(removal_cut(chunks, start, end), start),
{
    let once = split_chunks(chunks, start);
    let k = owner(chunks, start);
    let cut = split_chunks(once, end);
    let m = owner(once, end);
    lemma_split_tiles(chunks, start);
    lemma_split_render(chunks, start);
    lemma_split_idempotent(chunks, start);
    lemma_split_tiles(once, end);
    lemma_split_render(once, end);
    if start < end {
        assert(m > k) by {
            if m <= k {
                lemma_tiles_ordered(once, m, k);
            }
        }
        assert(cut[k] == once[k]);
        assert(once[k + 1].wf());
        assert(cut[k + 1].start == start);
    }
    assert forall|j: int| 0 <= j < k implies !covers(#[trigger] cut[j], start) by {
        assert(cut[j] == once[j]);
        assert(!covers(once[j], start));
    }
    assert(covers(cut[k], start));
    lemma_owner_unique(cut, start, k);
}

/// The chunks after a removal: they keep their ranges and keep tiling, the
/// boundary at `start` is there, and up to it nothing has changed.
pub proof fn lemma_removed_shape(chunks: Seq<ChunkView>, start: int, end: int)
    requires
        tiles(chunks),
        0 <= start <= end <= chunks[0].original.len(),
    ensures
        tiles(removed(chunks, start, end)),
        removed(chunks, start, end)[0].original == chunks[0].original,
        same_ranges(removal_cut(chunks, start, end), removed(chunks, start, end)),
        owner(removed(chunks, start, end), start) == removal_first(chunks, start) - 1,
        split_chunks(removed(chunks, start, end), start) == removed(chunks, start, end),
        removed(chunks, start, end).take(removal_first(chunks, start)) == removal_cut(
            chunks,
            start,
            end,
        ).take(removal_first(chunks, start)),
        removed(chunks, start, end)[removal_first(chunks, start)].left == removal_cut(
            chunks,
            start,
            end,
        )[removal_first(chunks, start)].left,
{
    let cut = removal_cut(chunks, start, end);
    let first = removal_first(chunks, start);
    let after = removed(chunks, start, end);
    lemma_removal_shape(chunks, start, end);
    assert(same_ranges(cut, after));
    assert forall|i: int| 0 <= i < after.len() implies (#[trigger] after[i]).wf() by {
        assert(cut[i].wf());
    }
    lemma_same_ranges_tiles(cut, after);
    lemma_owner_exists(cut, start);
    lemma_same_ranges_owner(cut, after, start);
    assert(after.take(first) =~= cut.take(first));
}

} // verus!
