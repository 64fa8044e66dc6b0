use crate::chunk::ChunkView;
use crate::edits::inserted;
use crate::edits::lemma_inserted_shape;
use crate::edits::lemma_removal_shape;
use crate::edits::removal_cut;
use crate::edits::removal_first;
use crate::edits::removal_last;
use crate::edits::removal_refused;
use crate::edits::removed;
use crate::edits::target_buffer;
use crate::tiling::at_boundary;
use crate::tiling::lemma_split_tiles;
use crate::tiling::lemma_tiles_ordered;
use crate::tiling::owner;
use crate::tiling::removal_guarded;
use crate::tiling::split_chunks;
use crate::tiling::tiles;
use vstd::prelude::*;

verus! {

/// No buffer of the chunks holds essential content.
pub open spec fn unguarded(chunks: Seq<ChunkView>) -> bool {
    forall|i: int|
        0 <= i < chunks.len() ==> !(#[trigger] chunks[i]).assert_left && !chunks[i].assert_right
}

/// A cut makes no buffer essential.
pub proof fn lemma_split_unguarded(chunks: Seq<ChunkView>, offset: int)
    requires
        tiles(chunks),
        unguarded(chunks),
        0 <= offset <= chunks[0].original.len(),
    ensures
        unguarded(split_chunks(chunks, offset)),
{
    lemma_split_tiles(chunks, offset);
    let k = owner(chunks, offset);
    let cut = split_chunks(chunks, offset);
    if !at_boundary(chunks, offset) {
        assert forall|i: int| 0 <= i < cut.len() implies !(#[trigger] cut[i]).assert_left
            && !cut[i].assert_right by {
            if i < k {
                assert(cut[i] == chunks[i]);
            } else if i > k + 1 {
                assert(cut[i] == chunks[i - 1]);
            } else {
                assert(!chunks[k].assert_left && !chunks[k].assert_right);
            }
        }
    }
}

/// An insertion that is not essential makes no buffer essential.
pub proof fn lemma_inserted_unguarded(
    chunks: Seq<ChunkView>,
    index: int,
    bytes: Seq<u8>,
    left: bool,
    append: bool,
)
    requires
        tiles(chunks),
        unguarded(chunks),
        0 <= index <= chunks[0].original.len(),
    ensures
        unguarded(inserted(chunks, index, bytes, left, append, false)),
{
    lemma_split_tiles(chunks, index);
    lemma_split_unguarded(chunks, index);
    let cut = split_chunks(chunks, index);
    let after = inserted(chunks, index, bytes, left, append, false);
    assert forall|i: int| 0 <= i < after.len() implies !(#[trigger] after[i]).assert_left
        && !after[i].assert_right by {
        assert(!cut[i].assert_left && !cut[i].assert_right);
    }
}

/// Where no buffer holds essential content, no removal is refused, and a
/// removal makes no buffer essential.
pub proof fn lemma_unguarded_removal(chunks: Seq<ChunkView>, start: int, end: int)
    requires
        tiles(chunks),
        unguarded(chunks),
        0 <= start <= chunks[0].original.len(),
        0 <= end <= chunks[0].original.len(),
    ensures
        !removal_refused(chunks, start, end),
        unguarded(removal_cut(chunks, start, end)),
        unguarded(removed(chunks, start, end)),
{
    let once = split_chunks(chunks, start);
    let cut = removal_cut(chunks, start, end);
    let first = removal_first(chunks, start);
    let last = removal_last(chunks, start, end);
    lemma_split_tiles(chunks, start);
    lemma_split_unguarded(chunks, start);
    lemma_split_tiles(once, end);
    lemma_split_unguarded(once, end);
    assert forall|i: int| first <= i < last implies !removal_guarded(cut, first, last, i) by {
        assert(!cut[i].assert_left && !cut[i].assert_right);
    }
    let after = removed(chunks, start, end);
    assert forall|i: int| 0 <= i < after.len() implies !(#[trigger] after[i]).assert_left
        && !after[i].assert_right by {
        assert(!cut[i].assert_left && !cut[i].assert_right);
    }
}

/// Essential content stands immediately before the boundary at `index`: in
/// the right buffer of a chunk that ends there.
pub open spec fn guarded_before(chunks: Seq<ChunkView>, index: int) -> bool {
    exists|j: int|
        0 <= j < chunks.len() && (#[trigger] chunks[j]).end == index && chunks[j].right is Some
            && chunks[j].assert_right
}

/// Essential content stands immediately behind the boundary at `index`: in
/// the left buffer of a chunk that begins there.
pub open spec fn guarded_behind(chunks: Seq<ChunkView>, index: int) -> bool {
    exists|j: int|
        0 <= j < chunks.len() && (#[trigger] chunks[j]).start == index && chunks[j].left is Some
            && chunks[j].assert_left
}

/// An essential insertion at a boundary guards the side of the boundary
/// that it goes to, as long as the buffer there is present.
pub proof fn lemma_essential_insert_guards(
    chunks: Seq<ChunkView>,
    index: int,
    bytes: Seq<u8>,
    left: bool,
    append: bool,
)
    requires
        tiles(chunks),
        0 <= index <= chunks[0].original.len(),
        target_buffer(chunks, index, left) is Some,
    ensures
        left ==> guarded_before(inserted(chunks, index, bytes, left, append, true), index),
        !left ==> guarded_behind(inserted(chunks, index, bytes, left, append, true), index),
{
    let k = owner(chunks, index);
    let after = inserted(chunks, index, bytes, left, append, true);
    lemma_split_tiles(chunks, index);
    if left {
        assert(after[k].end == index && after[k].right is Some && after[k].assert_right);
    } else {
        assert(after[k + 1].start == index && after[k + 1].left is Some && after[k
            + 1].assert_left);
    }
}

/// A cut keeps what is guarded at a boundary guarded there.
pub proof fn lemma_split_keeps_guards(chunks: Seq<ChunkView>, offset: int, index: int)
    requires
        tiles(chunks),
        0 <= offset <= chunks[0].original.len(),
    ensures
        guarded_before(chunks, index) ==> guarded_before(split_chunks(chunks, offset), index),
        guarded_behind(chunks, index) ==> guarded_behind(split_chunks(chunks, offset), index),
{
    lemma_split_tiles(chunks, offset);
    let k = owner(chunks, offset);
    let cut = split_chunks(chunks, offset);
    if !at_boundary(chunks, offset) {
        if guarded_before(chunks, index) {
            let j = choose|j: int|
                0 <= j < chunks.len() && (#[trigger] chunks[j]).end == index
                    && chunks[j].right is Some && chunks[j].assert_right;
            let moved = if j < k {
                j
            } else {
                j + 1
            };
            assert(cut[moved].end == index && cut[moved].right is Some && cut[moved].assert_right);
        }
        if guarded_behind(chunks, index) {
            let j = choose|j: int|
                0 <= j < chunks.len() && (#[trigger] chunks[j]).start == index
                    && chunks[j].left is Some && chunks[j].assert_left;
            let moved = if j <= k {
                j
            } else {
                j + 1
            };
            assert(cut[moved].start == index && cut[moved].left is Some && cut[moved].assert_left);
        }
    }
}

/// Essential content at a boundary inside the range of a removal has the
/// removal refused.
pub proof fn lemma_guard_refuses_removal(chunks: Seq<ChunkView>, index: int, start: int, end: int)
    requires
        tiles(chunks),
        0 <= start < index < end <= chunks[0].original.len(),
        guarded_before(chunks, index) || guarded_behind(chunks, index),
    ensures
        removal_refused(chunks, start, end),
{
    let once = split_chunks(chunks, start);
    let cut = removal_cut(chunks, start, end);
    let first = removal_first(chunks, start);
    let last = removal_last(chunks, start, end);
    lemma_split_tiles(chunks, start);
    lemma_split_keeps_guards(chunks, start, index);
    lemma_split_keeps_guards(once, end, index);
    lemma_removal_shape(chunks, start, end);
    if guarded_before(cut, index) {
        let j = choose|j: int|
            0 <= j < cut.len() && (#[trigger] cut[j]).end == index && cut[j].right is Some
                && cut[j].assert_right;
        if j < first {
            lemma_tiles_ordered(cut, j, first - 1);
        }
        if j >= last - 1 {
            lemma_tiles_ordered(cut, last - 1, j);
        }
        assert(removal_guarded(cut, first, last, j));
    } else {
        let j = choose|j: int|
            0 <= j < cut.len() && (#[trigger] cut[j]).start == index && cut[j].left is Some
                && cut[j].assert_left;
        if j <= first {
            lemma_tiles_ordered(cut, j, first);
        }
        if j >= last {
            lemma_tiles_ordered(cut, last, j);
        }
        assert(removal_guarded(cut, first, last, j));
    }
}

/// After an essential insertion at a boundary, a removal whose range has
/// the boundary inside is refused.
pub proof fn lemma_essential_refuses_removal(
    chunks: Seq<ChunkView>,
    index: int,
    bytes: Seq<u8>,
    left: bool,
    append: bool,
    start: int,
    end: int,
)
    requires
        tiles(chunks),
        0 <= start < index < end <= chunks[0].original.len(),
        target_buffer(chunks, index, left) is Some,
    ensures
        removal_refused(inserted(chunks, index, bytes, left, append, true), start, end),
{
    lemma_essential_insert_guards(chunks, index, bytes, left, append);
    lemma_inserted_shape(chunks, index, bytes, left, append, true);
    lemma_split_tiles(chunks, index);
    lemma_guard_refuses_removal(
        inserted(chunks, index, bytes, left, append, true),
        index,
        start,
        end,
    );
}

} // verus!
