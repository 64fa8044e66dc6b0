use crate::chunk::ChunkView;
use crate::chunk::part_bytes;
use crate::edits::insert_changed;
use crate::edits::inserted;
use crate::edits::inserted_left;
use crate::edits::inserted_right;
use crate::edits::lemma_inserted_shape;
use crate::edits::lemma_removal_shape;
use crate::edits::lemma_removed_shape;
use crate::edits::overwritten;
use crate::edits::removal_cut;
use crate::edits::removal_first;
use crate::edits::removal_last;
use crate::edits::removed;
use crate::edits::target_buffer;
use crate::tiling::at_boundary;
use crate::tiling::lemma_render_at;
use crate::tiling::lemma_render_concat;
use crate::tiling::lemma_render_one;
use crate::tiling::lemma_split_render;
use crate::tiling::lemma_split_tiles;
use crate::tiling::lemma_tiles_ordered;
use crate::tiling::owner;
use crate::tiling::range_removed;
use crate::tiling::render;
use crate::tiling::split_chunks;
use crate::tiling::tiles;
use vstd::prelude::*;

verus! {

/// Where in the rendered bytes the boundary at `index` lies: behind all that
/// the chunks up to the one that ends at `index` render to.
pub open spec fn boundary_position(chunks: Seq<ChunkView>, index: int) -> int {
    render(split_chunks(chunks, index).take(owner(chunks, index) + 1)).len() as int
}

/// Where in the rendered bytes an insertion at `index` goes. On the left of
/// the boundary: to the boundary when appended, before what was inserted on
/// the left when prepended. On the right of it: to the boundary when
/// prepended, behind what was inserted on the right when appended.
pub open spec fn insert_position(
    chunks: Seq<ChunkView>,
    index: int,
    left: bool,
    append: bool,
) -> int {
    let at = boundary_position(chunks, index);
    let buffer = part_bytes(target_buffer(chunks, index, left));
    if left == append {
        at
    } else if left {
        at - buffer.len()
    } else {
        at + buffer.len()
    }
}

/// Putting bytes into the rendering of one chunk puts them into the
/// rendering of the list, as far behind as the chunks before it render.
pub proof fn lemma_render_insert_at(
    chunks: Seq<ChunkView>,
    j: int,
    changed: ChunkView,
    d: int,
    bytes: Seq<u8>,
)
    requires
        0 <= j < chunks.len(),
        0 <= d <= chunks[j].bytes().len(),
        changed.bytes() == chunks[j].bytes().subrange(0, d) + bytes + chunks[j].bytes().subrange(
            d,
            chunks[j].bytes().len() as int,
        ),
    ensures
        render(chunks.take(j)).len() + d <= render(chunks).len(),
        render(chunks.update(j, changed)) == render(chunks).subrange(
            0,
            render(chunks.take(j)).len() + d,
        ) + bytes + render(chunks).subrange(
            render(chunks.take(j)).len() + d,
            render(chunks).len() as int,
        ),
{
    let after = chunks.update(j, changed);
    let head = render(chunks.take(j));
    let tail = render(chunks.skip(j + 1));
    let c = chunks[j].bytes();
    lemma_render_at(chunks, j);
    lemma_render_at(after, j);
    assert(after.take(j) =~= chunks.take(j));
    assert(after.skip(j + 1) =~= chunks.skip(j + 1));
    let r = head + c + tail;
    let q = head.len() + d;
    assert(r.subrange(0, q) =~= head + c.subrange(0, d));
    assert(r.subrange(q, r.len() as int) =~= c.subrange(d, c.len() as int) + tail);
    assert(head + changed.bytes() + tail =~= r.subrange(0, q) + bytes + r.subrange(
        q,
        r.len() as int,
    ));
}

/// The chunks up to chunk `k` render to what those before it render to,
/// and then the bytes of chunk `k`.
pub proof fn lemma_render_take_next(chunks: Seq<ChunkView>, k: int)
    requires
        0 <= k < chunks.len(),
    ensures
        render(chunks.take(k + 1)) == render(chunks.take(k)) + chunks[k].bytes(),
{
    assert(chunks.take(k + 1).drop_last() =~= chunks.take(k));
    assert(chunks.take(k + 1).last() == chunks[k]);
}

/// How far into the rendering of the chunk at a cut an insertion goes.
pub open spec fn insert_depth(chunk: ChunkView, left: bool, append: bool) -> int {
    if left {
        if append {
            chunk.bytes().len() as int
        } else {
            chunk.bytes().len() - part_bytes(chunk.right).len()
        }
    } else {
        if append {
            part_bytes(chunk.left).len() as int
        } else {
            0
        }
    }
}

/// An insertion into a chunk puts the bytes into what the chunk renders to,
/// as long as the buffer that it goes to is present.
pub proof fn lemma_insert_changed(
    chunk: ChunkView,
    bytes: Seq<u8>,
    left: bool,
    append: bool,
    essential: bool,
)
    requires
        left ==> chunk.right is Some,
        !left ==> chunk.left is Some,
    ensures
        0 <= insert_depth(chunk, left, append) <= chunk.bytes().len(),
        insert_changed(chunk, bytes, left, append, essential).bytes() == chunk.bytes().subrange(
            0,
            insert_depth(chunk, left, append),
        ) + bytes + chunk.bytes().subrange(
            insert_depth(chunk, left, append),
            chunk.bytes().len() as int,
        ),
{
    let d = insert_depth(chunk, left, append);
    let c = chunk.bytes();
    assert(insert_changed(chunk, bytes, left, append, essential).bytes() =~= c.subrange(0, d)
        + bytes + c.subrange(d, c.len() as int));
}

/// An insertion puts its bytes into the rendered bytes at one position and
/// changes nothing else, as long as the buffer that it goes to is present.
pub proof fn lemma_insert_render(
    chunks: Seq<ChunkView>,
    index: int,
    bytes: Seq<u8>,
    left: bool,
    append: bool,
    essential: bool,
)
    requires
        tiles(chunks),
        0 <= index <= chunks[0].original.len(),
        target_buffer(chunks, index, left) is Some,
    ensures
        0 <= insert_position(chunks, index, left, append) <= render(chunks).len(),
        render(inserted(chunks, index, bytes, left, append, essential)) == render(chunks).subrange(
            0,
            insert_position(chunks, index, left, append),
        ) + bytes + render(chunks).subrange(
            insert_position(chunks, index, left, append),
            render(chunks).len() as int,
        ),
{
    let cut = split_chunks(chunks, index);
    let k = owner(chunks, index);
    let j = if left {
        k
    } else {
        k + 1
    };
    let changed = insert_changed(cut[j], bytes, left, append, essential);
    assert(0 <= k && k + 1 < cut.len() && render(cut) == render(chunks)) by {
        lemma_split_tiles(chunks, index);
        lemma_split_render(chunks, index);
    }
    lemma_insert_changed(cut[j], bytes, left, append, essential);
    lemma_render_insert_at(cut, j, changed, insert_depth(cut[j], left, append), bytes);
    lemma_render_take_next(cut, k);
}

/// Two insertions on the right of one boundary: the second comes to stand
/// before the first, immediately behind the boundary.
pub proof fn lemma_insert_right_twice(
    chunks: Seq<ChunkView>,
    index: int,
    first: Seq<u8>,
    second: Seq<u8>,
    first_essential: bool,
    second_essential: bool,
)
    requires
        tiles(chunks),
        0 <= index <= chunks[0].original.len(),
        target_buffer(chunks, index, false) is Some,
    ensures
        0 <= boundary_position(chunks, index) <= render(chunks).len(),
        render(
            inserted_right(
                inserted_right(chunks, index, first, first_essential),
                index,
                second,
                second_essential,
            ),
        ) == render(chunks).subrange(0, boundary_position(chunks, index)) + second + first
            + render(chunks).subrange(
            boundary_position(chunks, index),
            render(chunks).len() as int,
        ),
{
    let once = inserted_right(chunks, index, first, first_essential);
    let k = owner(chunks, index);
    let cut = split_chunks(chunks, index);
    let at = boundary_position(chunks, index);
    lemma_split_tiles(chunks, index);
    lemma_inserted_shape(chunks, index, first, false, false, first_essential);
    lemma_insert_render(chunks, index, first, false, false, first_essential);
    assert(once.take(k + 1) =~= cut.take(k + 1));
    assert(boundary_position(once, index) == at);
    lemma_insert_render(once, index, second, false, false, second_essential);
    let r = render(chunks);
    assert(render(once).subrange(0, at) =~= r.subrange(0, at));
    assert(render(once).subrange(at, render(once).len() as int) =~= first + r.subrange(
        at,
        r.len() as int,
    ));
    assert(r.subrange(0, at) + second + (first + r.subrange(at, r.len() as int)) =~= r.subrange(
        0,
        at,
    ) + second + first + r.subrange(at, r.len() as int));
}

/// Two insertions on the left of one boundary: the second comes to stand
/// behind the first, immediately before the boundary.
pub proof fn lemma_insert_left_twice(
    chunks: Seq<ChunkView>,
    index: int,
    first: Seq<u8>,
    second: Seq<u8>,
    first_essential: bool,
    second_essential: bool,
)
    requires
        tiles(chunks),
        0 <= index <= chunks[0].original.len(),
        target_buffer(chunks, index, true) is Some,
    ensures
        0 <= boundary_position(chunks, index) <= render(chunks).len(),
        render(
            inserted_left(
                inserted_left(chunks, index, first, first_essential),
                index,
                second,
                second_essential,
            ),
        ) == render(chunks).subrange(0, boundary_position(chunks, index)) + first + second
            + render(chunks).subrange(
            boundary_position(chunks, index),
            render(chunks).len() as int,
        ),
{
    let once = inserted_left(chunks, index, first, first_essential);
    let k = owner(chunks, index);
    let cut = split_chunks(chunks, index);
    let at = boundary_position(chunks, index);
    lemma_split_tiles(chunks, index);
    lemma_inserted_shape(chunks, index, first, true, true, first_essential);
    lemma_insert_render(chunks, index, first, true, true, first_essential);
    assert(once.take(k + 1).drop_last() =~= cut.take(k));
    assert(cut.take(k + 1).drop_last() =~= cut.take(k));
    assert(once.take(k + 1).last() == once[k]);
    assert(cut.take(k + 1).last() == cut[k]);
    assert(once[k].bytes() =~= cut[k].bytes() + first);
    assert(boundary_position(once, index) == at + first.len());
    lemma_insert_render(once, index, second, true, true, second_essential);
    let r = render(chunks);
    assert(render(once).subrange(0, at + first.len()) =~= r.subrange(0, at) + first);
    assert(render(once).subrange(at + first.len(), render(once).len() as int) =~= r.subrange(
        at,
        r.len() as int,
    ));
}

/// More chunks render to no fewer bytes.
pub proof fn lemma_render_take_grows(chunks: Seq<ChunkView>, i: int, j: int)
    requires
        0 <= i <= j <= chunks.len(),
    ensures
        render(chunks.take(i)).len() <= render(chunks.take(j)).len(),
{
    assert(chunks.take(j) =~= chunks.take(i) + chunks.subrange(i, j));
    lemma_render_concat(chunks.take(i), chunks.subrange(i, j));
}

/// Of a range of chunks with more than one chunk removed, all but the last
/// render to what was inserted on the right of the first boundary.
proof fn lemma_range_removed_inner(chunks: Seq<ChunkView>, first: int, last: int, j: int)
    requires
        0 <= first < j < last <= chunks.len(),
    ensures
        render(range_removed(chunks, first, last).take(j)) == render(chunks.take(first))
            + part_bytes(chunks[first].left),
    decreases j - first,
{
    let after = range_removed(chunks, first, last);
    lemma_render_take_next(after, j - 1);
    if j == first + 1 {
        assert(after.take(first) =~= chunks.take(first));
        assert(after[first].bytes() =~= part_bytes(chunks[first].left));
    } else {
        lemma_range_removed_inner(chunks, first, last, j - 1);
        assert(after[j - 1].bytes() =~= Seq::<u8>::empty());
        assert(render(after.take(j)) =~= render(after.take(j - 1)));
    }
}

/// Removed chunks render to what was inserted on the right of the first
/// boundary and on the left of the last: between what stands before them and
/// what stands behind them, nothing else is left.
pub proof fn lemma_range_removed_render(chunks: Seq<ChunkView>, first: int, last: int)
    requires
        0 <= first < last <= chunks.len(),
    ensures
        render(range_removed(chunks, first, last)) == render(chunks.take(first)) + part_bytes(
            chunks[first].left,
        ) + part_bytes(chunks[last - 1].right) + render(chunks.skip(last)),
{
    let after = range_removed(chunks, first, last);
    lemma_render_take_next(after, last - 1);
    if last - 1 == first {
        assert(after.take(first) =~= chunks.take(first));
        assert(after[first].bytes() =~= part_bytes(chunks[first].left) + part_bytes(
            chunks[first].right,
        ));
    } else {
        lemma_range_removed_inner(chunks, first, last, last - 1);
        assert(after[last - 1].bytes() =~= part_bytes(chunks[last - 1].right));
    }
    assert(after =~= after.take(last) + chunks.skip(last));
    lemma_render_concat(after.take(last), chunks.skip(last));
    assert(render(after) =~= render(chunks.take(first)) + part_bytes(chunks[first].left)
        + part_bytes(chunks[last - 1].right) + render(chunks.skip(last)));
}

/// Where in the rendered bytes a removal of the bytes from `start` up to
/// `end` begins: behind what was inserted at `start` on the right.
pub open spec fn removal_from(chunks: Seq<ChunkView>, start: int, end: int) -> int {
    let cut = removal_cut(chunks, start, end);
    let first = removal_first(chunks, start);
    (render(cut.take(first)).len() + part_bytes(cut[first].left).len()) as int
}

/// Where in the rendered bytes a removal of the bytes from `start` up to
/// `end` ends: before what was inserted at `end` on the left.
pub open spec fn removal_to(chunks: Seq<ChunkView>, start: int, end: int) -> int {
    let cut = removal_cut(chunks, start, end);
    let last = removal_last(chunks, start, end);
    render(cut.take(last)).len() - part_bytes(cut[last - 1].right).len()
}

/// A range of chunks, where it begins and ends in what all the chunks
/// render to.
proof fn lemma_range_positions(chunks: Seq<ChunkView>, first: int, last: int)
    requires
        0 <= first < last <= chunks.len(),
    ensures
        render(chunks.take(first)).len() + part_bytes(chunks[first].left).len() <= render(
            chunks.take(last),
        ).len() - part_bytes(chunks[last - 1].right).len(),
        render(chunks.take(last)).len() <= render(chunks).len(),
        render(chunks).subrange(
            0,
            (render(chunks.take(first)).len() + part_bytes(chunks[first].left).len()) as int,
        ) == render(chunks.take(first)) + part_bytes(chunks[first].left),
        render(chunks).subrange(
            render(chunks.take(last)).len() - part_bytes(chunks[last - 1].right).len(),
            render(chunks).len() as int,
        ) == part_bytes(chunks[last - 1].right) + render(chunks.skip(last)),
{
    let r = render(chunks);
    lemma_render_at(chunks, first);
    lemma_render_at(chunks, last - 1);
    lemma_render_take_next(chunks, first);
    lemma_render_take_next(chunks, last - 1);
    if first + 1 <= last - 1 {
        lemma_render_take_grows(chunks, first + 1, last - 1);
    }
    assert(chunks[first].bytes().len() == part_bytes(chunks[first].left).len() + part_bytes(
        chunks[first].content,
    ).len() + part_bytes(chunks[first].right).len());
    assert(chunks[last - 1].bytes().len() == part_bytes(chunks[last - 1].left).len()
        + part_bytes(chunks[last - 1].content).len() + part_bytes(chunks[last - 1].right).len());
    lemma_render_take_grows(chunks, last, chunks.len() as int);
    assert(chunks.take(chunks.len() as int) =~= chunks);
    let qa = (render(chunks.take(first)).len() + part_bytes(chunks[first].left).len()) as int;
    let qb = render(chunks.take(last)).len() - part_bytes(chunks[last - 1].right).len();
    assert(r.subrange(0, qa) =~= render(chunks.take(first)) + part_bytes(chunks[first].left));
    assert(r.subrange(qb, r.len() as int) =~= part_bytes(chunks[last - 1].right) + render(
        chunks.skip(last),
    ));
}

/// A removal takes one stretch out of the rendered bytes and changes nothing
/// else: what renders before the boundary at `start`, what was inserted there
/// on the right, what was inserted at `end` on the left and what renders
/// behind that boundary all stay.
pub proof fn lemma_remove_render(chunks: Seq<ChunkView>, start: int, end: int)
    requires
        tiles(chunks),
        0 <= start < end <= chunks[0].original.len(),
    ensures
        0 <= removal_from(chunks, start, end) <= removal_to(chunks, start, end) <= render(
            chunks,
        ).len(),
        render(removed(chunks, start, end)) == render(chunks).subrange(
            0,
            removal_from(chunks, start, end),
        ) + render(chunks).subrange(removal_to(chunks, start, end), render(chunks).len() as int),
{
    let cut = removal_cut(chunks, start, end);
    let first = removal_first(chunks, start);
    let last = removal_last(chunks, start, end);
    assert(1 <= first < last < cut.len() && render(cut) == render(chunks)) by {
        lemma_removal_shape(chunks, start, end);
    }
    lemma_range_removed_render(cut, first, last);
    lemma_range_positions(cut, first, last);
    assert(render(cut.take(first)) + part_bytes(cut[first].left) + part_bytes(cut[last - 1].right)
        + render(cut.skip(last)) =~= (render(cut.take(first)) + part_bytes(cut[first].left)) + (
    part_bytes(cut[last - 1].right) + render(cut.skip(last))));
}

/// A removal of no bytes, or one with `start` behind `end`, cuts the chunks
/// and removes nothing.
pub proof fn lemma_remove_nothing(chunks: Seq<ChunkView>, start: int, end: int)
    requires
        tiles(chunks),
        0 <= end <= start <= chunks[0].original.len(),
    ensures
        removed(chunks, start, end) == removal_cut(chunks, start, end),
        render(removed(chunks, start, end)) == render(chunks),
{
    let once = split_chunks(chunks, start);
    let k = owner(chunks, start);
    let m = owner(once, end);
    lemma_split_tiles(chunks, start);
    lemma_split_render(chunks, start);
    lemma_split_tiles(once, end);
    lemma_split_render(once, end);
    assert(m <= k) by {
        if m > k {
            lemma_tiles_ordered(once, k, m);
        }
    }
    assert(removed(chunks, start, end) =~= removal_cut(chunks, start, end));
}

/// Nothing was inserted into the chunk and nothing removed from it.
pub open spec fn untouched(chunk: ChunkView) -> bool {
    &&& chunk.left is Some && chunk.left->0.len() == 0
    &&& chunk.right is Some && chunk.right->0.len() == 0
    &&& chunk.content is Some
}

/// The chunks are those of a buffer that was cut, but not edited.
pub open spec fn pristine(chunks: Seq<ChunkView>) -> bool {
    forall|i: int| 0 <= i < chunks.len() ==> untouched(#[trigger] chunks[i])
}

/// A buffer with no edits has one chunk, which tiles the original content,
/// and renders to that content.
pub proof fn lemma_fresh(original: Seq<u8>)
    ensures
        tiles(seq![ChunkView::whole(original)]),
        pristine(seq![ChunkView::whole(original)]),
        render(seq![ChunkView::whole(original)]) == original,
{
    let whole = ChunkView::whole(original);
    assert(original.subrange(0, original.len() as int) =~= original);
    assert(whole.wf());
    assert(untouched(whole));
    lemma_render_one(whole);
    assert(whole.bytes() =~= original);
}

/// A cut leaves a buffer that was not edited as one.
pub proof fn lemma_split_pristine(chunks: Seq<ChunkView>, offset: int)
    requires
        tiles(chunks),
        pristine(chunks),
        0 <= offset <= chunks[0].original.len(),
    ensures
        pristine(split_chunks(chunks, offset)),
{
    lemma_split_tiles(chunks, offset);
    let k = owner(chunks, offset);
    let cut = split_chunks(chunks, offset);
    assert(untouched(chunks[k]));
    if !at_boundary(chunks, offset) {
        assert forall|i: int| 0 <= i < cut.len() implies untouched(#[trigger] cut[i]) by {
            if i < k {
                assert(cut[i] == chunks[i]);
            } else if i > k + 1 {
                assert(cut[i] == chunks[i - 1]);
            }
        }
    }
}

/// The chunks of a buffer that was not edited render, up to any of them, to
/// the original content up to the end of that chunk.
pub proof fn lemma_pristine_render_take(chunks: Seq<ChunkView>, j: int)
    requires
        tiles(chunks),
        pristine(chunks),
        0 <= j < chunks.len(),
    ensures
        render(chunks.take(j + 1)) == chunks[0].original.subrange(0, chunks[j].end),
    decreases j,
{
    let o = chunks[0].original;
    lemma_render_take_next(chunks, j);
    assert(untouched(chunks[j]));
    assert(chunks[j].wf());
    assert(chunks[j].bytes() =~= o.subrange(chunks[j].start, chunks[j].end));
    if j == 0 {
        assert(chunks.take(0) =~= Seq::<ChunkView>::empty());
        assert(render(chunks.take(1)) =~= o.subrange(0, chunks[0].end));
    } else {
        lemma_pristine_render_take(chunks, j - 1);
        assert(chunks[j - 1].end == chunks[j].start);
        assert(chunks[j - 1].wf());
        assert(o.subrange(0, chunks[j].start) + o.subrange(chunks[j].start, chunks[j].end)
            =~= o.subrange(0, chunks[j].end));
    }
}

/// A buffer that was not edited renders to the original content.
pub proof fn lemma_pristine_render(chunks: Seq<ChunkView>)
    requires
        tiles(chunks),
        pristine(chunks),
    ensures
        render(chunks) == chunks[0].original,
{
    let o = chunks[0].original;
    lemma_pristine_render_take(chunks, chunks.len() - 1);
    assert(chunks.take(chunks.len() as int) =~= chunks);
    assert(o.subrange(0, o.len() as int) =~= o);
}

/// Removing the bytes from `start` up to `end` from a buffer that was not
/// edited leaves the original content without those bytes.
pub proof fn lemma_remove_pristine(chunks: Seq<ChunkView>, start: int, end: int)
    requires
        tiles(chunks),
        pristine(chunks),
        0 <= start <= end <= chunks[0].original.len(),
    ensures
        render(removed(chunks, start, end)) == chunks[0].original.subrange(0, start)
            + chunks[0].original.subrange(end, chunks[0].original.len() as int),
{
    let o = chunks[0].original;
    let once = split_chunks(chunks, start);
    let cut = removal_cut(chunks, start, end);
    let first = removal_first(chunks, start);
    let last = removal_last(chunks, start, end);
    lemma_split_tiles(chunks, start);
    lemma_split_pristine(chunks, start);
    lemma_split_pristine(once, end);
    lemma_removal_shape(chunks, start, end);
    lemma_pristine_render(cut);
    if start == end {
        assert(removed(chunks, start, end) =~= cut);
        assert(o =~= o.subrange(0, start) + o.subrange(end, o.len() as int));
    } else {
        lemma_range_removed_render(cut, first, last);
        lemma_pristine_render_take(cut, first - 1);
        lemma_pristine_render_take(cut, last - 1);
        assert(untouched(cut[first]));
        assert(untouched(cut[last - 1]));
        assert(cut =~= cut.take(last) + cut.skip(last));
        lemma_render_concat(cut.take(last), cut.skip(last));
        assert(render(cut.skip(last)) =~= o.subrange(end, o.len() as int)) by {
            assert(o == o.subrange(0, end) + render(cut.skip(last)));
            assert(o.subrange(0, end).len() == end);
        }
        assert(render(removed(chunks, start, end)) =~= o.subrange(0, start) + o.subrange(
            end,
            o.len() as int,
        ));
    }
}

/// Replacing the bytes from `start` up to `end` of a buffer that was not
/// edited gives the original content with the new bytes in their place.
pub proof fn lemma_overwrite_pristine(
    chunks: Seq<ChunkView>,
    start: int,
    end: int,
    bytes: Seq<u8>,
)
    requires
        tiles(chunks),
        pristine(chunks),
        0 <= start <= end <= chunks[0].original.len(),
    ensures
        render(overwritten(chunks, start, end, bytes)) == chunks[0].original.subrange(0, start)
            + bytes + chunks[0].original.subrange(end, chunks[0].original.len() as int),
{
    let o = chunks[0].original;
    let once = split_chunks(chunks, start);
    let cut = removal_cut(chunks, start, end);
    let first = removal_first(chunks, start);
    let after = removed(chunks, start, end);
    lemma_split_tiles(chunks, start);
    lemma_split_pristine(chunks, start);
    lemma_split_pristine(once, end);
    lemma_removal_shape(chunks, start, end);
    lemma_removed_shape(chunks, start, end);
    lemma_remove_pristine(chunks, start, end);
    lemma_pristine_render_take(cut, first - 1);
    assert(untouched(cut[first]));
    assert(boundary_position(after, start) == start);
    assert(insert_position(after, start, false, true) == start);
    lemma_insert_render(after, start, bytes, false, true, false);
    let r = render(after);
    assert(r.subrange(0, start) =~= o.subrange(0, start));
    assert(r.subrange(start, r.len() as int) =~= o.subrange(end, o.len() as int));
}

/// Replacing the bytes from `start` up to `end` puts the new bytes in the
/// place of one stretch of the rendered bytes and changes nothing else, as
/// long as the buffer on the right of the boundary at `start` is present.
pub proof fn lemma_overwrite_render(chunks: Seq<ChunkView>, start: int, end: int, bytes: Seq<u8>)
    requires
        tiles(chunks),
        0 <= start < end <= chunks[0].original.len(),
        target_buffer(removal_cut(chunks, start, end), start, false) is Some,
    ensures
        0 <= removal_from(chunks, start, end) <= removal_to(chunks, start, end) <= render(
            chunks,
        ).len(),
        render(overwritten(chunks, start, end, bytes)) == render(chunks).subrange(
            0,
            removal_from(chunks, start, end),
        ) + bytes + render(chunks).subrange(
            removal_to(chunks, start, end),
            render(chunks).len() as int,
        ),
{
    let cut = removal_cut(chunks, start, end);
    let first = removal_first(chunks, start);
    let after = removed(chunks, start, end);
    let from = removal_from(chunks, start, end);
    let to = removal_to(chunks, start, end);
    lemma_removal_shape(chunks, start, end);
    lemma_removed_shape(chunks, start, end);
    lemma_remove_render(chunks, start, end);
    assert(boundary_position(after, start) == render(cut.take(first)).len());
    assert(insert_position(after, start, false, true) == from);
    lemma_insert_render(after, start, bytes, false, true, false);
    let r = render(chunks);
    let ra = render(after);
    assert(ra.subrange(0, from) =~= r.subrange(0, from));
    assert(ra.subrange(from, ra.len() as int) =~= r.subrange(to, r.len() as int));
}

} // verus!
