use crate::chunk::ChunkView;
use vstd::prelude::*;

verus! {

/// The chunks are chunks of one original content and tile it: the first
/// starts at 0, each starts where the one before it ends, and the last ends
/// where the content ends.
pub open spec fn tiles(chunks: Seq<ChunkView>) -> bool {
    &&& chunks.len() > 0
    &&& chunks[0].start == 0
    &&& chunks.last().end == chunks[0].original.len()
    &&& forall|i: int|
        0 <= i < chunks.len() ==> (#[trigger] chunks[i]).wf() && chunks[i].original
            == chunks[0].original
    &&& forall|i: int, j: int|
        0 <= i && j == i + 1 && j < chunks.len() ==> (#[trigger] chunks[i]).end
            == (#[trigger] chunks[j]).start
}

/// `offset` lies in the range of the chunk, its two ends included.
pub open spec fn covers(chunk: ChunkView, offset: int) -> bool {
    chunk.start <= offset <= chunk.end
}

/// `offset` lies in the range of the chunk, its end excluded.
pub open spec fn holds(chunk: ChunkView, offset: int) -> bool {
    chunk.start <= offset < chunk.end
}

/// Chunk `k` is the first one that covers `offset`.
pub open spec fn is_owner(chunks: Seq<ChunkView>, offset: int, k: int) -> bool {
    &&& 0 <= k < chunks.len()
    &&& covers(chunks[k], offset)
    &&& forall|j: int| 0 <= j < k ==> !covers(#[trigger] chunks[j], offset)
}

/// The index of the first chunk that covers `offset`: the chunk that a cut at
/// `offset` is made in.
pub open spec fn owner(chunks: Seq<ChunkView>, offset: int) -> int {
    choose|k: int| is_owner(chunks, offset, k)
}

/// Chunk `k` is the first one that holds `offset`.
pub open spec fn is_holder(chunks: Seq<ChunkView>, offset: int, k: int) -> bool {
    &&& 0 <= k < chunks.len()
    &&& holds(chunks[k], offset)
    &&& forall|j: int| 0 <= j < k ==> !holds(#[trigger] chunks[j], offset)
}

/// The index of the first chunk that holds `offset`: the chunk that the byte
/// at `offset` of the original content belongs to.
pub open spec fn holder(chunks: Seq<ChunkView>, offset: int) -> int {
    choose|k: int| is_holder(chunks, offset, k)
}

/// `offset` is the end of its owner and another chunk follows: the boundary
/// is there already.
pub open spec fn at_boundary(chunks: Seq<ChunkView>, offset: int) -> bool {
    let k = owner(chunks, offset);
    offset == chunks[k].end && k + 1 < chunks.len()
}

/// The chunks after a cut at `offset`. At a boundary that is there already
/// nothing changes; else the owner of `offset` is replaced by its two parts.
pub open spec fn split_chunks(chunks: Seq<ChunkView>, offset: int) -> Seq<ChunkView> {
    let k = owner(chunks, offset);
    if at_boundary(chunks, offset) {
        chunks
    } else {
        chunks.update(k, chunks[k].before(offset)).insert(k + 1, chunks[k].after(offset))
    }
}

/// The chunks have the same ranges of the same original content, one by one.
pub open spec fn same_ranges(a: Seq<ChunkView>, b: Seq<ChunkView>) -> bool {
    &&& a.len() == b.len()
    &&& forall|i: int|
        0 <= i < a.len() ==> (#[trigger] a[i]).start == b[i].start && a[i].end == b[i].end
            && a[i].original == b[i].original
}

/// Removing chunk `i` as one of the chunks from `first` up to `last` would
/// discard essential content. The left buffer of the first and the right
/// buffer of the last of them are not removed.
pub open spec fn removal_guarded(chunks: Seq<ChunkView>, first: int, last: int, i: int) -> bool {
    chunks[i].guarded(i != first, i + 1 != last)
}

/// Removing the chunks from `first` up to `last`, `last` excluded, would
/// discard essential content.
pub open spec fn range_guarded(chunks: Seq<ChunkView>, first: int, last: int) -> bool {
    exists|i: int|
        first <= i < last && 0 <= i < chunks.len() && #[trigger] removal_guarded(
            chunks,
            first,
            last,
            i,
        )
}

/// The chunks after those from `first` up to `last`, `last` excluded, were
/// removed: each of them loses its content, all but the first lose the left
/// buffer, and all but the last lose the right buffer.
pub open spec fn range_removed(chunks: Seq<ChunkView>, first: int, last: int) -> Seq<ChunkView> {
    Seq::new(
        chunks.len(),
        |i: int|
            if first <= i < last {
                chunks[i].removed(i != first, true, i + 1 != last)
            } else {
                chunks[i]
            },
    )
}

/// What the chunks render to: the bytes of each, in order.
pub open spec fn render(chunks: Seq<ChunkView>) -> Seq<u8>
    decreases chunks.len(),
{
    if chunks.len() == 0 {
        Seq::empty()
    } else {
        render(chunks.drop_last()) + chunks.last().bytes()
    }
}

/// The first chunk that covers an offset is the only one that is the first.
pub proof fn lemma_owner_unique(chunks: Seq<ChunkView>, offset: int, k: int)
    requires
        is_owner(chunks, offset, k),
    ensures
        owner(chunks, offset) == k,
{
    let o = owner(chunks, offset);
    assert(is_owner(chunks, offset, o));
    if o < k {
        assert(!covers(chunks[o], offset));
    } else if k < o {
        assert(!covers(chunks[k], offset));
    }
}

/// The first chunk that holds an offset is the only one that is the first.
pub proof fn lemma_holder_unique(chunks: Seq<ChunkView>, offset: int, k: int)
    requires
        is_holder(chunks, offset, k),
    ensures
        holder(chunks, offset) == k,
{
    let o = holder(chunks, offset);
    assert(is_holder(chunks, offset, o));
    if o < k {
        assert(!holds(chunks[o], offset));
    } else if k < o {
        assert(!holds(chunks[k], offset));
    }
}

/// In chunks that tile, the starts and the ends do not decrease.
pub proof fn lemma_tiles_ordered(chunks: Seq<ChunkView>, i: int, j: int)
    requires
        tiles(chunks),
        0 <= i <= j < chunks.len(),
    ensures
        chunks[i].start <= chunks[j].start,
        chunks[i].end <= chunks[j].end,
        i < j ==> chunks[i].end <= chunks[j].start,
    decreases j - i,
{
    assert(chunks[j].wf());
    assert(chunks[i].wf());
    if i < j {
        lemma_tiles_ordered(chunks, i, j - 1);
        assert(chunks[j - 1].end == chunks[j].start);
    }
}

/// Every offset from 0 to the length of the original content has an owner.
pub proof fn lemma_owner_exists(chunks: Seq<ChunkView>, offset: int)
    requires
        tiles(chunks),
        0 <= offset <= chunks[0].original.len(),
    ensures
        is_owner(chunks, offset, owner(chunks, offset)),
{
    let k = first_covering(chunks, offset, 0);
    lemma_first_covering(chunks, offset, 0);
    lemma_owner_unique(chunks, offset, k);
}

/// Every offset before the end of the original content has a holder.
pub proof fn lemma_holder_exists(chunks: Seq<ChunkView>, offset: int)
    requires
        tiles(chunks),
        0 <= offset < chunks[0].original.len(),
    ensures
        is_holder(chunks, offset, holder(chunks, offset)),
{
    let k = first_holding(chunks, offset, 0);
    lemma_first_holding(chunks, offset, 0);
    lemma_holder_unique(chunks, offset, k);
}

/// The first index from `from` on whose chunk covers `offset`, or the
/// number of chunks if there is none.
spec fn first_covering(chunks: Seq<ChunkView>, offset: int, from: int) -> int
    decreases chunks.len() - from,
{
    if from < 0 || from >= chunks.len() {
        chunks.len() as int
    } else if covers(chunks[from], offset) {
        from
    } else {
        first_covering(chunks, offset, from + 1)
    }
}

/// The first index from `from` on whose chunk holds `offset`, or the number
/// of chunks if there is none.
spec fn first_holding(chunks: Seq<ChunkView>, offset: int, from: int) -> int
    decreases chunks.len() - from,
{
    if from < 0 || from >= chunks.len() {
        chunks.len() as int
    } else if holds(chunks[from], offset) {
        from
    } else {
        first_holding(chunks, offset, from + 1)
    }
}

/// From a chunk that starts at or before `offset` on, with none before it
/// holding `offset`, the search finds the holder.
proof fn lemma_first_holding(chunks: Seq<ChunkView>, offset: int, from: int)
    requires
        tiles(chunks),
        0 <= from < chunks.len(),
        chunks[from].start <= offset < chunks[0].original.len(),
        forall|j: int| 0 <= j < from ==> !holds(#[trigger] chunks[j], offset),
    ensures
        is_holder(chunks, offset, first_holding(chunks, offset, from)),
    decreases chunks.len() - from,
{
    if !holds(chunks[from], offset) {
        if from + 1 == chunks.len() {
            assert(chunks.last().end == chunks[0].original.len());
        } else {
            assert(chunks[from].end == chunks[from + 1].start);
            lemma_first_holding(chunks, offset, from + 1);
        }
    }
}

/// From a chunk that starts at or before `offset` on, with none before it
/// covering `offset`, the search finds the owner.
proof fn lemma_first_covering(chunks: Seq<ChunkView>, offset: int, from: int)
    requires
        tiles(chunks),
        0 <= from < chunks.len(),
        chunks[from].start <= offset <= chunks[0].original.len(),
        forall|j: int| 0 <= j < from ==> !covers(#[trigger] chunks[j], offset),
    ensures
        is_owner(chunks, offset, first_covering(chunks, offset, from)),
    decreases chunks.len() - from,
{
    if !covers(chunks[from], offset) {
        if from + 1 == chunks.len() {
            assert(chunks.last().end == chunks[0].original.len());
        } else {
            assert(chunks[from].end == chunks[from + 1].start);
            lemma_first_covering(chunks, offset, from + 1);
        }
    }
}

/// A cut keeps the chunks tiling the same original content.
pub proof fn lemma_split_tiles(chunks: Seq<ChunkView>, offset: int)
    requires
        tiles(chunks),
        0 <= offset <= chunks[0].original.len(),
    ensures
        tiles(split_chunks(chunks, offset)),
        split_chunks(chunks, offset)[0].original == chunks[0].original,
        is_owner(chunks, offset, owner(chunks, offset)),
        owner(chunks, offset) + 1 < split_chunks(chunks, offset).len(),
        split_chunks(chunks, offset)[owner(chunks, offset)].end == offset,
        split_chunks(chunks, offset)[owner(chunks, offset) + 1].start == offset,
{
    lemma_owner_exists(chunks, offset);
    let k = owner(chunks, offset);
    let s = split_chunks(chunks, offset);
    assert(chunks[k].wf());
    if at_boundary(chunks, offset) {
        assert(chunks[k].end == chunks[k + 1].start);
    } else {
        let b = chunks[k].before(offset);
        let a = chunks[k].after(offset);
        assert(b.wf());
        assert(a.wf());
        assert forall|i: int| 0 <= i < s.len() implies (#[trigger] s[i]).wf() && s[i].original
            == s[0].original by {
            if i < k {
                assert(s[i] == chunks[i]);
            } else if i == k {
            } else if i == k + 1 {
            } else {
                assert(s[i] == chunks[i - 1]);
            }
            assert(chunks[0].wf());
        }
        assert forall|i: int, j: int| 0 <= i && j == i + 1 && j < s.len() implies (
        #[trigger] s[i]).end == (#[trigger] s[j]).start by {
            if i < k - 1 {
                assert(chunks[i].end == chunks[i + 1].start);
            } else if i == k - 1 {
                assert(chunks[i].end == chunks[i + 1].start);
            } else if i == k {
            } else if i == k + 1 {
                assert(chunks[k].end == chunks[k + 1].start);
            } else {
                assert(chunks[i - 1].end == chunks[i].start);
            }
        }
    }
}

/// Rendering goes chunk by chunk: two runs of chunks, one behind the other,
/// render to the bytes of the first and then those of the second.
pub proof fn lemma_render_concat(a: Seq<ChunkView>, b: Seq<ChunkView>)
    ensures
        render(a + b) == render(a) + render(b),
    decreases b.len(),
{
    if b.len() == 0 {
        assert(a + b =~= a);
        assert(render(a) + render(b) =~= render(a));
    } else {
        lemma_render_concat(a, b.drop_last());
        assert((a + b).drop_last() =~= a + b.drop_last());
        assert((a + b).last() == b.last());
        assert(render(a + b) =~= render(a) + render(b));
    }
}

/// One chunk renders to its own bytes.
pub proof fn lemma_render_one(c: ChunkView)
    ensures
        render(seq![c]) == c.bytes(),
{
    assert(seq![c].drop_last() =~= Seq::<ChunkView>::empty());
    assert(render(seq![c]) =~= c.bytes()) by {
        reveal_with_fuel(render, 2);
    }
}

/// The rendering, taken apart at chunk `k`.
pub proof fn lemma_render_at(chunks: Seq<ChunkView>, k: int)
    requires
        0 <= k < chunks.len(),
    ensures
        render(chunks) == render(chunks.take(k)) + chunks[k].bytes() + render(chunks.skip(k + 1)),
{
    assert(chunks =~= chunks.take(k) + seq![chunks[k]] + chunks.skip(k + 1));
    lemma_render_concat(chunks.take(k) + seq![chunks[k]], chunks.skip(k + 1));
    lemma_render_concat(chunks.take(k), seq![chunks[k]]);
    lemma_render_one(chunks[k]);
}

/// A cut changes nothing in what the chunks render to.
pub proof fn lemma_split_render(chunks: Seq<ChunkView>, offset: int)
    requires
        tiles(chunks),
        0 <= offset <= chunks[0].original.len(),
    ensures
        render(split_chunks(chunks, offset)) == render(chunks),
{
    lemma_owner_exists(chunks, offset);
    let k = owner(chunks, offset);
    let s = split_chunks(chunks, offset);
    if !at_boundary(chunks, offset) {
        let c = chunks[k];
        assert(c.wf());
        assert(s =~= chunks.take(k) + seq![c.before(offset), c.after(offset)] + chunks.skip(k + 1));
        lemma_render_concat(
            chunks.take(k) + seq![c.before(offset), c.after(offset)],
            chunks.skip(k + 1),
        );
        lemma_render_concat(chunks.take(k), seq![c.before(offset), c.after(offset)]);
        assert(seq![c.before(offset), c.after(offset)] =~= seq![c.before(offset)] + seq![
            c.after(offset),
        ]);
        lemma_render_concat(seq![c.before(offset)], seq![c.after(offset)]);
        lemma_render_one(c.before(offset));
        lemma_render_one(c.after(offset));
        if c.content is Some {
            assert(c.original.subrange(c.start, offset) + c.original.subrange(offset, c.end)
                =~= c.original.subrange(c.start, c.end));
        }
        assert(c.before(offset).bytes() + c.after(offset).bytes() =~= c.bytes());
        lemma_render_at(chunks, k);
        assert(render(s) =~= render(chunks));
    }
}

/// Chunks that keep their ranges keep tiling, as long as each is a chunk.
pub proof fn lemma_same_ranges_tiles(a: Seq<ChunkView>, b: Seq<ChunkView>)
    requires
        tiles(a),
        same_ranges(a, b),
        forall|i: int| 0 <= i < b.len() ==> (#[trigger] b[i]).wf(),
    ensures
        tiles(b),
{
    assert forall|i: int| 0 <= i < b.len() implies (#[trigger] b[i]).wf() && b[i].original
        == b[0].original by {
        assert(a[i].original == a[0].original);
    }
    assert forall|i: int, j: int| 0 <= i && j == i + 1 && j < b.len() implies (#[trigger] b[i]).end
        == (#[trigger] b[j]).start by {
        assert(a[i].end == a[j].start);
    }
}

/// Which chunk owns an offset depends on the ranges alone.
pub proof fn lemma_same_ranges_owner(a: Seq<ChunkView>, b: Seq<ChunkView>, offset: int)
    requires
        same_ranges(a, b),
        is_owner(a, offset, owner(a, offset)),
    ensures
        owner(b, offset) == owner(a, offset),
        at_boundary(b, offset) == at_boundary(a, offset),
{
    let k = owner(a, offset);
    assert forall|j: int| 0 <= j < k implies !covers(#[trigger] b[j], offset) by {
        assert(!covers(a[j], offset));
    }
    assert(covers(a[k], offset));
    lemma_owner_unique(b, offset, k);
}

/// Cutting twice at one offset is cutting once: the second cut finds the
/// boundary that the first one made, changes nothing, and gives the same two
/// chunks.
pub proof fn lemma_split_idempotent(chunks: Seq<ChunkView>, offset: int)
    requires
        tiles(chunks),
        0 <= offset <= chunks[0].original.len(),
    ensures
        owner(split_chunks(chunks, offset), offset) == owner(chunks, offset),
        at_boundary(split_chunks(chunks, offset), offset),
        split_chunks(split_chunks(chunks, offset), offset) == split_chunks(chunks, offset),
{
    lemma_split_tiles(chunks, offset);
    let k = owner(chunks, offset);
    let cut = split_chunks(chunks, offset);
    assert forall|j: int| 0 <= j < k implies !covers(#[trigger] cut[j], offset) by {
        assert(cut[j] == chunks[j]);
        assert(!covers(chunks[j], offset));
    }
    assert(chunks[k].wf());
    assert(covers(cut[k], offset));
    lemma_owner_unique(cut, offset, k);
}

} // verus!
