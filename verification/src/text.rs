use crate::chunk::part_bytes;
use crate::chunk::ChunkView;
use crate::edits::insert_changed;
use crate::edits::inserted;
use crate::edits::removal_cut;
use crate::edits::removed;
use crate::tiling::at_boundary;
use crate::tiling::lemma_split_tiles;
use crate::tiling::owner;
use crate::tiling::render;
use crate::tiling::split_chunks;
use crate::tiling::tiles;
use vstd::prelude::*;
use vstd::utf8::is_char_boundary;
use vstd::utf8::is_char_boundary_iff_not_is_continuation_byte;
use vstd::utf8::is_char_boundary_start_end_of_seq;
use vstd::utf8::valid_utf8;
use vstd::utf8::valid_utf8_concat;
use vstd::utf8::valid_utf8_split;

verus! {

/// The chunk is a chunk of a text: the original content is text, the range
/// begins and ends between two characters of it, and what was inserted on
/// either side is text.
pub open spec fn textual_chunk(chunk: ChunkView) -> bool {
    &&& chunk.wf()
    &&& valid_utf8(chunk.original)
    &&& is_char_boundary(chunk.original, chunk.start)
    &&& is_char_boundary(chunk.original, chunk.end)
    &&& valid_utf8(part_bytes(chunk.left))
    &&& valid_utf8(part_bytes(chunk.right))
}

/// The chunks are those of a text that was cut only between characters and
/// took only text.
pub open spec fn textual(chunks: Seq<ChunkView>) -> bool {
    forall|i: int| 0 <= i < chunks.len() ==> textual_chunk(#[trigger] chunks[i])
}

/// What stands between two character boundaries of a text is text.
pub proof fn lemma_text_between(bytes: Seq<u8>, start: int, end: int)
    requires
        valid_utf8(bytes),
        0 <= start <= end <= bytes.len(),
        is_char_boundary(bytes, start),
        is_char_boundary(bytes, end),
    ensures
        valid_utf8(bytes.subrange(start, end)),
{
    valid_utf8_split(bytes, end);
    let head = bytes.subrange(0, end);
    if start == end {
        is_char_boundary_start_end_of_seq(head);
    } else {
        is_char_boundary_iff_not_is_continuation_byte(bytes, start);
        is_char_boundary_iff_not_is_continuation_byte(head, start);
        assert(head[start] == bytes[start]);
    }
    valid_utf8_split(head, start);
    assert(head.subrange(start, head.len() as int) =~= bytes.subrange(start, end));
}

/// A chunk of a text renders to text.
pub proof fn lemma_textual_chunk_bytes(chunk: ChunkView)
    requires
        textual_chunk(chunk),
    ensures
        valid_utf8(chunk.bytes()),
{
    if chunk.content is Some {
        lemma_text_between(chunk.original, chunk.start, chunk.end);
    }
    valid_utf8_concat(part_bytes(chunk.left), part_bytes(chunk.content));
    valid_utf8_concat(part_bytes(chunk.left) + part_bytes(chunk.content), part_bytes(chunk.right));
}

/// The chunks of a text render to text: a text that is cut only between
/// characters and takes only text stays text.
pub proof fn lemma_textual_render(chunks: Seq<ChunkView>)
    requires
        textual(chunks),
    ensures
        valid_utf8(render(chunks)),
    decreases chunks.len(),
{
    if chunks.len() > 0 {
        assert forall|i: int| 0 <= i < chunks.drop_last().len() implies textual_chunk(
            #[trigger] chunks.drop_last()[i],
        ) by {
            assert(chunks.drop_last()[i] == chunks[i]);
        }
        lemma_textual_render(chunks.drop_last());
        assert(textual_chunk(chunks.last()));
        lemma_textual_chunk_bytes(chunks.last());
        valid_utf8_concat(render(chunks.drop_last()), chunks.last().bytes());
    }
}

/// A text with no edits is a text.
pub proof fn lemma_fresh_textual(original: Seq<u8>)
    requires
        valid_utf8(original),
    ensures
        textual(seq![ChunkView::whole(original)]),
{
    is_char_boundary_start_end_of_seq(original);
    assert(original.subrange(0, original.len() as int) =~= original);
    assert(textual_chunk(ChunkView::whole(original)));
}

/// A cut between two characters leaves a text a text.
pub proof fn lemma_split_textual(chunks: Seq<ChunkView>, offset: int)
    requires
        tiles(chunks),
        textual(chunks),
        0 <= offset <= chunks[0].original.len(),
        is_char_boundary(chunks[0].original, offset),
    ensures
        textual(split_chunks(chunks, offset)),
{
    lemma_split_tiles(chunks, offset);
    let k = owner(chunks, offset);
    let cut = split_chunks(chunks, offset);
    if !at_boundary(chunks, offset) {
        assert(textual_chunk(chunks[k]));
        assert(chunks[k].original == chunks[0].original);
        assert(chunks[k].before(offset).wf());
        assert(chunks[k].after(offset).wf());
        assert forall|i: int| 0 <= i < cut.len() implies textual_chunk(#[trigger] cut[i]) by {
            if i < k {
                assert(cut[i] == chunks[i]);
            } else if i > k + 1 {
                assert(cut[i] == chunks[i - 1]);
            }
        }
    }
}

/// An insertion of text between two characters leaves a text a text.
pub proof fn lemma_inserted_textual(
    chunks: Seq<ChunkView>,
    index: int,
    bytes: Seq<u8>,
    left: bool,
    append: bool,
    essential: bool,
)
    requires
        tiles(chunks),
        textual(chunks),
        0 <= index <= chunks[0].original.len(),
        is_char_boundary(chunks[0].original, index),
        valid_utf8(bytes),
    ensures
        textual(inserted(chunks, index, bytes, left, append, essential)),
{
    lemma_split_tiles(chunks, index);
    lemma_split_textual(chunks, index);
    let cut = split_chunks(chunks, index);
    let j = if left {
        owner(chunks, index)
    } else {
        owner(chunks, index) + 1
    };
    let after = inserted(chunks, index, bytes, left, append, essential);
    assert(textual_chunk(cut[j]));
    valid_utf8_concat(part_bytes(cut[j].left), bytes);
    valid_utf8_concat(bytes, part_bytes(cut[j].left));
    valid_utf8_concat(part_bytes(cut[j].right), bytes);
    valid_utf8_concat(bytes, part_bytes(cut[j].right));
    assert(textual_chunk(insert_changed(cut[j], bytes, left, append, essential)));
    assert forall|i: int| 0 <= i < after.len() implies textual_chunk(#[trigger] after[i]) by {
        if i != j {
            assert(after[i] == cut[i]);
        }
    }
}

/// A removal from one character boundary to another leaves a text a text.
pub proof fn lemma_removed_textual(chunks: Seq<ChunkView>, start: int, end: int)
    requires
        tiles(chunks),
        textual(chunks),
        0 <= start <= chunks[0].original.len(),
        0 <= end <= chunks[0].original.len(),
        is_char_boundary(chunks[0].original, start),
        is_char_boundary(chunks[0].original, end),
    ensures
        textual(removal_cut(chunks, start, end)),
        textual(removed(chunks, start, end)),
{
    let once = split_chunks(chunks, start);
    let cut = removal_cut(chunks, start, end);
    let after = removed(chunks, start, end);
    lemma_split_tiles(chunks, start);
    lemma_split_textual(chunks, start);
    lemma_split_textual(once, end);
    assert forall|i: int| 0 <= i < after.len() implies textual_chunk(#[trigger] after[i]) by {
        assert(textual_chunk(cut[i]));
    }
}

} // verus!
