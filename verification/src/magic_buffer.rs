use crate::chunk::ChunkView;
use crate::chunk_list::ChunkList;
use crate::edits::inserted;
use crate::edits::inserted_left;
use crate::edits::inserted_right;
use crate::edits::lemma_inserted_shape;
use crate::edits::removal_cut;
use crate::edits::removal_refused;
use crate::edits::removed;
use crate::edits::target_buffer;
use crate::error::Error;
use crate::tiling::lemma_render_one;
use crate::tiling::lemma_same_ranges_tiles;
use crate::tiling::lemma_split_render;
use crate::tiling::lemma_split_tiles;
use crate::tiling::render;
use crate::tiling::same_ranges;
use crate::tiling::split_chunks;
use crate::tiling::tiles;
use vstd::prelude::*;

verus! {

/// A byte buffer under edit: the original bytes stay as they are, and the
/// edits are recorded in a list of chunks.
pub struct MagicBuffer<'a> {
    pub(crate) chunks: ChunkList<'a>,
}

impl<'a> View for MagicBuffer<'a> {
    type V = Seq<ChunkView>;

    closed spec fn view(&self) -> Seq<ChunkView> {
        self.chunks@
    }
}

impl<'a> MagicBuffer<'a> {
    /// The chunks tile the original content.
    pub open spec fn wf(&self) -> bool {
        tiles(self@)
    }

    /// The content that the buffer was made for.
    pub open spec fn original(&self) -> Seq<u8> {
        self@[0].original
    }

    /// What the buffer renders to with the edits made so far.
    pub open spec fn bytes(&self) -> Seq<u8> {
        render(self@)
    }

    /// The value of the buffer is the value of its list of chunks.
    pub(crate) proof fn lemma_view(&self)
        ensures
            self@ == self.chunks@,
    {
    }

    /// A buffer over `content` with no edits: it renders to `content`.
    pub fn new(content: &'a [u8]) -> (buffer: MagicBuffer<'a>)
        ensures
            buffer@ == seq![ChunkView::whole(content@)],
            buffer.wf(),
            buffer.original() == content@,
            buffer.bytes() == content@,
    {
        let buffer = MagicBuffer { chunks: ChunkList::new(content) };
        proof {
            lemma_render_one(ChunkView::whole(content@));
            assert(ChunkView::whole(content@).bytes() =~= content@);
        }
        buffer
    }

    /// The length of the original content: edits are addressed by offsets
    /// from 0 to this length, whatever was inserted or removed.
    pub fn original_len(&self) -> (n: usize)
        requires
            self.wf(),
        ensures
            n == self.original().len(),
    {
        self.chunks.original_len()
    }

    /// The number of bytes that the buffer renders to with the edits made so
    /// far: the lengths of all its chunks together.
    pub fn len(&self) -> (n: usize)
        ensures
            n == self.bytes().len(),
    {
        let mut total: usize = 0;
        let mut it = self.chunks.iter();
        let ghost mut i: int = 0;
        loop
            invariant_except_break
                0 <= i <= self@.len(),
                it.remaining() == self@.skip(i),
                total == render(self@.take(i)).len(),
            ensures
                total == render(self@).len(),
            decreases self@.len() - i,
        {
            match it.next() {
                None => {
                    proof {
                        assert(self@.take(i) =~= self@);
                    }
                    break ;
                },
                Some(c) => {
                    proof {
                        assert(self@.skip(i)[0] == self@[i]);
                        assert(self@.skip(i).drop_first() =~= self@.skip(i + 1));
                        assert(self@.take(i + 1).drop_last() =~= self@.take(i));
                        assert(self@.take(i + 1).last() == self@[i]);
                    }
                    match total.checked_add(c.len()) {
                        Some(sum) => {
                            total = sum;
                        },
                        None => {
                            // The lengths need not add up within `usize`;
                            // rendered bytes do.
                            return match self.to_bytes() {
                                Ok(bytes) => bytes.len(),
                                Err(_) => total,
                            };
                        },
                    }
                    proof {
                        i = i + 1;
                    }
                },
            }
        }
        total
    }

    /// Renders the buffer: the bytes of every chunk, in order.
    pub fn to_bytes(&self) -> (res: Result<Vec<u8>, Error>)
        ensures
            res is Ok,
            res->Ok_0@ == self.bytes(),
    {
        let mut v: Vec<u8> = Vec::new();
        let mut it = self.chunks.iter();
        let ghost mut i: int = 0;
        loop
            invariant_except_break
                0 <= i <= self@.len(),
                it.remaining() == self@.skip(i),
                v@ == render(self@.take(i)),
            ensures
                v@ == render(self@),
            decreases self@.len() - i,
        {
            match it.next() {
                None => {
                    proof {
                        assert(self@.take(i) =~= self@);
                    }
                    break ;
                },
                Some(c) => {
                    proof {
                        assert(self@.skip(i)[0] == self@[i]);
                        assert(self@.skip(i).drop_first() =~= self@.skip(i + 1));
                        assert(self@.take(i + 1).drop_last() =~= self@.take(i));
                        assert(self@.take(i + 1).last() == self@[i]);
                    }
                    let mut bytes = c.to_bytes();
                    v.append(&mut bytes);
                    proof {
                        i = i + 1;
                    }
                },
            }
        }
        Ok(v)
    }

    /// Cuts the buffer at `index` and inserts `content` at the cut, on the
    /// left of it (`left`) or on the right.
    fn do_insert(&mut self, index: usize, content: &[u8], left: bool, essential: bool) -> (res:
        Result<(), Error>)
        requires
            old(self).wf(),
        ensures
            final(self).wf(),
            final(self).original() == old(self).original(),
            index > old(self).original().len() ==> res == Err::<(), Error>(
                Error::IndexOutOfBoundError(index),
            ) && final(self)@ == old(self)@,
            index <= old(self).original().len() && left ==> final(self)@ == inserted_left(
                old(self)@,
                index as int,
                content@,
                essential,
            ) && (if essential && target_buffer(old(self)@, index as int, true) is None {
                res == Err::<(), Error>(Error::EssentialContentCannotBeAppended)
            } else {
                res is Ok
            }),
            index <= old(self).original().len() && !left ==> final(self)@ == inserted_right(
                old(self)@,
                index as int,
                content@,
                essential,
            ) && (if essential && target_buffer(old(self)@, index as int, false) is None {
                res == Err::<(), Error>(Error::EssentialContentCannotBePrepended)
            } else {
                res is Ok
            }),
    {
        let ghost pre = self@;
        let res = if left {
            match self.chunks.slice(index) {
                Err(e) => Err(e),
                Ok(pair) => pair.0.append(content, essential),
            }
        } else {
            match self.chunks.slice(index) {
                Err(e) => Err(e),
                Ok(pair) => pair.1.prepend(content, essential),
            }
        };
        proof {
            if index <= pre[0].original.len() {
                lemma_split_tiles(pre, index as int);
                assert(self@ =~= inserted(pre, index as int, content@, left, left, essential));
                lemma_inserted_shape(pre, index as int, content@, left, left, essential);
            }
        }
        res
    }

    /// Inserts `content` on the left of the boundary at `index`: behind what
    /// was inserted there on the left before.
    pub fn insert_left(&mut self, index: usize, content: &[u8]) -> (res: Result<(), Error>)
        requires
            old(self).wf(),
        ensures
            final(self).wf(),
            final(self).original() == old(self).original(),
            res is Err <==> index > old(self).original().len(),
            res is Err ==> res == Err::<(), Error>(Error::IndexOutOfBoundError(index)) && final(self)@
                == old(self)@,
            res is Ok ==> final(self)@ == inserted_left(old(self)@, index as int, content@, false),
    {
        self.do_insert(index, content, true, false)
    }

    /// Inserts essential `content` on the left of the boundary at `index`:
    /// what stands there can no longer be removed.
    pub fn insert_essential_left(&mut self, index: usize, content: &[u8]) -> (res: Result<
        (),
        Error,
    >)
        requires
            old(self).wf(),
        ensures
            final(self).wf(),
            final(self).original() == old(self).original(),
            index > old(self).original().len() ==> res == Err::<(), Error>(
                Error::IndexOutOfBoundError(index),
            ) && final(self)@ == old(self)@,
            index <= old(self).original().len() ==> final(self)@ == inserted_left(
                old(self)@,
                index as int,
                content@,
                true,
            ) && (if target_buffer(old(self)@, index as int, true) is None {
                res == Err::<(), Error>(Error::EssentialContentCannotBeAppended)
            } else {
                res is Ok
            }),
    {
        self.do_insert(index, content, true, true)
    }

    /// Inserts `content` on the right of the boundary at `index`: before
    /// what was inserted there on the right before.
    pub fn insert_right(&mut self, index: usize, content: &[u8]) -> (res: Result<(), Error>)
        requires
            old(self).wf(),
        ensures
            final(self).wf(),
            final(self).original() == old(self).original(),
            res is Err <==> index > old(self).original().len(),
            res is Err ==> res == Err::<(), Error>(Error::IndexOutOfBoundError(index)) && final(self)@
                == old(self)@,
            res is Ok ==> final(self)@ == inserted_right(old(self)@, index as int, content@, false),
    {
        self.do_insert(index, content, false, false)
    }

    /// Inserts essential `content` on the right of the boundary at `index`:
    /// what stands there can no longer be removed.
    pub fn insert_essential_right(&mut self, index: usize, content: &[u8]) -> (res: Result<
        (),
        Error,
    >)
        requires
            old(self).wf(),
        ensures
            final(self).wf(),
            final(self).original() == old(self).original(),
            index > old(self).original().len() ==> res == Err::<(), Error>(
                Error::IndexOutOfBoundError(index),
            ) && final(self)@ == old(self)@,
            index <= old(self).original().len() ==> final(self)@ == inserted_right(
                old(self)@,
                index as int,
                content@,
                true,
            ) && (if target_buffer(old(self)@, index as int, false) is None {
                res == Err::<(), Error>(Error::EssentialContentCannotBePrepended)
            } else {
                res is Ok
            }),
    {
        self.do_insert(index, content, false, true)
    }

    /// Removes the bytes from `start` up to `end`, `end` excluded, and what
    /// was inserted between them.
    ///
    /// The buffer is cut at `start` and at `end`. Then the removal is
    /// checked as a whole, and only then made: where it would discard
    /// essential content, the buffer renders as before. With `start` behind
    /// `end` nothing is removed.
    pub fn remove(&mut self, start: usize, end: usize) -> (res: Result<(), Error>)
        requires
            old(self).wf(),
        ensures
            final(self).wf(),
            final(self).original() == old(self).original(),
            start > old(self).original().len() ==> res == Err::<(), Error>(
                Error::IndexOutOfBoundError(start),
            ) && final(self)@ == old(self)@,
            start <= old(self).original().len() < end ==> res == Err::<(), Error>(
                Error::IndexOutOfBoundError(end),
            ) && final(self)@ == split_chunks(old(self)@, start as int),
            start <= old(self).original().len() && end <= old(self).original().len() ==> (
            if removal_refused(old(self)@, start as int, end as int) {
                res == Err::<(), Error>(Error::ContentShouldNotBeRemoved) && final(self)@
                    == removal_cut(old(self)@, start as int, end as int)
            } else {
                res is Ok && final(self)@ == removed(old(self)@, start as int, end as int)
            }),
            res is Err ==> final(self).bytes() == old(self).bytes(),
    {
        let ghost pre = self@;
        let first: usize = match self.chunks.split(start) {
            Ok(k) => k + 1,
            Err(e) => {
                return Err(e);
            },
        };
        let ghost once = self@;
        proof {
            lemma_split_render(pre, start as int);
        }
        let last: usize = match self.chunks.split(end) {
            Ok(k) => k + 1,
            Err(e) => {
                return Err(e);
            },
        };
        let ghost cut = self@;
        proof {
            lemma_split_render(once, end as int);
        }
        let res = self.chunks.remove_range(first, last);
        proof {
            if res is Ok {
                assert(same_ranges(cut, self@));
                assert forall|i: int| 0 <= i < self@.len() implies (#[trigger] self@[i]).wf() by {
                    assert(cut[i].wf());
                }
                lemma_same_ranges_tiles(cut, self@);
            }
        }
        res
    }
}

} // verus!
