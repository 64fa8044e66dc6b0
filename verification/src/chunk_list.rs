use crate::chunk::Chunk;
use crate::chunk::ChunkView;
use crate::error::Error;
use crate::tiling::covers;
use crate::tiling::holder;
use crate::tiling::holds;
use crate::tiling::is_holder;
use crate::tiling::is_owner;
use crate::tiling::lemma_holder_exists;
use crate::tiling::lemma_holder_unique;
use crate::tiling::lemma_owner_exists;
use crate::tiling::lemma_owner_unique;
use crate::tiling::lemma_split_tiles;
use crate::tiling::lemma_tiles_ordered;
use crate::tiling::owner;
use crate::tiling::range_guarded;
use crate::tiling::range_removed;
use crate::tiling::removal_guarded;
use crate::tiling::split_chunks;
use crate::tiling::tiles;
use vstd::prelude::*;

verus! {

/// The values of the chunks, one by one.
pub open spec fn views<'a>(chunks: Seq<Chunk<'a>>) -> Seq<ChunkView> {
    Seq::new(chunks.len(), |i: int| chunks[i]@)
}

/// An ordered sequence of chunks that tiles the original content.
pub struct ChunkList<'a> {
    chunks: Vec<Chunk<'a>>,
}

/// A walk over the chunks of a list, from the first to the last.
pub struct Iter<'b, 'a> {
    rest: &'b [Chunk<'a>],
}

impl<'b, 'a> Iter<'b, 'a> {
    /// The chunks still to come, in order.
    pub closed spec fn remaining(&self) -> Seq<ChunkView> {
        views(self.rest@)
    }

    /// Hands out the next chunk, or `None` at the end of the list.
    pub fn next(&mut self) -> (res: Option<&'b Chunk<'a>>)
        ensures
            old(self).remaining().len() == 0 ==> res is None && final(self).remaining().len() == 0,
            old(self).remaining().len() > 0 ==> res is Some && res->0@ == old(self).remaining()[0]
                && final(self).remaining() == old(self).remaining().drop_first(),
    {
        let rest: &'b [Chunk<'a>] = self.rest;
        if rest.len() == 0 {
            None
        } else {
            self.rest = vstd::slice::slice_subrange(rest, 1, rest.len());
            proof {
                assert(final(self).remaining() =~= old(self).remaining().drop_first());
            }
            Some(&rest[0])
        }
    }
}

impl<'a> View for ChunkList<'a> {
    type V = Seq<ChunkView>;

    closed spec fn view(&self) -> Seq<ChunkView> {
        views(self.chunks@)
    }
}

impl<'a> ChunkList<'a> {
    /// The chunks tile the original content.
    pub open spec fn wf(&self) -> bool {
        tiles(self@)
    }

    /// The content that the list was made for.
    pub open spec fn original(&self) -> Seq<u8> {
        self@[0].original
    }

    /// The list of an unedited buffer: one chunk, all of `original_content`.
    pub fn new(original_content: &'a [u8]) -> (list: Self)
        ensures
            list@ == seq![ChunkView::whole(original_content@)],
            list.wf(),
    {
        let mut chunks: Vec<Chunk<'a>> = Vec::new();
        chunks.push(Chunk::new(original_content));
        let list = ChunkList { chunks };
        proof {
            assert(list@ =~= seq![ChunkView::whole(original_content@)]);
        }
        list
    }

    /// The length of the original content: the list can be cut at every
    /// offset from 0 to this length.
    pub fn original_len(&self) -> (n: usize)
        requires
            self.wf(),
        ensures
            n == self.original().len(),
    {
        assert(self@[0] == self.chunks@[0]@);
        self.chunks[0].original_content.len()
    }

    /// Finds the chunk that a cut at `index` is made in: the first one whose
    /// range, both ends included, holds `index`.
    fn get_node_at(&self, index: usize) -> (res: Option<usize>)
        requires
            self.wf(),
        ensures
            res is Some <==> index <= self.original().len(),
            res is Some ==> is_owner(self@, index as int, res->0 as int),
    {
        let mut i: usize = 0;
        while i < self.chunks.len()
            invariant
                self.wf(),
                0 <= i <= self.chunks.len(),
                self@.len() == self.chunks.len(),
                forall|j: int| 0 <= j < self.chunks.len() ==> self@[j] == self.chunks@[j]@,
                forall|j: int| 0 <= j < i ==> !covers(#[trigger] self@[j], index as int),
            decreases self.chunks.len() - i,
        {
            if index >= self.chunks[i].start && index <= self.chunks[i].end {
                proof {
                    lemma_tiles_ordered(self@, i as int, self@.len() - 1);
                }
                return Some(i);
            }
            i += 1;
        }
        proof {
            if index <= self.original().len() {
                lemma_owner_exists(self@, index as int);
                assert(covers(self@[owner(self@, index as int)], index as int));
            }
        }
        None
    }

    /// Cuts the list at `offset` and says which chunk now ends there; the one
    /// behind it begins there.
    ///
    /// A cut at a boundary that is there already changes nothing, so cutting
    /// twice at one offset gives the same two chunks.
    pub fn split(&mut self, offset: usize) -> (res: Result<usize, Error>)
        requires
            old(self).wf(),
        ensures
            final(self).wf(),
            final(self).original() == old(self).original(),
            res is Err <==> offset > old(self).original().len(),
            res is Err ==> res == Err::<usize, Error>(Error::IndexOutOfBoundError(offset))
                && final(self)@ == old(self)@,
            res is Ok ==> res->Ok_0 == owner(old(self)@, offset as int) && final(self)@
                == split_chunks(old(self)@, offset as int) && res->Ok_0 + 1 < final(self)@.len()
                && res->Ok_0 < usize::MAX,
    {
        let k: usize = match self.get_node_at(offset) {
            Some(k) => k,
            None => {
                return Err(Error::IndexOutOfBoundError(offset));
            },
        };
        proof {
            lemma_owner_unique(self@, offset as int, k as int);
            assert(self@.len() == self.chunks@.len());
        }
        let n: usize = self.chunks.len();
        assert(k < n);
        if offset == self.chunks[k].end && k + 1 < n {
            return Ok(k);
        }
        let ghost pre = self@;
        let chunk = &mut self.chunks[k];
        let inner: usize = offset - chunk.start;
        let tail_content: Option<&'a [u8]> = match chunk.content {
            Some(c) => Some(vstd::slice::slice_subrange(c, inner, c.len())),
            None => None,
        };
        let head_content: Option<&'a [u8]> = match chunk.content {
            Some(c) => Some(vstd::slice::slice_subrange(c, 0, inner)),
            None => None,
        };
        let new_chunk = Chunk {
            left: Some(Vec::new()),
            right: chunk.right.take(),
            content: tail_content,
            original_content: chunk.original_content,
            assert_left: false,
            assert_right: chunk.assert_right,
            start: offset,
            end: chunk.end,
        };
        chunk.content = head_content;
        chunk.end = offset;
        chunk.right = Some(Vec::new());
        chunk.assert_right = false;
        proof {
            assert(pre[k as int].wf());
            assert(chunk@.content is Some ==> chunk@.content->0 =~= pre[k as int].before(
                offset as int,
            ).content->0);
            assert(new_chunk@.content is Some ==> new_chunk@.content->0 =~= pre[k as int].after(
                offset as int,
            ).content->0);
            assert(chunk@ == pre[k as int].before(offset as int));
            assert(new_chunk@ == pre[k as int].after(offset as int));
        }
        self.chunks.insert(k + 1, new_chunk);
        proof {
            assert(self@ =~= split_chunks(pre, offset as int));
            lemma_split_tiles(pre, offset as int);
        }
        Ok(k)
    }

    /// Cuts the list at `start` and hands out the two chunks at the cut: the
    /// one that ends there and the one that begins there.
    ///
    /// What the caller does to the two chunks is what happens to the list.
    pub fn slice(&mut self, start: usize) -> (res: Result<(&mut Chunk<'a>, &mut Chunk<'a>), Error>)
        requires
            old(self).wf(),
        ensures
            res is Err <==> start > old(self).original().len(),
            res matches Err(e) ==> e == Error::IndexOutOfBoundError(start) && final(self)@
                == old(self)@,
            res matches Ok(pair) ==> ({
                let cut = split_chunks(old(self)@, start as int);
                let k = owner(old(self)@, start as int);
                &&& pair.0@ == cut[k]
                &&& pair.1@ == cut[k + 1]
                &&& final(self)@ == cut.update(k, final(pair.0)@).update(k + 1, final(pair.1)@)
            }),
    {
        let k: usize = match self.split(start) {
            Ok(k) => k,
            Err(e) => {
                return Err(e);
            },
        };
        let ghost cut = self@;
        let ghost fin = final(self)@;
        let ghost fin_chunks = final(self).chunks@;
        let ghost mid_chunks = self.chunks@;
        let n: usize = self.chunks.len();
        assert(cut.len() == n);
        let (a, b) = self.chunks.as_mut_slice().split_at_mut(k + 1);
        let x = a.last_mut().unwrap();
        let y = b.first_mut().unwrap();
        proof {
            assert(fin_chunks =~= mid_chunks.update(k as int, *final(x)).update(
                k + 1,
                *final(y),
            ));
            assert(fin =~= cut.update(k as int, final(x)@).update(k + 1, final(y)@));
        }
        Ok((x, y))
    }

    /// The first chunk.
    pub fn peek(&self) -> (res: Option<&Chunk<'a>>)
        ensures
            res is Some <==> self@.len() > 0,
            res is Some ==> res->0@ == self@[0],
    {
        if self.chunks.len() > 0 {
            Some(&self.chunks[0])
        } else {
            None
        }
    }

    /// The first chunk, to be changed in place.
    pub fn peek_mut(&mut self) -> (res: Option<&mut Chunk<'a>>)
        ensures
            res is Some <==> old(self)@.len() > 0,
            res is Some ==> res->0@ == old(self)@[0] && final(self)@ == old(self)@.update(
                0,
                final(res->0)@,
            ),
            res is None ==> final(self)@ == old(self)@,
    {
        let ghost pre = self@;
        let ghost fin = final(self)@;
        if self.chunks.len() > 0 {
            let c = &mut self.chunks[0];
            proof {
                assert(fin =~= pre.update(0, final(c)@));
            }
            Some(c)
        } else {
            proof {
                assert(fin =~= pre);
            }
            None
        }
    }

    /// The chunk that the byte at `index` of the original content belongs
    /// to: the one whose range, its end excluded, holds `index`. There is
    /// none at the end of the content.
    pub fn get_chunk_at(&self, index: usize) -> (res: Option<&Chunk<'a>>)
        requires
            self.wf(),
        ensures
            res is Some <==> index < self.original().len(),
            res is Some ==> is_holder(self@, index as int, holder(self@, index as int)) && res->0@
                == self@[holder(self@, index as int)],
    {
        let mut i: usize = 0;
        while i < self.chunks.len()
            invariant
                self.wf(),
                0 <= i <= self.chunks.len(),
                self@.len() == self.chunks.len(),
                forall|j: int| 0 <= j < self.chunks.len() ==> self@[j] == self.chunks@[j]@,
                forall|j: int| 0 <= j < i ==> !holds(#[trigger] self@[j], index as int),
            decreases self.chunks.len() - i,
        {
            if index >= self.chunks[i].start && index < self.chunks[i].end {
                proof {
                    lemma_tiles_ordered(self@, i as int, self@.len() - 1);
                    lemma_holder_unique(self@, index as int, i as int);
                }
                return Some(&self.chunks[i]);
            }
            i += 1;
        }
        proof {
            if index < self.original().len() {
                lemma_holder_exists(self@, index as int);
                assert(holds(self@[holder(self@, index as int)], index as int));
            }
        }
        None
    }

    /// The chunk that a cut at `index` would be made in, to be changed in
    /// place: the first one whose range, both ends included, holds `index`.
    pub fn get_mut_chunk_at(&mut self, index: usize) -> (res: Option<&mut Chunk<'a>>)
        requires
            old(self).wf(),
        ensures
            res is Some <==> index <= old(self).original().len(),
            res is Some ==> ({
                let k = owner(old(self)@, index as int);
                &&& is_owner(old(self)@, index as int, k)
                &&& res->0@ == old(self)@[k]
                &&& final(self)@ == old(self)@.update(k, final(res->0)@)
            }),
            res is None ==> final(self)@ == old(self)@,
    {
        let ghost pre = self@;
        let ghost fin = final(self)@;
        match self.get_node_at(index) {
            Some(k) => {
                proof {
                    lemma_owner_unique(self@, index as int, k as int);
                    assert(self@.len() == self.chunks@.len());
                }
                let c = &mut self.chunks[k];
                proof {
                    assert(fin =~= pre.update(k as int, final(c)@));
                }
                Some(c)
            },
            None => {
                proof {
                    assert(fin =~= pre);
                }
                None
            },
        }
    }

    /// Starts a walk over the chunks, in list order.
    pub fn iter<'b>(&'b self) -> (it: Iter<'b, 'a>)
        ensures
            it.remaining() == self@,
    {
        let it = Iter { rest: self.chunks.as_slice() };
        proof {
            assert(it.remaining() =~= self@);
        }
        it
    }

    /// Hands out all the chunks, in list order, to be changed in place.
    ///
    /// What the caller does to the chunks is what happens to the list.
    pub fn iter_mut(&mut self) -> (chunks: &mut [Chunk<'a>])
        ensures
            views(chunks@) == old(self)@,
            final(self)@ == views(final(chunks)@),
    {
        self.chunks.as_mut_slice()
    }

    /// Says whether the chunks from `first` up to `last`, `last` excluded,
    /// may be removed: not if that would discard essential content. Changes
    /// nothing.
    pub fn check_range(&self, first: usize, last: usize) -> (res: Result<(), Error>)
        ensures
            res is Err <==> range_guarded(self@, first as int, last as int),
            res is Err ==> res == Err::<(), Error>(Error::ContentShouldNotBeRemoved),
    {
        let n: usize = self.chunks.len();
        let mut i: usize = first;
        while i < last && i < n
            invariant
                n == self.chunks@.len(),
                self@.len() == self.chunks@.len(),
                first <= i,
                forall|j: int|
                    first <= j < i ==> !removal_guarded(self@, first as int, last as int, j),
            decreases n - i,
        {
            assert(self@[i as int] == self.chunks@[i as int]@);
            if self.chunks[i].check(i != first, true, i + 1 != last).is_err() {
                assert(removal_guarded(self@, first as int, last as int, i as int));
                return Err(Error::ContentShouldNotBeRemoved);
            }
            i += 1;
        }
        Ok(())
    }

    /// Removes the chunks from `first` up to `last`, `last` excluded: the
    /// content of each, and the insertions between them. The left buffer of
    /// the first and the right buffer of the last of them stay.
    ///
    /// Where that would discard essential content, nothing is removed.
    pub fn remove_range(&mut self, first: usize, last: usize) -> (res: Result<(), Error>)
        ensures
            res is Err <==> range_guarded(old(self)@, first as int, last as int),
            res is Err ==> res == Err::<(), Error>(Error::ContentShouldNotBeRemoved) && final(self)@
                == old(self)@,
            res is Ok ==> final(self)@ == range_removed(old(self)@, first as int, last as int),
    {
        match self.check_range(first, last) {
            Err(e) => {
                return Err(e);
            },
            Ok(()) => {},
        }
        let n: usize = self.chunks.len();
        let mut i: usize = first;
        while i < last && i < n
            invariant
                n == self.chunks@.len(),
                self@.len() == old(self)@.len(),
                self@.len() == self.chunks@.len(),
                first <= i,
                i <= last || i == first,
                !range_guarded(old(self)@, first as int, last as int),
                forall|j: int|
                    0 <= j < self@.len() ==> #[trigger] self@[j] == if first <= j < i {
                        old(self)@[j].removed(j != first, true, j + 1 != last)
                    } else {
                        old(self)@[j]
                    },
            decreases n - i,
        {
            let ghost before = self@;
            assert(before[i as int] == self.chunks@[i as int]@);
            assert(!removal_guarded(old(self)@, first as int, last as int, i as int));
            let _ = self.chunks[i].remove(i != first, true, i + 1 != last);
            proof {
                assert(self@ =~= before.update(i as int, self@[i as int]));
            }
            i += 1;
        }
        proof {
            assert(self@ =~= range_removed(old(self)@, first as int, last as int));
        }
        Ok(())
    }
}

} // verus!
