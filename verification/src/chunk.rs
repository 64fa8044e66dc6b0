use crate::error::Error;
use vstd::prelude::*;
use vstd::std_specs::cmp::PartialEqSpecImpl;

verus! {

/// The mathematical value of a [`Chunk`]: the original content, the range of
/// it that the chunk covers, its three parts, and the two guards.
///
/// A part that is `None` has been removed; a part that is `Some` is present,
/// possibly empty.
pub ghost struct ChunkView {
    pub original: Seq<u8>,
    pub left: Option<Seq<u8>>,
    pub content: Option<Seq<u8>>,
    pub right: Option<Seq<u8>>,
    pub assert_left: bool,
    pub assert_right: bool,
    pub start: int,
    pub end: int,
}

/// The bytes of a part: its contents while present, nothing once removed.
pub open spec fn part_bytes(part: Option<Seq<u8>>) -> Seq<u8> {
    match part {
        Some(bytes) => bytes,
        None => Seq::empty(),
    }
}

impl ChunkView {
    /// The chunk that covers the whole of `original`, with nothing inserted.
    pub open spec fn whole(original: Seq<u8>) -> ChunkView {
        ChunkView {
            original,
            left: Some(Seq::empty()),
            content: Some(original),
            right: Some(Seq::empty()),
            assert_left: false,
            assert_right: false,
            start: 0,
            end: original.len() as int,
        }
    }

    /// The range lies inside the original content, the content, while
    /// present, is that range of it, and only a present buffer is guarded.
    pub open spec fn wf(self) -> bool {
        &&& 0 <= self.start <= self.end <= self.original.len()
        &&& self.content is Some ==> self.content->0 == self.original.subrange(
            self.start,
            self.end,
        )
        &&& self.left is None ==> !self.assert_left
        &&& self.right is None ==> !self.assert_right
    }

    /// What the chunk renders to: left, content and right, each while
    /// present, in that order.
    pub open spec fn bytes(self) -> Seq<u8> {
        part_bytes(self.left) + part_bytes(self.content) + part_bytes(self.right)
    }

    /// The present parts in rendering order.
    pub open spec fn parts(self) -> Seq<Seq<u8>> {
        let l = if self.left is Some { seq![self.left->0] } else { Seq::empty() };
        let c = if self.content is Some { seq![self.content->0] } else { Seq::empty() };
        let r = if self.right is Some { seq![self.right->0] } else { Seq::empty() };
        l + c + r
    }

    /// The chunk after `bytes` were put at the end of its right buffer.
    /// A removed buffer takes nothing. An essential insertion guards the
    /// buffer from then on.
    pub open spec fn appended(self, bytes: Seq<u8>, essential: bool) -> ChunkView {
        match self.right {
            Some(r) => ChunkView {
                right: Some(r + bytes),
                assert_right: self.assert_right || essential,
                ..self
            },
            None => self,
        }
    }

    /// The chunk after `bytes` were put at the front of its left buffer.
    pub open spec fn prepended(self, bytes: Seq<u8>, essential: bool) -> ChunkView {
        match self.left {
            Some(l) => ChunkView {
                left: Some(bytes + l),
                assert_left: self.assert_left || essential,
                ..self
            },
            None => self,
        }
    }

    /// The chunk after `bytes` were put at the end of its left buffer.
    pub open spec fn left_appended(self, bytes: Seq<u8>, essential: bool) -> ChunkView {
        match self.left {
            Some(l) => ChunkView {
                left: Some(l + bytes),
                assert_left: self.assert_left || essential,
                ..self
            },
            None => self,
        }
    }

    /// The chunk after `bytes` were put at the front of its right buffer.
    pub open spec fn right_prepended(self, bytes: Seq<u8>, essential: bool) -> ChunkView {
        match self.right {
            Some(r) => ChunkView {
                right: Some(bytes + r),
                assert_right: self.assert_right || essential,
                ..self
            },
            None => self,
        }
    }

    /// The part of the chunk that lies before `offset` once the chunk is cut
    /// there: it keeps the left buffer and gets an empty, unguarded right
    /// buffer.
    pub open spec fn before(self, offset: int) -> ChunkView {
        ChunkView {
            content: if self.content is Some {
                Some(self.original.subrange(self.start, offset))
            } else {
                None
            },
            right: Some(Seq::empty()),
            assert_right: false,
            end: offset,
            ..self
        }
    }

    /// The part of the chunk that lies behind `offset` once the chunk is cut
    /// there: it takes over the right buffer with its guard and gets an
    /// empty, unguarded left buffer.
    pub open spec fn after(self, offset: int) -> ChunkView {
        ChunkView {
            left: Some(Seq::empty()),
            content: if self.content is Some {
                Some(self.original.subrange(offset, self.end))
            } else {
                None
            },
            assert_left: false,
            start: offset,
            ..self
        }
    }

    /// Removing the left buffer (`left`) or the right buffer (`right`) would
    /// discard essential content.
    pub open spec fn guarded(self, left: bool, right: bool) -> bool {
        ||| left && self.left is Some && self.assert_left
        ||| right && self.right is Some && self.assert_right
    }

    /// The chunk with the requested parts removed. A removed buffer is no
    /// longer guarded.
    pub open spec fn removed(self, left: bool, content: bool, right: bool) -> ChunkView {
        ChunkView {
            left: if left { None } else { self.left },
            content: if content { None } else { self.content },
            right: if right { None } else { self.right },
            assert_left: if left { false } else { self.assert_left },
            assert_right: if right { false } else { self.assert_right },
            ..self
        }
    }
}

/// Chunks are parts of a buffer that have an intro and an outro: a range of
/// the original content, with one insertion buffer on each side.
///
/// They hold bytes, not text, so that the byte buffer and the text buffer can
/// share them.
pub struct Chunk<'a> {
    pub left: Option<Vec<u8>>,
    pub right: Option<Vec<u8>>,
    pub content: Option<&'a [u8]>,
    pub original_content: &'a [u8],
    pub assert_left: bool,
    pub assert_right: bool,
    pub start: usize,
    pub end: usize,
}

impl<'a> View for Chunk<'a> {
    type V = ChunkView;

    open spec fn view(&self) -> ChunkView {
        ChunkView {
            original: self.original_content@,
            left: match self.left {
                Some(v) => Some(v@),
                None => None,
            },
            content: match self.content {
                Some(s) => Some(s@),
                None => None,
            },
            right: match self.right {
                Some(v) => Some(v@),
                None => None,
            },
            assert_left: self.assert_left,
            assert_right: self.assert_right,
            start: self.start as int,
            end: self.end as int,
        }
    }
}

impl<'a> PartialEq for Chunk<'a> {
    /// Two chunks are the same chunk when they stand for the same range of
    /// the same content, whatever was inserted or removed.
    fn eq(&self, other: &Chunk<'a>) -> (res: bool) {
        same_bytes(self.original_content, other.original_content) && self.start == other.start
            && self.end == other.end
    }
}

impl<'a> PartialEqSpecImpl for Chunk<'a> {
    open spec fn obeys_eq_spec() -> bool {
        true
    }

    open spec fn eq_spec(&self, other: &Chunk<'a>) -> bool {
        self.original_content@ == other.original_content@ && self.start == other.start && self.end
            == other.end
    }
}

/// Walks over the present parts of a chunk: left, content, right.
pub struct ChunkIterator<'a> {
    chunk: &'a Chunk<'a>,
    which: u8,
}

impl<'a> ChunkIterator<'a> {
    /// The chunk that is walked over.
    pub closed spec fn chunk(&self) -> ChunkView {
        self.chunk@
    }

    /// How many of the three parts have been passed, removed ones included.
    pub closed spec fn passed(&self) -> int {
        self.which as int
    }

    /// The parts still to come, in order.
    pub open spec fn remaining(&self) -> Seq<Seq<u8>> {
        let c = self.chunk();
        let l = if self.passed() <= 0 && c.left is Some { seq![c.left->0] } else { Seq::empty() };
        let m = if self.passed() <= 1 && c.content is Some {
            seq![c.content->0]
        } else {
            Seq::empty()
        };
        let r = if self.passed() <= 2 && c.right is Some { seq![c.right->0] } else { Seq::empty() };
        l + m + r
    }

    /// Hands out the next present part, or `None` when all three are passed.
    pub fn next(&mut self) -> (part: Option<&'a [u8]>)
        ensures
            final(self).chunk() == old(self).chunk(),
            old(self).remaining().len() == 0 ==> part is None && final(self).remaining().len() == 0,
            old(self).remaining().len() > 0 ==> part is Some && part->0@ == old(self).remaining()[0]
                && final(self).remaining() == old(self).remaining().drop_first(),
    {
        if self.which == 0 {
            self.which = 1;
            if let Some(ref v) = self.chunk.left {
                proof {
                    assert(final(self).remaining() =~= old(self).remaining().drop_first());
                }
                return Some(v.as_slice());
            }
        }
        if self.which == 1 {
            self.which = 2;
            if let Some(v) = self.chunk.content {
                proof {
                    assert(final(self).remaining() =~= old(self).remaining().drop_first());
                }
                return Some(v);
            }
        }
        if self.which == 2 {
            self.which = 3;
            if let Some(ref v) = self.chunk.right {
                proof {
                    assert(final(self).remaining() =~= old(self).remaining().drop_first());
                }
                return Some(v.as_slice());
            }
        }
        None
    }
}

impl<'a> Chunk<'a> {
    /// The one chunk of an unedited buffer: all of `original_content`,
    /// between two empty insertion buffers.
    pub fn new(original_content: &'a [u8]) -> (chunk: Chunk<'a>)
        ensures
            chunk@ == ChunkView::whole(original_content@),
            chunk@.wf(),
    {
        let chunk = Chunk {
            left: Some(Vec::new()),
            content: Some(original_content),
            right: Some(Vec::new()),
            original_content,
            assert_left: false,
            assert_right: false,
            start: 0,
            end: original_content.len(),
        };
        proof {
            assert(original_content@.subrange(0, original_content@.len() as int)
                =~= original_content@);
        }
        chunk
    }

    /// Starts a walk over the present parts.
    pub fn iter(&'a self) -> (it: ChunkIterator<'a>)
        ensures
            it.chunk() == self@,
            it.remaining() == self@.parts(),
    {
        ChunkIterator { chunk: self, which: 0 }
    }

    /// The number of bytes that the chunk renders to: those of left, content
    /// and right, each while present.
    pub fn len(&self) -> (n: usize)
        ensures
            n == self@.bytes().len(),
    {
        let left: usize = match self.left {
            Some(ref l) => l.len(),
            None => 0,
        };
        let content: usize = match self.content {
            Some(c) => c.len(),
            None => 0,
        };
        let right: usize = match self.right {
            Some(ref r) => r.len(),
            None => 0,
        };
        if let Some(both) = left.checked_add(content) {
            if let Some(all) = both.checked_add(right) {
                return all;
            }
        }
        // Three lengths need not add up within `usize`; rendered bytes do.
        self.to_bytes().len()
    }

    /// Renders the chunk: left, content and right, each while present.
    pub fn to_bytes(&self) -> (bytes: Vec<u8>)
        ensures
            bytes@ == self@.bytes(),
    {
        let mut v: Vec<u8> = Vec::new();
        if let Some(ref l) = self.left {
            extend(&mut v, l.as_slice());
        }
        if let Some(c) = self.content {
            extend(&mut v, c);
        }
        if let Some(ref r) = self.right {
            extend(&mut v, r.as_slice());
        }
        v
    }

    /// Puts `content` at the end of the right buffer.
    ///
    /// Into a removed buffer nothing can be put: essential content is then
    /// refused and other content is dropped.
    pub fn append(&mut self, content: &[u8], essential: bool) -> (res: Result<(), Error>)
        ensures
            res is Err <==> old(self)@.right is None && essential,
            res is Err ==> res == Err::<(), Error>(Error::EssentialContentCannotBeAppended),
            final(self)@ == old(self)@.appended(content@, essential),
    {
        match self.right {
            None => {
                if essential {
                    Err(Error::EssentialContentCannotBeAppended)
                } else {
                    Ok(())
                }
            },
            Some(ref mut r) => {
                extend(r, content);
                self.assert_right = self.assert_right || essential;
                Ok(())
            },
        }
    }

    /// Puts `content` at the front of the left buffer.
    ///
    /// Into a removed buffer nothing can be put: essential content is then
    /// refused and other content is dropped.
    pub fn prepend(&mut self, content: &[u8], essential: bool) -> (res: Result<(), Error>)
        ensures
            res is Err <==> old(self)@.left is None && essential,
            res is Err ==> res == Err::<(), Error>(Error::EssentialContentCannotBePrepended),
            final(self)@ == old(self)@.prepended(content@, essential),
    {
        match self.left {
            None => {
                if essential {
                    Err(Error::EssentialContentCannotBePrepended)
                } else {
                    Ok(())
                }
            },
            Some(ref l) => {
                let mut tmp: Vec<u8> = Vec::new();
                extend(&mut tmp, content);
                extend(&mut tmp, l.as_slice());
                self.left = Some(tmp);
                self.assert_left = self.assert_left || essential;
                Ok(())
            },
        }
    }

    /// Puts `content` at the end of the left buffer, behind what was put
    /// there before.
    ///
    /// Into a removed buffer nothing can be put: essential content is then
    /// refused and other content is dropped.
    pub fn append_to_left(&mut self, content: &[u8], essential: bool) -> (res: Result<(), Error>)
        ensures
            res is Err <==> old(self)@.left is None && essential,
            res is Err ==> res == Err::<(), Error>(Error::EssentialContentCannotBeAppended),
            final(self)@ == old(self)@.left_appended(content@, essential),
    {
        match self.left {
            None => {
                if essential {
                    Err(Error::EssentialContentCannotBeAppended)
                } else {
                    Ok(())
                }
            },
            Some(ref mut l) => {
                extend(l, content);
                self.assert_left = self.assert_left || essential;
                Ok(())
            },
        }
    }

    /// Puts `content` at the front of the right buffer, before what was put
    /// there before.
    ///
    /// Into a removed buffer nothing can be put: essential content is then
    /// refused and other content is dropped.
    pub fn prepend_to_right(&mut self, content: &[u8], essential: bool) -> (res: Result<(), Error>)
        ensures
            res is Err <==> old(self)@.right is None && essential,
            res is Err ==> res == Err::<(), Error>(Error::EssentialContentCannotBePrepended),
            final(self)@ == old(self)@.right_prepended(content@, essential),
    {
        match self.right {
            None => {
                if essential {
                    Err(Error::EssentialContentCannotBePrepended)
                } else {
                    Ok(())
                }
            },
            Some(ref r) => {
                let mut tmp: Vec<u8> = Vec::new();
                extend(&mut tmp, content);
                extend(&mut tmp, r.as_slice());
                self.right = Some(tmp);
                self.assert_right = self.assert_right || essential;
                Ok(())
            },
        }
    }

    /// Says whether the requested removal may go ahead: it may not where it
    /// would discard a buffer that holds essential content. The content
    /// itself is never guarded. Changes nothing.
    pub fn check(&self, l: bool, _c: bool, r: bool) -> (res: Result<(), Error>)
        ensures
            res is Err <==> self@.guarded(l, r),
            res is Err ==> res == Err::<(), Error>(Error::ContentShouldNotBeRemoved),
    {
        if l && self.left.is_some() && self.assert_left {
            Err(Error::ContentShouldNotBeRemoved)
        } else if r && self.right.is_some() && self.assert_right {
            Err(Error::ContentShouldNotBeRemoved)
        } else {
            Ok(())
        }
    }

    /// Removes the requested parts, unless that would discard a buffer that
    /// holds essential content: then nothing is removed at all.
    pub fn remove(&mut self, left: bool, content: bool, right: bool) -> (res: Result<(), Error>)
        ensures
            res is Err <==> old(self)@.guarded(left, right),
            res is Err ==> res == Err::<(), Error>(Error::ContentShouldNotBeRemoved)
                && *final(self) == *old(self),
            res is Ok ==> final(self)@ == old(self)@.removed(left, content, right),
    {
        if left && self.left.is_some() && self.assert_left {
            return Err(Error::ContentShouldNotBeRemoved);
        }
        if right && self.right.is_some() && self.assert_right {
            return Err(Error::ContentShouldNotBeRemoved);
        }
        if left {
            self.left = None;
            self.assert_left = false;
        }
        if content {
            self.content = None;
        }
        if right {
            self.right = None;
            self.assert_right = false;
        }
        Ok(())
    }
}

/// Compares two runs of bytes.
fn same_bytes(a: &[u8], b: &[u8]) -> (res: bool)
    ensures
        res == (a@ == b@),
{
    if a.len() != b.len() {
        return false;
    }
    let mut i: usize = 0;
    while i < a.len()
        invariant
            a@.len() == b@.len(),
            0 <= i <= a@.len(),
            forall|j: int| 0 <= j < i ==> a@[j] == b@[j],
        decreases a@.len() - i,
    {
        if a[i] != b[i] {
            return false;
        }
        i += 1;
    }
    proof {
        assert(a@ =~= b@);
    }
    true
}

/// Copies `bytes` to the end of `v`.
fn extend(v: &mut Vec<u8>, bytes: &[u8])
    ensures
        final(v)@ == old(v)@ + bytes@,
{
    v.extend_from_slice(bytes);
    proof {
        assert(v@ =~= old(v)@ + bytes@);
    }
}

} // verus!
