use crate::chunk::ChunkView;
use crate::edits::inserted;
use crate::edits::lemma_inserted_shape;
use crate::edits::overwritten;
use crate::edits::removal_cut;
use crate::edits::removal_refused;
use crate::edits::removed;
use crate::edits::target_buffer;
use crate::error::Error;
use crate::guards::lemma_inserted_unguarded;
use crate::guards::lemma_split_unguarded;
use crate::guards::lemma_unguarded_removal;
use crate::guards::unguarded;
use crate::magic_buffer::MagicBuffer;
use crate::text::lemma_fresh_textual;
use crate::text::lemma_inserted_textual;
use crate::text::lemma_removed_textual;
use crate::text::lemma_split_textual;
use crate::text::lemma_textual_render;
use crate::text::textual;
use crate::text::textual_chunk;
use crate::tiling::lemma_split_tiles;
use crate::tiling::render;
use crate::tiling::split_chunks;
use crate::tiling::tiles;
use vstd::prelude::*;
use vstd::string::StringSliceAdditionalSpecFns;
use vstd::utf8::decode_utf8;
use vstd::utf8::encode_utf8_decode_utf8;
use vstd::utf8::encode_utf8_valid_utf8;
use vstd::utf8::is_char_boundary;
use vstd::utf8::is_char_boundary_start_end_of_seq;
use vstd::utf8::valid_utf8;

verus! {

/// The error of `String::from_utf8` in std. Nothing is read from it.
#[verifier::external_type_specification]
#[verifier::external_body]
pub struct ExFromUtf8Error(std::string::FromUtf8Error);

/// `String::from_utf8` in std turns bytes into a `String` without changing
/// them. It gives the string exactly when the bytes are valid UTF-8; the
/// string then holds the characters that the bytes encode.
pub assume_specification[ String::from_utf8 ](vec: Vec<u8>) -> (res: Result<
    String,
    std::string::FromUtf8Error,
>)
    ensures
        res is Ok <==> valid_utf8(vec@),
        res is Ok ==> res->Ok_0@ == decode_utf8(vec@),
;

/// The chunks after `bytes` were appended on the left of the boundary at
/// `index`: behind all that stands immediately before the boundary.
pub open spec fn appended_left(chunks: Seq<ChunkView>, index: int, bytes: Seq<u8>) -> Seq<
    ChunkView,
> {
    inserted(chunks, index, bytes, true, true, false)
}

/// The chunks after `bytes` were prepended on the left of the boundary at
/// `index`: before all that was inserted on the left of it so far.
pub open spec fn prepended_left(chunks: Seq<ChunkView>, index: int, bytes: Seq<u8>) -> Seq<
    ChunkView,
> {
    inserted(chunks, index, bytes, true, false, false)
}

/// The chunks after `bytes` were appended on the right of the boundary at
/// `index`: behind all that was inserted on the right of it so far.
pub open spec fn appended_right(chunks: Seq<ChunkView>, index: int, bytes: Seq<u8>) -> Seq<
    ChunkView,
> {
    inserted(chunks, index, bytes, false, true, false)
}

/// The chunks after `bytes` were prepended on the right of the boundary at
/// `index`: before all that stands immediately behind the boundary.
pub open spec fn prepended_right(chunks: Seq<ChunkView>, index: int, bytes: Seq<u8>) -> Seq<
    ChunkView,
> {
    inserted(chunks, index, bytes, false, false, false)
}

/// A text under edit. Offsets are byte offsets into the original text, and
/// they must lie on character boundaries for the result to be text.
pub struct MagicString<'a>(MagicBuffer<'a>);

impl<'a> View for MagicString<'a> {
    type V = Seq<ChunkView>;

    closed spec fn view(&self) -> Seq<ChunkView> {
        self.0@
    }
}

impl<'a> MagicString<'a> {
    /// The chunks tile the original text.
    pub open spec fn wf(&self) -> bool {
        tiles(self@)
    }

    /// No buffer holds essential content. A text takes no essential
    /// insertions, so this holds of every text that was made by `new` and
    /// edited by the operations below.
    pub open spec fn is_unguarded(&self) -> bool {
        unguarded(self@)
    }

    /// The bytes of the text that the value was made for.
    pub open spec fn original(&self) -> Seq<u8> {
        self@[0].original
    }

    /// The bytes that the text renders to with the edits made so far.
    pub open spec fn bytes(&self) -> Seq<u8> {
        render(self@)
    }

    /// Every edit so far was made between two characters of the original
    /// text: what the value renders to is text.
    pub open spec fn is_text(&self) -> bool {
        textual(self@)
    }

    /// `index` lies between two characters of the original text, or at one of
    /// its ends.
    pub open spec fn on_boundary(&self, index: int) -> bool {
        is_char_boundary(self.original(), index)
    }

    /// A text over `content` with no edits: it renders to `content`.
    pub fn new(content: &'a str) -> (text: MagicString<'a>)
        ensures
            text@ == seq![ChunkView::whole(content.spec_bytes())],
            text.wf(),
            text.is_unguarded(),
            text.original() == content.spec_bytes(),
            text.bytes() == content.spec_bytes(),
            text.is_text(),
            valid_utf8(text.bytes()),
            decode_utf8(text.bytes()) == content@,
    {
        proof {
            encode_utf8_valid_utf8(content@);
            encode_utf8_decode_utf8(content@);
            lemma_fresh_textual(content.spec_bytes());
        }
        MagicString(MagicBuffer::new(content.as_bytes()))
    }

    /// The number of bytes that the text renders to with the edits made so
    /// far.
    pub fn len(&self) -> (n: usize)
        ensures
            n == self.bytes().len(),
    {
        self.0.len()
    }

    /// Renders the text. The edits may have left bytes that are no text:
    /// that is reported.
    pub fn to_string(&self) -> (res: Result<String, Error>)
        ensures
            res is Ok <==> valid_utf8(self.bytes()),
            res is Ok ==> res->Ok_0@ == decode_utf8(self.bytes()),
            res is Err ==> res->Err_0 == Error::InvalidInternalState,
            self.is_text() ==> res is Ok,
    {
        proof {
            if self.is_text() {
                lemma_textual_render(self@);
            }
        }
        let bytes = match self.0.to_bytes() {
            Ok(bytes) => bytes,
            Err(e) => {
                return Err(e);
            },
        };
        match String::from_utf8(bytes) {
            Ok(s) => Ok(s),
            Err(_) => Err(Error::InvalidInternalState),
        }
    }

    /// Offsets into the text are byte offsets: they are taken as they come.
    fn get_byte_index(&self, index: usize) -> (res: Option<usize>)
        ensures
            res == Some(index),
    {
        Some(index)
    }

    /// Cuts the text at `index` and inserts `content` at the cut: on the
    /// left of it (`left`) or on the right, behind what was inserted on that
    /// side before (`append`) or before it.
    fn do_insert(
        &mut self,
        index: usize,
        content: &str,
        left: bool,
        append: bool,
        essential: bool,
    ) -> (res: Result<(), Error>)
        requires
            old(self).wf(),
        ensures
            final(self).wf(),
            !essential && old(self).is_unguarded() ==> final(self).is_unguarded(),
            old(self).is_text() && (index > old(self).original().len() || old(self).on_boundary(
                index as int,
            )) ==> final(self).is_text(),
            final(self).original() == old(self).original(),
            index > old(self).original().len() ==> res == Err::<(), Error>(
                Error::IndexOutOfBoundError(index),
            ) && final(self)@ == old(self)@,
            index <= old(self).original().len() ==> final(self)@ == inserted(
                old(self)@,
                index as int,
                content.spec_bytes(),
                left,
                append,
                essential,
            ) && (if essential && target_buffer(old(self)@, index as int, left) is None {
                res == Err::<(), Error>(
                    if append {
                        Error::EssentialContentCannotBeAppended
                    } else {
                        Error::EssentialContentCannotBePrepended
                    },
                )
            } else {
                res is Ok
            }),
    {
        let index: usize = match self.get_byte_index(index) {
            Some(i) => i,
            None => {
                return Err(Error::IndexOutOfBoundError(index));
            },
        };
        let ghost pre = self@;
        proof {
            self.0.lemma_view();
        }
        let bytes = content.as_bytes();
        let res = match self.0.chunks.slice(index) {
            Err(e) => Err(e),
            Ok(pair) => {
                if left {
                    if append {
                        pair.0.append(bytes, essential)
                    } else {
                        pair.0.prepend_to_right(bytes, essential)
                    }
                } else {
                    if append {
                        pair.1.append_to_left(bytes, essential)
                    } else {
                        pair.1.prepend(bytes, essential)
                    }
                }
            },
        };
        proof {
            self.0.lemma_view();
            if index <= pre[0].original.len() {
                lemma_split_tiles(pre, index as int);
                assert(self@ =~= inserted(
                    pre,
                    index as int,
                    bytes@,
                    left,
                    append,
                    essential,
                ));
                lemma_inserted_shape(pre, index as int, bytes@, left, append, essential);
                if textual(pre) && is_char_boundary(pre[0].original, index as int) {
                    encode_utf8_valid_utf8(content@);
                    lemma_inserted_textual(pre, index as int, bytes@, left, append, essential);
                }
                if !essential && unguarded(pre) {
                    lemma_inserted_unguarded(pre, index as int, bytes@, left, append);
                }
            }
        }
        res
    }

    /// Appends `content` on the left of the boundary at `index`: it comes to
    /// stand immediately before the boundary.
    pub fn append_left(&mut self, index: usize, content: &str) -> (res: Result<(), Error>)
        requires
            old(self).wf(),
        ensures
            final(self).wf(),
            final(self).original() == old(self).original(),
            old(self).is_unguarded() ==> final(self).is_unguarded(),
            old(self).is_text() && (res is Err || old(self).on_boundary(index as int))
                ==> final(self).is_text(),
            res is Err <==> index > old(self).original().len(),
            res is Err ==> res == Err::<(), Error>(Error::IndexOutOfBoundError(index)) && final(self)@
                == old(self)@,
            res is Ok ==> final(self)@ == appended_left(
                old(self)@,
                index as int,
                content.spec_bytes(),
            ),
    {
        self.do_insert(index, content, true, true, false)
    }

    /// Prepends `content` on the left of the boundary at `index`: it comes
    /// to stand before what was inserted on the left of the boundary.
    pub fn prepend_left(&mut self, index: usize, content: &str) -> (res: Result<(), Error>)
        requires
            old(self).wf(),
        ensures
            final(self).wf(),
            final(self).original() == old(self).original(),
            old(self).is_unguarded() ==> final(self).is_unguarded(),
            old(self).is_text() && (res is Err || old(self).on_boundary(index as int))
                ==> final(self).is_text(),
            res is Err <==> index > old(self).original().len(),
            res is Err ==> res == Err::<(), Error>(Error::IndexOutOfBoundError(index)) && final(self)@
                == old(self)@,
            res is Ok ==> final(self)@ == prepended_left(
                old(self)@,
                index as int,
                content.spec_bytes(),
            ),
    {
        self.do_insert(index, content, true, false, false)
    }

    /// Appends `content` on the right of the boundary at `index`: it comes
    /// to stand behind what was inserted on the right of the boundary.
    pub fn append_right(&mut self, index: usize, content: &str) -> (res: Result<(), Error>)
        requires
            old(self).wf(),
        ensures
            final(self).wf(),
            final(self).original() == old(self).original(),
            old(self).is_unguarded() ==> final(self).is_unguarded(),
            old(self).is_text() && (res is Err || old(self).on_boundary(index as int))
                ==> final(self).is_text(),
            res is Err <==> index > old(self).original().len(),
            res is Err ==> res == Err::<(), Error>(Error::IndexOutOfBoundError(index)) && final(self)@
                == old(self)@,
            res is Ok ==> final(self)@ == appended_right(
                old(self)@,
                index as int,
                content.spec_bytes(),
            ),
    {
        self.do_insert(index, content, false, true, false)
    }

    /// Prepends `content` on the right of the boundary at `index`: it comes
    /// to stand immediately behind the boundary.
    pub fn prepend_right(&mut self, index: usize, content: &str) -> (res: Result<(), Error>)
        requires
            old(self).wf(),
        ensures
            final(self).wf(),
            final(self).original() == old(self).original(),
            old(self).is_unguarded() ==> final(self).is_unguarded(),
            old(self).is_text() && (res is Err || old(self).on_boundary(index as int))
                ==> final(self).is_text(),
            res is Err <==> index > old(self).original().len(),
            res is Err ==> res == Err::<(), Error>(Error::IndexOutOfBoundError(index)) && final(self)@
                == old(self)@,
            res is Ok ==> final(self)@ == prepended_right(
                old(self)@,
                index as int,
                content.spec_bytes(),
            ),
    {
        self.do_insert(index, content, false, false, false)
    }

    /// Puts `content` before everything: before the start of the original
    /// text and all that was inserted there on the left.
    pub fn prepend(&mut self, content: &str) -> (res: Result<(), Error>)
        requires
            old(self).wf(),
        ensures
            final(self).wf(),
            final(self).original() == old(self).original(),
            old(self).is_unguarded() ==> final(self).is_unguarded(),
            old(self).is_text() ==> final(self).is_text(),
            res is Ok,
            final(self)@ == prepended_left(old(self)@, 0, content.spec_bytes()),
    {
        proof {
            if self.is_text() {
                assert(textual_chunk(self@[0]));
                is_char_boundary_start_end_of_seq(self.original());
            }
        }
        self.prepend_left(0, content)
    }

    /// Puts `content` behind everything: behind the end of the original
    /// text and all that was inserted there on the right.
    pub fn append(&mut self, content: &str) -> (res: Result<(), Error>)
        requires
            old(self).wf(),
        ensures
            final(self).wf(),
            final(self).original() == old(self).original(),
            old(self).is_unguarded() ==> final(self).is_unguarded(),
            old(self).is_text() ==> final(self).is_text(),
            res is Ok,
            final(self)@ == appended_right(
                old(self)@,
                old(self).original().len() as int,
                content.spec_bytes(),
            ),
    {
        proof {
            if self.is_text() {
                assert(textual_chunk(self@[0]));
                is_char_boundary_start_end_of_seq(self.original());
            }
        }
        let end: usize = self.0.original_len();
        self.append_right(end, content)
    }

    /// Replaces the bytes from `start` up to `end`, `end` excluded, by
    /// `content`: removes them, then appends `content` on the right of the
    /// boundary at `start`.
    ///
    /// Where the removal is refused, for an offset out of bounds or for
    /// essential content in the range, nothing is inserted, and the text
    /// renders as before. Once the removal is made the insertion cannot
    /// fail, so no text is left removed but not replaced.
    pub fn overwrite(&mut self, start: usize, end: usize, content: &str) -> (res: Result<
        (),
        Error,
    >)
        requires
            old(self).wf(),
        ensures
            final(self).wf(),
            final(self).original() == old(self).original(),
            old(self).is_unguarded() ==> final(self).is_unguarded(),
            old(self).is_text() && old(self).on_boundary(start as int) && (end > old(
                self
            ).original().len() || old(self).on_boundary(end as int)) ==> final(self).is_text(),
            start > old(self).original().len() ==> res == Err::<(), Error>(
                Error::IndexOutOfBoundError(start),
            ) && final(self)@ == old(self)@,
            start <= old(self).original().len() < end ==> res == Err::<(), Error>(
                Error::IndexOutOfBoundError(end),
            ) && final(self)@ == split_chunks(old(self)@, start as int),
            start <= old(self).original().len() && end <= old(self).original().len() ==> (
            if removal_refused(old(self)@, start as int, end as int) {
                res == Err::<(), Error>(Error::ContentShouldNotBeRemoved) && final(self)@
                    == removal_cut(old(self)@, start as int, end as int)
            } else {
                res is Ok && final(self)@ == overwritten(
                    old(self)@,
                    start as int,
                    end as int,
                    content.spec_bytes(),
                )
            }),
            old(self).is_unguarded() && start <= old(self).original().len() && end <= old(
                self
            ).original().len() ==> res is Ok,
            res is Err ==> final(self).bytes() == old(self).bytes(),
    {
        match self.remove(start, end) {
            Err(e) => {
                return Err(e);
            },
            Ok(()) => {},
        }
        self.append_right(start, content)
    }

    /// Removes the bytes from `start` up to `end`, `end` excluded, and what
    /// was inserted between them.
    ///
    /// The text is cut at `start` and at `end`. Then the removal is checked
    /// as a whole, and only then made: where it would discard essential
    /// content it is refused, and the text renders as before. A text that
    /// holds no essential content refuses a removal only for an offset out
    /// of bounds. With `start` behind `end` nothing is removed.
    pub fn remove(&mut self, start: usize, end: usize) -> (res: Result<(), Error>)
        requires
            old(self).wf(),
        ensures
            final(self).wf(),
            final(self).original() == old(self).original(),
            old(self).is_unguarded() ==> final(self).is_unguarded(),
            old(self).is_text() && old(self).on_boundary(start as int) && (end > old(
                self
            ).original().len() || old(self).on_boundary(end as int)) ==> final(self).is_text(),
            start > old(self).original().len() ==> res == Err::<(), Error>(
                Error::IndexOutOfBoundError(start),
            ) && final(self)@ == old(self)@,
            start <= old(self).original().len() < end ==> res == Err::<(), Error>(
                Error::IndexOutOfBoundError(end),
            ) && final(self)@ == split_chunks(old(self)@, start as int),
            start <= old(self).original().len() && end <= old(self).original().len() ==> (
            if removal_refused(old(self)@, start as int, end as int) {
                res == Err::<(), Error>(Error::ContentShouldNotBeRemoved) && final(self)@
                    == removal_cut(old(self)@, start as int, end as int)
            } else {
                res is Ok && final(self)@ == removed(old(self)@, start as int, end as int)
            }),
            old(self).is_unguarded() && start <= old(self).original().len() && end <= old(
                self
            ).original().len() ==> res is Ok,
            res is Err ==> final(self).bytes() == old(self).bytes(),
    {
        proof {
            if start <= self.original().len() {
                lemma_split_tiles(self@, start as int);
                if self.is_unguarded() {
                    lemma_split_unguarded(self@, start as int);
                    if end <= self.original().len() {
                        lemma_unguarded_removal(self@, start as int, end as int);
                    }
                }
                if self.is_text() && self.on_boundary(start as int) {
                    lemma_split_textual(self@, start as int);
                    if end <= self.original().len() && self.on_boundary(end as int) {
                        lemma_removed_textual(self@, start as int, end as int);
                    }
                }
            }
        }
        self.0.remove(start, end)
    }
}

} // verus!
