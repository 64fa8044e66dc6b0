//! An incremental byte and text editing engine.
//!
//! An immutable original buffer is partitioned into chunks. Insertions are
//! anchored to chunk boundaries, removals mark parts of chunks as discarded,
//! and the edited output is rendered by concatenating the chunks in order.
//!
//! - [`chunk`]: one chunk, its value and its operations.
//! - [`tiling`]: what a sequence of chunks is, where it is cut, and what it
//!   renders to.
//! - [`chunk_list`]: the list of chunks of one buffer.
//! - [`edits`]: what insertions, removals and replacements do to the chunks.
//! - [`magic_buffer`]: the byte buffer.
//! - [`magic_string`]: the text buffer.
//! - [`rendering`]: what the edits do to the rendered bytes.
//! - [`guards`]: what essential content does to removals.
//! - [`text`]: when the rendered bytes are text.

pub mod chunk;
pub mod chunk_list;
pub mod edits;
pub mod error;
pub mod guards;
pub mod magic_buffer;
pub mod magic_string;
pub mod rendering;
pub mod text;
pub mod tiling;

pub use crate::magic_buffer::MagicBuffer;
pub use crate::magic_string::MagicString;
