//! A writer for streams of EBML tags.
//!
//! A tag is an id, the size of a payload, and the payload; the payload of a
//! container is a sequence of tags.  [`TagWriter`] takes a stream of tags,
//! whole or piece by piece, and hands out the octets of each outermost tag when
//! it is complete.
//!
//! - [`tags`]: the tags, and their mathematical values.
//! - [`tools`]: big-endian digits and vints.
//! - [`wire`]: the octets of ids, payloads and tags.
//! - [`state`]: the steps of the writer, as a function of its state.
//! - [`tag_writer`]: the writer.
//! - [`stream`]: a tag written piece by piece comes out as the tag written
//!   whole.
//! - [`reader`]: what a reader makes of the octets, and that it reads back what
//!   was written.

pub mod errors;
pub mod reader;
pub mod state;
pub mod stream;
pub mod tag_writer;
pub mod tags;
pub mod tools;
pub mod wire;

pub use tag_writer::TagWriter;
