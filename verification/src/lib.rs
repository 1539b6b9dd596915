//! Lossy decoding of byte buffers that are meant to hold UTF-8 text.
//!
//! A buffer is cut into chunks, each a run of well-formed text followed by
//! the consumed bytes of one ill-formed sequence. Two renderers read the
//! chunks: one replaces every ill-formed run by U+FFFD, the other quotes the
//! buffer for diagnostics.

pub mod chunks;
pub mod grammar;
pub mod lossy;
pub mod render;
