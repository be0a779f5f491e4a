//! Turns a Markdown document holding specially formatted snippet blocks into
//! typed records suitable for an editor-snippet database.
//!
//! A snippet block is a `#` header line carrying `identifier/prefix/scope`,
//! followed by a description paragraph and a fenced code region. The
//! [`grammar`] module defines that shape once, as a mathematical predicate
//! over character sequences, and provides the verified scanner; [`lines`]
//! trims and splits the captured regions; [`snip`] builds owned
//! [`snip::Snippet`] records from raw block text; [`record`] holds the
//! flat record shape handed to a serializer.

pub mod grammar;
pub mod lines;
pub mod record;
pub mod snip;
