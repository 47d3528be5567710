//! An annotated hexadecimal dump library.
//!
//! A byte buffer is rendered as 16-byte rows of hexadecimal, and labeled
//! byte ranges ([`render::Annotation`]) are drawn beneath the rows as
//! box-drawing underlines.  A compact type-specification language
//! (`u16:field`, `.8`, ...) compiles, against a buffer and a byte order,
//! into such annotations with the decoded values in their labels.

pub mod codec;
pub mod color;
pub mod errors;
pub mod floattext;
pub mod laws;
pub mod numtext;
pub mod render;
pub mod typespec;
