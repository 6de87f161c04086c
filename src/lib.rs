//! A line-oriented text buffer with a caret, and the conversion between the
//! bytes of a plain-text file and the buffer's lines.

pub mod codec;
pub mod doc_handler;
