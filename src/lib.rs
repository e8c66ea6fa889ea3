//! Zero-copy parsing of SIP messages: a raw byte buffer is classified into a
//! request or reply first line, an ordered list of header lines and an
//! optional body, each held as a range of the caller's buffer.

pub mod laws;
pub mod message;
pub mod parser;
pub mod scan;
