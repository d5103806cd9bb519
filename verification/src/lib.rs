//! Tools for the text of word-processing documents.
//!
//! A document is a package of XML parts. The text that a reader sees as one
//! paragraph is scattered over many small runs in the markup. This library
//! reads a part once, event by event, puts the text of each paragraph
//! together, finds the matches of a regular expression in it, and hands the
//! replacement out to the runs that a match lies in; the part is then
//! written out again, changed only where a run changed. It also rewrites
//! the values of attributes: the targets of links, and the styles of
//! paragraphs.
//!
//! The library works on bytes and texts that are handed to it; it reads and
//! writes no file. What it relies on of the XML tokenizer, the
//! regular-expression engine and the comparison without regard to case is
//! stated in the modules `xml`, `pattern` and `caseless`.

pub mod attrs;
pub mod bytes;
pub mod caseless;
pub mod dictionary;
pub mod error;
pub mod file_util;
pub mod listing;
pub mod lookup;
pub mod names;
pub mod package;
pub mod passes;
pub mod placement;
pub mod pattern;
pub mod plan;
pub mod reconstruct;
pub mod replace;
pub mod soundness;
pub mod spans;
pub mod stream;
pub mod styles;
pub mod text;
pub mod written;
pub mod xml;
pub mod xml_util;
pub mod zip_util;
