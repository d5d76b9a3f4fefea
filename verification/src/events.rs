//! The structural events of a feed document, as the extractor consumes them.
//!
//! A tokenizer produces one `FeedEvent` per markup construct.  Text is kept
//! in its raw, entity-encoded form: character references arrive as
//! `EntityRef` events and CDATA sections as `CData` events, so the extractor
//! can reassemble the literal text that entity decoding later resolves.
#![allow(unused_imports)]
use vstd::prelude::*;

verus! {

/// One structural event of a feed document.
#[derive(Debug, Clone, PartialEq, Eq)]
pub enum FeedEvent {
    /// An opening tag, with its full qualified name.
    Start(String),
    /// A closing tag, with its full qualified name.
    End(String),
    /// A run of raw character data, entity references excluded.
    Text(String),
    /// The contents of a CDATA section, without its delimiters.
    CData(String),
    /// A character or entity reference, without the `&` and `;` delimiters.
    EntityRef(String),
    /// The end of the document.
    Eof,
    /// Any other construct (a comment, a declaration, an empty tag, ...).
    Other,
}

} // verus!
