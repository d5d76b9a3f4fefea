//! A verified core for a syndication feed reader.
//!
//! The library walks the structural events of a feed document (RSS 2.0, Atom,
//! and RDF media-extension variants), extracts entries by field-precedence
//! rules, normalizes entity-encoded text, and keeps the user's subscribed
//! feed list together with its JSON persistence format.
#![allow(unused_imports)]
use vstd::prelude::*;

pub mod entries;
pub mod events;
pub mod feeds;
pub mod reader;
pub mod store;
pub mod text;

verus! {

/// The failure kinds the library reports: malformed markup, text that is not
/// valid Unicode, a store document that does not deserialize, and a file
/// system failure (raised only by unverified callers that do the actual I/O).
#[derive(Debug, Clone, Copy, PartialEq, Eq)]
pub enum FeedError {
    Syntax,
    Utf8,
    Serialization,
    Io,
}

/// Text cleanup applied to display strings.
pub trait FormatText: View<V = Seq<char>> + Sized {
    /// Removes one trailing line terminator, if any: a final `"\r\n"` loses
    /// both characters, otherwise a final `"\n"` loses that character alone.
    fn strip_trailing_newline(&self) -> (r: Self)
        ensures
            r@ == crate::text::strip_newline_spec(self@),
    ;
}

impl FormatText for String {
    fn strip_trailing_newline(&self) -> (r: String) {
        let n = self.as_str().unicode_len();
        if n >= 2 && self.as_str().get_char(n - 2) == '\r' && self.as_str().get_char(n - 1) == '\n'
        {
            let stripped = self.as_str().substring_char(0, n - 2);
            stripped.to_owned()
        } else if n >= 1 && self.as_str().get_char(n - 1) == '\n' {
            let stripped = self.as_str().substring_char(0, n - 1);
            stripped.to_owned()
        } else {
            self.clone()
        }
    }
}

} // verus!
