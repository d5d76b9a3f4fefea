//! The entry record produced for each item of a feed, and the normalization
//! pass that resolves entity-encoded text into display text.
#![allow(unused_imports)]
use vstd::prelude::*;

use crate::events::FeedEvent;
use crate::FeedError;
use crate::FormatText;

verus! {

/// The mathematical value of an [`Entry`]: its three text fields.
pub ghost struct EntryModel {
    pub title: Seq<char>,
    pub description: Seq<char>,
    pub content: Seq<char>,
}

/// One feed item: a short summary in `description`, the full body in
/// `content` (which may repeat the summary when no richer source exists).
#[derive(Debug, Clone, PartialEq, Eq)]
pub struct Entry {
    pub title: String,
    pub description: String,
    pub content: String,
}

impl View for Entry {
    type V = EntryModel;

    open spec fn view(&self) -> EntryModel {
        EntryModel { title: self.title@, description: self.description@, content: self.content@ }
    }
}

/// The model with all three fields empty.
pub open spec fn empty_entry_model() -> EntryModel {
    EntryModel { title: Seq::empty(), description: Seq::empty(), content: Seq::empty() }
}

/// What entity decoding returns for a given raw text: numeric and named
/// character references resolved into their characters.  The result is a
/// function of the input characters alone.
pub uninterp spec fn entity_decoded(raw: Seq<char>) -> Seq<char>;

/// Relies on `htmlentity::entity::decode` and
/// `htmlentity::entity::ICodedDataTrait::to_chars`: the decoded characters
/// are computed from the input characters alone.  The conversion back to
/// characters cannot fail here: entity spans are delimited by the ASCII
/// `&` and `;`, so the non-entity spans of the input, which is already
/// valid text, remain valid text.
#[verifier::external_body]
fn decode_entities(s: &str) -> (r: Result<String, FeedError>)
    ensures
        r is Ok,
        r matches Ok(d) ==> d@ == entity_decoded(s@),
{
    let decoded = htmlentity::entity::decode(s.as_bytes());
    match htmlentity::entity::ICodedDataTrait::to_chars(&decoded) {
        Ok(cs) => Ok(cs.into_iter().collect::<String>()),
        Err(_) => Err(FeedError::Utf8),
    }
}

/// The normalized form of a raw entry: every field entity-decoded exactly
/// once, and one trailing line terminator stripped from the decoded title
/// (from the title alone).
pub open spec fn normalized_entry(raw: EntryModel, n: EntryModel) -> bool {
    &&& n.title == crate::text::strip_newline_spec(entity_decoded(raw.title))
    &&& n.description == entity_decoded(raw.description)
    &&& n.content == entity_decoded(raw.content)
}

/// One entry normalized; normalization always succeeds.
fn normalize_entry(e: &Entry) -> (r: Result<Entry, FeedError>)
    ensures
        r matches Ok(n) && normalized_entry(e@, n@),
{
    let title = match decode_entities(e.title.as_str()) {
        Ok(t) => t,
        Err(err) => {
            return Err(err);
        },
    };
    let description = match decode_entities(e.description.as_str()) {
        Ok(t) => t,
        Err(err) => {
            return Err(err);
        },
    };
    let content = match decode_entities(e.content.as_str()) {
        Ok(t) => t,
        Err(err) => {
            return Err(err);
        },
    };
    Ok(Entry { title: title.strip_trailing_newline(), description, content })
}

/// Every entry normalized, in order, as [`normalized_entry`] describes;
/// normalization always succeeds.
pub fn normalize_entries(entries: &Vec<Entry>) -> (r: Result<Vec<Entry>, FeedError>)
    ensures
        r matches Ok(ns) && ns@.len() == entries@.len() && (forall|i: int|
            0 <= i < ns@.len() ==> normalized_entry(entries@[i]@, (#[trigger] ns@[i])@)),
{
    let mut out: Vec<Entry> = Vec::new();
    let mut i: usize = 0;
    while i < entries.len()
        invariant
            i <= entries@.len(),
            out@.len() == i,
            forall|j: int| 0 <= j < i ==> normalized_entry(entries@[j]@, (#[trigger] out@[j])@),
        decreases entries@.len() - i,
    {
        match normalize_entry(&entries[i]) {
            Ok(n) => {
                out.push(n);
            },
            Err(err) => {
                return Err(err);
            },
        }
        i = i + 1;
    }
    Ok(out)
}

/// The whole ingestion pipeline over one document: the entries that the
/// document scan of [`crate::reader::top_scan`] extracts from the named
/// event stream of the text, each normalized as [`normalized_entry`]
/// describes.  The result is a function of the text alone: success is owed
/// exactly when the stream reads cleanly, and malformed markup yields the
/// syntax failure and no partial entry list.
pub fn load_entries(xml: &str) -> (r: Result<Vec<Entry>, FeedError>)
    ensures
        crate::reader::document_events(xml@) matches Ok(evs) ==> r matches Ok(ns)
            && ns@.len() == crate::reader::top_scan(evs, 0).len() && (forall|i: int|
            0 <= i < crate::reader::top_scan(evs, 0).len() ==> normalized_entry(
                crate::reader::top_scan(evs, 0)[i],
                (#[trigger] ns@[i])@,
            )),
        crate::reader::document_events(xml@) matches Err(e) ==> r == Err::<Vec<Entry>, FeedError>(
            e,
        ),
        r matches Err(err) ==> err == FeedError::Syntax,
{
    let raw = match crate::reader::read_entries(xml) {
        Ok(v) => v,
        Err(err) => {
            return Err(err);
        },
    };
    let out = match normalize_entries(&raw) {
        Ok(v) => v,
        Err(err) => {
            return Err(err);
        },
    };
    proof {
        match crate::reader::document_events(xml@) {
            Ok(evs) => {
                let models = crate::reader::top_scan(evs, 0);
                assert(crate::reader::models_of(raw@) == models);
                assert(out@.len() == models.len());
                assert forall|i: int| 0 <= i < models.len() implies normalized_entry(
                    models[i],
                    (#[trigger] out@[i])@,
                ) by {
                    assert(crate::reader::models_of(raw@)[i] == raw@[i]@);
                    assert(normalized_entry(raw@[i]@, out@[i]@));
                }
            },
            Err(_) => {
                assert(false);
            },
        }
    }
    Ok(out)
}

} // verus!
