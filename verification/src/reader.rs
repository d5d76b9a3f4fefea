//! The dialect-tolerant extractor: walks the structural events of a feed
//! document and produces its entries and its display name.
//!
//! Three scans share the event list.  The top-level scan recognizes bare
//! `item`/`entry` elements and `channel`/`feed` containers; the container
//! scan recognizes the entries nested in a container; the entry scan fills
//! one entry's fields by source-tag precedence, concatenating repeated
//! sources in encounter order.  Every scan also stops at the end of the
//! event list, so a truncated document still yields what was collected.
#![allow(unused_imports)]
use vstd::prelude::*;
use vstd::string::*;

use crate::entries::{empty_entry_model, Entry, EntryModel};
use crate::events::FeedEvent;
use crate::text::{contains_marker, remove_marks, str_eq};
use crate::FeedError;
use quick_xml::events::Event as XmlEvent;

verus! {

/// The tag names that open one entry.
pub open spec fn is_entry_tag(n: Seq<char>) -> bool {
    n == "item"@ || n == "entry"@
}

/// The tag names that open a container of entries.
pub open spec fn is_container_tag(n: Seq<char>) -> bool {
    n == "channel"@ || n == "feed"@
}

/// The source tags whose text feeds an entry's title.
pub open spec fn is_title_source(n: Seq<char>) -> bool {
    n == "title"@ || n == "media:title"@
}

/// The source tags whose text feeds an entry's description.
pub open spec fn is_description_source(n: Seq<char>) -> bool {
    n == "description"@ || n == "summary"@ || n == "media:description"@
}

/// The source tags whose text feeds an entry's content.
pub open spec fn is_content_source(n: Seq<char>) -> bool {
    n == "content"@ || n == "content:encoded"@ || n == "media:content"@
}

/// Any recognized source tag of an entry.
pub open spec fn is_source_tag(n: Seq<char>) -> bool {
    is_title_source(n) || is_description_source(n) || is_content_source(n)
}

/// The literal opening CDATA delimiter.
pub open spec fn cdata_open_marker() -> Seq<char> {
    "<![CDATA["@
}

/// The literal closing CDATA delimiter.
pub open spec fn cdata_close_marker() -> Seq<char> {
    "]]>"@
}

/// The text of one element: every textual event until the matching end tag
/// (or the end of the document), in order.  CDATA sections keep their
/// literal delimiters and references keep their `&`/`;` frame, reproducing
/// the raw text that entity decoding and CDATA cleanup later resolve.
/// Returns the text and the position after the element.
pub open spec fn elem_text(evs: Seq<FeedEvent>, i: int, name: Seq<char>) -> (Seq<char>, int)
    decreases evs.len() - i,
{
    if i < 0 || i >= evs.len() {
        (Seq::<char>::empty(), evs.len() as int)
    } else {
        match evs[i] {
            FeedEvent::End(n) => {
                if n@ == name {
                    (Seq::<char>::empty(), i + 1)
                } else {
                    elem_text(evs, i + 1, name)
                }
            },
            FeedEvent::Text(t) => {
                let rest = elem_text(evs, i + 1, name);
                (t@ + rest.0, rest.1)
            },
            FeedEvent::CData(t) => {
                let rest = elem_text(evs, i + 1, name);
                (cdata_open_marker() + t@ + cdata_close_marker() + rest.0, rest.1)
            },
            FeedEvent::EntityRef(t) => {
                let rest = elem_text(evs, i + 1, name);
                ("&"@ + t@ + ";"@ + rest.0, rest.1)
            },
            _ => elem_text(evs, i + 1, name),
        }
    }
}

/// The element-text scan never moves backwards and never runs past the end.
pub proof fn lemma_elem_text_bounds(evs: Seq<FeedEvent>, i: int, name: Seq<char>)
    requires
        0 <= i <= evs.len(),
    ensures
        i <= elem_text(evs, i, name).1 <= evs.len(),
    decreases evs.len() - i,
{
    if i < evs.len() {
        lemma_elem_text_bounds(evs, i + 1, name);
    }
}

/// The given source text prepended to the field of `m` that the tag `n`
/// feeds; the other fields are kept.
pub open spec fn add_field(n: Seq<char>, txt: Seq<char>, m: EntryModel) -> EntryModel {
    if is_title_source(n) {
        EntryModel { title: txt + m.title, description: m.description, content: m.content }
    } else if is_description_source(n) {
        EntryModel { title: m.title, description: txt + m.description, content: m.content }
    } else {
        EntryModel { title: m.title, description: m.description, content: txt + m.content }
    }
}

/// One entry, read from position `i` until the end tag of an `item` or
/// `entry` element or the end of the document.  Each recognized source tag
/// contributes its element text to its target field, repeated sources
/// concatenating in encounter order; unrecognized tags are skipped without
/// consuming their text.  Returns the entry and the position after it.
pub open spec fn entry_scan(evs: Seq<FeedEvent>, i: int) -> (EntryModel, int)
    decreases evs.len() - i,
        via entry_scan_decreases
{
    if i < 0 || i >= evs.len() {
        (empty_entry_model(), evs.len() as int)
    } else {
        match evs[i] {
            FeedEvent::Start(n) => {
                if is_source_tag(n@) {
                    let picked = elem_text(evs, i + 1, n@);
                    let rest = entry_scan(evs, picked.1);
                    (add_field(n@, picked.0, rest.0), rest.1)
                } else {
                    entry_scan(evs, i + 1)
                }
            },
            FeedEvent::End(n) => {
                if is_entry_tag(n@) {
                    (empty_entry_model(), i + 1)
                } else {
                    entry_scan(evs, i + 1)
                }
            },
            _ => entry_scan(evs, i + 1),
        }
    }
}

#[via_fn]
proof fn entry_scan_decreases(evs: Seq<FeedEvent>, i: int) {
    if 0 <= i < evs.len() {
        match evs[i] {
            FeedEvent::Start(n) => {
                lemma_elem_text_bounds(evs, i + 1, n@);
            },
            _ => {},
        }
    }
}

/// The entry scan never moves backwards and never runs past the end.
pub proof fn lemma_entry_scan_bounds(evs: Seq<FeedEvent>, i: int)
    requires
        0 <= i <= evs.len(),
    ensures
        i <= entry_scan(evs, i).1 <= evs.len(),
    decreases evs.len() - i,
{
    if i < evs.len() {
        match evs[i] {
            FeedEvent::Start(n) => {
                if is_source_tag(n@) {
                    lemma_elem_text_bounds(evs, i + 1, n@);
                    lemma_entry_scan_bounds(evs, elem_text(evs, i + 1, n@).1);
                } else {
                    lemma_entry_scan_bounds(evs, i + 1);
                }
            },
            _ => {
                lemma_entry_scan_bounds(evs, i + 1);
            },
        }
    }
}

/// The entries nested in a `channel`/`feed` container, from position `i`
/// until the container's end tag or the end of the document.  Both `item`
/// and `entry` elements are recognized.  Returns the entries and the
/// position after the container.
pub open spec fn container_scan(evs: Seq<FeedEvent>, i: int) -> (Seq<EntryModel>, int)
    decreases evs.len() - i,
        via container_scan_decreases
{
    if i < 0 || i >= evs.len() {
        (Seq::<EntryModel>::empty(), evs.len() as int)
    } else {
        match evs[i] {
            FeedEvent::Start(n) => {
                if is_entry_tag(n@) {
                    let e = entry_scan(evs, i + 1);
                    let rest = container_scan(evs, e.1);
                    (seq![e.0] + rest.0, rest.1)
                } else {
                    container_scan(evs, i + 1)
                }
            },
            FeedEvent::End(n) => {
                if is_container_tag(n@) {
                    (Seq::<EntryModel>::empty(), i + 1)
                } else {
                    container_scan(evs, i + 1)
                }
            },
            _ => container_scan(evs, i + 1),
        }
    }
}

#[via_fn]
proof fn container_scan_decreases(evs: Seq<FeedEvent>, i: int) {
    if 0 <= i < evs.len() {
        match evs[i] {
            FeedEvent::Start(n) => {
                if is_entry_tag(n@) {
                    lemma_entry_scan_bounds(evs, i + 1);
                }
            },
            _ => {},
        }
    }
}

/// The container scan never moves backwards and never runs past the end.
pub proof fn lemma_container_scan_bounds(evs: Seq<FeedEvent>, i: int)
    requires
        0 <= i <= evs.len(),
    ensures
        i <= container_scan(evs, i).1 <= evs.len(),
    decreases evs.len() - i,
{
    if i < evs.len() {
        match evs[i] {
            FeedEvent::Start(n) => {
                if is_entry_tag(n@) {
                    lemma_entry_scan_bounds(evs, i + 1);
                    lemma_container_scan_bounds(evs, entry_scan(evs, i + 1).1);
                } else {
                    lemma_container_scan_bounds(evs, i + 1);
                }
            },
            _ => {
                lemma_container_scan_bounds(evs, i + 1);
            },
        }
    }
}

/// Every occurrence of the literal CDATA delimiters removed, the closing
/// marker first, as the content cleanup does.
pub open spec fn clean_spec(s: Seq<char>) -> Seq<char> {
    remove_marks(remove_marks(s, cdata_close_marker()), cdata_open_marker())
}

/// The model with CDATA-delimiter cleanup applied to its content field; the
/// title and description are kept as collected.
pub open spec fn clean_entry_model(m: EntryModel) -> EntryModel {
    EntryModel { title: m.title, description: m.description, content: clean_spec(m.content) }
}

/// The entries of a whole document, scanning top-level start tags: a bare
/// `item`/`entry` element yields one entry, a `channel`/`feed` container
/// yields its nested entries, and every other event is skipped.  Each
/// entry's content has the CDATA-delimiter cleanup applied before it is
/// returned.
pub open spec fn top_scan(evs: Seq<FeedEvent>, i: int) -> Seq<EntryModel>
    decreases evs.len() - i,
        via top_scan_decreases
{
    if i < 0 || i >= evs.len() {
        Seq::<EntryModel>::empty()
    } else {
        match evs[i] {
            FeedEvent::Start(n) => {
                if is_entry_tag(n@) {
                    let e = entry_scan(evs, i + 1);
                    seq![clean_entry_model(e.0)] + top_scan(evs, e.1)
                } else if is_container_tag(n@) {
                    let c = container_scan(evs, i + 1);
                    c.0.map_values(|m: EntryModel| clean_entry_model(m)) + top_scan(evs, c.1)
                } else {
                    top_scan(evs, i + 1)
                }
            },
            _ => top_scan(evs, i + 1),
        }
    }
}

#[via_fn]
proof fn top_scan_decreases(evs: Seq<FeedEvent>, i: int) {
    if 0 <= i < evs.len() {
        match evs[i] {
            FeedEvent::Start(n) => {
                if is_entry_tag(n@) {
                    lemma_entry_scan_bounds(evs, i + 1);
                } else if is_container_tag(n@) {
                    lemma_container_scan_bounds(evs, i + 1);
                }
            },
            _ => {},
        }
    }
}

/// The text of the first `name` child found from position `i`, searching
/// only within the entered `container` element: the scan returns that
/// element's text, or empty text when the container's end tag, a stray
/// `name` end tag, or the end of the document comes first.
pub open spec fn child_text(
    evs: Seq<FeedEvent>,
    i: int,
    name: Seq<char>,
    container: Seq<char>,
) -> Seq<char>
    decreases evs.len() - i,
{
    if i < 0 || i >= evs.len() {
        Seq::<char>::empty()
    } else {
        match evs[i] {
            FeedEvent::Start(n) => {
                if n@ == name {
                    elem_text(evs, i + 1, name).0
                } else {
                    child_text(evs, i + 1, name, container)
                }
            },
            FeedEvent::End(n) => {
                if n@ == name || n@ == container {
                    Seq::<char>::empty()
                } else {
                    child_text(evs, i + 1, name, container)
                }
            },
            _ => child_text(evs, i + 1, name, container),
        }
    }
}

/// The number of `item`/`entry` start tags that the container scan
/// recognizes from position `i`, with the position after the container.
pub open spec fn container_entry_starts(evs: Seq<FeedEvent>, i: int) -> (nat, int)
    decreases evs.len() - i,
        via container_entry_starts_decreases
{
    if i < 0 || i >= evs.len() {
        (0nat, evs.len() as int)
    } else {
        match evs[i] {
            FeedEvent::Start(n) => {
                if is_entry_tag(n@) {
                    let e = entry_scan(evs, i + 1);
                    let rest = container_entry_starts(evs, e.1);
                    ((1 + rest.0) as nat, rest.1)
                } else {
                    container_entry_starts(evs, i + 1)
                }
            },
            FeedEvent::End(n) => {
                if is_container_tag(n@) {
                    (0nat, i + 1)
                } else {
                    container_entry_starts(evs, i + 1)
                }
            },
            _ => container_entry_starts(evs, i + 1),
        }
    }
}

#[via_fn]
proof fn container_entry_starts_decreases(evs: Seq<FeedEvent>, i: int) {
    if 0 <= i < evs.len() {
        match evs[i] {
            FeedEvent::Start(n) => {
                if is_entry_tag(n@) {
                    lemma_entry_scan_bounds(evs, i + 1);
                }
            },
            _ => {},
        }
    }
}

/// The number of `item`/`entry` start tags that the document scan
/// recognizes from position `i`, at top level or nested in a recognized
/// container.
pub open spec fn recognized_entry_starts(evs: Seq<FeedEvent>, i: int) -> nat
    decreases evs.len() - i,
        via recognized_entry_starts_decreases
{
    if i < 0 || i >= evs.len() {
        0nat
    } else {
        match evs[i] {
            FeedEvent::Start(n) => {
                if is_entry_tag(n@) {
                    let e = entry_scan(evs, i + 1);
                    (1 + recognized_entry_starts(evs, e.1)) as nat
                } else if is_container_tag(n@) {
                    let c = container_entry_starts(evs, i + 1);
                    (c.0 + recognized_entry_starts(evs, c.1)) as nat
                } else {
                    recognized_entry_starts(evs, i + 1)
                }
            },
            _ => recognized_entry_starts(evs, i + 1),
        }
    }
}

#[via_fn]
proof fn recognized_entry_starts_decreases(evs: Seq<FeedEvent>, i: int) {
    if 0 <= i < evs.len() {
        match evs[i] {
            FeedEvent::Start(n) => {
                if is_entry_tag(n@) {
                    lemma_entry_scan_bounds(evs, i + 1);
                } else if is_container_tag(n@) {
                    lemma_container_entry_starts_position(evs, i + 1);
                }
            },
            _ => {},
        }
    }
}

/// The count scan of a container stops exactly where the container scan
/// stops, and counts one per collected entry.
pub proof fn lemma_container_entry_starts_position(evs: Seq<FeedEvent>, i: int)
    requires
        0 <= i <= evs.len(),
    ensures
        container_entry_starts(evs, i).1 == container_scan(evs, i).1,
        container_entry_starts(evs, i).0 == container_scan(evs, i).0.len(),
        i <= container_entry_starts(evs, i).1 <= evs.len(),
    decreases evs.len() - i,
{
    if i < evs.len() {
        match evs[i] {
            FeedEvent::Start(n) => {
                if is_entry_tag(n@) {
                    lemma_entry_scan_bounds(evs, i + 1);
                    lemma_container_entry_starts_position(evs, entry_scan(evs, i + 1).1);
                } else {
                    lemma_container_entry_starts_position(evs, i + 1);
                }
            },
            _ => {
                lemma_container_entry_starts_position(evs, i + 1);
            },
        }
    }
}

proof fn lemma_top_scan_counts_entry_starts(evs: Seq<FeedEvent>, i: int)
    requires
        0 <= i <= evs.len(),
    ensures
        top_scan(evs, i).len() == recognized_entry_starts(evs, i),
    decreases evs.len() - i,
{
    if i < evs.len() {
        match evs[i] {
            FeedEvent::Start(n) => {
                if is_entry_tag(n@) {
                    lemma_entry_scan_bounds(evs, i + 1);
                    lemma_top_scan_counts_entry_starts(evs, entry_scan(evs, i + 1).1);
                } else if is_container_tag(n@) {
                    lemma_container_scan_bounds(evs, i + 1);
                    lemma_container_entry_starts_position(evs, i + 1);
                    lemma_top_scan_counts_entry_starts(evs, container_scan(evs, i + 1).1);
                } else {
                    lemma_top_scan_counts_entry_starts(evs, i + 1);
                }
            },
            _ => {
                lemma_top_scan_counts_entry_starts(evs, i + 1);
            },
        }
    }
}

/// For every event list, the document scan returns exactly one entry per
/// `item`/`entry` start tag it recognizes, at top level or nested in a
/// recognized container.
pub proof fn lemma_entries_match_recognized_starts(evs: Seq<FeedEvent>)
    ensures
        top_scan(evs, 0).len() == recognized_entry_starts(evs, 0),
{
    lemma_top_scan_counts_entry_starts(evs, 0);
}

proof fn lemma_top_scan_unrecognized_empty(evs: Seq<FeedEvent>, i: int)
    requires
        0 <= i <= evs.len(),
        forall|j: int|
            0 <= j < evs.len() ==> ((#[trigger] evs[j]) matches FeedEvent::Start(n)
                ==> !is_entry_tag(n@) && !is_container_tag(n@)),
    ensures
        top_scan(evs, i) == Seq::<EntryModel>::empty(),
    decreases evs.len() - i,
{
    if i < evs.len() {
        assert(evs[i] matches FeedEvent::Start(n) ==> !is_entry_tag(n@) && !is_container_tag(n@));
        lemma_top_scan_unrecognized_empty(evs, i + 1);
    }
}

/// A document whose start tags never name `channel`, `feed`, `item` or
/// `entry` yields no entries at all.
pub proof fn lemma_unrecognized_document_empty(evs: Seq<FeedEvent>)
    requires
        forall|j: int|
            0 <= j < evs.len() ==> ((#[trigger] evs[j]) matches FeedEvent::Start(n)
                ==> !is_entry_tag(n@) && !is_container_tag(n@)),
    ensures
        top_scan(evs, 0) == Seq::<EntryModel>::empty(),
{
    lemma_top_scan_unrecognized_empty(evs, 0);
}

/// The CDATA-delimiter cleanup leaves an already clean text unchanged: on a
/// text in which the cleanup left no occurrence of either delimiter,
/// applying it again changes nothing.  (The cleanup of some texts, such as
/// a run of `]]` pairs followed by `>` signs, uncovers a new delimiter, so
/// the proviso is necessary.)
pub proof fn lemma_clean_idempotent(s: Seq<char>)
    requires
        !contains_marker(clean_spec(s), cdata_close_marker()),
        !contains_marker(clean_spec(s), cdata_open_marker()),
    ensures
        clean_spec(clean_spec(s)) == clean_spec(s),
{
    reveal_strlit("]]>");
    reveal_strlit("<![CDATA[");
    crate::text::lemma_remove_marks_absent(clean_spec(s), cdata_close_marker());
    crate::text::lemma_remove_marks_absent(clean_spec(s), cdata_open_marker());
}

/// Every literal occurrence of the CDATA delimiters removed from the text,
/// the closing `]]>` first, then the opening `<![CDATA[`.  The removal is
/// purely textual, so delimiters occurring in legitimate prose are removed
/// too.
pub fn clean_content(content: String) -> (r: String)
    ensures
        r@ == clean_spec(content@),
{
    proof {
        reveal_strlit("]]>");
        reveal_strlit("<![CDATA[");
    }
    let a = crate::text::remove_all(content.as_str(), "]]>");
    let b = crate::text::remove_all(a.as_str(), "<![CDATA[");
    b
}

/// The display name of a feed: the text of the `title` child of the first
/// `channel`, or the text of the `generator` child of the first `feed` (the
/// generator, deliberately, not the Atom title), or empty text when neither
/// container appears.  The child search does not leave the container it
/// entered: a container with no such child gives empty text.
pub open spec fn feed_name_scan(evs: Seq<FeedEvent>, i: int) -> Seq<char>
    decreases evs.len() - i,
{
    if i < 0 || i >= evs.len() {
        Seq::<char>::empty()
    } else {
        match evs[i] {
            FeedEvent::Start(n) => {
                if n@ == "channel"@ {
                    child_text(evs, i + 1, "title"@, "channel"@)
                } else if n@ == "feed"@ {
                    child_text(evs, i + 1, "generator"@, "feed"@)
                } else {
                    feed_name_scan(evs, i + 1)
                }
            },
            _ => feed_name_scan(evs, i + 1),
        }
    }
}

/// Whether the tag opens one entry.
fn entry_tag(n: &str) -> (r: bool)
    ensures
        r == is_entry_tag(n@),
{
    str_eq(n, "item") || str_eq(n, "entry")
}

/// Whether the tag opens a container of entries.
fn container_tag(n: &str) -> (r: bool)
    ensures
        r == is_container_tag(n@),
{
    str_eq(n, "channel") || str_eq(n, "feed")
}

/// Whether the tag feeds an entry's title.
fn title_source(n: &str) -> (r: bool)
    ensures
        r == is_title_source(n@),
{
    str_eq(n, "title") || str_eq(n, "media:title")
}

/// Whether the tag feeds an entry's description.
fn description_source(n: &str) -> (r: bool)
    ensures
        r == is_description_source(n@),
{
    str_eq(n, "description") || str_eq(n, "summary") || str_eq(n, "media:description")
}

/// Whether the tag feeds an entry's content.
fn content_source(n: &str) -> (r: bool)
    ensures
        r == is_content_source(n@),
{
    str_eq(n, "content") || str_eq(n, "content:encoded") || str_eq(n, "media:content")
}

/// Collects one element's text, as [`elem_text`] describes.
fn elem_text_x(evs: &Vec<FeedEvent>, start: usize, name: &str) -> (r: (String, usize))
    requires
        start <= evs@.len(),
    ensures
        r.0@ == elem_text(evs@, start as int, name@).0,
        r.1 as int == elem_text(evs@, start as int, name@).1,
        start <= r.1 <= evs@.len(),
{
    proof {
        lemma_elem_text_bounds(evs@, start as int, name@);
    }
    let ghost target = elem_text(evs@, start as int, name@);
    let mut out = String::new();
    let mut i: usize = start;
    proof {
        assert(out@ + target.0 =~= target.0);
    }
    loop
        invariant
            start <= i <= evs@.len(),
            target == elem_text(evs@, start as int, name@),
            target.0 == out@ + elem_text(evs@, i as int, name@).0,
            target.1 == elem_text(evs@, i as int, name@).1,
        decreases evs@.len() - i,
    {
        if i >= evs.len() {
            proof {
                assert(elem_text(evs@, i as int, name@).0 =~= Seq::<char>::empty());
                assert(target.0 =~= out@);
            }
            return (out, evs.len());
        }
        let ghost rest = elem_text(evs@, i as int + 1, name@);
        match &evs[i] {
            FeedEvent::End(n) => {
                if str_eq(n.as_str(), name) {
                    proof {
                        assert(target.0 =~= out@);
                    }
                    return (out, i + 1);
                }
            },
            FeedEvent::Text(t) => {
                let ghost before = out@;
                out.append(t.as_str());
                proof {
                    assert(before + (t@ + rest.0) =~= (before + t@) + rest.0);
                }
            },
            FeedEvent::CData(t) => {
                let ghost before = out@;
                out.append("<![CDATA[");
                out.append(t.as_str());
                out.append("]]>");
                proof {
                    assert(before + (cdata_open_marker() + t@ + cdata_close_marker() + rest.0)
                        =~= ((before + cdata_open_marker()) + t@ + cdata_close_marker()) + rest.0);
                }
            },
            FeedEvent::EntityRef(t) => {
                let ghost before = out@;
                out.append("&");
                out.append(t.as_str());
                out.append(";");
                proof {
                    assert(before + ("&"@ + t@ + ";"@ + rest.0) =~= ((before + "&"@) + t@ + ";"@)
                        + rest.0);
                }
            },
            _ => {},
        }
        i = i + 1;
    }
}

/// Extracts one entry, as [`entry_scan`] describes.
fn extract_entry(evs: &Vec<FeedEvent>, start: usize) -> (r: (Entry, usize))
    requires
        start <= evs@.len(),
    ensures
        r.0@ == entry_scan(evs@, start as int).0,
        r.1 as int == entry_scan(evs@, start as int).1,
        start <= r.1 <= evs@.len(),
{
    proof {
        lemma_entry_scan_bounds(evs@, start as int);
    }
    let ghost target = entry_scan(evs@, start as int);
    let mut e = Entry {
        title: String::new(),
        description: String::new(),
        content: String::new(),
    };
    let mut i: usize = start;
    proof {
        assert(e@.title + target.0.title =~= target.0.title);
        assert(e@.description + target.0.description =~= target.0.description);
        assert(e@.content + target.0.content =~= target.0.content);
    }
    loop
        invariant
            start <= i <= evs@.len(),
            target == entry_scan(evs@, start as int),
            target.0.title == e@.title + entry_scan(evs@, i as int).0.title,
            target.0.description == e@.description + entry_scan(evs@, i as int).0.description,
            target.0.content == e@.content + entry_scan(evs@, i as int).0.content,
            target.1 == entry_scan(evs@, i as int).1,
        decreases evs@.len() - i,
    {
        if i >= evs.len() {
            proof {
                assert(target.0.title =~= e@.title);
                assert(target.0.description =~= e@.description);
                assert(target.0.content =~= e@.content);
            }
            return (e, evs.len());
        }
        let next: usize;
        match &evs[i] {
            FeedEvent::Start(n) => {
                let t_src = title_source(n.as_str());
                let d_src = description_source(n.as_str());
                let c_src = content_source(n.as_str());
                if t_src || d_src || c_src {
                    let picked = elem_text_x(evs, i + 1, n.as_str());
                    proof {
                        lemma_entry_scan_bounds(evs@, picked.1 as int);
                    }
                    let ghost rest = entry_scan(evs@, picked.1 as int);
                    let ghost before = e@;
                    if t_src {
                        e.title.append(picked.0.as_str());
                        proof {
                            assert(before.title + (picked.0@ + rest.0.title) =~= (before.title
                                + picked.0@) + rest.0.title);
                        }
                    } else if d_src {
                        e.description.append(picked.0.as_str());
                        proof {
                            assert(before.description + (picked.0@ + rest.0.description)
                                =~= (before.description + picked.0@) + rest.0.description);
                        }
                    } else {
                        e.content.append(picked.0.as_str());
                        proof {
                            assert(before.content + (picked.0@ + rest.0.content) =~= (before.content
                                + picked.0@) + rest.0.content);
                        }
                    }
                    next = picked.1;
                } else {
                    next = i + 1;
                }
            },
            FeedEvent::End(n) => {
                if entry_tag(n.as_str()) {
                    proof {
                        assert(target.0.title =~= e@.title);
                        assert(target.0.description =~= e@.description);
                        assert(target.0.content =~= e@.content);
                    }
                    return (e, i + 1);
                }
                next = i + 1;
            },
            _ => {
                next = i + 1;
            },
        }
        i = next;
    }
}

/// The models of a list of entries, in order.
pub open spec fn models_of(es: Seq<Entry>) -> Seq<EntryModel> {
    es.map_values(|e: Entry| e@)
}

/// Extracts the entries of one container, as [`container_scan`] describes.
fn scan_container(evs: &Vec<FeedEvent>, start: usize) -> (r: (Vec<Entry>, usize))
    requires
        start <= evs@.len(),
    ensures
        models_of(r.0@) == container_scan(evs@, start as int).0,
        r.1 as int == container_scan(evs@, start as int).1,
        start <= r.1 <= evs@.len(),
{
    proof {
        lemma_container_scan_bounds(evs@, start as int);
    }
    let ghost target = container_scan(evs@, start as int);
    let mut out: Vec<Entry> = Vec::new();
    let mut i: usize = start;
    proof {
        assert(models_of(out@) + target.0 =~= target.0);
    }
    loop
        invariant
            start <= i <= evs@.len(),
            target == container_scan(evs@, start as int),
            target.0 == models_of(out@) + container_scan(evs@, i as int).0,
            target.1 == container_scan(evs@, i as int).1,
        decreases evs@.len() - i,
    {
        if i >= evs.len() {
            proof {
                assert(target.0 =~= models_of(out@));
            }
            return (out, evs.len());
        }
        let next: usize;
        match &evs[i] {
            FeedEvent::Start(n) => {
                if entry_tag(n.as_str()) {
                    let picked = extract_entry(evs, i + 1);
                    proof {
                        lemma_container_scan_bounds(evs@, picked.1 as int);
                    }
                    let ghost rest = container_scan(evs@, picked.1 as int);
                    let ghost before = out@;
                    let ghost m = picked.0@;
                    out.push(picked.0);
                    proof {
                        assert(models_of(out@) =~= models_of(before).push(m));
                        assert(models_of(before) + (seq![m] + rest.0) =~= models_of(before).push(
                            m,
                        ) + rest.0);
                    }
                    next = picked.1;
                } else {
                    next = i + 1;
                }
            },
            FeedEvent::End(n) => {
                if container_tag(n.as_str()) {
                    proof {
                        assert(target.0 =~= models_of(out@));
                    }
                    return (out, i + 1);
                }
                next = i + 1;
            },
            _ => {
                next = i + 1;
            },
        }
        i = next;
    }
}

/// The CDATA-delimiter cleanup applied to an entry's content field.
fn clean_entry(e: Entry) -> (r: Entry)
    ensures
        r@ == clean_entry_model(e@),
{
    let Entry { title, description, content } = e;
    Entry { title, description, content: clean_content(content) }
}

/// The entries of a whole document of events, as [`top_scan`] describes:
/// bare `item`/`entry` elements and the entries of `channel`/`feed`
/// containers, each entry's content cleaned of literal CDATA delimiters.
pub fn extract_entries(evs: &Vec<FeedEvent>) -> (r: Vec<Entry>)
    ensures
        models_of(r@) == top_scan(evs@, 0),
{
    let ghost target = top_scan(evs@, 0);
    let mut out: Vec<Entry> = Vec::new();
    let mut i: usize = 0;
    proof {
        assert(models_of(out@) + target =~= target);
    }
    loop
        invariant
            i <= evs@.len(),
            target == top_scan(evs@, 0),
            target == models_of(out@) + top_scan(evs@, i as int),
        decreases evs@.len() - i,
    {
        if i >= evs.len() {
            proof {
                assert(target =~= models_of(out@));
            }
            return out;
        }
        let next: usize;
        match &evs[i] {
            FeedEvent::Start(n) => {
                if entry_tag(n.as_str()) {
                    let picked = extract_entry(evs, i + 1);
                    let ghost rest = top_scan(evs@, picked.1 as int);
                    let ghost before = out@;
                    let cleaned = clean_entry(picked.0);
                    let ghost m = cleaned@;
                    out.push(cleaned);
                    proof {
                        assert(models_of(out@) =~= models_of(before).push(m));
                        assert(models_of(before) + (seq![m] + rest) =~= models_of(before).push(m)
                            + rest);
                    }
                    next = picked.1;
                } else if container_tag(n.as_str()) {
                    let picked = scan_container(evs, i + 1);
                    let ghost rest = top_scan(evs@, picked.1 as int);
                    let ghost inner = container_scan(evs@, i as int + 1).0;
                    let ghost before = out@;
                    let ghost mut k: int = 0;
                    let mut inside = picked.0;
                    proof {
                        assert(models_of(before) + inner.map_values(
                            |m: EntryModel| clean_entry_model(m),
                        ).take(0) =~= models_of(before));
                    }
                    while inside.len() > 0
                        invariant
                            0 <= k <= inner.len(),
                            models_of(inside@) == inner.skip(k),
                            inside@.len() == inner.len() - k,
                            models_of(out@) == models_of(before) + inner.map_values(
                                |m: EntryModel| clean_entry_model(m),
                            ).take(k),
                        decreases inside@.len(),
                    {
                        let ghost out_before = out@;
                        let ghost inside_before = inside@;
                        let item = inside.remove(0);
                        proof {
                            assert(models_of(inside_before)[0] == item@);
                            assert(item@ == inner[k]);
                            assert(models_of(inside@) =~= models_of(inside_before).skip(1));
                            assert(models_of(inside_before).skip(1) =~= inner.skip(k + 1));
                        }
                        let cleaned = clean_entry(item);
                        let ghost m = cleaned@;
                        out.push(cleaned);
                        proof {
                            let f = |mm: EntryModel| clean_entry_model(mm);
                            assert(models_of(out@) =~= models_of(out_before).push(m));
                            assert(inner.map_values(f).take(k + 1) =~= inner.map_values(f).take(
                                k,
                            ).push(f(inner[k])));
                            k = k + 1;
                        }
                    }
                    proof {
                        let f = |mm: EntryModel| clean_entry_model(mm);
                        assert(inner.map_values(f).take(inner.len() as int) =~= inner.map_values(
                            f,
                        ));
                        assert(models_of(before) + (inner.map_values(f) + rest) =~= (models_of(
                            before,
                        ) + inner.map_values(f)) + rest);
                    }
                    next = picked.1;
                } else {
                    next = i + 1;
                }
            },
            _ => {
                next = i + 1;
            },
        }
        i = next;
    }
}

/// Searches for the first `name` child within the entered `container`
/// element, as [`child_text`] describes.
fn child_text_x(evs: &Vec<FeedEvent>, start: usize, name: &str, container: &str) -> (r: String)
    ensures
        r@ == child_text(evs@, start as int, name@, container@),
    decreases evs@.len() - start,
{
    let mut i: usize = start;
    if start > evs.len() {
        proof {
            assert(child_text(evs@, start as int, name@, container@) =~= Seq::<char>::empty());
        }
        return String::new();
    }
    loop
        invariant
            start <= i <= evs@.len(),
            child_text(evs@, start as int, name@, container@) == child_text(
                evs@,
                i as int,
                name@,
                container@,
            ),
        decreases evs@.len() - i,
    {
        if i >= evs.len() {
            proof {
                assert(child_text(evs@, i as int, name@, container@) =~= Seq::<char>::empty());
            }
            return String::new();
        }
        match &evs[i] {
            FeedEvent::Start(n) => {
                if str_eq(n.as_str(), name) {
                    let picked = elem_text_x(evs, i + 1, name);
                    return picked.0;
                }
            },
            FeedEvent::End(n) => {
                if str_eq(n.as_str(), name) || str_eq(n.as_str(), container) {
                    return String::new();
                }
            },
            _ => {},
        }
        i = i + 1;
    }
}

/// Declares `quick_xml::reader::Reader`, the streaming markup tokenizer,
/// so a value of it can be held; the value is opaque here.
#[verifier::external_type_specification]
#[verifier::external_body]
#[verifier::reject_recursive_types(R)]
pub struct ExXmlReader<R>(quick_xml::reader::Reader<R>);

/// Declares `std::io::Cursor`, the in-memory reader the tokenizer pulls
/// from; the value is opaque here.
#[verifier::external_type_specification]
#[verifier::external_body]
#[verifier::reject_recursive_types(T)]
pub struct ExIoCursor<T>(std::io::Cursor<T>);

/// The event that the tokenizer produces on its `k`-th pull over the
/// given document text, or the syntax failure: the tokenizer is
/// deterministic, so the outcome is a function of the text and the pull
/// count alone.
pub uninterp spec fn nth_token(text: Seq<char>, k: nat) -> Result<FeedEvent, FeedError>;

/// Whether the event source hands an event on to the scans: every event
/// but a whitespace-only run of text.
pub open spec fn kept_event(ev: FeedEvent) -> bool {
    !(ev matches FeedEvent::Text(t) && crate::text::ws_only(t@))
}

/// The events collected from the named token stream of `text`, starting at
/// pull `k` with the given budget of further pulls: the kept events before
/// the first end-of-document event, in order; a failed pull fails the
/// collection, and so does a stream that outruns the budget.
pub open spec fn stream_result(text: Seq<char>, k: nat, budget: nat) -> Result<
    Seq<FeedEvent>,
    FeedError,
>
    decreases budget,
{
    match nth_token(text, k) {
        Err(e) => Err(e),
        Ok(ev) => match ev {
            FeedEvent::Eof => Ok(Seq::<FeedEvent>::empty()),
            _ => {
                if budget == 0 {
                    Err(FeedError::Syntax)
                } else {
                    match stream_result(text, k + 1, (budget - 1) as nat) {
                        Err(e2) => Err(e2),
                        Ok(rest) => Ok(
                            if kept_event(ev) {
                                seq![ev] + rest
                            } else {
                                rest
                            },
                        ),
                    }
                }
            },
        },
    }
}

/// The whitespace-collapsed event list of a whole document, or the syntax
/// failure: the named token stream of the text, read from the start with
/// one pull allowed per character and one more for the end-of-document
/// event.
pub open spec fn document_events(text: Seq<char>) -> Result<Seq<FeedEvent>, FeedError> {
    stream_result(text, 0, text.len())
}

/// The prefix prepended to a partial event collection.
spec fn pref_events(p: Seq<FeedEvent>, o: Result<Seq<FeedEvent>, FeedError>) -> Result<
    Seq<FeedEvent>,
    FeedError,
> {
    match o {
        Ok(rest) => Ok(p + rest),
        Err(e) => Err(e),
    }
}

/// A pull tokenizer over one document's text; the text and the number of
/// pulls made so far are carried as ghost state, so the contracts can
/// speak of the named token stream.
pub struct FeedTokenizer {
    src: quick_xml::reader::Reader<std::io::Cursor<Vec<u8>>>,
    text: Ghost<Seq<char>>,
    pulled: Ghost<nat>,
}

/// Relies on `quick_xml::reader::Reader::from_reader`: a tokenizer over the
/// document's bytes, positioned at its start.
#[verifier::external_body]
fn xml_reader_new(xml: &str) -> quick_xml::reader::Reader<std::io::Cursor<Vec<u8>>> {
    let cursor = std::io::Cursor::new(xml.as_bytes().to_vec());
    quick_xml::reader::Reader::from_reader(cursor)
}

/// A tokenizer over the document's text, with its ghost record of the text
/// and of the pulls made so far.
fn tokenizer_new(xml: &str) -> (t: FeedTokenizer)
    ensures
        t.text@ == xml@,
        t.pulled@ == 0,
{
    FeedTokenizer { src: xml_reader_new(xml), text: Ghost(xml@), pulled: Ghost(0nat) }
}

/// Relies on `quick_xml::reader::Reader::read_event_into`: the next
/// structural event of the document, converted to a [`FeedEvent`] variant
/// by variant.  The tokenizer computes each event from the document text
/// and its position alone, so the outcome is the named [`nth_token`] of
/// the pull; every failure is reported as the syntax failure.
#[verifier::external_body]
fn next_event(tok: &mut FeedTokenizer) -> (r: Result<FeedEvent, FeedError>)
    ensures
        r == nth_token(old(tok).text@, old(tok).pulled@),
        r matches Err(e) ==> e == FeedError::Syntax,
        final(tok).text@ == old(tok).text@,
        final(tok).pulled@ == old(tok).pulled@ + 1,
{
    let mut buf = Vec::new();
    match tok.src.read_event_into(&mut buf) {
        Err(_) => Err(FeedError::Syntax),
        Ok(XmlEvent::Start(e)) => Ok(FeedEvent::Start(e.name().0.to_string())),
        Ok(XmlEvent::End(e)) => Ok(FeedEvent::End(e.name().0.to_string())),
        Ok(XmlEvent::Text(t)) => Ok(FeedEvent::Text(t.to_string())),
        Ok(XmlEvent::CData(t)) => Ok(FeedEvent::CData(t.to_string())),
        Ok(XmlEvent::GeneralRef(r)) => Ok(FeedEvent::EntityRef(r.to_string())),
        Ok(XmlEvent::Eof) => Ok(FeedEvent::Eof),
        Ok(_) => Ok(FeedEvent::Other),
    }
}

/// Reads the whole event stream of a document, dropping whitespace-only
/// text, until the end-of-document event: exactly [`document_events`] of
/// the text.  The tokenizer emits at least one character of input per
/// event, so the budget of one pull per character cannot run out on it; a
/// tokenizer that overran it would be reported as malformed markup.
fn tokenize(xml: &str) -> (r: Result<Vec<FeedEvent>, FeedError>)
    ensures
        r matches Ok(evs) ==> document_events(xml@) == Ok::<Seq<FeedEvent>, FeedError>(evs@),
        r matches Err(e) ==> document_events(xml@) == Err::<Seq<FeedEvent>, FeedError>(e),
        r matches Err(e) ==> e == FeedError::Syntax,
{
    let n = xml.unicode_len();
    let mut tok = tokenizer_new(xml);
    let mut evs: Vec<FeedEvent> = Vec::new();
    let mut remaining = n;
    proof {
        assert(document_events(xml@) == pref_events(
            evs@,
            stream_result(xml@, tok.pulled@, remaining as nat),
        )) by {
            match stream_result(xml@, 0, xml@.len()) {
                Ok(rest) => {
                    assert(evs@ + rest =~= rest);
                },
                Err(_) => {},
            }
        }
    }
    loop
        invariant
            n == xml@.len(),
            remaining <= n,
            tok.text@ == xml@,
            tok.pulled@ + remaining == n as nat,
            document_events(xml@) == pref_events(
                evs@,
                stream_result(xml@, tok.pulled@, remaining as nat),
            ),
        decreases remaining,
    {
        let ghost k = tok.pulled@;
        let ghost before = evs@;
        match next_event(&mut tok) {
            Err(e) => {
                proof {
                    assert(stream_result(xml@, k, remaining as nat) == Err::<
                        Seq<FeedEvent>,
                        FeedError,
                    >(e));
                }
                return Err(e);
            },
            Ok(ev) => {
                let ghost the_event = ev;
                match ev {
                    FeedEvent::Eof => {
                        proof {
                            assert(stream_result(xml@, k, remaining as nat) == Ok::<
                                Seq<FeedEvent>,
                                FeedError,
                            >(Seq::<FeedEvent>::empty()));
                            assert(before + Seq::<FeedEvent>::empty() =~= before);
                        }
                        return Ok(evs);
                    },
                    FeedEvent::Text(t) => {
                        if !crate::text::ws_only_x(t.as_str()) {
                            evs.push(FeedEvent::Text(t));
                        }
                    },
                    other => {
                        evs.push(other);
                    },
                }
                if remaining == 0 {
                    proof {
                        assert(stream_result(xml@, k, 0nat) == Err::<Seq<FeedEvent>, FeedError>(
                            FeedError::Syntax,
                        ));
                    }
                    return Err(FeedError::Syntax);
                }
                remaining = remaining - 1;
                proof {
                    assert(evs@ =~= if kept_event(the_event) {
                        before.push(the_event)
                    } else {
                        before
                    });
                    assert(stream_result(xml@, k, remaining as nat + 1) == (match stream_result(
                        xml@,
                        k + 1,
                        remaining as nat,
                    ) {
                        Err(e2) => Err::<Seq<FeedEvent>, FeedError>(e2),
                        Ok(rest) => Ok(
                            if kept_event(the_event) {
                                seq![the_event] + rest
                            } else {
                                rest
                            },
                        ),
                    }));
                    match stream_result(xml@, k + 1, remaining as nat) {
                        Ok(rest) => {
                            if kept_event(the_event) {
                                assert(before + (seq![the_event] + rest) =~= before.push(
                                    the_event,
                                ) + rest);
                            }
                        },
                        Err(_) => {},
                    }
                }
            },
        }
    }
}

/// The entries of a feed document: the text is tokenized into its named
/// event stream and the document scan of [`top_scan`] is applied, so the
/// result is a function of the text alone.  Malformed markup — a failed
/// pull, or a stream that outruns the budget — yields the syntax failure
/// and no partial entry list.
pub fn read_entries(xml: &str) -> (r: Result<Vec<Entry>, FeedError>)
    ensures
        document_events(xml@) matches Ok(evs) ==> r matches Ok(es) && models_of(es@) == top_scan(
            evs,
            0,
        ),
        document_events(xml@) matches Err(e) ==> r == Err::<Vec<Entry>, FeedError>(e),
        r matches Err(e) ==> e == FeedError::Syntax,
{
    let evs = match tokenize(xml) {
        Ok(v) => v,
        Err(e) => {
            return Err(e);
        },
    };
    let out = extract_entries(&evs);
    proof {
        assert(models_of(out@) == top_scan(evs@, 0));
    }
    Ok(out)
}

/// The display name of a feed document: the text is tokenized into its
/// named event stream and the name scan of [`feed_name_scan`] is applied,
/// so the result is a function of the text alone.  Malformed markup yields
/// the syntax failure instead of a name.
pub fn read_title(xml: &str) -> (r: Result<String, FeedError>)
    ensures
        document_events(xml@) matches Ok(evs) ==> r matches Ok(t) && t@ == feed_name_scan(evs, 0),
        document_events(xml@) matches Err(e) ==> r == Err::<String, FeedError>(e),
        r matches Err(e) ==> e == FeedError::Syntax,
{
    let evs = match tokenize(xml) {
        Ok(v) => v,
        Err(e) => {
            return Err(e);
        },
    };
    let name = extract_feed_name(&evs);
    proof {
        assert(name@ == feed_name_scan(evs@, 0));
    }
    Ok(name)
}

/// The display name of a feed's event list, as [`feed_name_scan`]
/// describes: the `channel` title, or the `feed` generator, or empty text.
pub fn extract_feed_name(evs: &Vec<FeedEvent>) -> (r: String)
    ensures
        r@ == feed_name_scan(evs@, 0),
{
    let mut i: usize = 0;
    loop
        invariant
            i <= evs@.len(),
            feed_name_scan(evs@, 0) == feed_name_scan(evs@, i as int),
        decreases evs@.len() - i,
    {
        if i >= evs.len() {
            proof {
                assert(feed_name_scan(evs@, i as int) =~= Seq::<char>::empty());
            }
            return String::new();
        }
        match &evs[i] {
            FeedEvent::Start(n) => {
                if str_eq(n.as_str(), "channel") {
                    return child_text_x(evs, i + 1, "title", "channel");
                }
                if str_eq(n.as_str(), "feed") {
                    return child_text_x(evs, i + 1, "generator", "feed");
                }
            },
            _ => {},
        }
        i = i + 1;
    }
}

} // verus!
