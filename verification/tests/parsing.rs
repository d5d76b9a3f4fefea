//! End-to-end tests of the document scans, through the real tokenizer.

use fead::entries::load_entries;
use fead::events::FeedEvent;
use fead::reader::{extract_entries, extract_feed_name, read_entries, read_title};

#[test]
fn rss2_document_yields_entry_and_title() {
    let doc = "<channel><title>Example</title><item><title>A</title>\
               <description>Desc</description></item></channel>";
    let entries = load_entries(doc).unwrap();
    assert_eq!(entries.len(), 1);
    assert_eq!(entries[0].title, "A");
    assert_eq!(entries[0].description, "Desc");
    assert_eq!(entries[0].content, "");
    assert_eq!(read_title(doc).unwrap(), "Example");
}

#[test]
fn atom_document_yields_entry_and_generator_name() {
    let doc = "<feed><generator>TestGen</generator><entry><title>B</title>\
               <summary>S</summary><content>C</content></entry></feed>";
    let entries = load_entries(doc).unwrap();
    assert_eq!(entries.len(), 1);
    assert_eq!(entries[0].title, "B");
    assert_eq!(entries[0].description, "S");
    assert_eq!(entries[0].content, "C");
    assert_eq!(read_title(doc).unwrap(), "TestGen");
}

#[test]
fn unrecognized_document_yields_no_entries_and_no_error() {
    let doc = "<foo><bar>x</bar><baz>y</baz></foo>";
    let entries = read_entries(doc).unwrap();
    assert!(entries.is_empty());
    assert_eq!(read_title(doc).unwrap(), "");
}

#[test]
fn entry_count_matches_recognized_items() {
    let doc = "<channel><item><title>1</title></item><item><title>2</title></item>\
               <item><title>3</title></item></channel>";
    let entries = read_entries(doc).unwrap();
    assert_eq!(entries.len(), 3);
    assert_eq!(entries[0].title, "1");
    assert_eq!(entries[2].title, "3");
}

#[test]
fn bare_entry_list_is_recognized() {
    let doc = "<item><title>A</title></item><entry><title>B</title></entry>";
    let entries = read_entries(doc).unwrap();
    assert_eq!(entries.len(), 2);
    assert_eq!(entries[0].title, "A");
    assert_eq!(entries[1].title, "B");
}

#[test]
fn repeated_sources_concatenate_in_encounter_order() {
    let doc = "<channel><item><title>A</title><media:title>B</media:title>\
               <description>d1</description><summary>d2</summary>\
               <media:description>d3</media:description>\
               <content>c1</content><content:encoded>c2</content:encoded>\
               <media:content>c3</media:content></item></channel>";
    let entries = read_entries(doc).unwrap();
    assert_eq!(entries.len(), 1);
    assert_eq!(entries[0].title, "AB");
    assert_eq!(entries[0].description, "d1d2d3");
    assert_eq!(entries[0].content, "c1c2c3");
}

#[test]
fn whitespace_only_text_is_collapsed() {
    let doc = "<channel>\n  <item>\n    <title>A</title>\n  </item>\n</channel>";
    let entries = read_entries(doc).unwrap();
    assert_eq!(entries.len(), 1);
    assert_eq!(entries[0].title, "A");
}

#[test]
fn entity_references_survive_tokenizing_and_decode_later() {
    let doc = "<channel><item><title>A &amp; B</title></item></channel>";
    let raw = read_entries(doc).unwrap();
    assert_eq!(raw[0].title, "A &amp; B");
    let entries = load_entries(doc).unwrap();
    assert_eq!(entries[0].title, "A & B");
}

#[test]
fn cdata_markers_are_cleaned_from_content_only() {
    let doc = "<channel><item><title>t</title>\
               <content><![CDATA[<b>x</b>]]></content></item></channel>";
    let entries = read_entries(doc).unwrap();
    assert_eq!(entries[0].content, "<b>x</b>");
    assert_eq!(entries[0].title, "t");
}

#[test]
fn decoded_title_loses_one_trailing_newline() {
    let doc = "<channel><item><title>A\n</title></item></channel>";
    let entries = load_entries(doc).unwrap();
    assert_eq!(entries[0].title, "A");
}

#[test]
fn truncated_document_keeps_what_was_collected() {
    let doc = "<channel><item><title>A</title>";
    let entries = read_entries(doc).unwrap();
    assert_eq!(entries.len(), 1);
    assert_eq!(entries[0].title, "A");
}

#[test]
fn malformed_markup_is_a_recoverable_error() {
    let doc = "<channel><item></wrong></item></channel>";
    assert!(read_entries(doc).is_err());
    let doc2 = "<channel><!-- unterminated";
    assert!(read_entries(doc2).is_err());
}

#[test]
fn extractor_works_on_an_explicit_event_list() {
    let evs = vec![
        FeedEvent::Start("channel".to_string()),
        FeedEvent::Start("title".to_string()),
        FeedEvent::Text("Example".to_string()),
        FeedEvent::End("title".to_string()),
        FeedEvent::Start("item".to_string()),
        FeedEvent::Start("title".to_string()),
        FeedEvent::Text("A".to_string()),
        FeedEvent::End("title".to_string()),
        FeedEvent::End("item".to_string()),
        FeedEvent::End("channel".to_string()),
    ];
    let entries = extract_entries(&evs);
    assert_eq!(entries.len(), 1);
    assert_eq!(entries[0].title, "A");
    assert_eq!(extract_feed_name(&evs), "Example");
}

#[test]
fn name_search_stays_inside_the_entered_container() {
    // A container with no matching child gives the empty name, even when a
    // later element outside it holds one.
    let doc = "<feed></feed><x><generator>G</generator></x>";
    assert_eq!(read_title(doc).unwrap(), "");
    let doc2 = "<channel></channel><x><title>T</title></x>";
    assert_eq!(read_title(doc2).unwrap(), "");
}

#[test]
fn name_search_is_flat_within_the_container() {
    let doc = "<channel><meta><title>T</title></meta></channel>";
    assert_eq!(read_title(doc).unwrap(), "T");
}

#[test]
fn rss_wrapper_and_attributes_are_tolerated() {
    let doc = "<rss version=\"2.0\"><channel><title>T</title>\
               <item id=\"1\"><title>A</title></item></channel></rss>";
    let entries = read_entries(doc).unwrap();
    assert_eq!(entries.len(), 1);
    assert_eq!(entries[0].title, "A");
    assert_eq!(read_title(doc).unwrap(), "T");
}

#[test]
fn declarations_and_comments_are_skipped() {
    let doc = "<?xml version=\"1.0\"?><!-- a comment -->\
               <channel><item><title>A</title></item></channel>";
    let entries = read_entries(doc).unwrap();
    assert_eq!(entries.len(), 1);
    assert_eq!(entries[0].title, "A");
}

#[test]
fn nested_atom_entries_match_inside_feed_container() {
    let doc = "<feed><entry><title>X</title></entry><entry><title>Y</title></entry></feed>";
    let entries = read_entries(doc).unwrap();
    assert_eq!(entries.len(), 2);
    assert_eq!(entries[0].title, "X");
    assert_eq!(entries[1].title, "Y");
}
