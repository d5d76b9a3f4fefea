//! The persistence format of the subscribed-feed list: one JSON array of
//! objects, each with a `"title"` and a `"url"` string member.
//!
//! The serializer produces the canonical form (no whitespace, members in
//! title-then-url order, control characters escaped); the parser accepts
//! the format liberally (surrounding whitespace, either member order, all
//! JSON string escapes including surrogate pairs) and is proved to invert
//! the serializer: parsing a serialized collection gives the collection
//! back.
#![allow(unused_imports)]
use vstd::prelude::*;
use vstd::string::*;

use crate::feeds::{feed_models, Feed, FeedModel};
use crate::text::str_eq;
use crate::FeedError;

verus! {

/// The lower-case hexadecimal digit of a value below sixteen.
pub open spec fn hex_digit(n: int) -> char {
    if n == 0 {
        '0'
    } else if n == 1 {
        '1'
    } else if n == 2 {
        '2'
    } else if n == 3 {
        '3'
    } else if n == 4 {
        '4'
    } else if n == 5 {
        '5'
    } else if n == 6 {
        '6'
    } else if n == 7 {
        '7'
    } else if n == 8 {
        '8'
    } else if n == 9 {
        '9'
    } else if n == 10 {
        'a'
    } else if n == 11 {
        'b'
    } else if n == 12 {
        'c'
    } else if n == 13 {
        'd'
    } else if n == 14 {
        'e'
    } else {
        'f'
    }
}

/// The value of a hexadecimal digit in either case, or a negative number
/// for any other character.
pub open spec fn hex_val(c: char) -> int {
    let u = c as u32;
    if 48 <= u <= 57 {
        u - 48
    } else if 97 <= u <= 102 {
        u - 87
    } else if 65 <= u <= 70 {
        u - 55
    } else {
        -1
    }
}

/// Encoding a digit and reading it back returns the digit.
pub proof fn lemma_hex_digit_val(n: int)
    requires
        0 <= n < 16,
    ensures
        hex_val(hex_digit(n)) == n,
{
}

/// The JSON escape of one character: the two-character escapes of the
/// quote, the backslash and the named control characters, the `\u00..`
/// escape of the other control characters, and every other character
/// itself.
pub open spec fn escape_char(c: char) -> Seq<char> {
    if c == '"' {
        seq!['\\', '"']
    } else if c == '\\' {
        seq!['\\', '\\']
    } else if c == '\u{8}' {
        seq!['\\', 'b']
    } else if c == '\u{c}' {
        seq!['\\', 'f']
    } else if c == '\n' {
        seq!['\\', 'n']
    } else if c == '\r' {
        seq!['\\', 'r']
    } else if c == '\t' {
        seq!['\\', 't']
    } else if (c as u32) < 32 {
        seq!['\\', 'u', '0', '0', hex_digit((c as u32) as int / 16), hex_digit(
            (c as u32) as int % 16,
        )]
    } else {
        seq![c]
    }
}

/// The JSON escape of a text, character by character.
pub open spec fn escape_text(s: Seq<char>) -> Seq<char>
    decreases s.len(),
{
    if s.len() == 0 {
        Seq::<char>::empty()
    } else {
        escape_char(s[0]) + escape_text(s.skip(1))
    }
}

/// A JSON string: the escaped text between quotes.
pub open spec fn quoted(s: Seq<char>) -> Seq<char> {
    seq!['"'] + escape_text(s) + seq!['"']
}

/// One feed serialized: an object with its title and URL members, in that
/// order, without whitespace.
pub open spec fn feed_json(f: FeedModel) -> Seq<char> {
    seq!['{'] + quoted("title"@) + seq![':'] + quoted(f.title) + seq![','] + quoted("url"@)
        + seq![':'] + quoted(f.url) + seq!['}']
}

/// The comma-separated serializations of the feeds, in order.
pub open spec fn feeds_json_items(fs: Seq<FeedModel>) -> Seq<char>
    decreases fs.len(),
{
    if fs.len() == 0 {
        Seq::<char>::empty()
    } else if fs.len() == 1 {
        feed_json(fs[0])
    } else {
        feed_json(fs[0]) + seq![','] + feeds_json_items(fs.skip(1))
    }
}

/// The whole collection serialized: a JSON array of the feeds, in order.
pub open spec fn feeds_json(fs: Seq<FeedModel>) -> Seq<char> {
    seq!['['] + feeds_json_items(fs) + seq![']']
}

/// Whether the character is JSON whitespace.
pub open spec fn is_json_ws(c: char) -> bool {
    c == ' ' || c == '\t' || c == '\n' || c == '\r'
}

/// The text with its leading JSON whitespace removed.
pub open spec fn skip_ws(s: Seq<char>) -> Seq<char>
    decreases s.len(),
{
    if s.len() > 0 && is_json_ws(s[0]) {
        skip_ws(s.skip(1))
    } else {
        s
    }
}

/// The combined value of four hexadecimal digits, or a negative number if
/// any of them is not a digit.
pub open spec fn hex4(a: char, b: char, c: char, d: char) -> int {
    if hex_val(a) < 0 || hex_val(b) < 0 || hex_val(c) < 0 || hex_val(d) < 0 {
        -1
    } else {
        hex_val(a) * 4096 + hex_val(b) * 256 + hex_val(c) * 16 + hex_val(d)
    }
}

/// The character prepended to a partial string-body parse.
pub open spec fn cons_char(c: char, r: Option<(Seq<char>, Seq<char>)>) -> Option<
    (Seq<char>, Seq<char>),
> {
    match r {
        Some(p) => Some((seq![c] + p.0, p.1)),
        None => None,
    }
}

/// The body of a JSON string, read up to and over its closing quote:
/// ordinary characters stand for themselves, the backslash escapes are
/// resolved (surrogate pairs in `\u` escapes combined), and the value and
/// the remaining text follow.  An unterminated or ill-escaped body fails.
#[verifier::opaque]
pub open spec fn parse_string_body(s: Seq<char>) -> Option<(Seq<char>, Seq<char>)>
    decreases s.len(),
{
    if s.len() == 0 {
        None
    } else if s[0] == '"' {
        Some((Seq::<char>::empty(), s.skip(1)))
    } else if s[0] == '\\' {
        if s.len() < 2 {
            None
        } else {
            let e = s[1];
            if e == '"' || e == '\\' || e == '/' {
                cons_char(e, parse_string_body(s.skip(2)))
            } else if e == 'b' {
                cons_char('\u{8}', parse_string_body(s.skip(2)))
            } else if e == 'f' {
                cons_char('\u{c}', parse_string_body(s.skip(2)))
            } else if e == 'n' {
                cons_char('\n', parse_string_body(s.skip(2)))
            } else if e == 'r' {
                cons_char('\r', parse_string_body(s.skip(2)))
            } else if e == 't' {
                cons_char('\t', parse_string_body(s.skip(2)))
            } else if e == 'u' {
                if s.len() < 6 {
                    None
                } else {
                    let h = hex4(s[2], s[3], s[4], s[5]);
                    if h < 0 {
                        None
                    } else if 0xD800 <= h < 0xDC00 {
                        if s.len() < 12 || s[6] != '\\' || s[7] != 'u' {
                            None
                        } else {
                            let l = hex4(s[8], s[9], s[10], s[11]);
                            if 0xDC00 <= l < 0xE000 {
                                cons_char(
                                    ((0x10000 + (h - 0xD800) * 0x400 + (l - 0xDC00)) as u32) as char,
                                    parse_string_body(s.skip(12)),
                                )
                            } else {
                                None
                            }
                        }
                    } else if 0xDC00 <= h < 0xE000 {
                        None
                    } else {
                        cons_char((h as u32) as char, parse_string_body(s.skip(6)))
                    }
                }
            } else {
                None
            }
        }
    } else {
        cons_char(s[0], parse_string_body(s.skip(1)))
    }
}

/// A JSON string: an opening quote, then its body.
pub open spec fn parse_string(s: Seq<char>) -> Option<(Seq<char>, Seq<char>)> {
    if s.len() > 0 && s[0] == '"' {
        parse_string_body(s.skip(1))
    } else {
        None
    }
}

/// One `"key": "value"` member, whitespace allowed around its tokens.
pub open spec fn parse_member(s: Seq<char>) -> Option<((Seq<char>, Seq<char>), Seq<char>)> {
    match parse_string(skip_ws(s)) {
        None => None,
        Some(k) => {
            let s2 = skip_ws(k.1);
            if s2.len() > 0 && s2[0] == ':' {
                match parse_string(skip_ws(s2.skip(1))) {
                    None => None,
                    Some(v) => Some(((k.0, v.0), v.1)),
                }
            } else {
                None
            }
        },
    }
}

/// The feed named by two members: a title and a URL, in either order.
pub open spec fn feed_of_members(m1: (Seq<char>, Seq<char>), m2: (Seq<char>, Seq<char>)) -> Option<
    FeedModel,
> {
    if m1.0 == "title"@ && m2.0 == "url"@ {
        Some(FeedModel { title: m1.1, url: m2.1 })
    } else if m1.0 == "url"@ && m2.0 == "title"@ {
        Some(FeedModel { title: m2.1, url: m1.1 })
    } else {
        None
    }
}

/// One feed object: exactly its two members between braces.
pub open spec fn parse_feed_obj(s: Seq<char>) -> Option<(FeedModel, Seq<char>)> {
    let s1 = skip_ws(s);
    if s1.len() > 0 && s1[0] == '{' {
        match parse_member(s1.skip(1)) {
            None => None,
            Some(m1) => {
                let s2 = skip_ws(m1.1);
                if s2.len() > 0 && s2[0] == ',' {
                    match parse_member(s2.skip(1)) {
                        None => None,
                        Some(m2) => {
                            let s3 = skip_ws(m2.1);
                            if s3.len() > 0 && s3[0] == '}' {
                                match feed_of_members(m1.0, m2.0) {
                                    None => None,
                                    Some(f) => Some((f, s3.skip(1))),
                                }
                            } else {
                                None
                            }
                        },
                    }
                } else {
                    None
                }
            },
        }
    } else {
        None
    }
}

/// Removing leading whitespace never lengthens the text.
pub proof fn lemma_skip_ws_len(s: Seq<char>)
    ensures
        skip_ws(s).len() <= s.len(),
    decreases s.len(),
{
    if s.len() > 0 && is_json_ws(s[0]) {
        lemma_skip_ws_len(s.skip(1));
    }
}

/// A parsed string body consumes at least its closing quote.
pub proof fn lemma_parse_string_body_len(s: Seq<char>)
    ensures
        parse_string_body(s) matches Some(p) ==> p.1.len() < s.len(),
    decreases s.len(),
{
    reveal(parse_string_body);
    if s.len() == 0 {
    } else if s[0] == '"' {
    } else if s[0] == '\\' {
        if s.len() >= 2 {
            lemma_parse_string_body_len(s.skip(2));
            if s.len() >= 6 {
                lemma_parse_string_body_len(s.skip(6));
            }
            if s.len() >= 12 {
                lemma_parse_string_body_len(s.skip(12));
            }
        }
    } else {
        lemma_parse_string_body_len(s.skip(1));
    }
}

/// A parsed string consumes at least its two quotes.
pub proof fn lemma_parse_string_len(s: Seq<char>)
    ensures
        parse_string(s) matches Some(p) ==> p.1.len() < s.len(),
{
    if s.len() > 0 && s[0] == '"' {
        lemma_parse_string_body_len(s.skip(1));
    }
}

/// A parsed member consumes at least its two strings and colon.
pub proof fn lemma_parse_member_len(s: Seq<char>)
    ensures
        parse_member(s) matches Some(m) ==> m.1.len() < s.len(),
{
    lemma_skip_ws_len(s);
    lemma_parse_string_len(skip_ws(s));
    match parse_string(skip_ws(s)) {
        Some(k) => {
            let s2 = skip_ws(k.1);
            lemma_skip_ws_len(k.1);
            if s2.len() > 0 && s2[0] == ':' {
                lemma_skip_ws_len(s2.skip(1));
                lemma_parse_string_len(skip_ws(s2.skip(1)));
            }
        },
        None => {},
    }
}

/// A parsed feed object consumes at least its braces.
pub proof fn lemma_parse_feed_obj_len(s: Seq<char>)
    ensures
        parse_feed_obj(s) matches Some(f) ==> f.1.len() < s.len(),
{
    lemma_skip_ws_len(s);
    let s1 = skip_ws(s);
    if s1.len() > 0 && s1[0] == '{' {
        lemma_parse_member_len(s1.skip(1));
        match parse_member(s1.skip(1)) {
            Some(m1) => {
                lemma_skip_ws_len(m1.1);
                let s2 = skip_ws(m1.1);
                if s2.len() > 0 && s2[0] == ',' {
                    lemma_parse_member_len(s2.skip(1));
                    match parse_member(s2.skip(1)) {
                        Some(m2) => {
                            lemma_skip_ws_len(m2.1);
                        },
                        None => {},
                    }
                }
            },
            None => {},
        }
    }
}

/// One or more feed objects separated by commas, with the remaining text
/// (leading whitespace removed) after the last one.
pub open spec fn parse_feeds_items(s: Seq<char>) -> Option<(Seq<FeedModel>, Seq<char>)>
    decreases s.len(),
        via parse_feeds_items_decreases
{
    match parse_feed_obj(s) {
        None => None,
        Some(f) => {
            let r = skip_ws(f.1);
            if r.len() > 0 && r[0] == ',' {
                match parse_feeds_items(r.skip(1)) {
                    None => None,
                    Some(rest) => Some((seq![f.0] + rest.0, rest.1)),
                }
            } else {
                Some((seq![f.0], r))
            }
        },
    }
}

#[via_fn]
proof fn parse_feeds_items_decreases(s: Seq<char>) {
    lemma_parse_feed_obj_len(s);
    match parse_feed_obj(s) {
        Some(f) => {
            lemma_skip_ws_len(f.1);
        },
        None => {},
    }
}

/// A whole store document: a JSON array of feed objects, possibly empty,
/// with nothing but whitespace around and after it.
pub open spec fn parse_feeds_doc(s: Seq<char>) -> Option<Seq<FeedModel>> {
    let s1 = skip_ws(s);
    if s1.len() > 0 && s1[0] == '[' {
        let s2 = skip_ws(s1.skip(1));
        if s2.len() > 0 && s2[0] == ']' {
            if skip_ws(s2.skip(1)).len() == 0 {
                Some(Seq::<FeedModel>::empty())
            } else {
                None
            }
        } else {
            match parse_feeds_items(s1.skip(1)) {
                None => None,
                Some(fs) => {
                    if fs.1.len() > 0 && fs.1[0] == ']' {
                        if skip_ws(fs.1.skip(1)).len() == 0 {
                            Some(fs.0)
                        } else {
                            None
                        }
                    } else {
                        None
                    }
                },
            }
        }
    } else {
        None
    }
}

/// Removing leading whitespace does nothing when the text is empty or does
/// not begin with whitespace.
pub proof fn lemma_skip_ws_noop(s: Seq<char>)
    requires
        s.len() == 0 || !is_json_ws(s[0]),
    ensures
        skip_ws(s) == s,
{
}

/// The string-body parser inverts the escaper: the escaped text, a closing
/// quote, and any remaining text parse back to the text and the remainder.
#[verifier::rlimit(100)]
#[verifier::spinoff_prover]
proof fn lemma_escape_parse(v: Seq<char>, rest: Seq<char>)
    ensures
        parse_string_body(escape_text(v) + seq!['"'] + rest) == Some((v, rest)),
    decreases v.len(),
{
    reveal(parse_string_body);
    let s = escape_text(v) + seq!['"'] + rest;
    if v.len() == 0 {
        assert(escape_text(v) =~= Seq::<char>::empty());
        assert(s =~= seq!['"'] + rest);
        assert(s[0] == '"');
        assert(s.skip(1) =~= rest);
        assert(v =~= Seq::<char>::empty());
    } else {
        let c = v[0];
        let e = escape_char(c);
        let tail = escape_text(v.skip(1)) + seq!['"'] + rest;
        assert(escape_text(v) == e + escape_text(v.skip(1)));
        assert(s =~= e + tail);
        lemma_escape_parse(v.skip(1), rest);
        assert(seq![c] + v.skip(1) =~= v);
        if c == '"' || c == '\\' {
            assert(s[0] == '\\' && s[1] == c);
            assert(s.len() >= 2);
            assert(s.skip(2) =~= tail);
            assert(parse_string_body(s) == cons_char(c, parse_string_body(s.skip(2))));
        } else if c == '\u{8}' {
            assert(s[0] == '\\' && s[1] == 'b');
            assert(s.skip(2) =~= tail);
        } else if c == '\u{c}' {
            assert(s[0] == '\\' && s[1] == 'f');
            assert(s.skip(2) =~= tail);
        } else if c == '\n' {
            assert(s[0] == '\\' && s[1] == 'n');
            assert(s.skip(2) =~= tail);
        } else if c == '\r' {
            assert(s[0] == '\\' && s[1] == 'r');
            assert(s.skip(2) =~= tail);
        } else if c == '\t' {
            assert(s[0] == '\\' && s[1] == 't');
            assert(s.skip(2) =~= tail);
        } else if (c as u32) < 32 {
            let u = (c as u32) as int;
            let hi = u / 16;
            let lo = u % 16;
            assert(e == seq!['\\', 'u', '0', '0', hex_digit(hi), hex_digit(lo)]);
            assert(s[0] == '\\' && s[1] == 'u');
            assert(s.len() >= 7);
            assert(s[2] == '0' && s[3] == '0' && s[4] == hex_digit(hi) && s[5] == hex_digit(lo));
            lemma_hex_digit_val(hi);
            lemma_hex_digit_val(lo);
            assert(hex_val('0') == 0);
            vstd::arithmetic::div_mod::lemma_fundamental_div_mod(u, 16);
            let h = hex4(s[2], s[3], s[4], s[5]);
            assert(h == u);
            assert(0 <= h < 0xD800);
            assert((h as u32) == c as u32);
            vstd::utf8::char_u32_cast(c, h as u32);
            assert((h as u32) as char == c);
            assert(s.skip(6) =~= tail);
            assert(parse_string_body(s) == cons_char(c, parse_string_body(s.skip(6))));
        } else {
            assert(e == seq![c]);
            assert(s[0] == c);
            assert(c != '"' && c != '\\');
            assert(s.skip(1) =~= tail);
            assert(parse_string_body(s) == cons_char(c, parse_string_body(s.skip(1))));
        }
    }
}

/// The string parser inverts quoting.
proof fn lemma_quoted_parse(v: Seq<char>, rest: Seq<char>)
    ensures
        parse_string(quoted(v) + rest) == Some((v, rest)),
{
    let s = quoted(v) + rest;
    assert(s.len() > 0 && s[0] == '"');
    assert(s.skip(1) =~= escape_text(v) + seq!['"'] + rest);
    lemma_escape_parse(v, rest);
}

/// The member parser inverts one serialized `"key":"value"` pair.
proof fn lemma_member_parse(key: Seq<char>, val: Seq<char>, rest: Seq<char>)
    ensures
        parse_member(quoted(key) + seq![':'] + quoted(val) + rest) == Some(((key, val), rest)),
{
    let s = quoted(key) + seq![':'] + quoted(val) + rest;
    assert(s.len() > 0 && s[0] == '"');
    lemma_skip_ws_noop(s);
    let r1 = seq![':'] + quoted(val) + rest;
    assert(s =~= quoted(key) + r1);
    lemma_quoted_parse(key, r1);
    assert(r1[0] == ':');
    lemma_skip_ws_noop(r1);
    let r2 = quoted(val) + rest;
    assert(r1.skip(1) =~= r2);
    assert(r2[0] == '"');
    lemma_skip_ws_noop(r2);
    lemma_quoted_parse(val, rest);
}

/// The object parser inverts the serialization of one feed.
#[verifier::rlimit(100)]
#[verifier::spinoff_prover]
proof fn lemma_feed_obj_parse(f: FeedModel, rest: Seq<char>)
    ensures
        parse_feed_obj(feed_json(f) + rest) == Some((f, rest)),
{
    let s = feed_json(f) + rest;
    assert(s.len() > 0 && s[0] == '{');
    lemma_skip_ws_noop(s);
    let m2rest = seq!['}'] + rest;
    let m1rest = seq![','] + quoted("url"@) + seq![':'] + quoted(f.url) + m2rest;
    assert(s.skip(1) =~= quoted("title"@) + seq![':'] + quoted(f.title) + m1rest);
    lemma_member_parse("title"@, f.title, m1rest);
    assert(m1rest[0] == ',');
    lemma_skip_ws_noop(m1rest);
    assert(m1rest.skip(1) =~= quoted("url"@) + seq![':'] + quoted(f.url) + m2rest);
    lemma_member_parse("url"@, f.url, m2rest);
    assert(m2rest[0] == '}');
    lemma_skip_ws_noop(m2rest);
    assert(m2rest.skip(1) =~= rest);
    assert(feed_of_members(("title"@, f.title), ("url"@, f.url)) == Some(
        FeedModel { title: f.title, url: f.url },
    ));
    assert(FeedModel { title: f.title, url: f.url } == f);
}

/// The item-list parser inverts the serialization of a nonempty list when
/// the closing bracket follows.
proof fn lemma_items_parse(fs: Seq<FeedModel>, rest: Seq<char>)
    requires
        fs.len() >= 1,
        rest.len() > 0,
        rest[0] == ']',
    ensures
        parse_feeds_items(feeds_json_items(fs) + rest) == Some((fs, rest)),
    decreases fs.len(),
{
    let s = feeds_json_items(fs) + rest;
    if fs.len() == 1 {
        assert(s =~= feed_json(fs[0]) + rest);
        lemma_feed_obj_parse(fs[0], rest);
        lemma_skip_ws_noop(rest);
        assert(rest[0] != ',');
        assert(seq![fs[0]] =~= fs);
    } else {
        let tailrest = feeds_json_items(fs.skip(1)) + rest;
        let r1 = seq![','] + tailrest;
        assert(s =~= feed_json(fs[0]) + r1);
        lemma_feed_obj_parse(fs[0], r1);
        assert(r1[0] == ',');
        lemma_skip_ws_noop(r1);
        assert(r1.skip(1) =~= tailrest);
        lemma_items_parse(fs.skip(1), rest);
        assert(seq![fs[0]] + fs.skip(1) =~= fs);
    }
}

/// The store's parser inverts its serializer: parsing a serialized
/// collection returns exactly that collection, feed for feed, in order.
pub proof fn lemma_store_round_trip(fs: Seq<FeedModel>)
    ensures
        parse_feeds_doc(feeds_json(fs)) == Some(fs),
{
    let s = feeds_json(fs);
    assert(s.len() > 0 && s[0] == '[');
    lemma_skip_ws_noop(s);
    if fs.len() == 0 {
        assert(feeds_json_items(fs) =~= Seq::<char>::empty());
        assert(s.skip(1) =~= seq![']']);
        lemma_skip_ws_noop(seq![']']);
        assert(seq![']'][0] == ']');
        assert(seq![']'].skip(1) =~= Seq::<char>::empty());
    } else {
        let rest = seq![']'];
        let body = feeds_json_items(fs) + rest;
        assert(s.skip(1) =~= body);
        assert(feeds_json_items(fs)[0] == '{') by {
            if fs.len() == 1 {
                assert(feeds_json_items(fs) == feed_json(fs[0]));
            } else {
                assert(feeds_json_items(fs) == feed_json(fs[0]) + seq![','] + feeds_json_items(
                    fs.skip(1),
                ));
            }
        }
        assert(body[0] == '{');
        lemma_skip_ws_noop(body);
        lemma_items_parse(fs, rest);
        assert(rest.skip(1) =~= Seq::<char>::empty());
    }
}

/// The lower-case hexadecimal digit character of a value below sixteen.
fn hex_digit_x(n: u32) -> (r: char)
    requires
        n < 16,
    ensures
        r == hex_digit(n as int),
{
    if n == 0 {
        '0'
    } else if n == 1 {
        '1'
    } else if n == 2 {
        '2'
    } else if n == 3 {
        '3'
    } else if n == 4 {
        '4'
    } else if n == 5 {
        '5'
    } else if n == 6 {
        '6'
    } else if n == 7 {
        '7'
    } else if n == 8 {
        '8'
    } else if n == 9 {
        '9'
    } else if n == 10 {
        'a'
    } else if n == 11 {
        'b'
    } else if n == 12 {
        'c'
    } else if n == 13 {
        'd'
    } else if n == 14 {
        'e'
    } else {
        'f'
    }
}

/// Appends the JSON string form of `s` to `out`.
fn write_quoted(out: &mut String, s: &str)
    ensures
        final(out)@ == old(out)@ + quoted(s@),
{
    out.push('"');
    let n = s.unicode_len();
    let mut i: usize = 0;
    proof {
        assert(s@.skip(0) =~= s@);
        assert(out@ + escape_text(s@) =~= old(out)@ + seq!['"'] + escape_text(s@));
    }
    while i < n
        invariant
            i <= n,
            n == s@.len(),
            out@ + escape_text(s@.skip(i as int)) == old(out)@ + seq!['"'] + escape_text(s@),
        decreases n - i,
    {
        let ghost before = out@;
        let ghost suffix = s@.skip(i as int);
        let c = s.get_char(i);
        if c == '"' {
            out.push('\\');
            out.push('"');
        } else if c == '\\' {
            out.push('\\');
            out.push('\\');
        } else if c == '\u{8}' {
            out.push('\\');
            out.push('b');
        } else if c == '\u{c}' {
            out.push('\\');
            out.push('f');
        } else if c == '\n' {
            out.push('\\');
            out.push('n');
        } else if c == '\r' {
            out.push('\\');
            out.push('r');
        } else if c == '\t' {
            out.push('\\');
            out.push('t');
        } else {
            let u = c as u32;
            if u < 32 {
                out.push('\\');
                out.push('u');
                out.push('0');
                out.push('0');
                out.push(hex_digit_x(u / 16));
                out.push(hex_digit_x(u % 16));
            } else {
                out.push(c);
            }
        }
        proof {
            assert(out@ =~= before + escape_char(suffix[0]));
            assert(escape_text(suffix) == escape_char(suffix[0]) + escape_text(suffix.skip(1)));
            assert(suffix.skip(1) =~= s@.skip(i as int + 1));
            assert(out@ + escape_text(s@.skip(i as int + 1)) =~= before + escape_text(suffix));
        }
        i = i + 1;
    }
    proof {
        assert(escape_text(s@.skip(n as int)) =~= Seq::<char>::empty());
        assert(out@ =~= out@ + escape_text(s@.skip(n as int)));
    }
    out.push('"');
    proof {
        assert(out@ =~= old(out)@ + quoted(s@));
    }
}

/// Appends the serialized form of one feed to `out`.
fn write_feed_obj(out: &mut String, f: &Feed)
    ensures
        final(out)@ == old(out)@ + feed_json(f@),
{
    out.push('{');
    write_quoted(out, "title");
    out.push(':');
    write_quoted(out, f.title.as_str());
    out.push(',');
    write_quoted(out, "url");
    out.push(':');
    write_quoted(out, f.url.as_str());
    out.push('}');
    proof {
        assert(out@ =~= old(out)@ + feed_json(f@));
    }
}

/// The remaining serialization after the first `idx` feeds are written: the
/// rest of the comma-separated items, with its separating comma when some
/// item was already written and more follow.
spec fn rest_items(ms: Seq<FeedModel>, idx: int) -> Seq<char> {
    if idx == 0 {
        feeds_json_items(ms)
    } else if idx < ms.len() {
        seq![','] + feeds_json_items(ms.skip(idx))
    } else {
        Seq::<char>::empty()
    }
}

/// The whole collection serialized, in order, as [`feeds_json`] describes.
pub fn feeds_to_json(feeds: &Vec<Feed>) -> (r: String)
    ensures
        r@ == feeds_json(feed_models(feeds@)),
{
    let ghost ms = feed_models(feeds@);
    let mut out = String::new();
    out.push('[');
    let mut idx: usize = 0;
    proof {
        assert(ms.len() == feeds@.len());
        assert(out@ =~= seq!['[']);
        assert(seq!['['] + feeds_json_items(ms) =~= out@ + rest_items(ms, 0));
    }
    while idx < feeds.len()
        invariant
            idx <= feeds@.len(),
            ms == feed_models(feeds@),
            ms.len() == feeds@.len(),
            seq!['['] + feeds_json_items(ms) == out@ + rest_items(ms, idx as int),
        decreases feeds@.len() - idx,
    {
        let ghost before = out@;
        if idx > 0 {
            out.push(',');
        }
        write_feed_obj(&mut out, &feeds[idx]);
        proof {
            let k = idx as int;
            assert(feeds@[k]@ == ms[k]);
            if k == 0 {
                if ms.len() == 1 {
                    assert(feeds_json_items(ms) == feed_json(ms[0]));
                    assert(out@ =~= before + feed_json(ms[0]));
                    assert(out@ + rest_items(ms, 1) =~= before + rest_items(ms, 0));
                } else {
                    assert(feeds_json_items(ms) == feed_json(ms[0]) + seq![',']
                        + feeds_json_items(ms.skip(1)));
                    assert(out@ =~= before + feed_json(ms[0]));
                    assert(out@ + rest_items(ms, 1) =~= before + rest_items(ms, 0));
                }
            } else {
                let tail = ms.skip(k);
                assert(tail[0] == ms[k]);
                if tail.len() == 1 {
                    assert(feeds_json_items(tail) == feed_json(tail[0]));
                    assert(out@ =~= before + seq![','] + feed_json(ms[k]));
                    assert(out@ + rest_items(ms, k + 1) =~= before + rest_items(ms, k));
                } else {
                    assert(feeds_json_items(tail) == feed_json(tail[0]) + seq![',']
                        + feeds_json_items(tail.skip(1)));
                    assert(tail.skip(1) =~= ms.skip(k + 1));
                    assert(out@ =~= before + seq![','] + feed_json(ms[k]));
                    assert(out@ + rest_items(ms, k + 1) =~= before + rest_items(ms, k));
                }
            }
        }
        idx = idx + 1;
    }
    proof {
        assert(rest_items(ms, idx as int) =~= Seq::<char>::empty());
        assert(out@ =~= seq!['['] + feeds_json_items(ms));
    }
    out.push(']');
    proof {
        assert(out@ =~= feeds_json(ms));
    }
    out
}

/// Relies on `char::from_u32`: the conversion succeeds exactly on Unicode
/// scalar values (no surrogate values, nothing above the Unicode maximum)
/// and returns the character with that value.
pub assume_specification[ char::from_u32 ](u: u32) -> (r: Option<char>)
    ensures
        r matches Some(c) ==> c as u32 == u,
        u < 0xD800 || (0xE000 <= u && u <= 0x10FFFF) ==> r is Some,
;

/// The value of a hexadecimal digit character, if it is one.
fn hex_val_x(c: char) -> (r: Option<u32>)
    ensures
        r matches Some(v) ==> hex_val(c) == v as int && v < 16,
        r is None ==> hex_val(c) < 0,
{
    let u = c as u32;
    if u >= 48 && u <= 57 {
        Some(u - 48)
    } else if u >= 97 && u <= 102 {
        Some(u - 87)
    } else if u >= 65 && u <= 70 {
        Some(u - 55)
    } else {
        None
    }
}

/// The index after the leading JSON whitespace from position `i`.
fn skip_ws_x(s: &str, i: usize, n: usize) -> (r: usize)
    requires
        i <= n,
        n == s@.len(),
    ensures
        i <= r <= n,
        s@.skip(r as int) == skip_ws(s@.skip(i as int)),
{
    let mut j = i;
    loop
        invariant
            i <= j <= n,
            n == s@.len(),
            skip_ws(s@.skip(i as int)) == skip_ws(s@.skip(j as int)),
        decreases n - j,
    {
        if j >= n {
            proof {
                assert(s@.skip(j as int) =~= Seq::<char>::empty());
                lemma_skip_ws_noop(s@.skip(j as int));
            }
            return j;
        }
        let c = s.get_char(j);
        if !(c == ' ' || c == '\t' || c == '\n' || c == '\r') {
            proof {
                lemma_skip_ws_noop(s@.skip(j as int));
            }
            return j;
        }
        proof {
            assert(s@.skip(j as int).skip(1) =~= s@.skip(j as int + 1));
        }
        j = j + 1;
    }
}

/// The prefix prepended to a partial string-body parse.
spec fn cons_pref(p: Seq<char>, o: Option<(Seq<char>, Seq<char>)>) -> Option<
    (Seq<char>, Seq<char>),
> {
    match o {
        Some(q) => Some((p + q.0, q.1)),
        None => None,
    }
}

proof fn lemma_cons_pref_char(p: Seq<char>, c: char, o: Option<(Seq<char>, Seq<char>)>)
    ensures
        cons_pref(p, cons_char(c, o)) == cons_pref(p.push(c), o),
{
    match o {
        Some(q) => {
            assert(p + (seq![c] + q.0) =~= p.push(c) + q.0);
        },
        None => {},
    }
}

/// One step of the string-body parse at position `j`: the closing quote,
/// one decoded character (a plain character or a resolved escape), or a
/// failure.
enum StepResult {
    Done(usize),
    Chr(char, usize),
    Fail,
}

/// One string-body step, as one unfolding of [`parse_string_body`].
#[verifier::rlimit(100)]
#[verifier::spinoff_prover]
fn parse_step_at(s: &str, j: usize, n: usize) -> (r: StepResult)
    requires
        j < n,
        n == s@.len(),
    ensures
        r matches StepResult::Done(j2) ==> parse_string_body(s@.skip(j as int)) == Some(
            (Seq::<char>::empty(), s@.skip(j2 as int)),
        ) && j < j2 <= n,
        r matches StepResult::Chr(d, j2) ==> parse_string_body(s@.skip(j as int)) == cons_char(
            d,
            parse_string_body(s@.skip(j2 as int)),
        ) && j < j2 <= n,
        r matches StepResult::Fail ==> parse_string_body(s@.skip(j as int)) is None,
{
    let ghost suf = s@.skip(j as int);
    proof {
        reveal(parse_string_body);
        assert(suf[0] == s@[j as int]);
    }
    let c = s.get_char(j);
    if c == '"' {
        proof {
            assert(suf.skip(1) =~= s@.skip(j as int + 1));
        }
        return StepResult::Done(j + 1);
    }
    if c != '\\' {
        proof {
            assert(suf.skip(1) =~= s@.skip(j as int + 1));
        }
        return StepResult::Chr(c, j + 1);
    }
    if j + 1 >= n {
        proof {
            assert(suf.len() < 2);
        }
        return StepResult::Fail;
    }
    let e = s.get_char(j + 1);
    assert(suf[1] == s@[j as int + 1]);
    if e == '"' || e == '\\' || e == '/' {
        proof {
            assert(suf.skip(2) =~= s@.skip(j as int + 2));
        }
        StepResult::Chr(e, j + 2)
    } else if e == 'b' || e == 'f' || e == 'n' || e == 'r' || e == 't' {
        let d: char = if e == 'b' {
            '\u{8}'
        } else if e == 'f' {
            '\u{c}'
        } else if e == 'n' {
            '\n'
        } else if e == 'r' {
            '\r'
        } else {
            '\t'
        };
        proof {
            assert(suf.skip(2) =~= s@.skip(j as int + 2));
        }
        StepResult::Chr(d, j + 2)
    } else if e == 'u' {
        if n - j < 6 {
            proof {
                assert(suf.len() < 6);
            }
            return StepResult::Fail;
        }
        proof {
            assert(suf[2] == s@[j as int + 2]);
            assert(suf[3] == s@[j as int + 3]);
            assert(suf[4] == s@[j as int + 4]);
            assert(suf[5] == s@[j as int + 5]);
        }
        let d0 = hex_val_x(s.get_char(j + 2));
        let d1 = hex_val_x(s.get_char(j + 3));
        let d2 = hex_val_x(s.get_char(j + 4));
        let d3 = hex_val_x(s.get_char(j + 5));
        let (v0, v1, v2, v3) = match (d0, d1, d2, d3) {
            (Some(v0), Some(v1), Some(v2), Some(v3)) => (v0, v1, v2, v3),
            _ => {
                proof {
                    assert(hex4(suf[2], suf[3], suf[4], suf[5]) < 0);
                }
                return StepResult::Fail;
            },
        };
        let h = v0 * 4096 + v1 * 256 + v2 * 16 + v3;
        proof {
            assert(h as int == hex4(suf[2], suf[3], suf[4], suf[5]));
        }
        if h >= 0xD800 && h < 0xDC00 {
            if n - j < 12 {
                proof {
                    assert(suf.len() < 12);
                }
                return StepResult::Fail;
            }
            proof {
                assert(suf[6] == s@[j as int + 6]);
                assert(suf[7] == s@[j as int + 7]);
                assert(suf[8] == s@[j as int + 8]);
                assert(suf[9] == s@[j as int + 9]);
                assert(suf[10] == s@[j as int + 10]);
                assert(suf[11] == s@[j as int + 11]);
            }
            if s.get_char(j + 6) != '\\' || s.get_char(j + 7) != 'u' {
                return StepResult::Fail;
            }
            let l0 = hex_val_x(s.get_char(j + 8));
            let l1 = hex_val_x(s.get_char(j + 9));
            let l2 = hex_val_x(s.get_char(j + 10));
            let l3 = hex_val_x(s.get_char(j + 11));
            let (w0, w1, w2, w3) = match (l0, l1, l2, l3) {
                (Some(w0), Some(w1), Some(w2), Some(w3)) => (w0, w1, w2, w3),
                _ => {
                    proof {
                        assert(hex4(suf[8], suf[9], suf[10], suf[11]) < 0);
                    }
                    return StepResult::Fail;
                },
            };
            let l = w0 * 4096 + w1 * 256 + w2 * 16 + w3;
            proof {
                assert(l as int == hex4(suf[8], suf[9], suf[10], suf[11]));
            }
            if !(l >= 0xDC00 && l < 0xE000) {
                return StepResult::Fail;
            }
            let code = 0x10000 + (h - 0xD800) * 0x400 + (l - 0xDC00);
            let d = match char::from_u32(code) {
                Some(ch) => ch,
                None => ' ',
            };
            proof {
                assert(0x10000 <= code <= 0x10FFFF);
                vstd::utf8::char_u32_cast(d, code);
                assert(suf.skip(12) =~= s@.skip(j as int + 12));
            }
            StepResult::Chr(d, j + 12)
        } else if h >= 0xDC00 && h < 0xE000 {
            StepResult::Fail
        } else {
            let d = match char::from_u32(h) {
                Some(ch) => ch,
                None => ' ',
            };
            proof {
                assert(h < 0xD800 || (0xE000 <= h && h <= 0x10FFFF));
                vstd::utf8::char_u32_cast(d, h);
                assert(suf.skip(6) =~= s@.skip(j as int + 6));
            }
            StepResult::Chr(d, j + 6)
        }
    } else {
        StepResult::Fail
    }
}

/// One JSON string read from position `i`, as [`parse_string`] describes.
fn parse_string_at(s: &str, i: usize, n: usize) -> (r: Option<(String, usize)>)
    requires
        i <= n,
        n == s@.len(),
    ensures
        r matches Some(p) ==> parse_string(s@.skip(i as int)) == Some(
            (p.0@, s@.skip(p.1 as int)),
        ) && i <= p.1 <= n,
        r is None ==> parse_string(s@.skip(i as int)) is None,
{
    if i >= n {
        return None;
    }
    if s.get_char(i) != '"' {
        return None;
    }
    let start = i + 1;
    proof {
        assert(s@.skip(i as int).skip(1) =~= s@.skip(start as int));
    }
    let mut out = String::new();
    let mut j = start;
    proof {
        assert(parse_string(s@.skip(i as int)) == cons_pref(
            out@,
            parse_string_body(s@.skip(start as int)),
        )) by {
            match parse_string_body(s@.skip(start as int)) {
                Some(q) => {
                    assert(out@ + q.0 =~= q.0);
                },
                None => {},
            }
        }
    }
    loop
        invariant
            i < start,
            start <= j <= n,
            n == s@.len(),
            parse_string(s@.skip(i as int)) == cons_pref(out@, parse_string_body(s@.skip(j as int))),
        decreases n - j,
    {
        if j >= n {
            proof {
                reveal(parse_string_body);
                assert(s@.skip(j as int).len() == 0);
            }
            return None;
        }
        match parse_step_at(s, j, n) {
            StepResult::Done(j2) => {
                proof {
                    assert(parse_string_body(s@.skip(j as int)) == Some(
                        (Seq::<char>::empty(), s@.skip(j2 as int)),
                    ));
                    assert(cons_pref(out@, parse_string_body(s@.skip(j as int))) == Some(
                        (out@ + Seq::<char>::empty(), s@.skip(j2 as int)),
                    ));
                    assert(out@ + Seq::<char>::empty() =~= out@);
                    assert(parse_string(s@.skip(i as int)) == Some((out@, s@.skip(j2 as int))));
                }
                return Some((out, j2));
            },
            StepResult::Chr(d, j2) => {
                let ghost before = out@;
                out.push(d);
                proof {
                    lemma_cons_pref_char(before, d, parse_string_body(s@.skip(j2 as int)));
                }
                j = j2;
            },
            StepResult::Fail => {
                return None;
            },
        }
    }
}

/// One `"key":"value"` member read from position `i`, as [`parse_member`]
/// describes.
fn parse_member_at(s: &str, i: usize, n: usize) -> (r: Option<((String, String), usize)>)
    requires
        i <= n,
        n == s@.len(),
    ensures
        r matches Some(m) ==> parse_member(s@.skip(i as int)) == Some(
            ((m.0.0@, m.0.1@), s@.skip(m.1 as int)),
        ) && i <= m.1 <= n,
        r is None ==> parse_member(s@.skip(i as int)) is None,
{
    let a = skip_ws_x(s, i, n);
    let k = match parse_string_at(s, a, n) {
        Some(k) => k,
        None => {
            return None;
        },
    };
    let b = skip_ws_x(s, k.1, n);
    if b >= n {
        return None;
    }
    if s.get_char(b) != ':' {
        return None;
    }
    proof {
        assert(s@.skip(b as int)[0] == s@[b as int]);
        assert(s@.skip(b as int).skip(1) =~= s@.skip(b as int + 1));
    }
    let c0 = skip_ws_x(s, b + 1, n);
    let v = match parse_string_at(s, c0, n) {
        Some(v) => v,
        None => {
            return None;
        },
    };
    Some(((k.0, v.0), v.1))
}

/// One feed object read from position `i`, as [`parse_feed_obj`] describes.
fn parse_feed_obj_at(s: &str, i: usize, n: usize) -> (r: Option<(Feed, usize)>)
    requires
        i <= n,
        n == s@.len(),
    ensures
        r matches Some(f) ==> parse_feed_obj(s@.skip(i as int)) == Some(
            (f.0@, s@.skip(f.1 as int)),
        ) && i <= f.1 <= n,
        r is None ==> parse_feed_obj(s@.skip(i as int)) is None,
{
    let a = skip_ws_x(s, i, n);
    if a >= n {
        return None;
    }
    if s.get_char(a) != '{' {
        return None;
    }
    proof {
        assert(s@.skip(a as int)[0] == s@[a as int]);
        assert(s@.skip(a as int).skip(1) =~= s@.skip(a as int + 1));
    }
    let m1 = match parse_member_at(s, a + 1, n) {
        Some(m) => m,
        None => {
            return None;
        },
    };
    let b = skip_ws_x(s, m1.1, n);
    if b >= n {
        return None;
    }
    if s.get_char(b) != ',' {
        return None;
    }
    proof {
        assert(s@.skip(b as int)[0] == s@[b as int]);
        assert(s@.skip(b as int).skip(1) =~= s@.skip(b as int + 1));
    }
    let m2 = match parse_member_at(s, b + 1, n) {
        Some(m) => m,
        None => {
            return None;
        },
    };
    let c0 = skip_ws_x(s, m2.1, n);
    if c0 >= n {
        return None;
    }
    if s.get_char(c0) != '}' {
        return None;
    }
    proof {
        assert(s@.skip(c0 as int)[0] == s@[c0 as int]);
        assert(s@.skip(c0 as int).skip(1) =~= s@.skip(c0 as int + 1));
    }
    let ((k1, v1), _) = m1;
    let ((k2, v2), _) = m2;
    let k1_title = str_eq(k1.as_str(), "title");
    let k1_url = str_eq(k1.as_str(), "url");
    let k2_title = str_eq(k2.as_str(), "title");
    let k2_url = str_eq(k2.as_str(), "url");
    if k1_title && k2_url {
        Some((Feed { title: v1, url: v2 }, c0 + 1))
    } else if k1_url && k2_title {
        Some((Feed { title: v2, url: v1 }, c0 + 1))
    } else {
        None
    }
}

/// The prefix prepended to a partial item-list parse.
spec fn pref_feeds(p: Seq<FeedModel>, o: Option<(Seq<FeedModel>, Seq<char>)>) -> Option<
    (Seq<FeedModel>, Seq<char>),
> {
    match o {
        Some(q) => Some((p + q.0, q.1)),
        None => None,
    }
}

/// The document's value, given the result of its item-list parse.
spec fn doc_result(o: Option<(Seq<FeedModel>, Seq<char>)>) -> Option<Seq<FeedModel>> {
    match o {
        None => None,
        Some(fs) => {
            if fs.1.len() > 0 && fs.1[0] == ']' && skip_ws(fs.1.skip(1)).len() == 0 {
                Some(fs.0)
            } else {
                None
            }
        },
    }
}

/// The store document parsed, as [`parse_feeds_doc`] describes: the feed
/// list on exactly the documents that the format admits, and the
/// deserialization failure on every other document.
#[verifier::rlimit(100)]
pub fn parse_feeds(s: &str) -> (r: Result<Vec<Feed>, FeedError>)
    ensures
        (r is Ok) == (parse_feeds_doc(s@) is Some),
        r matches Ok(v) ==> parse_feeds_doc(s@) == Some(feed_models(v@)),
        r matches Err(e) ==> e == FeedError::Serialization,
{
    let n = s.unicode_len();
    proof {
        assert(s@.skip(0) =~= s@);
    }
    let a = skip_ws_x(s, 0, n);
    if a >= n {
        proof {
            assert(skip_ws(s@).len() == 0);
        }
        return Err(FeedError::Serialization);
    }
    if s.get_char(a) != '[' {
        proof {
            assert(skip_ws(s@)[0] == s@[a as int]);
        }
        return Err(FeedError::Serialization);
    }
    proof {
        assert(skip_ws(s@)[0] == s@[a as int]);
        assert(s@.skip(a as int).skip(1) =~= s@.skip(a as int + 1));
    }
    let b = skip_ws_x(s, a + 1, n);
    if b < n && s.get_char(b) == ']' {
        proof {
            assert(s@.skip(b as int)[0] == s@[b as int]);
            assert(s@.skip(b as int).skip(1) =~= s@.skip(b as int + 1));
        }
        let c0 = skip_ws_x(s, b + 1, n);
        if c0 == n {
            proof {
                assert(s@.skip(n as int).len() == 0);
                let empty_vec = Seq::<Feed>::empty();
                assert(feed_models(empty_vec) =~= Seq::<FeedModel>::empty());
            }
            let out: Vec<Feed> = Vec::new();
            proof {
                assert(feed_models(out@) =~= Seq::<FeedModel>::empty());
            }
            return Ok(out);
        } else {
            proof {
                assert(s@.skip(c0 as int).len() > 0);
            }
            return Err(FeedError::Serialization);
        }
    }
    let ghost start = a + 1;
    proof {
        assert(parse_feeds_doc(s@) == doc_result(parse_feeds_items(s@.skip(start as int)))) by {
            let s2 = skip_ws(s@.skip(a as int + 1));
            assert(s2 == s@.skip(b as int));
            if b < n {
                assert(s2[0] == s@[b as int]);
            } else {
                assert(s2.len() == 0);
            }
        }
    }
    let mut out: Vec<Feed> = Vec::new();
    let mut cur = a + 1;
    proof {
        assert(parse_feeds_items(s@.skip(start as int)) == pref_feeds(
            feed_models(out@),
            parse_feeds_items(s@.skip(cur as int)),
        )) by {
            match parse_feeds_items(s@.skip(cur as int)) {
                Some(q) => {
                    assert(feed_models(out@) =~= Seq::<FeedModel>::empty());
                    assert(feed_models(out@) + q.0 =~= q.0);
                },
                None => {},
            }
        }
    }
    loop
        invariant
            start <= cur <= n,
            n == s@.len(),
            parse_feeds_doc(s@) == doc_result(parse_feeds_items(s@.skip(start as int))),
            parse_feeds_items(s@.skip(start as int)) == pref_feeds(
                feed_models(out@),
                parse_feeds_items(s@.skip(cur as int)),
            ),
        decreases n - cur,
    {
        let f = match parse_feed_obj_at(s, cur, n) {
            Some(f) => f,
            None => {
                return Err(FeedError::Serialization);
            },
        };
        proof {
            lemma_parse_feed_obj_len(s@.skip(cur as int));
        }
        let (feed, after) = f;
        let ghost m = feed@;
        let r2 = skip_ws_x(s, after, n);
        let ghost items_here = parse_feeds_items(s@.skip(cur as int));
        if r2 < n && s.get_char(r2) == ',' {
            proof {
                assert(s@.skip(r2 as int)[0] == s@[r2 as int]);
                assert(s@.skip(r2 as int).skip(1) =~= s@.skip(r2 as int + 1));
                assert(items_here == (match parse_feeds_items(s@.skip(r2 as int + 1)) {
                    Some(rest) => Some((seq![m] + rest.0, rest.1)),
                    None => None,
                }));
            }
            let ghost before = out@;
            out.push(feed);
            proof {
                assert(feed_models(out@) =~= feed_models(before).push(m));
                match parse_feeds_items(s@.skip(r2 as int + 1)) {
                    Some(rest) => {
                        assert(feed_models(before) + (seq![m] + rest.0) =~= feed_models(
                            before,
                        ).push(m) + rest.0);
                    },
                    None => {},
                }
            }
            cur = r2 + 1;
        } else {
            proof {
                if r2 < n {
                    assert(s@.skip(r2 as int)[0] == s@[r2 as int]);
                } else {
                    assert(s@.skip(r2 as int).len() == 0);
                }
                assert(items_here == Some((seq![m], s@.skip(r2 as int))));
            }
            let ghost before = out@;
            out.push(feed);
            proof {
                assert(feed_models(out@) =~= feed_models(before).push(m));
                assert(feed_models(before) + seq![m] =~= feed_models(before).push(m));
                assert(parse_feeds_items(s@.skip(start as int)) == Some(
                    (feed_models(out@), s@.skip(r2 as int)),
                ));
            }
            if r2 >= n {
                proof {
                    assert(s@.skip(r2 as int).len() == 0);
                }
                return Err(FeedError::Serialization);
            }
            if s.get_char(r2) != ']' {
                proof {
                    assert(s@.skip(r2 as int)[0] == s@[r2 as int]);
                }
                return Err(FeedError::Serialization);
            }
            proof {
                assert(s@.skip(r2 as int)[0] == s@[r2 as int]);
                assert(s@.skip(r2 as int).skip(1) =~= s@.skip(r2 as int + 1));
            }
            let e0 = skip_ws_x(s, r2 + 1, n);
            if e0 == n {
                proof {
                    assert(s@.skip(n as int).len() == 0);
                }
                return Ok(out);
            } else {
                proof {
                    assert(s@.skip(e0 as int).len() > 0);
                }
                return Err(FeedError::Serialization);
            }
        }
    }
}

} // verus!
