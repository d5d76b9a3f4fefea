//! String utilities shared by the extractor, the normalizer and the store:
//! trailing-terminator stripping, character-exact string comparison, and
//! removal of every occurrence of a marker substring.
#![allow(unused_imports)]
use vstd::prelude::*;
use vstd::string::*;

verus! {

/// Holds when the sequence ends with a line feed.
pub open spec fn ends_with_newline(s: Seq<char>) -> bool {
    s.len() >= 1 && s[s.len() - 1] == '\n'
}

/// One trailing terminator removed: a final `"\r\n"` loses both characters,
/// otherwise a final `"\n"` loses that character alone; anything else is kept.
pub open spec fn strip_newline_spec(s: Seq<char>) -> Seq<char> {
    if s.len() >= 2 && s[s.len() - 2] == '\r' && s[s.len() - 1] == '\n' {
        s.take(s.len() - 2)
    } else if ends_with_newline(s) {
        s.take(s.len() - 1)
    } else {
        s
    }
}

/// Stripping a trailing terminator twice gives the same text as stripping it
/// once, provided the once-stripped text does not itself end with a line
/// feed (a text ending in two terminators loses one per application).
pub proof fn lemma_strip_newline_idempotent(s: Seq<char>)
    requires
        !ends_with_newline(strip_newline_spec(s)),
    ensures
        strip_newline_spec(strip_newline_spec(s)) == strip_newline_spec(s),
{
}

/// Relies on `String::push`: appends the character to the end of the string.
pub assume_specification[ String::push ](s: &mut String, c: char)
    ensures
        final(s)@ == old(s)@.push(c),
;

/// Character-for-character equality of two string slices.
pub fn str_eq(a: &str, b: &str) -> (r: bool)
    ensures
        r == (a@ == b@),
{
    let an = a.unicode_len();
    let bn = b.unicode_len();
    if an != bn {
        return false;
    }
    let mut i: usize = 0;
    while i < an
        invariant
            i <= an,
            an == a@.len(),
            an == b@.len(),
            forall|j: int| 0 <= j < i ==> a@[j] == b@[j],
        decreases an - i,
    {
        if a.get_char(i) != b.get_char(i) {
            return false;
        }
        i = i + 1;
    }
    proof {
        assert(a@ =~= b@);
    }
    true
}

/// Whether the character is markup whitespace.
pub open spec fn is_ws_char(c: char) -> bool {
    c == ' ' || c == '\t' || c == '\n' || c == '\r'
}

/// Whether the text consists of markup whitespace alone.
pub open spec fn ws_only(s: Seq<char>) -> bool {
    forall|i: int| 0 <= i < s.len() ==> is_ws_char(#[trigger] s[i])
}

/// Whether the string consists of markup whitespace alone.
pub fn ws_only_x(s: &str) -> (r: bool)
    ensures
        r == ws_only(s@),
{
    let n = s.unicode_len();
    let mut i: usize = 0;
    while i < n
        invariant
            i <= n,
            n == s@.len(),
            forall|j: int| 0 <= j < i ==> is_ws_char(#[trigger] s@[j]),
        decreases n - i,
    {
        let c = s.get_char(i);
        if !(c == ' ' || c == '\t' || c == '\n' || c == '\r') {
            return false;
        }
        i = i + 1;
    }
    true
}

/// The marker occurs as a substring beginning at position `i`.
pub open spec fn match_at(s: Seq<char>, p: Seq<char>, i: int) -> bool {
    0 <= i && i + p.len() <= s.len() && s.subrange(i, i + p.len()) == p
}

/// The marker occurs somewhere in the text.
pub open spec fn contains_marker(s: Seq<char>, p: Seq<char>) -> bool {
    exists|i: int| match_at(s, p, i)
}

/// Every occurrence of the marker removed, scanning left to right without
/// rescanning the characters already emitted, as `str::replace` does.
pub open spec fn remove_marks(s: Seq<char>, p: Seq<char>) -> Seq<char>
    decreases s.len(),
{
    if p.len() == 0 {
        s
    } else if s.len() < p.len() {
        s
    } else if s.take(p.len() as int) == p {
        remove_marks(s.skip(p.len() as int), p)
    } else {
        seq![s[0]] + remove_marks(s.skip(1), p)
    }
}

/// A text without any occurrence of the marker is left unchanged.
pub proof fn lemma_remove_marks_absent(s: Seq<char>, p: Seq<char>)
    requires
        p.len() >= 1,
        !contains_marker(s, p),
    ensures
        remove_marks(s, p) == s,
    decreases s.len(),
{
    if s.len() < p.len() {
    } else {
        assert(!match_at(s, p, 0));
        assert(s.take(p.len() as int) =~= s.subrange(0, p.len() as int));
        assert(s.take(p.len() as int) != p);
        assert forall|i: int| !match_at(s.skip(1), p, i) by {
            if match_at(s.skip(1), p, i) {
                assert(s.skip(1).subrange(i, i + p.len()) =~= s.subrange(i + 1, i + 1 + p.len()));
                assert(match_at(s, p, i + 1));
            }
        }
        lemma_remove_marks_absent(s.skip(1), p);
        assert(seq![s[0]] + s.skip(1) =~= s);
    }
}

/// Whether the marker occurs at position `i`; lengths are passed in so the
/// caller measures each string once.
fn is_match_at(s: &str, p: &str, i: usize, n: usize, m: usize) -> (r: bool)
    requires
        n == s@.len(),
        m == p@.len(),
        i <= n,
    ensures
        r == match_at(s@, p@, i as int),
{
    if m > n - i {
        return false;
    }
    let mut j: usize = 0;
    while j < m
        invariant
            j <= m,
            i <= n,
            m <= n - i,
            n == s@.len(),
            m == p@.len(),
            forall|k: int| 0 <= k < j ==> s@[i + k] == p@[k],
        decreases m - j,
    {
        if s.get_char(i + j) != p.get_char(j) {
            proof {
                assert(s@.subrange(i as int, i as int + m as int)[j as int] == s@[i + j]);
            }
            return false;
        }
        j = j + 1;
    }
    proof {
        assert(s@.subrange(i as int, i as int + m as int) =~= p@);
    }
    true
}

/// Every occurrence of `p` removed from `s`, left to right.
pub fn remove_all(s: &str, p: &str) -> (r: String)
    requires
        p@.len() >= 1,
    ensures
        r@ == remove_marks(s@, p@),
{
    let n = s.unicode_len();
    let m = p.unicode_len();
    let mut out = String::new();
    let mut i: usize = 0;
    proof {
        assert(s@.skip(0) =~= s@);
        assert(out@ + remove_marks(s@, p@) =~= remove_marks(s@, p@));
    }
    while i < n
        invariant
            i <= n,
            n == s@.len(),
            m == p@.len(),
            m >= 1,
            remove_marks(s@, p@) == out@ + remove_marks(s@.skip(i as int), p@),
        decreases n - i,
    {
        if is_match_at(s, p, i, n, m) {
            proof {
                let suf = s@.skip(i as int);
                assert(suf.take(m as int) =~= s@.subrange(i as int, i as int + m as int));
                assert(suf.skip(m as int) =~= s@.skip(i as int + m as int));
                assert(remove_marks(suf, p@) == remove_marks(s@.skip(i as int + m as int), p@));
            }
            i = i + m;
        } else {
            let ghost prev = out@;
            let c = s.get_char(i);
            out.push(c);
            proof {
                let suf = s@.skip(i as int);
                assert(suf =~= seq![s@[i as int]] + s@.skip(i as int + 1));
                if suf.len() >= m {
                    assert(suf.take(m as int) =~= s@.subrange(i as int, i as int + m as int));
                    assert(suf.take(m as int) != p@);
                    assert(remove_marks(suf, p@) == seq![suf[0]] + remove_marks(
                        suf.skip(1),
                        p@,
                    ));
                    assert(suf.skip(1) =~= s@.skip(i as int + 1));
                } else {
                    assert(remove_marks(suf, p@) == suf);
                    assert(s@.skip(i as int + 1).len() < m);
                    assert(remove_marks(s@.skip(i as int + 1), p@) == s@.skip(i as int + 1));
                }
                assert(out@ =~= prev + seq![s@[i as int]]);
                assert(out@ + remove_marks(s@.skip(i as int + 1), p@) =~= prev + remove_marks(
                    s@.skip(i as int),
                    p@,
                ));
            }
            i = i + 1;
        }
    }
    proof {
        assert(s@.skip(n as int) =~= Seq::<char>::empty());
        assert(remove_marks(s@.skip(n as int), p@) =~= Seq::<char>::empty());
        assert(out@ + Seq::<char>::empty() =~= out@);
    }
    out
}

} // verus!
