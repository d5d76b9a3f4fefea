//! The subscribed-feed list: the feed record and the store operations.
//!
//! The collection is an ordered list; identity is by title, and the store
//! enforces no uniqueness.  Serialization to the store's JSON form is
//! computed here; an unverified caller writes it to, and reads it from, the
//! backing file.
#![allow(unused_imports)]
use vstd::prelude::*;
use vstd::seq_lib::*;
use vstd::string::*;

use crate::store;
use crate::text::str_eq;

verus! {

/// The mathematical value of a [`Feed`]: its two text fields.
pub ghost struct FeedModel {
    pub title: Seq<char>,
    pub url: Seq<char>,
}

/// One subscription: a display title and the feed's URL.
#[derive(Debug, Clone, PartialEq, Eq)]
pub struct Feed {
    pub title: String,
    pub url: String,
}

impl View for Feed {
    type V = FeedModel;

    open spec fn view(&self) -> FeedModel {
        FeedModel { title: self.title@, url: self.url@ }
    }
}

/// The models of a list of feeds, in order.
pub open spec fn feed_models(s: Seq<Feed>) -> Seq<FeedModel> {
    s.map_values(|f: Feed| f@)
}

/// The predicate that keeps a feed when a title is removed: its title
/// differs from the removed one.
pub open spec fn keeps_title(title: Seq<char>) -> spec_fn(Feed) -> bool {
    |f: Feed| f.title@ != title
}

/// The store operations of the subscribed-feed list.
pub trait FeedsManager: View<V = Seq<Feed>> {
    /// The whole collection serialized, in its current order, in the
    /// store's JSON form; an unverified caller overwrites the backing file
    /// with it in full.
    fn persist(&self) -> (r: String)
        ensures
            r@ == store::feeds_json(feed_models(self@)),
    ;

    /// Appends a new feed to the end of the collection; no deduplication.
    fn add_feed(&mut self, title: String, url: String)
        ensures
            final(self)@ == old(self)@.push((Feed { title, url })),
    ;

    /// Removes every feed whose title equals the given title exactly, not
    /// just the first one; the others keep their order.
    fn remove_feed(&mut self, title: &str)
        ensures
            final(self)@ == old(self)@.filter(keeps_title(title@)),
    ;
}

impl FeedsManager for Vec<Feed> {
    fn persist(&self) -> (r: String) {
        store::feeds_to_json(self)
    }

    fn add_feed(&mut self, title: String, url: String) {
        self.push(Feed { title, url });
    }

    fn remove_feed(&mut self, title: &str) {
        let ghost orig = self@;
        let ghost keep = keeps_title(title@);
        let mut i: usize = self.len();
        proof {
            reveal(Seq::filter);
            assert(self@.skip(i as int) =~= Seq::<Feed>::empty());
            assert(orig.skip(i as int).filter(keep) =~= Seq::<Feed>::empty());
        }
        while i > 0
            invariant
                i <= self@.len(),
                i <= orig.len(),
                self@.take(i as int) == orig.take(i as int),
                self@.skip(i as int) == orig.skip(i as int).filter(keeps_title(title@)),
            decreases i,
        {
            i = i - 1;
            let ghost before = self@;
            let matched = str_eq(self[i].title.as_str(), title);
            if matched {
                let _removed = self.remove(i);
            }
            proof {
                let keep = keeps_title(title@);
                assert(before[i as int] == orig[i as int]) by {
                    assert(before.take(i as int + 1)[i as int] == before[i as int]);
                }
                assert(orig.skip(i as int) =~= seq![orig[i as int]] + orig.skip(i as int + 1));
                Seq::filter_distributes_over_add(
                    seq![orig[i as int]],
                    orig.skip(i as int + 1),
                    keep,
                );
                assert(seq![orig[i as int]].filter(keep) == if keep(orig[i as int]) {
                    seq![orig[i as int]]
                } else {
                    Seq::<Feed>::empty()
                }) by {
                    reveal_with_fuel(Seq::filter, 2);
                    assert(seq![orig[i as int]].drop_last() =~= Seq::<Feed>::empty());
                    if keep(orig[i as int]) {
                        assert(Seq::<Feed>::empty().push(orig[i as int]) =~= seq![
                            orig[i as int],
                        ]);
                    }
                }
                if matched {
                    assert(!keep(orig[i as int]));
                    assert(self@ =~= before.remove(i as int));
                    assert(self@.take(i as int) =~= orig.take(i as int));
                    assert(self@.skip(i as int) =~= before.skip(i as int + 1));
                    assert(Seq::<Feed>::empty() + orig.skip(i as int + 1).filter(keep) =~= orig.skip(
                        i as int + 1,
                    ).filter(keep));
                } else {
                    assert(keep(orig[i as int]));
                    assert(self@.skip(i as int) =~= seq![orig[i as int]] + self@.skip(
                        i as int + 1,
                    ));
                    assert(self@.take(i as int) =~= orig.take(i as int));
                }
            }
        }
        proof {
            assert(self@ =~= self@.skip(0));
            assert(orig.skip(0) =~= orig);
        }
    }
}

} // verus!
