//! The capability that the producers of this crate share: hand out the next
//! item or signal the end, and, for some, tell exactly how many items are left.

use vstd::prelude::*;

verus! {

/// Something that hands out items one at a time until it signals the end.
pub trait Producer: Sized {
    /// What is handed out.
    type Item;

    /// One pull: from the state `self` the producer may hand out `item`
    /// (`None` for the end) and be left in the state `after`.
    spec fn pulls(&self, after: &Self, item: Option<Self::Item>) -> bool;

    /// Hands out the next item, or `None` at the end.
    fn next(&mut self) -> (item: Option<Self::Item>)
        ensures
            old(self).pulls(final(self), item),
    ;
}

/// A producer that knows how many items it has left.
pub trait ExactProducer: Producer {
    /// The number of items that will be handed out before the end.
    spec fn remaining(&self) -> nat;

    /// The count is exact: a pull hands out an item exactly when the count is
    /// positive, an item takes the count down by one, and at the end the count
    /// is zero.
    proof fn pull_counts_down(&self, after: &Self, item: Option<Self::Item>)
        requires
            self.pulls(after, item),
        ensures
            item is Some <==> self.remaining() > 0,
            item is Some ==> after.remaining() == self.remaining() - 1,
            item is None ==> after.remaining() == 0,
    ;

    /// The number of items left.
    fn len(&self) -> (n: usize)
        ensures
            n == self.remaining(),
    ;
}

/// A run of pulls: from `start`, one pull after another gives `results` in
/// order and leaves the producer in the state `end`.
pub open spec fn pulls_in_turn<P: Producer>(start: P, end: P, results: Seq<Option<P::Item>>) -> bool
    decreases results.len(),
{
    if results.len() == 0 {
        start == end
    } else {
        exists|mid: P| #[trigger]
            start.pulls(&mid, results[0]) && pulls_in_turn(mid, end, results.drop_first())
    }
}

/// How many of the results of a run of pulls are items.
pub open spec fn items_among<A>(results: Seq<Option<A>>) -> nat
    decreases results.len(),
{
    if results.len() == 0 {
        0
    } else if results[0] is Some {
        1 + items_among(results.drop_first())
    } else {
        items_among(results.drop_first())
    }
}

/// However many pulls are made of a producer that knows its count, the count
/// afterwards is the count before less the number of items handed out.
pub proof fn lemma_count_tracks_pulls<P: ExactProducer>(start: P, end: P, results: Seq<Option<P::Item>>)
    requires
        pulls_in_turn(start, end, results),
    ensures
        end.remaining() == start.remaining() - items_among(results),
    decreases results.len(),
{
    if results.len() > 0 {
        let mid = choose|mid: P| #[trigger]
            start.pulls(&mid, results[0]) && pulls_in_turn(mid, end, results.drop_first());
        start.pull_counts_down(&mid, results[0]);
        lemma_count_tracks_pulls(mid, end, results.drop_first());
    }
}

/// Once a producer that knows its count has signalled the end, every later
/// pull signals the end too.
pub proof fn lemma_end_is_final<P: ExactProducer>(before: P, ended: P, after: P, item: Option<P::Item>)
    requires
        before.pulls(&ended, None),
        ended.pulls(&after, item),
    ensures
        item is None,
        after.remaining() == 0,
{
    before.pull_counts_down(&ended, None);
    ended.pull_counts_down(&after, item);
}

} // verus!
