//! A counter that walks a list of groups, each a value and a number of
//! repeats, and hands out every value as often as its group says.

use crate::producer::ExactProducer;
use crate::producer::Producer;
use crate::producer::pulls_in_turn;
use vstd::prelude::*;

verus! {

/// `count` times the same `value`.
pub open spec fn repeated<T>(value: T, count: nat) -> Seq<T> {
    Seq::new(count, |i: int| value)
}

/// The values of `groups` in order, each as often as its group says.
pub open spec fn unrolled<T>(groups: Seq<(T, usize)>) -> Seq<T>
    decreases groups.len(),
{
    if groups.len() == 0 {
        Seq::empty()
    } else {
        repeated(groups[0].0, groups[0].1 as nat) + unrolled(groups.drop_first())
    }
}

/// The sum of the repeats of `groups`.
pub open spec fn total<T>(groups: Seq<(T, usize)>) -> nat
    decreases groups.len(),
{
    if groups.len() == 0 {
        0
    } else {
        groups[0].1 as nat + total(groups.drop_first())
    }
}

/// Unrolling yields as many items as the repeats add up to.
pub proof fn lemma_unrolled_len<T>(groups: Seq<(T, usize)>)
    ensures
        unrolled(groups).len() == total(groups),
    decreases groups.len(),
{
    if groups.len() > 0 {
        lemma_unrolled_len(groups.drop_first());
    }
}

/// Unrolling two lists one after the other is unrolling each and joining the
/// results.
pub proof fn lemma_unrolled_concat<T>(front: Seq<(T, usize)>, back: Seq<(T, usize)>)
    ensures
        unrolled(front + back) == unrolled(front) + unrolled(back),
    decreases front.len(),
{
    if front.len() > 0 {
        lemma_unrolled_concat(front.drop_first(), back);
        assert((front + back).drop_first() =~= front.drop_first() + back);
    }
}

/// The repeats of two lists one after the other add up.
pub proof fn lemma_total_concat<T>(front: Seq<(T, usize)>, back: Seq<(T, usize)>)
    ensures
        total(front + back) == total(front) + total(back),
    decreases front.len(),
{
    if front.len() > 0 {
        lemma_total_concat(front.drop_first(), back);
        assert((front + back).drop_first() =~= front.drop_first() + back);
    }
}

/// A group with no repeats leaves no trace: without it the list unrolls to
/// the same items.
pub proof fn lemma_empty_group_vanishes<T>(groups: Seq<(T, usize)>, at: int)
    requires
        0 <= at < groups.len(),
        groups[at].1 == 0,
    ensures
        unrolled(groups.remove(at)) == unrolled(groups),
        total(groups.remove(at)) == total(groups),
{
    let front = groups.subrange(0, at);
    let single = groups.subrange(at, at + 1);
    let back = groups.subrange(at + 1, groups.len() as int);
    assert(groups =~= front + (single + back));
    assert(unrolled(single.drop_first()) =~= Seq::empty());
    lemma_unrolled_concat(single, back);
    lemma_unrolled_concat(front, single + back);
    lemma_unrolled_concat(front, back);
    lemma_unrolled_len(groups);
    lemma_unrolled_len(groups.remove(at));
}

/// A counter over groups of a value and a number of repeats. It hands out the
/// value of the first group as often as that group says, then that of the
/// next, and so on to the end of the list.
pub struct SequencedCounter<T> {
    /// The groups still to come, last group first; none has zero repeats.
    remainder: Vec<(T, usize)>,
    /// The number of items still to come.
    count_left: usize,
}

impl<T> View for SequencedCounter<T> {
    type V = Seq<T>;

    /// The values still to come, in the order in which they will be handed
    /// out.
    closed spec fn view(&self) -> Seq<T> {
        unrolled(self.remainder@.reverse())
    }
}

/// The items of a stored list are those of its last group, followed by the
/// items of the rest.
proof fn lemma_last_group_first<T>(stored: Seq<(T, usize)>)
    requires
        stored.len() > 0,
    ensures
        unrolled(stored.reverse()) == repeated(stored.last().0, stored.last().1 as nat) + unrolled(
            stored.drop_last().reverse(),
        ),
{
    assert(stored.reverse().drop_first() =~= stored.drop_last().reverse());
}

impl<T> SequencedCounter<T> {
    /// No stored group has zero repeats, and the count is the number of items
    /// still to come, which is the sum of the stored repeats.
    #[verifier::type_invariant]
    spec fn well_formed(&self) -> bool {
        &&& forall|i: int| 0 <= i < self.remainder@.len() ==> (#[trigger] self.remainder@[i]).1 > 0
        &&& self.count_left == self@.len()
    }

    /// A counter over `counts`: it will hand out each value as often as its
    /// group says, group after group. Groups with zero repeats are left out.
    pub fn new(counts: Vec<(T, usize)>) -> (counter: Self)
        requires
            total(counts@) <= usize::MAX,
        ensures
            counter@ == unrolled(counts@),
            counter@.len() == total(counts@),
    {
        let ghost given = counts@;
        let mut counts = counts;
        let mut out: Vec<(T, usize)> = Vec::with_capacity(counts.len());
        let mut count_left: usize = 0;
        loop
            invariant
                total(given) <= usize::MAX,
                counts@.len() <= given.len(),
                counts@ == given.subrange(0, counts@.len() as int),
                unrolled(out@.reverse()) == unrolled(
                    given.subrange(counts@.len() as int, given.len() as int),
                ),
                count_left == total(given.subrange(counts@.len() as int, given.len() as int)),
                forall|i: int| 0 <= i < out@.len() ==> (#[trigger] out@[i]).1 > 0,
            ensures
                counts@.len() == 0,
            decreases counts@.len(),
        {
            let ghost before = counts@;
            let ghost tail = given.subrange(before.len() as int, given.len() as int);
            match counts.pop() {
                None => {
                    break ;
                },
                Some((it, count)) => {
                    let ghost longer = given.subrange(before.len() - 1, given.len() as int);
                    proof {
                        assert(longer.drop_first() =~= tail);
                        assert(given =~= counts@ + longer);
                        lemma_total_concat(counts@, longer);
                    }
                    if count != 0 {
                        let ghost stored = out@;
                        count_left += count;
                        out.push((it, count));
                        proof {
                            lemma_last_group_first(out@);
                            assert(out@.drop_last() =~= stored);
                        }
                    }
                },
            }
        }
        proof {
            lemma_unrolled_len(given);
        }
        SequencedCounter { remainder: out, count_left }
    }

    /// Pulls until the end and returns what was handed out: a clone of every
    /// value that was still to come, in order.
    pub fn collect(self) -> (items: Vec<T>) where T: Clone
        ensures
            items@.len() == self@.len(),
            forall|i: int| 0 <= i < items@.len() ==> cloned(self@[i], #[trigger] items@[i]),
    {
        let mut counter = self;
        let mut items: Vec<T> = Vec::with_capacity(counter.len());
        loop
            invariant
                items@.len() + counter@.len() == self@.len(),
                counter@ == self@.skip(items@.len() as int),
                forall|i: int| 0 <= i < items@.len() ==> cloned(self@[i], #[trigger] items@[i]),
            ensures
                items@.len() == self@.len(),
                forall|i: int| 0 <= i < items@.len() ==> cloned(self@[i], #[trigger] items@[i]),
            decreases counter@.len(),
        {
            match counter.next() {
                None => {
                    break ;
                },
                Some(item) => {
                    items.push(item);
                },
            }
        }
        items
    }

    /// The bounds on the number of items left: both are the exact number.
    pub fn size_hint(&self) -> (bounds: (usize, Option<usize>))
        ensures
            bounds.0 == self@.len(),
            bounds.1 == Some(bounds.0),
    {
        proof {
            use_type_invariant(self);
        }
        (self.count_left, Some(self.count_left))
    }
}

impl<T: Clone> Producer for SequencedCounter<T> {
    type Item = T;

    /// With nothing left a pull signals the end and changes nothing. Otherwise
    /// it hands out a clone of the first value still to come, and the rest is
    /// still to come.
    open spec fn pulls(&self, after: &Self, item: Option<T>) -> bool {
        if self@.len() == 0 {
            item is None && after@ == self@
        } else {
            item is Some && cloned(self@[0], item->0) && after@ == self@.drop_first()
        }
    }

    fn next(&mut self) -> (item: Option<T>)
        ensures
            old(self)@.len() == 0 ==> item is None && final(self)@ == old(self)@,
            old(self)@.len() > 0 ==> item is Some && cloned(old(self)@[0], item->0)
                && final(self)@ == old(self)@.drop_first(),
    {
        proof {
            use_type_invariant(&*self);
        }
        if self.count_left == 0 {
            return None;
        }
        // The groups and the count change together, so the counter is taken
        // out whole and put back whole.
        let mut taken = SequencedCounter { remainder: Vec::new(), count_left: 0 };
        std::mem::swap(self, &mut taken);
        let SequencedCounter { mut remainder, count_left } = taken;
        let ghost stored = remainder@;
        match remainder.pop() {
            // Not reached: with items left there is a group.
            None => None,
            Some((last, count)) => {
                let out = last.clone();
                proof {
                    lemma_last_group_first(stored);
                }
                if count > 1 {
                    let ghost rest = remainder@;
                    remainder.push((last, count - 1));
                    proof {
                        lemma_last_group_first(remainder@);
                        assert(remainder@.drop_last() =~= rest);
                        assert(repeated(last, (count - 1) as nat) =~= repeated(
                            last,
                            count as nat,
                        ).drop_first());
                    }
                }
                assert(unrolled(remainder@.reverse()) =~= unrolled(stored.reverse()).drop_first());
                *self = SequencedCounter { remainder, count_left: count_left - 1 };
                Some(out)
            },
        }
    }
}

impl<T: Clone> ExactProducer for SequencedCounter<T> {
    open spec fn remaining(&self) -> nat {
        self@.len()
    }

    proof fn pull_counts_down(&self, after: &Self, item: Option<T>) {
    }

    fn len(&self) -> (n: usize)
        ensures
            n == self@.len(),
    {
        proof {
            use_type_invariant(self);
        }
        self.count_left
    }
}

/// However many pulls are made of a counter: as long as values are still to
/// come, each pull hands out a clone of the next of them, in order; every pull
/// after that signals the end; and what is still to come afterwards is what
/// was to come before, without the values handed out.
pub proof fn lemma_counter_pulls<T: Clone>(
    start: SequencedCounter<T>,
    end: SequencedCounter<T>,
    results: Seq<Option<T>>,
)
    requires
        pulls_in_turn(start, end, results),
    ensures
        forall|i: int| 0 <= i < results.len() ==> (results[i] is Some <==> i < start@.len()),
        forall|i: int|
            0 <= i < results.len() && i < start@.len() ==> cloned(start@[i], results[i]->0),
        results.len() <= start@.len() ==> end@ == start@.skip(results.len() as int),
        results.len() >= start@.len() ==> end@.len() == 0,
    decreases results.len(),
{
    if results.len() == 0 {
    } else {
        let rest = results.drop_first();
        let mid = choose|mid: SequencedCounter<T>| #[trigger]
            start.pulls(&mid, results[0]) && pulls_in_turn(mid, end, rest);
        lemma_counter_pulls(mid, end, rest);
        assert forall|i: int| 0 <= i < results.len() implies (results[i] is Some <==> i
            < start@.len()) by {
            if i > 0 {
                assert(results[i] == rest[i - 1]);
            }
        }
        assert forall|i: int| 0 <= i < results.len() && i < start@.len() implies cloned(
            start@[i],
            results[i]->0,
        ) by {
            if i > 0 {
                assert(start@[i] == mid@[i - 1]);
            }
        }
        if results.len() <= start@.len() {
        }
    }
}

} // verus!
