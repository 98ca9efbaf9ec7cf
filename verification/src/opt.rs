//! A producer that may be absent: callers pull from it without asking first
//! whether there is anything to pull from.

use crate::producer::ExactProducer;
use crate::producer::Producer;
use crate::producer::pulls_in_turn;
use vstd::prelude::*;
use vstd::std_specs::convert::FromSpecImpl;

verus! {

/// Either no producer at all, which is at its end from the start, or a
/// producer, which is pulled from as if it stood alone.
pub enum OptionalIterator<I> {
    /// Nothing to pull from.
    Absent,
    /// The producer that every pull is handed on to.
    Present(I),
}

impl<I> OptionalIterator<I> {
    /// Absent for `None`; for `Some` the producer that `f` makes of the value
    /// inside. `f` is called only in the second case, and once.
    pub fn from_mapped<F, J>(inner: Option<J>, f: F) -> (made: Self) where F: FnOnce(J) -> I
        requires
            inner is Some ==> call_requires(f, (inner->0,)),
        ensures
            inner is None ==> made is Absent,
            inner is Some ==> made is Present && call_ensures(f, (inner->0,), made->Present_0),
    {
        match inner {
            Some(it) => OptionalIterator::Present(f(it)),
            None => OptionalIterator::Absent,
        }
    }
}

impl<I> From<Option<I>> for OptionalIterator<I> {
    fn from(it: Option<I>) -> (made: Self) {
        match it {
            Some(it) => OptionalIterator::Present(it),
            None => OptionalIterator::Absent,
        }
    }
}

impl<I> FromSpecImpl<Option<I>> for OptionalIterator<I> {
    open spec fn obeys_from_spec() -> bool {
        true
    }

    open spec fn from_spec(it: Option<I>) -> Self {
        match it {
            Some(it) => OptionalIterator::Present(it),
            None => OptionalIterator::Absent,
        }
    }
}

impl<I: Producer> Producer for OptionalIterator<I> {
    type Item = I::Item;

    /// Absent, a pull signals the end and the producer stays absent. Present,
    /// a pull is a pull of the producer inside, which stays present.
    open spec fn pulls(&self, after: &Self, item: Option<I::Item>) -> bool {
        match (*self, *after) {
            (OptionalIterator::Absent, OptionalIterator::Absent) => item is None,
            (OptionalIterator::Present(inner), OptionalIterator::Present(inner_after)) => inner.pulls(
                &inner_after,
                item,
            ),
            _ => false,
        }
    }

    fn next(&mut self) -> (item: Option<I::Item>)
        ensures
            *old(self) is Absent ==> item is None && *final(self) is Absent,
            *old(self) is Present ==> *final(self) is Present && (*old(self))->Present_0.pulls(
                &(*final(self))->Present_0,
                item,
            ),
    {
        match self {
            OptionalIterator::Absent => None,
            OptionalIterator::Present(iter) => iter.next(),
        }
    }
}

impl<I: ExactProducer> ExactProducer for OptionalIterator<I> {
    /// Absent, nothing is left. Present, what the producer inside has left.
    open spec fn remaining(&self) -> nat {
        match self {
            OptionalIterator::Absent => 0,
            OptionalIterator::Present(inner) => inner.remaining(),
        }
    }

    proof fn pull_counts_down(&self, after: &Self, item: Option<I::Item>) {
        match (*self, *after) {
            (OptionalIterator::Present(inner), OptionalIterator::Present(inner_after)) => {
                inner.pull_counts_down(&inner_after, item);
            },
            _ => {},
        }
    }

    fn len(&self) -> (n: usize)
        ensures
            self is Absent ==> n == 0,
            self is Present ==> n == self->Present_0.remaining(),
    {
        match self {
            OptionalIterator::Absent => 0,
            OptionalIterator::Present(iter) => iter.len(),
        }
    }
}

/// An absent producer signals the end at every pull, however many are made,
/// and stays absent.
pub proof fn lemma_absent_stays_at_end<I: Producer>(
    end: OptionalIterator<I>,
    results: Seq<Option<I::Item>>,
)
    ensures
        pulls_in_turn(OptionalIterator::<I>::Absent, end, results) <==> (end is Absent
            && forall|i: int| 0 <= i < results.len() ==> results[i] is None),
    decreases results.len(),
{
    let start = OptionalIterator::<I>::Absent;
    if results.len() > 0 {
        let rest = results.drop_first();
        lemma_absent_stays_at_end(end, rest);
        if pulls_in_turn(start, end, results) {
            let mid = choose|mid: OptionalIterator<I>| #[trigger]
                start.pulls(&mid, results[0]) && pulls_in_turn(mid, end, rest);
            assert forall|i: int| 0 <= i < results.len() implies results[i] is None by {
                if i > 0 {
                    assert(results[i] == rest[i - 1]);
                }
            }
        }
        if end is Absent && forall|i: int| 0 <= i < results.len() ==> results[i] is None {
            assert forall|i: int| 0 <= i < rest.len() implies rest[i] is None by {
            }
            assert(start.pulls(&start, results[0]));
        }
    }
}

/// The count of an absent producer is zero, and that of a present one is the
/// count of the producer inside.
pub proof fn lemma_count_is_forwarded<I: ExactProducer>(it: OptionalIterator<I>)
    ensures
        it is Absent ==> it.remaining() == 0,
        it is Present ==> it.remaining() == it->Present_0.remaining(),
{
}

/// A present producer gives, pull for pull, what the producer inside gives:
/// the same results in the same order, and it stays present throughout.
pub proof fn lemma_present_pulls_as_inner<I: Producer>(
    inner: I,
    end: OptionalIterator<I>,
    results: Seq<Option<I::Item>>,
)
    ensures
        pulls_in_turn(OptionalIterator::Present(inner), end, results) <==> (end is Present
            && pulls_in_turn(inner, end->Present_0, results)),
    decreases results.len(),
{
    let start = OptionalIterator::Present(inner);
    if results.len() > 0 {
        let rest = results.drop_first();
        if pulls_in_turn(start, end, results) {
            let mid = choose|mid: OptionalIterator<I>| #[trigger]
                start.pulls(&mid, results[0]) && pulls_in_turn(mid, end, rest);
            lemma_present_pulls_as_inner(mid->Present_0, end, rest);
        }
        if end is Present && pulls_in_turn(inner, end->Present_0, results) {
            let mid = choose|mid: I| #[trigger]
                inner.pulls(&mid, results[0]) && pulls_in_turn(mid, end->Present_0, rest);
            lemma_present_pulls_as_inner(mid, end, rest);
            assert(start.pulls(&OptionalIterator::Present(mid), results[0]));
        }
    }
}

} // verus!
