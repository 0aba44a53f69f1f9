//! `Rev`: the items of a double-ended iterator in the opposite order.
use vstd::prelude::*;

use crate::iterator::{size_hint_of, DoubleEndedFallibleIterator, FallibleIterator};

verus! {

/// An iterator which yields elements of the underlying iterator in reverse
/// order.
#[derive(Debug)]
pub struct Rev<I>(I);

impl<I> Rev<I> {
    /// The underlying iterator.
    pub closed spec fn iter(&self) -> I {
        self.0
    }

    /// The items of `it`, from the back.
    pub(crate) fn new(it: I) -> (r: Self)
        ensures
            r.iter() == it,
    {
        Rev(it)
    }
}

impl<I> FallibleIterator for Rev<I> where I: DoubleEndedFallibleIterator {
    type Item = I::Item;

    type Error = I::Error;

    /// `next` is the underlying iterator's `next_back`.
    open spec fn can_next(&self) -> bool {
        self.iter().can_next_back()
    }

    open spec fn next_rel(&self, post: &Self, r: Result<Option<I::Item>, I::Error>) -> bool {
        self.iter().next_back_rel(&post.iter(), r)
    }

    fn next(&mut self) -> (r: Result<Option<I::Item>, I::Error>) {
        self.0.next_back()
    }

    fn size_hint(&self) -> (r: (usize, Option<usize>))
        ensures
            call_ensures(size_hint_of::<I>, (&self.iter(),), r),
    {
        size_hint_of(&self.0)
    }
}

impl<I> DoubleEndedFallibleIterator for Rev<I> where I: DoubleEndedFallibleIterator {
    /// `next_back` is the underlying iterator's `next`.
    open spec fn can_next_back(&self) -> bool {
        self.iter().can_next()
    }

    open spec fn next_back_rel(&self, post: &Self, r: Result<Option<I::Item>, I::Error>) -> bool {
        self.iter().next_rel(&post.iter(), r)
    }

    fn next_back(&mut self) -> (r: Result<Option<I::Item>, I::Error>) {
        self.0.next()
    }
}

/// Reversing twice gives back the iterator: `next` of `rev().rev()` is `next` of the
/// underlying iterator, and so is `next_back`.
pub proof fn lemma_rev_rev<I: DoubleEndedFallibleIterator>(
    r: Rev<Rev<I>>,
    post: Rev<Rev<I>>,
    o: Result<Option<I::Item>, I::Error>,
)
    ensures
        r.can_next() == r.iter().iter().can_next(),
        r.next_rel(&post, o) == r.iter().iter().next_rel(&post.iter().iter(), o),
        r.can_next_back() == r.iter().iter().can_next_back(),
        r.next_back_rel(&post, o) == r.iter().iter().next_back_rel(&post.iter().iter(), o),
{
}

} // verus!
