//! The fallible iterator traits.
use vstd::prelude::*;

use crate::chain::Chain;
use crate::cloned::{Cloned, ItemRef};
use crate::convert::Iterator;
use crate::enumerate::Enumerate;
use crate::filter::{Filter, FilterMap};
use crate::fuse::Fuse;
use crate::mapped::{MapErr, Mapped};
use crate::peekable::Peekable;
use crate::rev::Rev;
use crate::take::Take;
use crate::zip::Zip;
use crate::run::{
    all_items, allowed_for, always, collect_result, count_result, ends_ok, finishes, last_of,
    last_result, lemma_all_items_push, lemma_count_err, lemma_count_ok, lemma_last_err,
    lemma_last_ok, lemma_nth_err, lemma_nth_some, lemma_record_end, lemma_record_item,
    lemma_record_partial, lemma_search_done, lemma_search_err, lemma_search_stopped, nth_result,
    deterministic, lemma_nth_then_rest, step_at,
    runs, search_result, steps, stops, stops_within, yields, StepRel,
};

verus! {

broadcast use vstd::function::group_function_axioms;

/// `f` may return `b` when called on `a`: it is a result that `f`'s contract allows, or `f` has
/// no result on `a` at all (a call on `a` never returns).
pub open spec fn may_return<A, B, F: FnOnce(A) -> B>(f: F, a: A, b: B) -> bool {
    call_ensures(f, (a,), b) || !exists|c: B| call_ensures(f, (a,), c)
}

/// A value that `f` may return on `a` (see `may_return`).
pub open spec fn pick<A, B, F: FnOnce(A) -> B>(f: F, a: A) -> B {
    choose|b: B| may_return(f, a, b)
}

/// `f` may return `pick(f, a)` on `a`.
pub proof fn lemma_pick<A, B, F: FnOnce(A) -> B>(f: F, a: A)
    ensures
        may_return(f, a, pick(f, a)),
{
    if exists|c: B| call_ensures(f, (a,), c) {
        let c = choose|c: B| call_ensures(f, (a,), c);
        assert(may_return(f, a, c));
    } else {
        assert(may_return(f, a, arbitrary::<B>()));
    }
}

/// `can_next` of an iterator type, as a spec closure.
pub open spec fn can_of<I: FallibleIterator>() -> spec_fn(I) -> bool {
    |s: I| s.can_next()
}

/// `next_rel` of an iterator type, as a step relation.
pub open spec fn rel_of<I: FallibleIterator>() -> StepRel<I, I::Item, I::Error> {
    |a: I, b: I, o: Result<Option<I::Item>, I::Error>| a.next_rel(&b, o)
}

/// `can_next_back` of a double-ended iterator type, as a spec closure.
pub open spec fn can_back_of<I: DoubleEndedFallibleIterator>() -> spec_fn(I) -> bool {
    |s: I| s.can_next_back()
}

/// `next_back_rel` of a double-ended iterator type, as a step relation.
pub open spec fn rel_back_of<I: DoubleEndedFallibleIterator>() -> StepRel<I, I::Item, I::Error> {
    |a: I, b: I, o: Result<Option<I::Item>, I::Error>| a.next_back_rel(&b, o)
}

/// An `Iterator`-like trait that allows for calculation of items to fail.
///
/// An implementation describes its `next` by two relations on its values: `can_next`, whether
/// a call is allowed (and returns), and `next_rel`, what one call may do. The provided methods
/// are specified over the runs that these relations allow (see the `run` module).
pub trait FallibleIterator {
    /// The type being iterated over.
    type Item;

    /// The error type.
    type Error;

    /// A call of `next` on `self` is allowed, and returns. An implementation that does not
    /// describe its `next` allows every call.
    open spec fn can_next(&self) -> bool {
        true
    }

    /// A call of `next` may take the iterator from `self` to `post` and return `r`. An
    /// implementation that does not describe its `next` allows everything.
    open spec fn next_rel(&self, post: &Self, r: Result<Option<Self::Item>, Self::Error>) -> bool {
        true
    }

    /// Advances the iterator and returns the next value.
    ///
    /// Returns `Ok(None)` when iteration is finished.
    ///
    /// The behavior of calling this method after a previous call has returned
    /// `Ok(None)` or `Err` is implementation defined.
    fn next(&mut self) -> (r: Result<Option<Self::Item>, Self::Error>)
        requires
            (*old(self)).can_next(),
        ensures
            (*old(self)).next_rel(&*final(self), r),
    ;

    /// Returns bounds on the remaining length of the iterator.
    ///
    /// Specifically, the first half of the returned tuple is a lower bound and
    /// the second half is an upper bound.
    ///
    /// For the upper bound, `None` indicates that the upper bound is either
    /// unknown or larger than can be represented as a `usize`.
    ///
    /// Both bounds assume that all remaining calls to `next` succeed. That is,
    /// `next` could return an `Err` in fewer calls than specified by the lower
    /// bound.
    ///
    /// The default implementation returns `(0, None)`, which is correct for
    /// any iterator.
    fn size_hint(&self) -> (r: (usize, Option<usize>))
        default_ensures
            r == (0usize, None::<usize>),
    {
        (0, None)
    }

    /// Determines if all elements of this iterator matches a predicate.
    #[verifier::loop_isolation(false)]
    fn all<F>(&mut self, f: F) -> (r: Result<bool, Self::Error>) where
        F: FnMut(Self::Item) -> bool,
        Self: Sized,

        requires
            forall|x: Self::Item| call_requires(f, (x,)),
            stops(
                |s: Self| s.can_next(),
                |a: Self, b: Self, o: Result<Option<Self::Item>, Self::Error>| a.next_rel(&b, o),
                *old(self),
                |x: Self::Item| call_ensures(f, (x,), true),
            ),
        ensures
            search_result(
                |a: Self, b: Self, o: Result<Option<Self::Item>, Self::Error>| a.next_rel(&b, o),
                *old(self),
                |x: Self::Item| call_ensures(f, (x,), true),
                |x: Self::Item| call_ensures(f, (x,), false),
                false,
                r,
                *final(self),
            ),
    {
        let ghost can = |s: Self| s.can_next();
        let ghost rel = |a: Self, b: Self, o: Result<Option<Self::Item>, Self::Error>|
            a.next_rel(&b, o);
        let ghost go = |x: Self::Item| call_ensures(f, (x,), true);
        let ghost halt = |x: Self::Item| call_ensures(f, (x,), false);
        let ghost f0 = f;
        let ghost start = *self;
        let ghost mut states: Seq<Self> = seq![*self];
        let ghost mut items: Seq<Self::Item> = seq![];
        let ghost mut fuel: nat = choose|n: nat| stops_within(can, rel, *self, go, n);
        let mut f = f;
        loop
            invariant
                f == f0,
                stops_within(can, rel, *self, go, fuel),
                steps(rel, states, yields(items)),
                states[0] == start,
                states.last() == *self,
                all_items(items, go),
            decreases fuel,
        {
            let ghost prev = *self;
            match self.next() {
                Ok(Some(v)) => {
                    assert(rel(prev, *self, Ok(Some(v))));
                    assert(call_requires(f0, (v,)));
                    let b = f(v);
                    proof {
                        lemma_record_item(rel, states, items, *self, v);
                    }
                    if !b {
                        proof {
                            lemma_record_partial(rel, states.push(*self), items.push(v));
                            lemma_search_stopped(rel, start, go, halt, false, items, v, *self);
                        }
                        return Ok(false);
                    }
                    proof {
                        assert(go(v));
                        assert(stops_within(can, rel, *self, go, (fuel - 1) as nat));
                        lemma_all_items_push(items, go, v);
                        states = states.push(*self);
                        items = items.push(v);
                        fuel = (fuel - 1) as nat;
                    }
                },
                Ok(None) => {
                    proof {
                        lemma_record_end(rel, states, items, *self, Ok(None));
                        lemma_search_done(rel, start, go, halt, false, items, *self);
                    }
                    return Ok(true);
                },
                Err(e) => {
                    proof {
                        lemma_record_end(rel, states, items, *self, Err(e));
                        lemma_search_err(rel, start, go, halt, false, items, e, *self);
                    }
                    return Err(e);
                },
            }
        }
    }

    /// Determines if any element of this iterator matches a predicate.
    #[verifier::loop_isolation(false)]
    fn any<F>(&mut self, f: F) -> (r: Result<bool, Self::Error>) where
        F: FnMut(Self::Item) -> bool,
        Self: Sized,

        requires
            forall|x: Self::Item| call_requires(f, (x,)),
            stops(
                |s: Self| s.can_next(),
                |a: Self, b: Self, o: Result<Option<Self::Item>, Self::Error>| a.next_rel(&b, o),
                *old(self),
                |x: Self::Item| call_ensures(f, (x,), false),
            ),
        ensures
            search_result(
                |a: Self, b: Self, o: Result<Option<Self::Item>, Self::Error>| a.next_rel(&b, o),
                *old(self),
                |x: Self::Item| call_ensures(f, (x,), false),
                |x: Self::Item| call_ensures(f, (x,), true),
                true,
                r,
                *final(self),
            ),
    {
        let ghost can = |s: Self| s.can_next();
        let ghost rel = |a: Self, b: Self, o: Result<Option<Self::Item>, Self::Error>|
            a.next_rel(&b, o);
        let ghost go = |x: Self::Item| call_ensures(f, (x,), false);
        let ghost halt = |x: Self::Item| call_ensures(f, (x,), true);
        let ghost f0 = f;
        let ghost start = *self;
        let ghost mut states: Seq<Self> = seq![*self];
        let ghost mut items: Seq<Self::Item> = seq![];
        let ghost mut fuel: nat = choose|n: nat| stops_within(can, rel, *self, go, n);
        let mut f = f;
        loop
            invariant
                f == f0,
                stops_within(can, rel, *self, go, fuel),
                steps(rel, states, yields(items)),
                states[0] == start,
                states.last() == *self,
                all_items(items, go),
            decreases fuel,
        {
            let ghost prev = *self;
            match self.next() {
                Ok(Some(v)) => {
                    assert(rel(prev, *self, Ok(Some(v))));
                    assert(call_requires(f0, (v,)));
                    let b = f(v);
                    proof {
                        lemma_record_item(rel, states, items, *self, v);
                    }
                    if b {
                        proof {
                            lemma_record_partial(rel, states.push(*self), items.push(v));
                            lemma_search_stopped(rel, start, go, halt, true, items, v, *self);
                        }
                        return Ok(true);
                    }
                    proof {
                        assert(go(v));
                        assert(stops_within(can, rel, *self, go, (fuel - 1) as nat));
                        lemma_all_items_push(items, go, v);
                        states = states.push(*self);
                        items = items.push(v);
                        fuel = (fuel - 1) as nat;
                    }
                },
                Ok(None) => {
                    proof {
                        lemma_record_end(rel, states, items, *self, Ok(None));
                        lemma_search_done(rel, start, go, halt, true, items, *self);
                    }
                    return Ok(false);
                },
                Err(e) => {
                    proof {
                        lemma_record_end(rel, states, items, *self, Err(e));
                        lemma_search_err(rel, start, go, halt, true, items, e, *self);
                    }
                    return Err(e);
                },
            }
        }
    }

    /// Returns an iterator which clones all of its elements.
    fn cloned(self) -> (r: Cloned<Self>) where Self: Sized, Self::Item: ItemRef
        ensures
            r.iter() == self,
    {
        Cloned::new(self)
    }

    /// Returns an iterator which yields the current iteration count as well
    /// as the value.
    fn enumerate(self) -> (r: Enumerate<Self>) where Self: Sized
        ensures
            r.iter() == self,
            r.position() == 0,
    {
        Enumerate::new(self)
    }

    /// Returns an iterator which uses a predicate to determine which values
    /// should be yielded.
    fn filter<F>(self, f: F) -> (r: Filter<Self, F>) where
        Self: Sized,
        F: FnMut(&Self::Item) -> bool,

        ensures
            r.iter() == self,
            r.func() == f,
    {
        Filter::new(self, f)
    }

    /// Returns an iterator which both filters and maps.
    fn filter_map<B, F>(self, f: F) -> (r: FilterMap<Self, F>) where
        Self: Sized,
        F: FnMut(Self::Item) -> Option<B>,

        ensures
            r.iter() == self,
            r.func() == f,
    {
        FilterMap::new(self, f)
    }

    /// Returns an iterator which yields this iterator's elements and ends after
    /// the first `Ok(None)`.
    ///
    /// The behavior of calling `next` after it has previously returned
    /// `Ok(None)` is normally unspecified. The iterator returned by this method
    /// guarantees that `Ok(None)` will always be returned.
    fn fuse(self) -> (r: Fuse<Self>) where Self: Sized
        ensures
            r.iter() == self,
            !r.is_done(),
    {
        Fuse::new(self)
    }

    /// Returns a normal (non-fallible) iterator over `Result<Item, Error>`.
    fn iterator(self) -> (r: Iterator<Self>) where Self: Sized
        ensures
            r.iter() == self,
    {
        Iterator::new(self)
    }

    /// Returns an iterator which applies a transform to the elements of the
    /// underlying iterator.
    fn map<B, F>(self, f: F) -> (r: Mapped<Self, F>) where
        F: FnMut(Self::Item) -> B,
        Self: Sized,

        ensures
            r.iter() == self,
            r.func() == f,
    {
        Mapped::new(self, f)
    }

    /// Returns an iterator which applies a transform to the errors of the
    /// underlying iterator.
    fn map_err<B, F>(self, f: F) -> (r: MapErr<Self, F>) where
        F: FnMut(Self::Error) -> B,
        Self: Sized,

        ensures
            r.iter() == self,
            r.func() == f,
    {
        MapErr::new(self, f)
    }

    /// Returns an iterator that yields only the first `n` values of this
    /// iterator.
    fn take(self, n: usize) -> (r: Take<Self>) where Self: Sized
        ensures
            r.iter() == self,
            r.remaining() == n,
    {
        Take::new(self, n)
    }

    /// Borrow an iterator rather than consuming it.
    ///
    /// This is useful to allow the use of iterator adaptors that would
    /// otherwise consume the value.
    fn by_ref(&mut self) -> (r: &mut Self) where Self: Sized
        ensures
            *r == *old(self),
            *final(self) == *final(r),
    {
        self
    }

    /// Consumes the iterator, returning the number of remaining items.
    #[verifier::loop_isolation(false)]
    fn count(self) -> (r: Result<usize, Self::Error>) where Self: Sized
        requires
            finishes(
                |s: Self| s.can_next(),
                |a: Self, b: Self, o: Result<Option<Self::Item>, Self::Error>| a.next_rel(&b, o),
                self,
            ),
        ensures
            count_result(
                |a: Self, b: Self, o: Result<Option<Self::Item>, Self::Error>| a.next_rel(&b, o),
                self,
                r,
            ),
    {
        let ghost can = |s: Self| s.can_next();
        let ghost rel = |a: Self, b: Self, o: Result<Option<Self::Item>, Self::Error>|
            a.next_rel(&b, o);
        let ghost start = self;
        let mut it = self;
        let ghost mut states: Seq<Self> = seq![it];
        let ghost mut items: Seq<Self::Item> = seq![];
        let ghost mut fuel: nat = choose|n: nat|
            n <= usize::MAX + 1 && stops_within(can, rel, it, always(), n);
        let mut count: usize = 0;
        loop
            invariant
                count == items.len(),
                fuel + count <= usize::MAX + 1,
                stops_within(can, rel, it, always(), fuel),
                steps(rel, states, yields(items)),
                states[0] == start,
                states.last() == it,
            decreases fuel,
        {
            let ghost prev = it;
            match it.next() {
                Ok(Some(x)) => {
                    proof {
                        assert(rel(prev, it, Ok(Some(x))));
                        assert(always::<Self::Item>()(x));
                        lemma_record_item(rel, states, items, it, x);
                        states = states.push(it);
                        items = items.push(x);
                        assert(stops_within(can, rel, it, always(), (fuel - 1) as nat));
                        fuel = (fuel - 1) as nat;
                    }
                    count += 1;
                },
                Ok(None) => {
                    proof {
                        lemma_record_end(rel, states, items, it, Ok(None));
                        lemma_count_ok(rel, start, items, it);
                    }
                    return Ok(count);
                },
                Err(e) => {
                    proof {
                        lemma_record_end(rel, states, items, it, Err(e));
                        lemma_count_err(rel, start, items, e, it);
                    }
                    return Err(e);
                },
            }
        }
    }

    /// Returns the last element of the iterator.
    #[verifier::loop_isolation(false)]
    fn last(self) -> (r: Result<Option<Self::Item>, Self::Error>) where Self: Sized
        requires
            stops(
                |s: Self| s.can_next(),
                |a: Self, b: Self, o: Result<Option<Self::Item>, Self::Error>| a.next_rel(&b, o),
                self,
                always(),
            ),
        ensures
            last_result(
                |a: Self, b: Self, o: Result<Option<Self::Item>, Self::Error>| a.next_rel(&b, o),
                self,
                r,
            ),
    {
        let ghost can = |s: Self| s.can_next();
        let ghost rel = |a: Self, b: Self, o: Result<Option<Self::Item>, Self::Error>|
            a.next_rel(&b, o);
        let ghost start = self;
        let mut it = self;
        let ghost mut states: Seq<Self> = seq![it];
        let ghost mut items: Seq<Self::Item> = seq![];
        let ghost mut fuel: nat = choose|n: nat| stops_within(can, rel, it, always(), n);
        let mut last = None;
        loop
            invariant
                last == last_of(items),
                stops_within(can, rel, it, always(), fuel),
                steps(rel, states, yields(items)),
                states[0] == start,
                states.last() == it,
            decreases fuel,
        {
            let ghost prev = it;
            match it.next() {
                Ok(Some(e)) => {
                    proof {
                        assert(rel(prev, it, Ok(Some(e))));
                        assert(always::<Self::Item>()(e));
                        lemma_record_item(rel, states, items, it, e);
                        states = states.push(it);
                        items = items.push(e);
                        assert(stops_within(can, rel, it, always(), (fuel - 1) as nat));
                        fuel = (fuel - 1) as nat;
                    }
                    last = Some(e);
                },
                Ok(None) => {
                    proof {
                        lemma_record_end(rel, states, items, it, Ok(None));
                        lemma_last_ok(rel, start, items, it);
                    }
                    return Ok(last);
                },
                Err(e) => {
                    proof {
                        lemma_record_end(rel, states, items, it, Err(e));
                        lemma_last_err(rel, start, items, e, it);
                    }
                    return Err(e);
                },
            }
        }
    }

    /// Returns the `n`th element of the iterator.
    #[verifier::loop_isolation(false)]
    fn nth(&mut self, n: usize) -> (r: Result<Option<Self::Item>, Self::Error>) where Self: Sized
        requires
            allowed_for(
                |s: Self| s.can_next(),
                |a: Self, b: Self, o: Result<Option<Self::Item>, Self::Error>| a.next_rel(&b, o),
                *old(self),
                (n + 1) as nat,
            ),
        ensures
            nth_result(
                |a: Self, b: Self, o: Result<Option<Self::Item>, Self::Error>| a.next_rel(&b, o),
                *old(self),
                n as nat,
                r,
                *final(self),
            ),
    {
        let ghost can = |s: Self| s.can_next();
        let ghost rel = |a: Self, b: Self, o: Result<Option<Self::Item>, Self::Error>|
            a.next_rel(&b, o);
        let ghost start = *self;
        let ghost mut states: Seq<Self> = seq![*self];
        let ghost mut items: Seq<Self::Item> = seq![];
        let mut left: usize = n;
        loop
            invariant
                items.len() + left == n,
                allowed_for(can, rel, *self, (left + 1) as nat),
                steps(rel, states, yields(items)),
                states[0] == start,
                states.last() == *self,
            decreases left,
        {
            let ghost prev = *self;
            match self.next() {
                Ok(Some(e)) => {
                    proof {
                        assert(rel(prev, *self, Ok(Some(e))));
                        lemma_record_item(rel, states, items, *self, e);
                    }
                    if left == 0 {
                        proof {
                            lemma_record_partial(rel, states.push(*self), items.push(e));
                            lemma_nth_some(rel, start, items, e, *self);
                        }
                        return Ok(Some(e));
                    }
                    proof {
                        states = states.push(*self);
                        items = items.push(e);
                        assert(allowed_for(can, rel, *self, left as nat));
                    }
                    left -= 1;
                },
                Ok(None) => {
                    proof {
                        lemma_record_end(rel, states, items, *self, Ok(None));
                        assert(ends_ok(rel, start, items, *self));
                        assert(nth_result(rel, start, n as nat, Ok(None), *self));
                    }
                    return Ok(None);
                },
                Err(e) => {
                    proof {
                        lemma_record_end(rel, states, items, *self, Err(e));
                        lemma_nth_err(rel, start, n as nat, items, e, *self);
                    }
                    return Err(e);
                },
            }
        }
    }
}

/// Calls `size_hint` on `it`. The contracts of the adaptors' `size_hint` say what they return
/// in terms of the results of this call on the iterators they wrap (through `call_ensures`).
pub fn size_hint_of<I: FallibleIterator + ?Sized>(it: &I) -> (usize, Option<usize>) {
    it.size_hint()
}

/// `u` is the upper bound of what a call of `size_hint_of` on `it` may return.
pub closed spec fn hint_upper<I: FallibleIterator>(it: I, u: Option<usize>) -> bool {
    exists|h: (usize, Option<usize>)| #[trigger] call_ensures(size_hint_of::<I>, (&it,), h) && u == h.1
}

/// What `hint_upper` means: `u` is the upper bound of some result of `size_hint` on `it`.
pub proof fn lemma_hint_upper<I: FallibleIterator>(it: I, u: Option<usize>)
    ensures
        hint_upper(it, u) <==> exists|h: (usize, Option<usize>)|
            #[trigger] call_ensures(size_hint_of::<I>, (&it,), h) && u == h.1,
{
}

/// The value that a shared reference to a mutable reference refers to.
pub open spec fn referent<'a, 'b, I: ?Sized>(r: &'b &'a mut I) -> &'b I {
    &**r
}

impl<'a, I: FallibleIterator + ?Sized> FallibleIterator for &'a mut I {
    type Item = I::Item;

    type Error = I::Error;

    open spec fn can_next(&self) -> bool {
        (**self).can_next()
    }

    open spec fn next_rel(&self, post: &Self, r: Result<Option<I::Item>, I::Error>) -> bool {
        (**self).next_rel(&**post, r)
    }

    fn next(&mut self) -> (r: Result<Option<I::Item>, I::Error>) {
        (**self).next()
    }

    fn size_hint(&self) -> (r: (usize, Option<usize>))
        ensures
            call_ensures(size_hint_of::<I>, (referent(self),), r),
    {
        size_hint_of(&**self)
    }
}

impl<'a, I: DoubleEndedFallibleIterator + ?Sized> DoubleEndedFallibleIterator for &'a mut I {
    open spec fn can_next_back(&self) -> bool {
        (**self).can_next_back()
    }

    open spec fn next_back_rel(&self, post: &Self, r: Result<Option<I::Item>, I::Error>) -> bool {
        (**self).next_back_rel(&**post, r)
    }

    fn next_back(&mut self) -> (r: Result<Option<I::Item>, I::Error>) {
        (**self).next_back()
    }
}

impl<I: FallibleIterator + ?Sized> FallibleIterator for Box<I> {
    type Item = I::Item;

    type Error = I::Error;

    open spec fn can_next(&self) -> bool {
        (**self).can_next()
    }

    open spec fn next_rel(&self, post: &Self, r: Result<Option<I::Item>, I::Error>) -> bool {
        (**self).next_rel(&**post, r)
    }

    fn next(&mut self) -> (r: Result<Option<I::Item>, I::Error>) {
        (**self).next()
    }

    fn size_hint(&self) -> (r: (usize, Option<usize>))
        ensures
            call_ensures(size_hint_of::<I>, (&**self,), r),
    {
        size_hint_of(&**self)
    }
}

impl<I: DoubleEndedFallibleIterator + ?Sized> DoubleEndedFallibleIterator for Box<I> {
    open spec fn can_next_back(&self) -> bool {
        (**self).can_next_back()
    }

    open spec fn next_back_rel(&self, post: &Self, r: Result<Option<I::Item>, I::Error>) -> bool {
        (**self).next_back_rel(&**post, r)
    }

    fn next_back(&mut self) -> (r: Result<Option<I::Item>, I::Error>) {
        (**self).next_back()
    }
}

/// A fallible iterator able to yield elements from both ends.
///
/// `can_next_back` and `next_back_rel` describe `next_back` as `can_next` and `next_rel`
/// describe `next`.
pub trait DoubleEndedFallibleIterator: FallibleIterator {
    /// A call of `next_back` on `self` is allowed, and returns. An implementation that does
    /// not describe its `next_back` allows every call.
    open spec fn can_next_back(&self) -> bool {
        true
    }

    /// A call of `next_back` may take the iterator from `self` to `post` and return `r`. An
    /// implementation that does not describe its `next_back` allows everything.
    open spec fn next_back_rel(&self, post: &Self, r: Result<Option<Self::Item>, Self::Error>) -> bool {
        true
    }

    /// Advances the end of the iterator, returning the last value.
    fn next_back(&mut self) -> (r: Result<Option<Self::Item>, Self::Error>)
        requires
            (*old(self)).can_next_back(),
        ensures
            (*old(self)).next_back_rel(&*final(self), r),
    ;
}

/// Conversion from a `FallibleIterator`: collecting its items.
pub trait FromFallibleIterator<T>: Sized {
    /// `c` is what collecting `items`, in this order, gives. An implementation that does not
    /// describe its collection accepts every value.
    open spec fn collects(items: Seq<T>, c: Self) -> bool {
        true
    }

    /// Collects the items of `it`, or returns the first error.
    fn from_fallible_iterator<I>(it: I) -> (r: Result<Self, I::Error>) where
        I: FallibleIterator<Item = T>,

        requires
            stops(
                |s: I| s.can_next(),
                |a: I, b: I, o: Result<Option<T>, I::Error>| a.next_rel(&b, o),
                it,
                always(),
            ),
        ensures
            collect_result(
                |a: I, b: I, o: Result<Option<T>, I::Error>| a.next_rel(&b, o),
                it,
                r,
                |items: Seq<T>, c: Self| Self::collects(items, c),
            ),
    ;
}

/// The methods of `FallibleIterator` that take or build another trait's values, for every
/// fallible iterator.
///
/// These methods belong with the others of `FallibleIterator`; they stand in a trait of their
/// own because they depend on traits or types that depend on `FallibleIterator` in turn
/// (`IntoFallibleIterator`, `FromFallibleIterator`, `DoubleEndedFallibleIterator`, `Peekable`).
pub trait FallibleIteratorExt: FallibleIterator + Sized {
    /// Returns an iterator which yields the elements of this iterator followed
    /// by another.
    fn chain<I>(self, it: I) -> (r: Chain<Self, I>) where
        I: IntoFallibleIterator<Item = Self::Item, Error = Self::Error>,

        ensures
            r.front() == self,
            r.back() == it,
            r.uses_front(),
            r.uses_back(),
    {
        Chain::new(self, it)
    }

    /// Transforms the iterator into a collection.
    ///
    /// An `Err` will be returned if any invocation of `next` returns `Err`.
    fn collect<T>(self) -> (r: Result<T, Self::Error>) where
        T: FromFallibleIterator<Self::Item>,

        requires
            stops(
                |s: Self| s.can_next(),
                |a: Self, b: Self, o: Result<Option<Self::Item>, Self::Error>| a.next_rel(&b, o),
                self,
                always(),
            ),
        ensures
            collect_result(
                |a: Self, b: Self, o: Result<Option<Self::Item>, Self::Error>| a.next_rel(&b, o),
                self,
                r,
                |items: Seq<Self::Item>, c: T| T::collects(items, c),
            ),
    {
        T::from_fallible_iterator(self)
    }

    /// Returns an iterator that yields pairs of this iterator's and another
    /// iterator's values.
    fn zip<I>(self, o: I) -> (r: Zip<Self, I::IntoIter>) where
        I: IntoFallibleIterator<Error = Self::Error>,

        ensures
            r.first() == self,
            r.second() == o.into_iter_spec(),
    {
        Zip::new(self, o.into_fallible_iterator())
    }

    /// Returns an iterator that can peek at the next element without consuming
    /// it.
    fn peekable(self) -> (r: Peekable<Self>)
        ensures
            r.iter() == self,
            r.peeked() is None,
    {
        Peekable::new(self)
    }

    /// Returns an iterator that yields this iterator's items in the opposite
    /// order.
    fn rev(self) -> (r: Rev<Self>) where Self: DoubleEndedFallibleIterator
        ensures
            r.iter() == self,
    {
        Rev::new(self)
    }
}

impl<I: FallibleIterator> FallibleIteratorExt for I {
}

/// Conversion into a `FallibleIterator`.
pub trait IntoFallibleIterator {
    /// The type of the items of the iterator.
    type Item;

    /// The type of the errors of the iterator.
    type Error;

    /// The iterator.
    type IntoIter: FallibleIterator<Item = Self::Item, Error = Self::Error>;

    /// The iterator that `self` converts into. An implementation that does not describe its
    /// conversion leaves it unknown.
    open spec fn into_iter_spec(&self) -> Self::IntoIter {
        arbitrary()
    }

    /// Converts `self` into an iterator.
    fn into_fallible_iterator(self) -> (r: Self::IntoIter)
        ensures
            r == self.into_iter_spec(),
    ;
}

impl<I> IntoFallibleIterator for I where I: FallibleIterator {
    type Item = I::Item;

    type Error = I::Error;

    type IntoIter = I;

    /// An iterator converts into itself.
    open spec fn into_iter_spec(&self) -> I {
        *self
    }

    fn into_fallible_iterator(self) -> (r: I) {
        self
    }
}

/// After `nth(n)` on an iterator whose `next` is deterministic and yields `xs` and then
/// `Ok(None)`, with `n < xs.len()`: `nth` returned `xs[n]`, the calls of `next` after it yield the
/// rest of `xs` and then `Ok(None)`, and so the next call returns `xs[n + 1]`, or `Ok(None)`
/// when `xs[n]` was the last item.
pub proof fn lemma_nth_then_next<I: FallibleIterator>(
    start: I,
    xs: Seq<I::Item>,
    end: I,
    n: nat,
    r: Result<Option<I::Item>, I::Error>,
    post: I,
)
    requires
        deterministic(rel_of::<I>()),
        ends_ok(rel_of::<I>(), start, xs, end),
        n < xs.len(),
        nth_result(rel_of::<I>(), start, n, r, post),
    ensures
        r == Ok::<Option<I::Item>, I::Error>(Some(xs[n as int])),
        ends_ok(rel_of::<I>(), post, xs.subrange(n + 1 as int, xs.len() as int), end),
        forall|post2: I, o: Result<Option<I::Item>, I::Error>|
            #[trigger] post.next_rel(&post2, o) ==> o == if n + 1 < xs.len() {
                Ok::<Option<I::Item>, I::Error>(Some(xs[n + 1 as int]))
            } else {
                Ok::<Option<I::Item>, I::Error>(None)
            },
{
    let rel = rel_of::<I>();
    lemma_nth_then_rest(rel, start, xs, end, n, r, post);
    let rest = xs.subrange(n + 1 as int, xs.len() as int);
    let routs = yields::<I::Item, I::Error>(rest).push(Ok(None));
    let rs = choose|rs: Seq<I>| steps(rel, rs, routs) && rs[0] == post && rs.last() == end;
    assert(step_at(rel, rs, routs, 0));
    assert forall|post2: I, o: Result<Option<I::Item>, I::Error>|
        #[trigger] post.next_rel(&post2, o) implies o == if n + 1 < xs.len() {
            Ok::<Option<I::Item>, I::Error>(Some(xs[n + 1 as int]))
        } else {
            Ok::<Option<I::Item>, I::Error>(None)
        } by {
        assert(rel(post, post2, o));
        assert(rel(rs[0], rs[1], routs[0]));
        if n + 1 < xs.len() {
            assert(routs[0] == Ok::<Option<I::Item>, I::Error>(Some(rest[0])));
        } else {
            assert(rest.len() == 0);
        }
    }
}

} // verus!
