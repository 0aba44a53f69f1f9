//! Between fallible iterators and standard iterators over `Result`s.
use vstd::prelude::*;
use vstd::std_specs::iter::{DoubleEndedIteratorSpec, IteratorSpec};

use crate::iterator::{
    can_back_of, can_of, rel_back_of, rel_of, size_hint_of, DoubleEndedFallibleIterator,
    FallibleIterator,
};
use crate::run::{always, finishes, is_none, runs, step_at, steps, stops, stops_within, StepRel};

verus! {

/// A standard iterator's result as a fallible iterator's.
pub open spec fn from_std<T, E>(o: Option<Result<T, E>>) -> Result<Option<T>, E> {
    match o {
        Some(Ok(x)) => Ok(Some(x)),
        Some(Err(e)) => Err(e),
        None => Ok(None),
    }
}

/// A fallible iterator's result as a standard iterator's.
pub open spec fn to_std<T, E>(r: Result<Option<T>, E>) -> Option<Result<T, E>> {
    match r {
        Ok(Some(x)) => Some(Ok(x)),
        Ok(None) => None,
        Err(e) => Some(Err(e)),
    }
}

/// `to_std` and `from_std` undo each other.
pub proof fn lemma_std_round_trip<T, E>(o: Option<Result<T, E>>, r: Result<Option<T>, E>)
    ensures
        to_std(from_std(o)) == o,
        from_std(to_std(r)) == r,
{
}

/// One call on a converted iterator, as far as a relation can say: when `it` obeys the standard
/// iterator laws, `post` does too, has a measure exactly when `it` has one, and a call that
/// yields an item or an error lowers the measure.
pub open spec fn convert_step<T, E, I: core::iter::Iterator>(it: I, post: I, r: Result<Option<T>, E>) -> bool {
    it.obeys_prophetic_iter_laws() ==> {
        &&& post.obeys_prophetic_iter_laws()
        &&& (it.decrease() is Some <==> post.decrease() is Some)
        &&& (it.decrease() is Some && post.decrease() is Some && !is_none(r) ==> post.decrease()->0
            < it.decrease()->0)
    }
}

/// Converts an `Iterator<Item = Result<T, E>>` into a `FallibleIterator<Item = T, Error = E>`.
pub fn convert<T, E, I>(it: I) -> (r: Convert<I>) where I: core::iter::Iterator<Item = Result<T, E>>
    ensures
        r.iter() == it,
{
    Convert(it)
}

/// A fallible iterator that wraps a normal iterator over `Result`s.
#[derive(Debug)]
pub struct Convert<I>(I);

impl<I> Convert<I> {
    /// The wrapped iterator.
    pub closed spec fn iter(&self) -> I {
        self.0
    }
}

impl<T, E, I> FallibleIterator for Convert<I> where I: core::iter::Iterator<Item = Result<T, E>> {
    type Item = T;

    type Error = E;

    /// A call may always be made.
    open spec fn can_next(&self) -> bool {
        true
    }

    /// For a wrapped iterator that obeys the standard iterator laws: they still hold after the
    /// call, the iterator keeps a measure (`decrease`) if it had one, and a call that yields an
    /// item or an error lowers that measure, so runs stop. What the wrapped iterator yields is
    /// stated (in `next`'s own `ensures`) only through the standard iterator's prophetic
    /// specification, which a relation cannot use.
    open spec fn next_rel(&self, post: &Self, r: Result<Option<T>, E>) -> bool {
        convert_step(self.iter(), post.iter(), r)
    }

    fn next(&mut self) -> (r: Result<Option<T>, E>)
        ensures
            (*old(self)).iter().obeys_prophetic_iter_laws() ==> {
                if (*old(self)).iter().remaining().len() > 0 {
                    &&& final(self).iter().remaining() == (*old(self)).iter().remaining().drop_first()
                    &&& r == from_std(Some((*old(self)).iter().remaining()[0]))
                } else {
                    r == from_std::<T, E>(None)
                }
            },
    {
        match self.0.next() {
            Some(Ok(i)) => Ok(Some(i)),
            Some(Err(e)) => Err(e),
            None => Ok(None),
        }
    }

    fn size_hint(&self) -> (r: (usize, Option<usize>))
        ensures
            call_ensures(std_hint_of::<I>, (&self.iter(),), r),
    {
        std_hint_of(&self.0)
    }
}

/// Calls the standard library's `Iterator::size_hint` on `it`. `Convert::size_hint` returns a
/// result of this call on the wrapped iterator; nothing more can be said of it (see
/// `std_size_hint`).
pub fn std_hint_of<I: core::iter::Iterator>(it: &I) -> (usize, Option<usize>) {
    std_size_hint(it)
}

/// Calls the standard library's `Iterator::size_hint` on `it`. Its documentation lets an
/// implementation return any bounds (a buggy one may even be wrong), so nothing is stated of
/// the result.
#[verifier::external_body]
fn std_size_hint<I: core::iter::Iterator>(it: &I) -> (usize, Option<usize>) {
    it.size_hint()
}

impl<T, E, I> DoubleEndedFallibleIterator for Convert<I> where
    I: core::iter::DoubleEndedIterator<Item = Result<T, E>>,
 {
    /// A call may always be made.
    open spec fn can_next_back(&self) -> bool {
        true
    }

    /// As for `next_rel`; `next_back`'s own `ensures` says more.
    open spec fn next_back_rel(&self, post: &Self, r: Result<Option<T>, E>) -> bool {
        convert_step(self.iter(), post.iter(), r)
    }

    fn next_back(&mut self) -> (r: Result<Option<T>, E>)
        ensures
            (*old(self)).iter().obeys_prophetic_iter_laws() ==> {
                if (*old(self)).iter().remaining().len() > 0 {
                    &&& final(self).iter().remaining() == (*old(self)).iter().remaining().drop_last()
                    &&& r == from_std(Some((*old(self)).iter().remaining().last()))
                } else {
                    r == from_std::<T, E>(None)
                }
            },
    {
        match self.0.next_back() {
            Some(Ok(i)) => Ok(Some(i)),
            Some(Err(e)) => Err(e),
            None => Ok(None),
        }
    }
}

/// A normal (non-fallible) iterator which wraps a fallible iterator.
///
/// Its items are those of the fallible iterator turned into `Result`s: `Ok(Some(v))` gives
/// `Some(Ok(v))`, `Err(e)` gives `Some(Err(e))`, and `Ok(None)` gives `None`.
#[derive(Debug)]
pub struct Iterator<I>(I);

impl<I> Iterator<I> {
    /// The wrapped fallible iterator.
    pub closed spec fn iter(&self) -> I {
        self.0
    }

    /// A standard-style iterator over `it`.
    pub(crate) fn new(it: I) -> (r: Self)
        ensures
            r.iter() == it,
    {
        Iterator(it)
    }
}

impl<I: FallibleIterator> Iterator<I> {
    /// Advances the iterator and returns the next value, as a standard iterator does.
    pub fn next(&mut self) -> (r: Option<Result<I::Item, I::Error>>)
        requires
            old(self).iter().can_next(),
        ensures
            old(self).iter().next_rel(&final(self).iter(), from_std(r)),
    {
        match self.0.next() {
            Ok(Some(v)) => Some(Ok(v)),
            Ok(None) => None,
            Err(e) => Some(Err(e)),
        }
    }

    /// Returns bounds on the remaining length of the iterator: those of the wrapped one.
    pub fn size_hint(&self) -> (r: (usize, Option<usize>))
        ensures
            call_ensures(size_hint_of::<I>, (&self.iter(),), r),
    {
        size_hint_of(&self.0)
    }
}

impl<I: DoubleEndedFallibleIterator> Iterator<I> {
    /// Advances the end of the iterator, returning the last value, as a standard iterator does.
    pub fn next_back(&mut self) -> (r: Option<Result<I::Item, I::Error>>)
        requires
            old(self).iter().can_next_back(),
        ensures
            old(self).iter().next_back_rel(&final(self).iter(), from_std(r)),
    {
        match self.0.next_back() {
            Ok(Some(v)) => Some(Ok(v)),
            Ok(None) => None,
            Err(e) => Some(Err(e)),
        }
    }
}

/// Runs of a converted iterator whose wrapped iterator obeys the standard iterator laws and has
/// the measure `d` stop within any bound above `d`.
proof fn lemma_convert_stops_within<T, E, I: core::iter::Iterator<Item = Result<T, E>>>(
    can: spec_fn(Convert<I>) -> bool,
    rel: StepRel<Convert<I>, T, E>,
    c: Convert<I>,
    go: spec_fn(T) -> bool,
    d: nat,
)
    requires
        forall|g: Convert<I>| #[trigger] can(g),
        forall|g: Convert<I>, h: Convert<I>, o: Result<Option<T>, E>|
            #[trigger] rel(g, h, o) ==> convert_step(g.iter(), h.iter(), o),
        c.iter().obeys_prophetic_iter_laws(),
        c.iter().decrease() == Some(d),
    ensures
        forall|n: nat| n > d ==> #[trigger] stops_within(can, rel, c, go, n),
    decreases d,
{
    assert forall|n: nat| n > d implies #[trigger] stops_within(can, rel, c, go, n) by {
        assert forall|post: Convert<I>, x: T| #[trigger] rel(c, post, Ok(Some(x))) && go(x) implies stops_within(
            can,
            rel,
            post,
            go,
            (n - 1) as nat,
        ) by {
            assert(convert_step(c.iter(), post.iter(), Ok::<Option<T>, E>(Some(x))));
            let d2 = post.iter().decrease()->0;
            lemma_convert_stops_within(can, rel, post, go, d2);
            assert(stops_within(can, rel, post, go, (n - 1) as nat));
        }
    }
}

/// The runs of `next` on a converted iterator stop when the wrapped iterator obeys the standard
/// iterator laws and has a measure (as the standard collections' iterators do), and, when the
/// measure is at most `usize::MAX`, they finish within `usize::MAX` items.
pub proof fn lemma_convert_stops<T, E, I: core::iter::Iterator<Item = Result<T, E>>>(
    c: Convert<I>,
    go: spec_fn(T) -> bool,
)
    requires
        c.iter().obeys_prophetic_iter_laws(),
        c.iter().decrease() is Some,
    ensures
        stops(can_of::<Convert<I>>(), rel_of::<Convert<I>>(), c, go),
        c.iter().decrease()->0 <= usize::MAX ==> finishes(can_of::<Convert<I>>(), rel_of::<Convert<I>>(), c),
{
    let d = c.iter().decrease()->0;
    lemma_convert_stops_within(can_of::<Convert<I>>(), rel_of::<Convert<I>>(), c, go, d);
    lemma_convert_stops_within(can_of::<Convert<I>>(), rel_of::<Convert<I>>(), c, always(), d);
    assert(stops_within(can_of::<Convert<I>>(), rel_of::<Convert<I>>(), c, go, d + 1));
    assert(stops_within(can_of::<Convert<I>>(), rel_of::<Convert<I>>(), c, always(), d + 1));
}

/// The same for `next_back` on a converted double-ended iterator.
pub proof fn lemma_convert_stops_back<T, E, I: core::iter::DoubleEndedIterator<Item = Result<T, E>>>(
    c: Convert<I>,
    go: spec_fn(T) -> bool,
)
    requires
        c.iter().obeys_prophetic_iter_laws(),
        c.iter().decrease() is Some,
    ensures
        stops(can_back_of::<Convert<I>>(), rel_back_of::<Convert<I>>(), c, go),
{
    let d = c.iter().decrease()->0;
    lemma_convert_stops_within(can_back_of::<Convert<I>>(), rel_back_of::<Convert<I>>(), c, go, d);
    assert(stops_within(can_back_of::<Convert<I>>(), rel_back_of::<Convert<I>>(), c, go, d + 1));
}

/// Successive calls of `next` on the standard-style view return the results of a run of the
/// wrapped fallible iterator, turned into standard results: states `vs` and results `rs` that
/// each call of `Iterator::next` allows (its `ensures`) are a run of the wrapped iterator with
/// the results `rs` turned back by `from_std`.
pub proof fn lemma_iterator_runs<I: FallibleIterator>(
    vs: Seq<Iterator<I>>,
    rs: Seq<Option<Result<I::Item, I::Error>>>,
)
    requires
        vs.len() == rs.len() + 1,
        forall|k: int|
            0 <= k < rs.len() ==> #[trigger] vs[k].iter().next_rel(&vs[k + 1].iter(), from_std(rs[k])),
    ensures
        runs(
            rel_of::<I>(),
            vs[0].iter(),
            rs.map_values(|o: Option<Result<I::Item, I::Error>>| from_std(o)),
            vs.last().iter(),
        ),
{
    let outs = rs.map_values(|o: Option<Result<I::Item, I::Error>>| from_std(o));
    let is = vs.map_values(|v: Iterator<I>| v.iter());
    assert forall|k: int| 0 <= k < outs.len() implies #[trigger] step_at(rel_of::<I>(), is, outs, k) by {
        assert(vs[k].iter().next_rel(&vs[k + 1].iter(), from_std(rs[k])));
    }
    assert(steps(rel_of::<I>(), is, outs));
}

} // verus!
