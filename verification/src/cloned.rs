//! `Cloned`: clones of the items of an iterator over references.
use vstd::prelude::*;

use crate::iterator::{
    can_of, rel_back_of, size_hint_of, rel_of, DoubleEndedFallibleIterator, FallibleIterator,
};
use crate::run::{
    always, count_result, ends_err, ends_ok, finishes, lemma_count_err, lemma_count_ok,
    hint_valid, lemma_hint_project, lemma_stops_lower, step_at, steps, stops_within, yields, StepRel,
};

verus! {

/// An item that refers to a value that can be cloned: a shared reference.
pub trait ItemRef {
    /// The type of the value referred to.
    type Target: Clone;

    /// The value referred to. An implementation that does not describe it leaves it unknown.
    open spec fn target(&self) -> Self::Target {
        arbitrary()
    }

    /// A clone of the value referred to.
    fn clone_target(&self) -> (r: Self::Target)
        ensures
            vstd::pervasive::cloned(self.target(), r),
    ;
}

impl<'a, T: Clone> ItemRef for &'a T {
    type Target = T;

    open spec fn target(&self) -> T {
        **self
    }

    fn clone_target(&self) -> (r: T) {
        (**self).clone()
    }
}

/// An iterator which clones the elements of the underlying iterator.
#[derive(Debug)]
pub struct Cloned<I>(I);

impl<I> Cloned<I> {
    /// The underlying iterator.
    pub closed spec fn iter(&self) -> I {
        self.0
    }

    /// Clones of the items of `it`.
    pub(crate) fn new(it: I) -> (r: Self)
        ensures
            r.iter() == it,
    {
        Cloned(it)
    }
}

/// One call of `next` (or `next_back`) on `c`: the call `inner` on the underlying iterator,
/// and a clone of its item.
pub open spec fn cloned_step<I: FallibleIterator>(
    inner: StepRel<I, I::Item, I::Error>,
    c: Cloned<I>,
    post: Cloned<I>,
    r: Result<Option<<I::Item as ItemRef>::Target>, I::Error>,
) -> bool where I::Item: ItemRef {
    match r {
        Ok(Some(y)) => exists|x: I::Item|
            #[trigger] inner(c.iter(), post.iter(), Ok(Some(x))) && vstd::pervasive::cloned(x.target(), y),
        Ok(None) => inner(c.iter(), post.iter(), Ok(None)),
        Err(e) => inner(c.iter(), post.iter(), Err(e)),
    }
}

impl<I> FallibleIterator for Cloned<I> where I: FallibleIterator, I::Item: ItemRef {
    type Item = <I::Item as ItemRef>::Target;

    type Error = I::Error;

    open spec fn can_next(&self) -> bool {
        self.iter().can_next()
    }

    open spec fn next_rel(&self, post: &Self, r: Result<Option<<I::Item as ItemRef>::Target>, I::Error>) -> bool {
        cloned_step(rel_of::<I>(), *self, *post, r)
    }

    fn next(&mut self) -> (r: Result<Option<<I::Item as ItemRef>::Target>, I::Error>) {
        let ghost c = *self;
        match self.0.next() {
            Ok(Some(x)) => {
                let y = x.clone_target();
                assert(rel_of::<I>()(c.iter(), self.iter(), Ok(Some(x))));
                Ok(Some(y))
            },
            Ok(None) => Ok(None),
            Err(e) => Err(e),
        }
    }

    fn size_hint(&self) -> (r: (usize, Option<usize>))
        ensures
            call_ensures(size_hint_of::<I>, (&self.iter(),), r),
    {
        size_hint_of(&self.0)
    }

    fn count(self) -> (r: Result<usize, I::Error>) {
        let ghost can = |s: Self| s.can_next();
        let ghost rel = |a: Self, b: Self, o: Result<Option<<I::Item as ItemRef>::Target>, I::Error>| a.next_rel(&b, o);
        proof {
            lemma_cloned_lower(can, rel, self);
        }
        let r = self.0.count();
        proof {
            lemma_cloned_count(rel, self, r);
        }
        r
    }
}

impl<I> DoubleEndedFallibleIterator for Cloned<I> where
    I: DoubleEndedFallibleIterator,
    I::Item: ItemRef,
 {
    open spec fn can_next_back(&self) -> bool {
        self.iter().can_next_back()
    }

    open spec fn next_back_rel(&self, post: &Self, r: Result<Option<<I::Item as ItemRef>::Target>, I::Error>) -> bool {
        cloned_step(rel_back_of::<I>(), *self, *post, r)
    }

    fn next_back(&mut self) -> (r: Result<Option<<I::Item as ItemRef>::Target>, I::Error>) {
        let ghost c = *self;
        match self.0.next_back() {
            Ok(Some(x)) => {
                let y = x.clone_target();
                assert(rel_back_of::<I>()(c.iter(), self.iter(), Ok(Some(x))));
                Ok(Some(y))
            },
            Ok(None) => Ok(None),
            Err(e) => Err(e),
        }
    }
}

/// When the runs of the clones stop, so do those of the underlying iterator.
proof fn lemma_cloned_lower<I: FallibleIterator>(
    can: spec_fn(Cloned<I>) -> bool,
    rel: StepRel<Cloned<I>, <I::Item as ItemRef>::Target, I::Error>,
    c: Cloned<I>,
) where I::Item: ItemRef
    requires
        forall|g: Cloned<I>| #[trigger] can(g) == g.iter().can_next(),
        forall|g: Cloned<I>, h: Cloned<I>, o: Result<Option<<I::Item as ItemRef>::Target>, I::Error>|
            #[trigger] rel(g, h, o) == cloned_step(rel_of::<I>(), g, h, o),
        finishes(can, rel, c),
    ensures
        finishes(can_of::<I>(), rel_of::<I>(), c.0),
{
    let n = choose|n: nat| n <= usize::MAX + 1 && stops_within(can, rel, c, always(), n);
    let proj = |g: Cloned<I>| g.0;
    let inv = |g: Cloned<I>| true;
    let lift = |g: Cloned<I>, a2: I, x: I::Item| (Cloned(a2), x.target());
    assert forall|g: Cloned<I>, a2: I, x: I::Item|
        inv(g) && can(g) && #[trigger] rel_of::<I>()(proj(g), a2, Ok(Some(x))) implies {
        &&& rel(g, lift(g, a2, x).0, Ok(Some(lift(g, a2, x).1)))
        &&& proj(lift(g, a2, x).0) == a2
        &&& inv(lift(g, a2, x).0)
    } by {
        assert(rel_of::<I>()(g.iter(), lift(g, a2, x).0.iter(), Ok(Some(x))));
    }
    lemma_stops_lower(can_of::<I>(), rel_of::<I>(), can, rel, inv, proj, lift, c, n);
}

/// Counting the underlying iterator counts a run of the clones.
proof fn lemma_cloned_count<I: FallibleIterator>(
    rel: StepRel<Cloned<I>, <I::Item as ItemRef>::Target, I::Error>,
    c: Cloned<I>,
    r: Result<usize, I::Error>,
) where I::Item: ItemRef
    requires
        forall|g: Cloned<I>, h: Cloned<I>, o: Result<Option<<I::Item as ItemRef>::Target>, I::Error>|
            #[trigger] rel(g, h, o) == cloned_step(rel_of::<I>(), g, h, o),
        count_result(rel_of::<I>(), c.0, r),
    ensures
        count_result(rel, c, r),
{
    let (items, last, last_c) = match r {
        Ok(n) => {
            let (items, end) = choose|items: Seq<I::Item>, end: I|
                items.len() == n && #[trigger] ends_ok(rel_of::<I>(), c.0, items, end);
            (items, Ok::<Option<I::Item>, I::Error>(None), Ok::<Option<<I::Item as ItemRef>::Target>, I::Error>(None))
        },
        Err(e) => {
            let (items, end) = choose|items: Seq<I::Item>, end: I|
                #[trigger] ends_err(rel_of::<I>(), c.0, items, e, end);
            (items, Err::<Option<I::Item>, I::Error>(e), Err::<Option<<I::Item as ItemRef>::Target>, I::Error>(e))
        },
    };
    let outs = yields::<I::Item, I::Error>(items).push(last);
    let states = choose|states: Seq<I>| steps(rel_of::<I>(), states, outs) && states[0] == c.0;
    let ys = items.map_values(|x: I::Item| x.target());
    let outs_c = yields::<<I::Item as ItemRef>::Target, I::Error>(ys).push(last_c);
    let cs = Seq::new(states.len(), |k: int| Cloned(states[k]));
    assert forall|k: int| 0 <= k < outs_c.len() implies #[trigger] step_at(rel, cs, outs_c, k) by {
        assert(step_at(rel_of::<I>(), states, outs, k));
        if k < items.len() {
            assert(outs_c[k] == Ok::<Option<<I::Item as ItemRef>::Target>, I::Error>(Some(ys[k])));
            assert(rel_of::<I>()(cs[k].iter(), cs[k + 1].iter(), Ok(Some(items[k]))));
        }
    }
    assert(steps(rel, cs, outs_c));
    assert(cs[0] == c);
    match r {
        Ok(n) => {
            assert(ends_ok(rel, c, ys, cs.last()));
            lemma_count_ok(rel, c, ys, cs.last());
        },
        Err(e) => {
            assert(ends_err(rel, c, ys, e, cs.last()));
            lemma_count_err(rel, c, ys, e, cs.last());
        },
    }
}

/// The bounds on the items of the underlying iterator are bounds on the clones (which
/// `size_hint` returns).
pub proof fn lemma_cloned_hint<I: FallibleIterator>(c: Cloned<I>, h: (usize, Option<usize>)) where
    I::Item: ItemRef,

    requires
        hint_valid(rel_of::<I>(), c.iter(), h),
    ensures
        hint_valid(rel_of::<Cloned<I>>(), c, h),
{
    let inv = |g: Cloned<I>| true;
    let proj = |g: Cloned<I>| g.iter();
    lemma_hint_project(rel_of::<I>(), rel_of::<Cloned<I>>(), inv, proj, c, h);
}

} // verus!
