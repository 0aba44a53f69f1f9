//! `Fuse`: an iterator that yields `Ok(None)` forever once the underlying one has.
use vstd::prelude::*;

use crate::iterator::{can_of, rel_of, size_hint_of, FallibleIterator};
use crate::run::{
    always, count_result, ends_err, ends_ok, finishes, fused, is_none, lemma_count_err, lemma_count_ok,
    hint_valid, lemma_hint_project, lemma_stops_lower, step_at, steps, stops_within, yields, StepRel,
};

verus! {

/// An iterator that yields `Ok(None)` forever after the underlying iterator
/// yields `Ok(None)` once.
#[derive(Debug)]
pub struct Fuse<I> {
    it: I,
    done: bool,
}

impl<I> Fuse<I> {
    /// The underlying iterator.
    pub closed spec fn iter(&self) -> I {
        self.it
    }

    /// The underlying iterator has yielded `Ok(None)`.
    pub closed spec fn is_done(&self) -> bool {
        self.done
    }

    /// A fuse around `it` that has seen nothing yet.
    pub(crate) fn new(it: I) -> (r: Self)
        ensures
            r.iter() == it,
            !r.is_done(),
    {
        Fuse { it, done: false }
    }
}

/// A call of `next` on a fuse is allowed.
pub open spec fn fuse_can<I: FallibleIterator>(f: Fuse<I>) -> bool {
    f.is_done() || f.iter().can_next()
}

/// One call of `next` on a fuse.
pub open spec fn fuse_step<I: FallibleIterator>(
    f: Fuse<I>,
    post: Fuse<I>,
    r: Result<Option<I::Item>, I::Error>,
) -> bool {
    if f.is_done() {
        &&& post.is_done()
        &&& post.iter() == f.iter()
        &&& is_none(r)
    } else {
        &&& f.iter().next_rel(&post.iter(), r)
        &&& post.is_done() == is_none(r)
    }
}

impl<I: FallibleIterator> FallibleIterator for Fuse<I> {
    type Item = I::Item;

    type Error = I::Error;

    open spec fn can_next(&self) -> bool {
        fuse_can(*self)
    }

    open spec fn next_rel(&self, post: &Self, r: Result<Option<I::Item>, I::Error>) -> bool {
        fuse_step(*self, *post, r)
    }

    fn next(&mut self) -> (r: Result<Option<I::Item>, I::Error>) {
        if self.done {
            return Ok(None);
        }
        match self.it.next() {
            Ok(Some(i)) => Ok(Some(i)),
            Ok(None) => {
                self.done = true;
                Ok(None)
            },
            Err(e) => Err(e),
        }
    }

    fn size_hint(&self) -> (r: (usize, Option<usize>))
        ensures
            call_ensures(size_hint_of::<I>, (&self.iter(),), r),
    {
        size_hint_of(&self.it)
    }

    fn count(self) -> (r: Result<usize, I::Error>) {
        let ghost can = |s: Self| s.can_next();
        let ghost rel = |a: Self, b: Self, o: Result<Option<I::Item>, I::Error>| a.next_rel(&b, o);
        if self.done {
            proof {
                let states = seq![self, self];
                let outs = yields::<I::Item, I::Error>(Seq::<I::Item>::empty()).push(Ok(None));
                assert(step_at(rel, states, outs, 0));
                assert(steps(rel, states, outs));
                assert(ends_ok(rel, self, Seq::<I::Item>::empty(), self));
                lemma_count_ok(rel, self, Seq::<I::Item>::empty(), self);
            }
            Ok(0)
        } else {
            proof {
                lemma_fuse_lower(can, rel, self);
            }
            let r = self.it.count();
            proof {
                lemma_fuse_count(rel, self, r);
            }
            r
        }
    }
}

/// When a fuse's runs stop, so do its underlying iterator's.
proof fn lemma_fuse_lower<I: FallibleIterator>(
    can: spec_fn(Fuse<I>) -> bool,
    rel: StepRel<Fuse<I>, I::Item, I::Error>,
    f: Fuse<I>,
)
    requires
        forall|g: Fuse<I>| #[trigger] can(g) == fuse_can(g),
        forall|g: Fuse<I>, h: Fuse<I>, o: Result<Option<I::Item>, I::Error>|
            #[trigger] rel(g, h, o) == fuse_step(g, h, o),
        !f.done,
        finishes(can, rel, f),
    ensures
        finishes(can_of::<I>(), rel_of::<I>(), f.it),
{
    let n = choose|n: nat|
        n <= usize::MAX + 1 && stops_within(can, rel, f, always(), n);
    let proj = |g: Fuse<I>| g.it;
    let inv = |g: Fuse<I>| !g.done;
    let lift = |g: Fuse<I>, a2: I, x: I::Item| (Fuse { it: a2, done: false }, x);
    lemma_stops_lower(
        can_of::<I>(),
        rel_of::<I>(),
        can,
        rel,
        inv,
        proj,
        lift,
        f,
        n,
    );
}

/// Counting the underlying iterator counts a run of the fuse.
proof fn lemma_fuse_count<I: FallibleIterator>(
    rel: StepRel<Fuse<I>, I::Item, I::Error>,
    f: Fuse<I>,
    r: Result<usize, I::Error>,
)
    requires
        forall|g: Fuse<I>, h: Fuse<I>, o: Result<Option<I::Item>, I::Error>|
            #[trigger] rel(g, h, o) == fuse_step(g, h, o),
        !f.done,
        count_result(rel_of::<I>(), f.it, r),
    ensures
        count_result(rel, f, r),
{
    match r {
        Ok(n) => {
            let (items, end) = choose|items: Seq<I::Item>, end: I|
                items.len() == n && #[trigger] ends_ok(rel_of::<I>(), f.it, items, end);
            let outs = yields::<I::Item, I::Error>(items).push(Ok(None));
            let states = choose|states: Seq<I>|
                steps(rel_of::<I>(), states, outs) && states[0] == f.it && states.last() == end;
            let fs = Seq::new(
                states.len(),
                |k: int| Fuse { it: states[k], done: k == states.len() - 1 },
            );
            assert forall|k: int| 0 <= k < outs.len() implies #[trigger] step_at(
                rel,
                fs,
                outs,
                k,
            ) by {
                assert(step_at(rel_of::<I>(), states, outs, k));
            }
            assert(steps(rel, fs, outs));
            assert(fs[0] == f);
            lemma_count_ok(rel, f, items, fs.last());
        },
        Err(e) => {
            let (items, end) = choose|items: Seq<I::Item>, end: I|
                #[trigger] ends_err(rel_of::<I>(), f.it, items, e, end);
            let outs = yields::<I::Item, I::Error>(items).push(Err(e));
            let states = choose|states: Seq<I>|
                steps(rel_of::<I>(), states, outs) && states[0] == f.it && states.last() == end;
            let fs = Seq::new(states.len(), |k: int| Fuse { it: states[k], done: false });
            assert forall|k: int| 0 <= k < outs.len() implies #[trigger] step_at(
                rel,
                fs,
                outs,
                k,
            ) by {
                assert(step_at(rel_of::<I>(), states, outs, k));
            }
            assert(steps(rel, fs, outs));
            assert(fs[0] == f);
            lemma_count_err(rel, f, items, e, fs.last());
        },
    }
}

/// Once a fuse has yielded `Ok(None)`, every later call yields `Ok(None)` too.
pub proof fn lemma_fuse_stays_done<I: FallibleIterator>(
    states: Seq<Fuse<I>>,
    outs: Seq<Result<Option<I::Item>, I::Error>>,
    k: int,
    j: int,
)
    requires
        steps(rel_of::<Fuse<I>>(), states, outs),
        0 <= k <= j < outs.len(),
        is_none(outs[k]),
    ensures
        is_none(outs[j]),
        states[j + 1].is_done(),
    decreases j - k,
{
    assert(step_at(rel_of::<Fuse<I>>(), states, outs, j));
    if j > k {
        lemma_fuse_stays_done(states, outs, k, j - 1);
    }
}

/// The bounds on the items of the underlying iterator are bounds on those of a fuse that has
/// not seen `Ok(None)` yet (which `size_hint` returns).
pub proof fn lemma_fuse_hint<I: FallibleIterator>(f: Fuse<I>, h: (usize, Option<usize>))
    requires
        !f.is_done(),
        hint_valid(rel_of::<I>(), f.iter(), h),
    ensures
        hint_valid(rel_of::<Fuse<I>>(), f, h),
{
    let inv = |g: Fuse<I>| !g.is_done();
    let proj = |g: Fuse<I>| g.iter();
    assert forall|b1: Fuse<I>, b2: Fuse<I>, y: I::Item|
        inv(b1) && #[trigger] rel_of::<Fuse<I>>()(b1, b2, Ok(Some(y))) implies inv(b2) && exists|
        x: I::Item,
    | rel_of::<I>()(proj(b1), proj(b2), Ok(Some(x))) by {
        assert(rel_of::<I>()(proj(b1), proj(b2), Ok(Some(y))));
    }
    lemma_hint_project(rel_of::<I>(), rel_of::<Fuse<I>>(), inv, proj, f, h);
}

/// A fuse is fused: after `Ok(None)`, every call returns `Ok(None)` and changes nothing.
pub proof fn lemma_fuse_fused<I: FallibleIterator>()
    ensures
        fused(rel_of::<Fuse<I>>()),
{
    let rel = rel_of::<Fuse<I>>();
    assert forall|a: Fuse<I>, b: Fuse<I>, c: Fuse<I>, o: Result<Option<I::Item>, I::Error>|
        #![trigger rel(a, b, Ok(None)), rel(b, c, o)]
        rel(a, b, Ok(None)) && rel(b, c, o) implies o == Ok::<Option<I::Item>, I::Error>(None) && c == b by {
        assert(fuse_step(a, b, Ok(None)));
        assert(fuse_step(b, c, o));
        assert(c.it == b.it && c.done == b.done);
    }
}

/// Only `Ok(None)` ends a fuse: a call of a live fuse that returns anything else (an item or
/// an error) returns what the underlying call returned and leaves the fuse live, so the next
/// call of the fuse is again a call of the underlying iterator, with the same possible results
/// and the same condition for being allowed.
pub proof fn lemma_fuse_live_until_end<I: FallibleIterator>(
    f: Fuse<I>,
    f1: Fuse<I>,
    r: Result<Option<I::Item>, I::Error>,
)
    requires
        !f.is_done(),
        rel_of::<Fuse<I>>()(f, f1, r),
        !is_none(r),
    ensures
        rel_of::<I>()(f.iter(), f1.iter(), r),
        f1.can_next() == f1.iter().can_next(),
        forall|f2: Fuse<I>, o: Result<Option<I::Item>, I::Error>|
            #[trigger] rel_of::<Fuse<I>>()(f1, f2, o) ==> rel_of::<I>()(f1.iter(), f2.iter(), o),
        forall|i2: I, o: Result<Option<I::Item>, I::Error>|
            #[trigger] rel_of::<I>()(f1.iter(), i2, o) ==> exists|f2: Fuse<I>|
                f2.iter() == i2 && #[trigger] rel_of::<Fuse<I>>()(f1, f2, o),
{
    assert(fuse_step(f, f1, r));
    assert(!f1.done);
    assert forall|i2: I, o: Result<Option<I::Item>, I::Error>|
        #[trigger] rel_of::<I>()(f1.iter(), i2, o) implies exists|f2: Fuse<I>|
            f2.iter() == i2 && #[trigger] rel_of::<Fuse<I>>()(f1, f2, o) by {
        let f2 = Fuse { it: i2, done: is_none(o) };
        assert(fuse_step(f1, f2, o));
        assert(rel_of::<Fuse<I>>()(f1, f2, o));
    }
}

} // verus!
