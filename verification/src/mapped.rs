//! `Mapped` and `MapErr`: adaptors that transform the items or the errors of an iterator.
use vstd::prelude::*;

use crate::iterator::{
    can_of, lemma_pick, may_return, pick, rel_back_of, rel_of, size_hint_of, DoubleEndedFallibleIterator,
    FallibleIterator,
};
use crate::run::{
    always, count_result, ends_err, ends_ok, finishes, lemma_count_err, lemma_count_ok,
    hint_valid, lemma_hint_project, lemma_stops_lower, step_at, steps, stops_within, yields, StepRel,
};

verus! {

broadcast use vstd::function::group_function_axioms;

/// An iterator which applies a transform to the elements of the underlying
/// iterator.
#[derive(Debug)]
pub struct Mapped<I, F> {
    it: I,
    f: F,
}

impl<I, F> Mapped<I, F> {
    /// The underlying iterator.
    pub closed spec fn iter(&self) -> I {
        self.it
    }

    /// The transform.
    pub closed spec fn func(&self) -> F {
        self.f
    }

    /// An iterator that transforms the items of `it` by `f`.
    pub(crate) fn new(it: I, f: F) -> (r: Self)
        ensures
            r.iter() == it,
            r.func() == f,
    {
        Mapped { it, f }
    }
}

/// A call of `next` (or `next_back`) on `m` is allowed where it is on the underlying iterator
/// (`inner`) and the transform accepts every item.
pub open spec fn mapped_can<B, I: FallibleIterator, F: FnMut(I::Item) -> B>(
    inner: spec_fn(I) -> bool,
    m: Mapped<I, F>,
) -> bool {
    &&& inner(m.iter())
    &&& forall|x: I::Item| call_requires(m.func(), (x,))
}

/// One call of `next` (or `next_back`) on `m`, made of the call `inner` on the underlying
/// iterator and of the transform of the item.
pub open spec fn mapped_step<B, I: FallibleIterator, F: FnMut(I::Item) -> B>(
    inner: StepRel<I, I::Item, I::Error>,
    m: Mapped<I, F>,
    post: Mapped<I, F>,
    r: Result<Option<B>, I::Error>,
) -> bool {
    &&& post.func() == m.func()
    &&& match r {
        Ok(Some(y)) => exists|x: I::Item|
            #[trigger] inner(m.iter(), post.iter(), Ok(Some(x))) && may_return(m.func(), x, y),
        Ok(None) => inner(m.iter(), post.iter(), Ok(None)),
        Err(e) => inner(m.iter(), post.iter(), Err(e)),
    }
}

impl<B, F, I> FallibleIterator for Mapped<I, F> where I: FallibleIterator, F: FnMut(I::Item) -> B {
    type Item = B;

    type Error = I::Error;

    open spec fn can_next(&self) -> bool {
        mapped_can(can_of::<I>(), *self)
    }

    open spec fn next_rel(&self, post: &Self, r: Result<Option<B>, I::Error>) -> bool {
        mapped_step(rel_of::<I>(), *self, *post, r)
    }

    fn next(&mut self) -> (r: Result<Option<B>, I::Error>) {
        let ghost m = *self;
        match self.it.next() {
            Ok(Some(x)) => {
                assert(call_requires(m.func(), (x,)));
                let y = (self.f)(x);
                assert(rel_of::<I>()(m.iter(), self.iter(), Ok(Some(x))));
                assert(may_return(m.func(), x, y));
                Ok(Some(y))
            },
            Ok(None) => Ok(None),
            Err(e) => Err(e),
        }
    }

    fn size_hint(&self) -> (r: (usize, Option<usize>))
        ensures
            call_ensures(size_hint_of::<I>, (&self.iter(),), r),
    {
        size_hint_of(&self.it)
    }

    fn count(self) -> (r: Result<usize, I::Error>) {
        let ghost can = |s: Self| s.can_next();
        let ghost rel = |a: Self, b: Self, o: Result<Option<B>, I::Error>| a.next_rel(&b, o);
        proof {
            lemma_mapped_lower(can, rel, self);
        }
        let r = self.it.count();
        proof {
            lemma_mapped_count(rel, self, r);
        }
        r
    }
}

impl<B, F, I> DoubleEndedFallibleIterator for Mapped<I, F> where
    I: DoubleEndedFallibleIterator,
    F: FnMut(I::Item) -> B,
 {
    open spec fn can_next_back(&self) -> bool {
        mapped_can(|s: I| s.can_next_back(), *self)
    }

    open spec fn next_back_rel(&self, post: &Self, r: Result<Option<B>, I::Error>) -> bool {
        mapped_step(rel_back_of::<I>(), *self, *post, r)
    }

    fn next_back(&mut self) -> (r: Result<Option<B>, I::Error>) {
        let ghost m = *self;
        match self.it.next_back() {
            Ok(Some(x)) => {
                assert(call_requires(m.func(), (x,)));
                let y = (self.f)(x);
                assert(rel_back_of::<I>()(m.iter(), self.iter(), Ok(Some(x))));
                assert(may_return(m.func(), x, y));
                Ok(Some(y))
            },
            Ok(None) => Ok(None),
            Err(e) => Err(e),
        }
    }
}

/// When the runs of a mapped iterator stop, so do those of the underlying one.
proof fn lemma_mapped_lower<B, I: FallibleIterator, F: FnMut(I::Item) -> B>(
    can: spec_fn(Mapped<I, F>) -> bool,
    rel: StepRel<Mapped<I, F>, B, I::Error>,
    m: Mapped<I, F>,
)
    requires
        forall|g: Mapped<I, F>| #[trigger] can(g) == mapped_can(can_of::<I>(), g),
        forall|g: Mapped<I, F>, h: Mapped<I, F>, o: Result<Option<B>, I::Error>|
            #[trigger] rel(g, h, o) == mapped_step(rel_of::<I>(), g, h, o),
        finishes(can, rel, m),
    ensures
        finishes(can_of::<I>(), rel_of::<I>(), m.it),
{
    let n = choose|n: nat| n <= usize::MAX + 1 && stops_within(can, rel, m, always(), n);
    let proj = |g: Mapped<I, F>| g.it;
    let inv = |g: Mapped<I, F>| g.f == m.f;
    let lift = |g: Mapped<I, F>, a2: I, x: I::Item| (Mapped { it: a2, f: g.f }, pick(g.f, x));
    assert forall|g: Mapped<I, F>, a2: I, x: I::Item|
        inv(g) && can(g) && #[trigger] rel_of::<I>()(proj(g), a2, Ok(Some(x))) implies {
        &&& rel(g, lift(g, a2, x).0, Ok(Some(lift(g, a2, x).1)))
        &&& proj(lift(g, a2, x).0) == a2
        &&& inv(lift(g, a2, x).0)
    } by {
        lemma_pick(g.f, x);
        let g2 = lift(g, a2, x).0;
        assert(rel_of::<I>()(g.iter(), g2.iter(), Ok(Some(x))));
        assert(may_return(g.func(), x, lift(g, a2, x).1));
    }
    lemma_stops_lower(can_of::<I>(), rel_of::<I>(), can, rel, inv, proj, lift, m, n);
}

/// Counting the underlying iterator counts a run of the mapped iterator.
proof fn lemma_mapped_count<B, I: FallibleIterator, F: FnMut(I::Item) -> B>(
    rel: StepRel<Mapped<I, F>, B, I::Error>,
    m: Mapped<I, F>,
    r: Result<usize, I::Error>,
)
    requires
        forall|g: Mapped<I, F>, h: Mapped<I, F>, o: Result<Option<B>, I::Error>|
            #[trigger] rel(g, h, o) == mapped_step(rel_of::<I>(), g, h, o),
        count_result(rel_of::<I>(), m.it, r),
    ensures
        count_result(rel, m, r),
{
    let (items, last, lastb) = match r {
        Ok(n) => {
            let (items, end) = choose|items: Seq<I::Item>, end: I|
                items.len() == n && #[trigger] ends_ok(rel_of::<I>(), m.it, items, end);
            (items, Ok::<Option<I::Item>, I::Error>(None), Ok::<Option<B>, I::Error>(None))
        },
        Err(e) => {
            let (items, end) = choose|items: Seq<I::Item>, end: I|
                #[trigger] ends_err(rel_of::<I>(), m.it, items, e, end);
            (items, Err::<Option<I::Item>, I::Error>(e), Err::<Option<B>, I::Error>(e))
        },
    };
    let outs = yields::<I::Item, I::Error>(items).push(last);
    let states = choose|states: Seq<I>|
        steps(rel_of::<I>(), states, outs) && states[0] == m.it;
    let ys = items.map_values(|x: I::Item| pick(m.f, x));
    let outs_b = yields::<B, I::Error>(ys).push(lastb);
    let ms = Seq::new(states.len(), |k: int| Mapped { it: states[k], f: m.f });
    assert forall|k: int| 0 <= k < outs_b.len() implies #[trigger] step_at(rel, ms, outs_b, k) by {
        assert(step_at(rel_of::<I>(), states, outs, k));
        if k < items.len() {
            lemma_pick(m.f, items[k]);
            assert(outs_b[k] == Ok::<Option<B>, I::Error>(Some(ys[k])));
            assert(rel_of::<I>()(ms[k].iter(), ms[k + 1].iter(), Ok(Some(items[k]))));
            assert(may_return(ms[k].func(), items[k], ys[k]));
        }
    }
    assert(steps(rel, ms, outs_b));
    assert(ms[0] == m);
    match r {
        Ok(n) => {
            assert(ends_ok(rel, m, ys, ms.last()));
            lemma_count_ok(rel, m, ys, ms.last());
        },
        Err(e) => {
            assert(ends_err(rel, m, ys, e, ms.last()));
            lemma_count_err(rel, m, ys, e, ms.last());
        },
    }
}

/// An iterator which applies a transform to the errors of the underlying
/// iterator.
#[derive(Debug)]
pub struct MapErr<I, F> {
    it: I,
    f: F,
}

impl<I, F> MapErr<I, F> {
    /// The underlying iterator.
    pub closed spec fn iter(&self) -> I {
        self.it
    }

    /// The transform.
    pub closed spec fn func(&self) -> F {
        self.f
    }

    /// An iterator that transforms the errors of `it` by `f`.
    pub(crate) fn new(it: I, f: F) -> (r: Self)
        ensures
            r.iter() == it,
            r.func() == f,
    {
        MapErr { it, f }
    }
}

/// A call of `next` (or `next_back`) on `m` is allowed where it is on the underlying iterator
/// (`inner`) and the transform accepts every error.
pub open spec fn map_err_can<B, I: FallibleIterator, F: FnMut(I::Error) -> B>(
    inner: spec_fn(I) -> bool,
    m: MapErr<I, F>,
) -> bool {
    &&& inner(m.iter())
    &&& forall|e: I::Error| call_requires(m.func(), (e,))
}

/// One call of `next` (or `next_back`) on `m`, made of the call `inner` on the underlying
/// iterator and of the transform of the error.
pub open spec fn map_err_step<B, I: FallibleIterator, F: FnMut(I::Error) -> B>(
    inner: StepRel<I, I::Item, I::Error>,
    m: MapErr<I, F>,
    post: MapErr<I, F>,
    r: Result<Option<I::Item>, B>,
) -> bool {
    &&& post.func() == m.func()
    &&& match r {
        Ok(o) => inner(m.iter(), post.iter(), Ok(o)),
        Err(b) => exists|e: I::Error|
            #[trigger] inner(m.iter(), post.iter(), Err(e)) && may_return(m.func(), e, b),
    }
}

impl<B, F, I> FallibleIterator for MapErr<I, F> where I: FallibleIterator, F: FnMut(I::Error) -> B {
    type Item = I::Item;

    type Error = B;

    open spec fn can_next(&self) -> bool {
        map_err_can(can_of::<I>(), *self)
    }

    open spec fn next_rel(&self, post: &Self, r: Result<Option<I::Item>, B>) -> bool {
        map_err_step(rel_of::<I>(), *self, *post, r)
    }

    fn next(&mut self) -> (r: Result<Option<I::Item>, B>) {
        let ghost m = *self;
        match self.it.next() {
            Ok(o) => Ok(o),
            Err(e) => {
                assert(call_requires(m.func(), (e,)));
                let b = (self.f)(e);
                assert(rel_of::<I>()(m.iter(), self.iter(), Err(e)));
                assert(may_return(m.func(), e, b));
                Err(b)
            },
        }
    }

    fn size_hint(&self) -> (r: (usize, Option<usize>))
        ensures
            call_ensures(size_hint_of::<I>, (&self.iter(),), r),
    {
        size_hint_of(&self.it)
    }

    fn count(self) -> (r: Result<usize, B>) {
        let ghost can = |s: Self| s.can_next();
        let ghost rel = |a: Self, b: Self, o: Result<Option<I::Item>, B>| a.next_rel(&b, o);
        proof {
            lemma_map_err_lower(can, rel, self);
        }
        let mut this = self;
        let ghost m = this;
        let r = this.it.count();
        proof {
            lemma_map_err_count_ok(rel, m, r);
        }
        match r {
            Ok(n) => Ok(n),
            Err(e) => {
                assert(call_requires(m.func(), (e,)));
                let b = (this.f)(e);
                proof {
                    lemma_map_err_count_err(rel, m, e, b);
                }
                Err(b)
            },
        }
    }
}

impl<B, F, I> DoubleEndedFallibleIterator for MapErr<I, F> where
    I: DoubleEndedFallibleIterator,
    F: FnMut(I::Error) -> B,
 {
    open spec fn can_next_back(&self) -> bool {
        map_err_can(|s: I| s.can_next_back(), *self)
    }

    open spec fn next_back_rel(&self, post: &Self, r: Result<Option<I::Item>, B>) -> bool {
        map_err_step(rel_back_of::<I>(), *self, *post, r)
    }

    fn next_back(&mut self) -> (r: Result<Option<I::Item>, B>) {
        let ghost m = *self;
        match self.it.next_back() {
            Ok(o) => Ok(o),
            Err(e) => {
                assert(call_requires(m.func(), (e,)));
                let b = (self.f)(e);
                assert(rel_back_of::<I>()(m.iter(), self.iter(), Err(e)));
                assert(may_return(m.func(), e, b));
                Err(b)
            },
        }
    }
}

/// When the runs of an error-mapping iterator stop, so do those of the underlying one.
proof fn lemma_map_err_lower<B, I: FallibleIterator, F: FnMut(I::Error) -> B>(
    can: spec_fn(MapErr<I, F>) -> bool,
    rel: StepRel<MapErr<I, F>, I::Item, B>,
    m: MapErr<I, F>,
)
    requires
        forall|g: MapErr<I, F>| #[trigger] can(g) == map_err_can(can_of::<I>(), g),
        forall|g: MapErr<I, F>, h: MapErr<I, F>, o: Result<Option<I::Item>, B>|
            #[trigger] rel(g, h, o) == map_err_step(rel_of::<I>(), g, h, o),
        finishes(can, rel, m),
    ensures
        finishes(can_of::<I>(), rel_of::<I>(), m.it),
{
    let n = choose|n: nat| n <= usize::MAX + 1 && stops_within(can, rel, m, always(), n);
    let proj = |g: MapErr<I, F>| g.it;
    let inv = |g: MapErr<I, F>| g.f == m.f;
    let lift = |g: MapErr<I, F>, a2: I, x: I::Item| (MapErr { it: a2, f: g.f }, x);
    assert forall|g: MapErr<I, F>, a2: I, x: I::Item|
        inv(g) && can(g) && #[trigger] rel_of::<I>()(proj(g), a2, Ok(Some(x))) implies {
        &&& rel(g, lift(g, a2, x).0, Ok(Some(lift(g, a2, x).1)))
        &&& proj(lift(g, a2, x).0) == a2
        &&& inv(lift(g, a2, x).0)
    } by {}
    lemma_stops_lower(can_of::<I>(), rel_of::<I>(), can, rel, inv, proj, lift, m, n);
}

/// The runs of the underlying iterator, as runs of the error-mapping one that end the same way
/// but for the error.
proof fn lemma_map_err_states<B, I: FallibleIterator, F: FnMut(I::Error) -> B>(
    rel: StepRel<MapErr<I, F>, I::Item, B>,
    m: MapErr<I, F>,
    items: Seq<I::Item>,
    last: Result<Option<I::Item>, I::Error>,
    last_b: Result<Option<I::Item>, B>,
    end: I,
) -> (end_b: MapErr<I, F>)
    requires
        forall|g: MapErr<I, F>, h: MapErr<I, F>, o: Result<Option<I::Item>, B>|
            #[trigger] rel(g, h, o) == map_err_step(rel_of::<I>(), g, h, o),
        crate::run::runs(rel_of::<I>(), m.it, yields(items).push(last), end),
        last is Ok ==> last_b == Ok::<Option<I::Item>, B>(last->Ok_0),
        last is Err ==> last_b is Err && may_return(m.f, last->Err_0, last_b->Err_0),
    ensures
        crate::run::runs(rel, m, yields(items).push(last_b), end_b),
{
    let outs = yields::<I::Item, I::Error>(items).push(last);
    let states = choose|states: Seq<I>|
        steps(rel_of::<I>(), states, outs) && states[0] == m.it && states.last() == end;
    let outs_b = yields::<I::Item, B>(items).push(last_b);
    let ms = Seq::new(states.len(), |k: int| MapErr { it: states[k], f: m.f });
    assert forall|k: int| 0 <= k < outs_b.len() implies #[trigger] step_at(rel, ms, outs_b, k) by {
        assert(step_at(rel_of::<I>(), states, outs, k));
        if k == items.len() && last is Err {
            assert(rel_of::<I>()(ms[k].iter(), ms[k + 1].iter(), Err(last->Err_0)));
            assert(may_return(ms[k].func(), last->Err_0, last_b->Err_0));
        }
    }
    assert(steps(rel, ms, outs_b));
    assert(ms[0] == m);
    ms.last()
}

/// A count of the underlying iterator is one of the error-mapping one.
proof fn lemma_map_err_count_ok<B, I: FallibleIterator, F: FnMut(I::Error) -> B>(
    rel: StepRel<MapErr<I, F>, I::Item, B>,
    m: MapErr<I, F>,
    r: Result<usize, I::Error>,
)
    requires
        forall|g: MapErr<I, F>, h: MapErr<I, F>, o: Result<Option<I::Item>, B>|
            #[trigger] rel(g, h, o) == map_err_step(rel_of::<I>(), g, h, o),
        count_result(rel_of::<I>(), m.it, r),
    ensures
        r matches Ok(n) ==> count_result(rel, m, Ok::<usize, B>(n)),
        r matches Err(e) ==> exists|items: Seq<I::Item>, end: I|
            #[trigger] ends_err(rel_of::<I>(), m.it, items, e, end),
{
    if let Ok(n) = r {
        let (items, end) = choose|items: Seq<I::Item>, end: I|
            items.len() == n && #[trigger] ends_ok(rel_of::<I>(), m.it, items, end);
        let end_b = lemma_map_err_states(
            rel,
            m,
            items,
            Ok(None),
            Ok::<Option<I::Item>, B>(None),
            end,
        );
        lemma_count_ok(rel, m, items, end_b);
    }
}

/// An error of the underlying iterator's count, transformed, is one of the error-mapping one.
proof fn lemma_map_err_count_err<B, I: FallibleIterator, F: FnMut(I::Error) -> B>(
    rel: StepRel<MapErr<I, F>, I::Item, B>,
    m: MapErr<I, F>,
    e: I::Error,
    b: B,
)
    requires
        forall|g: MapErr<I, F>, h: MapErr<I, F>, o: Result<Option<I::Item>, B>|
            #[trigger] rel(g, h, o) == map_err_step(rel_of::<I>(), g, h, o),
        exists|items: Seq<I::Item>, end: I| #[trigger] ends_err(rel_of::<I>(), m.it, items, e, end),
        may_return(m.f, e, b),
    ensures
        count_result(rel, m, Err(b)),
{
    let (items, end) = choose|items: Seq<I::Item>, end: I|
        #[trigger] ends_err(rel_of::<I>(), m.it, items, e, end);
    let end_b = lemma_map_err_states(rel, m, items, Err(e), Err::<Option<I::Item>, B>(b), end);
    lemma_count_err(rel, m, items, b, end_b);
}

/// The bounds on the items of the underlying iterator are bounds on those of the mapped one
/// (which `size_hint` returns).
pub proof fn lemma_mapped_hint<B, I: FallibleIterator, F: FnMut(I::Item) -> B>(
    m: Mapped<I, F>,
    h: (usize, Option<usize>),
)
    requires
        hint_valid(rel_of::<I>(), m.iter(), h),
    ensures
        hint_valid(rel_of::<Mapped<I, F>>(), m, h),
{
    let inv = |g: Mapped<I, F>| true;
    let proj = |g: Mapped<I, F>| g.iter();
    lemma_hint_project(rel_of::<I>(), rel_of::<Mapped<I, F>>(), inv, proj, m, h);
}

/// The bounds on the items of the underlying iterator are bounds on those of the
/// error-mapping one (which `size_hint` returns).
pub proof fn lemma_map_err_hint<B, I: FallibleIterator, F: FnMut(I::Error) -> B>(
    m: MapErr<I, F>,
    h: (usize, Option<usize>),
)
    requires
        hint_valid(rel_of::<I>(), m.iter(), h),
    ensures
        hint_valid(rel_of::<MapErr<I, F>>(), m, h),
{
    let inv = |g: MapErr<I, F>| true;
    let proj = |g: MapErr<I, F>| g.iter();
    assert forall|b1: MapErr<I, F>, b2: MapErr<I, F>, y: I::Item|
        inv(b1) && #[trigger] rel_of::<MapErr<I, F>>()(b1, b2, Ok(Some(y))) implies inv(b2) && exists|
        x: I::Item,
    | rel_of::<I>()(proj(b1), proj(b2), Ok(Some(x))) by {
        assert(rel_of::<I>()(proj(b1), proj(b2), Ok(Some(y))));
    }
    lemma_hint_project(rel_of::<I>(), rel_of::<MapErr<I, F>>(), inv, proj, m, h);
}

} // verus!
