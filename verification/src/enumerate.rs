//! `Enumerate`: the items of an iterator with their positions.
use vstd::prelude::*;

use crate::iterator::{can_of, rel_of, size_hint_of, FallibleIterator};
use crate::run::{
    always, count_result, ends_err, ends_ok, finishes, lemma_count_err, lemma_count_ok,
    hint_valid, lemma_hint_project, lemma_stops_lower, step_at, steps, stops_within, yields, StepRel,
};

verus! {

/// An iterator that yields the iteration count as well as the values of the
/// underlying iterator.
#[derive(Debug)]
pub struct Enumerate<I> {
    it: I,
    n: usize,
}

impl<I> Enumerate<I> {
    /// The underlying iterator.
    pub closed spec fn iter(&self) -> I {
        self.it
    }

    /// The count that goes with the next item.
    pub closed spec fn position(&self) -> usize {
        self.n
    }

    /// The items of `it`, counted from 0.
    pub(crate) fn new(it: I) -> (r: Self)
        ensures
            r.iter() == it,
            r.position() == 0,
    {
        Enumerate { it, n: 0 }
    }
}

/// A call of `next` on `e` is allowed: the underlying call is, and when it may yield an item,
/// the count that goes with it is not the largest `usize` (it is then increased).
pub open spec fn enumerate_can<I: FallibleIterator>(e: Enumerate<I>) -> bool {
    &&& e.iter().can_next()
    &&& forall|post: I, x: I::Item|
        #[trigger] e.iter().next_rel(&post, Ok(Some(x))) ==> e.position() < usize::MAX
}

/// One call of `next` on `e`: a call on the underlying iterator, whose item comes with the
/// count, which then goes up by one.
pub open spec fn enumerate_step<I: FallibleIterator>(
    e: Enumerate<I>,
    post: Enumerate<I>,
    r: Result<Option<(usize, I::Item)>, I::Error>,
) -> bool {
    match r {
        Ok(Some((i, x))) => {
            &&& i == e.position()
            &&& post.position() == e.position() + 1
            &&& e.iter().next_rel(&post.iter(), Ok(Some(x)))
        },
        Ok(None) => {
            &&& post.position() == e.position()
            &&& e.iter().next_rel(&post.iter(), Ok(None))
        },
        Err(err) => {
            &&& post.position() == e.position()
            &&& e.iter().next_rel(&post.iter(), Err(err))
        },
    }
}

impl<I> FallibleIterator for Enumerate<I> where I: FallibleIterator {
    type Item = (usize, I::Item);

    type Error = I::Error;

    open spec fn can_next(&self) -> bool {
        enumerate_can(*self)
    }

    open spec fn next_rel(&self, post: &Self, r: Result<Option<(usize, I::Item)>, I::Error>) -> bool {
        enumerate_step(*self, *post, r)
    }

    fn next(&mut self) -> (r: Result<Option<(usize, I::Item)>, I::Error>) {
        let ghost before = self.it;
        match self.it.next() {
            Ok(Some(e)) => {
                assert(before.next_rel(&self.it, Ok(Some(e))));
                let i = self.n;
                self.n += 1;
                Ok(Some((i, e)))
            },
            Ok(None) => Ok(None),
            Err(err) => Err(err),
        }
    }

    fn size_hint(&self) -> (r: (usize, Option<usize>))
        ensures
            call_ensures(size_hint_of::<I>, (&self.iter(),), r),
    {
        size_hint_of(&self.it)
    }

    fn count(self) -> (r: Result<usize, I::Error>) {
        let ghost can = |s: Self| s.can_next();
        let ghost rel = |a: Self, b: Self, o: Result<Option<(usize, I::Item)>, I::Error>|
            a.next_rel(&b, o);
        proof {
            lemma_enumerate_lower(can, rel, self);
        }
        let r = self.it.count();
        proof {
            lemma_enumerate_count(can, rel, self, r);
        }
        r
    }
}

/// When the runs of an enumeration stop, so do those of the underlying iterator.
proof fn lemma_enumerate_lower<I: FallibleIterator>(
    can: spec_fn(Enumerate<I>) -> bool,
    rel: StepRel<Enumerate<I>, (usize, I::Item), I::Error>,
    e: Enumerate<I>,
)
    requires
        forall|g: Enumerate<I>| #[trigger] can(g) == enumerate_can(g),
        forall|g: Enumerate<I>, h: Enumerate<I>, o: Result<Option<(usize, I::Item)>, I::Error>|
            #[trigger] rel(g, h, o) == enumerate_step(g, h, o),
        finishes(can, rel, e),
    ensures
        finishes(can_of::<I>(), rel_of::<I>(), e.it),
{
    let n = choose|n: nat| n <= usize::MAX + 1 && stops_within(can, rel, e, always(), n);
    let proj = |g: Enumerate<I>| g.it;
    let inv = |g: Enumerate<I>| true;
    let lift = |g: Enumerate<I>, a2: I, x: I::Item|
        (Enumerate { it: a2, n: (g.n + 1) as usize }, (g.n, x));
    assert forall|g: Enumerate<I>, a2: I, x: I::Item|
        inv(g) && can(g) && #[trigger] rel_of::<I>()(proj(g), a2, Ok(Some(x))) implies {
        &&& rel(g, lift(g, a2, x).0, Ok(Some(lift(g, a2, x).1)))
        &&& proj(lift(g, a2, x).0) == a2
        &&& inv(lift(g, a2, x).0)
    } by {
        assert(rel_of::<I>()(g.iter(), lift(g, a2, x).0.iter(), Ok(Some(x))));
    }
    lemma_stops_lower(can_of::<I>(), rel_of::<I>(), can, rel, inv, proj, lift, e, n);
}

/// The enumeration along a run of the underlying iterator.
spec fn enumerate_along<I>(e: Enumerate<I>, states: Seq<I>, m: int) -> Seq<Enumerate<I>> {
    Seq::new(
        states.len(),
        |k: int| Enumerate { it: states[k], n: (e.n + if k <= m { k } else { m }) as usize },
    )
}

/// The items of `items` with their counts from `n`.
pub open spec fn counted<T>(n: usize, items: Seq<T>) -> Seq<(usize, T)> {
    Seq::new(items.len(), |k: int| ((n + k) as usize, items[k]))
}

/// Along a run of the underlying iterator with items, the enumeration's bound shrinks and its
/// count stays in range.
proof fn lemma_enumerate_along<I: FallibleIterator>(
    can: spec_fn(Enumerate<I>) -> bool,
    rel: StepRel<Enumerate<I>, (usize, I::Item), I::Error>,
    e: Enumerate<I>,
    n: nat,
    states: Seq<I>,
    outs: Seq<Result<Option<I::Item>, I::Error>>,
    items: Seq<I::Item>,
    k: int,
)
    requires
        forall|g: Enumerate<I>| #[trigger] can(g) == enumerate_can(g),
        forall|g: Enumerate<I>, h: Enumerate<I>, o: Result<Option<(usize, I::Item)>, I::Error>|
            #[trigger] rel(g, h, o) == enumerate_step(g, h, o),
        stops_within(can, rel, e, always(), n),
        steps(rel_of::<I>(), states, outs),
        states[0] == e.it,
        items.len() < outs.len(),
        forall|j: int| 0 <= j < items.len() ==> outs[j] == Ok::<Option<I::Item>, I::Error>(Some(items[j])),
        0 <= k <= items.len(),
    ensures
        e.n + k <= usize::MAX,
        k < n,
        stops_within(can, rel, enumerate_along(e, states, items.len() as int)[k], always(), (n - k) as nat),
    decreases k,
{
    let es = enumerate_along(e, states, items.len() as int);
    if k > 0 {
        lemma_enumerate_along(can, rel, e, n, states, outs, items, k - 1);
        assert(step_at(rel_of::<I>(), states, outs, k - 1));
        assert(can(es[k - 1]));
        assert(rel_of::<I>()(es[k - 1].iter(), es[k].iter(), Ok(Some(items[k - 1]))));
        assert(rel(es[k - 1], es[k], Ok(Some((es[k - 1].n, items[k - 1])))));
        assert(always::<(usize, I::Item)>()((es[k - 1].n, items[k - 1])));
        assert(stops_within(can, rel, es[k], always(), (n - k) as nat));
    } else {
        assert(es[0] == e);
    }
    assert(n - k > 0);
}

/// Counting the underlying iterator counts a run of the enumeration.
proof fn lemma_enumerate_count<I: FallibleIterator>(
    can: spec_fn(Enumerate<I>) -> bool,
    rel: StepRel<Enumerate<I>, (usize, I::Item), I::Error>,
    e: Enumerate<I>,
    r: Result<usize, I::Error>,
)
    requires
        forall|g: Enumerate<I>| #[trigger] can(g) == enumerate_can(g),
        forall|g: Enumerate<I>, h: Enumerate<I>, o: Result<Option<(usize, I::Item)>, I::Error>|
            #[trigger] rel(g, h, o) == enumerate_step(g, h, o),
        finishes(can, rel, e),
        count_result(rel_of::<I>(), e.it, r),
    ensures
        count_result(rel, e, r),
{
    let n = choose|n: nat| n <= usize::MAX + 1 && stops_within(can, rel, e, always(), n);
    let (items, last, last_e) = match r {
        Ok(c) => {
            let (items, end) = choose|items: Seq<I::Item>, end: I|
                items.len() == c && #[trigger] ends_ok(rel_of::<I>(), e.it, items, end);
            (
                items,
                Ok::<Option<I::Item>, I::Error>(None),
                Ok::<Option<(usize, I::Item)>, I::Error>(None),
            )
        },
        Err(err) => {
            let (items, end) = choose|items: Seq<I::Item>, end: I|
                #[trigger] ends_err(rel_of::<I>(), e.it, items, err, end);
            (
                items,
                Err::<Option<I::Item>, I::Error>(err),
                Err::<Option<(usize, I::Item)>, I::Error>(err),
            )
        },
    };
    let outs = yields::<I::Item, I::Error>(items).push(last);
    let states = choose|states: Seq<I>| steps(rel_of::<I>(), states, outs) && states[0] == e.it;
    let es = enumerate_along(e, states, items.len() as int);
    let ys = counted(e.n, items);
    let outs_e = yields::<(usize, I::Item), I::Error>(ys).push(last_e);
    lemma_enumerate_along(can, rel, e, n, states, outs, items, items.len() as int);
    assert forall|k: int| 0 <= k < outs_e.len() implies #[trigger] step_at(rel, es, outs_e, k) by {
        assert(step_at(rel_of::<I>(), states, outs, k));
        if k < items.len() {
            lemma_enumerate_along(can, rel, e, n, states, outs, items, k);
            lemma_enumerate_along(can, rel, e, n, states, outs, items, k + 1);
            assert(outs_e[k] == Ok::<Option<(usize, I::Item)>, I::Error>(Some(ys[k])));
            assert(rel_of::<I>()(es[k].iter(), es[k + 1].iter(), Ok(Some(items[k]))));
        } else {
            assert(rel_of::<I>()(es[k].iter(), es[k + 1].iter(), last));
        }
    }
    assert(steps(rel, es, outs_e));
    assert(es[0] == e);
    match r {
        Ok(c) => {
            assert(ends_ok(rel, e, ys, es.last()));
            lemma_count_ok(rel, e, ys, es.last());
        },
        Err(err) => {
            assert(ends_err(rel, e, ys, err, es.last()));
            lemma_count_err(rel, e, ys, err, es.last());
        },
    }
}

/// In a run of an enumeration, each item comes with its position in the run, counted from the
/// starting count.
pub proof fn lemma_enumerate_positions<I: FallibleIterator>(
    states: Seq<Enumerate<I>>,
    items: Seq<(usize, I::Item)>,
)
    requires
        steps(rel_of::<Enumerate<I>>(), states, yields(items)),
    ensures
        forall|k: int| 0 <= k < items.len() ==> #[trigger] items[k].0 == states[0].position() + k,
        states.last().position() == states[0].position() + items.len(),
    decreases items.len(),
{
    if items.len() > 0 {
        let k = items.len() - 1;
        crate::run::lemma_steps_prefix(rel_of::<Enumerate<I>>(), states, yields(items), k);
        assert(yields::<(usize, I::Item), I::Error>(items).subrange(0, k) =~= yields::<
            (usize, I::Item),
            I::Error,
        >(items.subrange(0, k)));
        lemma_enumerate_positions(states.subrange(0, k + 1), items.subrange(0, k));
        assert(step_at(rel_of::<Enumerate<I>>(), states, yields(items), k));
        assert(enumerate_step(states[k], states[k + 1], Ok(Some(items[k]))));
        assert forall|j: int| 0 <= j < items.len() implies #[trigger] items[j].0 == states[0].position()
            + j by {
            if j < k {
                assert(items.subrange(0, k)[j] == items[j]);
            }
        }
    }
}

/// The bounds on the items of the underlying iterator are bounds on those of the enumeration
/// (which `size_hint` returns).
pub proof fn lemma_enumerate_hint<I: FallibleIterator>(e: Enumerate<I>, h: (usize, Option<usize>))
    requires
        hint_valid(rel_of::<I>(), e.iter(), h),
    ensures
        hint_valid(rel_of::<Enumerate<I>>(), e, h),
{
    let inv = |g: Enumerate<I>| true;
    let proj = |g: Enumerate<I>| g.iter();
    assert forall|b1: Enumerate<I>, b2: Enumerate<I>, y: (usize, I::Item)|
        inv(b1) && #[trigger] rel_of::<Enumerate<I>>()(b1, b2, Ok(Some(y))) implies inv(b2) && exists|
        x: I::Item,
    | rel_of::<I>()(proj(b1), proj(b2), Ok(Some(x))) by {
        assert(rel_of::<I>()(proj(b1), proj(b2), Ok(Some(y.1))));
    }
    lemma_hint_project(rel_of::<I>(), rel_of::<Enumerate<I>>(), inv, proj, e, h);
}

} // verus!
