//! `Take`: at most a given number of items of an iterator.
use vstd::prelude::*;

use crate::iterator::{rel_of, size_hint_of, FallibleIterator};
use crate::run::{
    deterministic, lemma_runs_unique, ends_ok, hint_valid, is_none, lemma_project_run, lemma_steps_prefix, lemma_steps_push, runs,
    step_at, steps, yields,
};

verus! {

/// An iterator which yields a limited number of elements from the underlying
/// iterator.
#[derive(Debug)]
pub struct Take<I> {
    it: I,
    remaining: usize,
}

impl<I> Take<I> {
    /// The underlying iterator.
    pub closed spec fn iter(&self) -> I {
        self.it
    }

    /// How many more items may be yielded.
    pub closed spec fn remaining(&self) -> usize {
        self.remaining
    }

    /// The first `n` items of `it`.
    pub(crate) fn new(it: I, n: usize) -> (r: Self)
        ensures
            r.iter() == it,
            r.remaining() == n,
    {
        Take { it, remaining: n }
    }
}

/// The bounds on the length of `take(remaining)`, from those of the underlying iterator: each
/// bound capped at `remaining`.
pub open spec fn take_hint_spec(hint: (usize, Option<usize>), remaining: usize) -> (usize, Option<usize>) {
    (
        if hint.0 < remaining {
            hint.0
        } else {
            remaining
        },
        match hint.1 {
            Some(n) => Some(
                if n < remaining {
                    n
                } else {
                    remaining
                },
            ),
            None => None,
        },
    )
}

/// Computes `take_hint_spec`.
pub fn take_hint(hint: (usize, Option<usize>), remaining: usize) -> (r: (usize, Option<usize>))
    ensures
        r == take_hint_spec(hint, remaining),
{
    let low = if hint.0 < remaining {
        hint.0
    } else {
        remaining
    };
    let high = match hint.1 {
        Some(n) => Some(
            if n < remaining {
                n
            } else {
                remaining
            },
        ),
        None => None,
    };
    (low, high)
}

/// A call of `next` on `t` is allowed: it ends at once, or calls the underlying iterator.
pub open spec fn take_can<I: FallibleIterator>(t: Take<I>) -> bool {
    t.remaining() == 0 || t.iter().can_next()
}

/// One call of `next` on `t`: `Ok(None)` once the limit is reached, else a call on the
/// underlying iterator, whose item counts against the limit.
pub open spec fn take_step<I: FallibleIterator>(
    t: Take<I>,
    post: Take<I>,
    r: Result<Option<I::Item>, I::Error>,
) -> bool {
    if t.remaining() == 0 {
        &&& is_none(r)
        &&& post.iter() == t.iter()
        &&& post.remaining() == 0
    } else {
        &&& t.iter().next_rel(&post.iter(), r)
        &&& post.remaining() == if r matches Ok(Some(_)) {
            t.remaining() - 1
        } else {
            t.remaining() as int
        }
    }
}

impl<I> FallibleIterator for Take<I> where I: FallibleIterator {
    type Item = I::Item;

    type Error = I::Error;

    open spec fn can_next(&self) -> bool {
        take_can(*self)
    }

    open spec fn next_rel(&self, post: &Self, r: Result<Option<I::Item>, I::Error>) -> bool {
        take_step(*self, *post, r)
    }

    fn next(&mut self) -> (r: Result<Option<I::Item>, I::Error>) {
        if self.remaining == 0 {
            return Ok(None);
        }
        let next = self.it.next();
        if let Ok(Some(_)) = next {
            self.remaining -= 1;
        }
        next
    }

    fn size_hint(&self) -> (r: (usize, Option<usize>))
        ensures
            r.0 <= self.remaining(),
            r.1 matches Some(u) ==> u <= self.remaining(),
            exists|h: (usize, Option<usize>)|
                #[trigger] call_ensures(size_hint_of::<I>, (&self.iter(),), h) && r == take_hint_spec(
                    h,
                    self.remaining(),
                ),
    {
        let hint = size_hint_of(&self.it);
        assert(call_ensures(size_hint_of::<I>, (&self.iter(),), hint));
        take_hint(hint, self.remaining)
    }
}

/// A run of items of `take(n)` has at most `n` of them, and the limit drops by one per item.
pub proof fn lemma_take_at_most<I: FallibleIterator>(states: Seq<Take<I>>, items: Seq<I::Item>)
    requires
        steps(rel_of::<Take<I>>(), states, yields(items)),
    ensures
        items.len() <= states[0].remaining(),
        states.last().remaining() == states[0].remaining() - items.len(),
    decreases items.len(),
{
    if items.len() > 0 {
        let k = items.len() - 1;
        lemma_steps_prefix(rel_of::<Take<I>>(), states, yields(items), k);
        assert(yields::<I::Item, I::Error>(items).subrange(0, k) =~= yields::<I::Item, I::Error>(
            items.subrange(0, k),
        ));
        lemma_take_at_most(states.subrange(0, k + 1), items.subrange(0, k));
        assert(step_at(rel_of::<Take<I>>(), states, yields(items), k));
        assert(take_step(states[k], states[k + 1], Ok(Some(items[k]))));
    }
}

/// The bounds on the items of the underlying iterator, capped at the limit, are bounds on
/// those of `take` (which `size_hint` returns).
pub proof fn lemma_take_hint<I: FallibleIterator>(t: Take<I>, h: (usize, Option<usize>))
    requires
        hint_valid(rel_of::<I>(), t.iter(), h),
    ensures
        hint_valid(rel_of::<Take<I>>(), t, take_hint_spec(h, t.remaining())),
{
    let rel_t = rel_of::<Take<I>>();
    let rel_i = rel_of::<I>();
    let inv = |g: Take<I>| true;
    let proj = |g: Take<I>| g.iter();
    let th = take_hint_spec(h, t.remaining());
    assert forall|b1: Take<I>, b2: Take<I>, y: I::Item|
        inv(b1) && #[trigger] rel_t(b1, b2, Ok(Some(y))) implies inv(b2) && exists|x: I::Item|
        rel_i(proj(b1), proj(b2), Ok(Some(x))) by {
        assert(rel_i(proj(b1), proj(b2), Ok(Some(y))));
    }
    assert forall|ys: Seq<I::Item>, end: Take<I>| #[trigger] ends_ok(rel_t, t, ys, end) implies th.0
        <= ys.len() by {
        let outs = yields::<I::Item, I::Error>(ys).push(Ok(None));
        let bs = choose|bs: Seq<Take<I>>| steps(rel_t, bs, outs) && bs[0] == t && bs.last() == end;
        let k = ys.len() as int;
        lemma_steps_prefix(rel_t, bs, outs, k);
        assert(outs.subrange(0, k) =~= yields::<I::Item, I::Error>(ys));
        let pre = bs.subrange(0, k + 1);
        lemma_take_at_most(pre, ys);
        let xs = lemma_project_run(rel_i, rel_t, inv, proj, pre, ys, false);
        assert(step_at(rel_t, bs, outs, k));
        if bs[k].remaining() != 0 {
            assert(rel_i(bs[k].iter(), bs[k + 1].iter(), Ok(None)));
            lemma_steps_push(rel_i, pre.map_values(proj), yields(xs), bs[k + 1].iter(), Ok(None));
            assert(ends_ok(rel_i, t.iter(), xs, bs[k + 1].iter()));
        }
    }
    assert forall|ys: Seq<I::Item>, end: Take<I>| #[trigger] runs(rel_t, t, yields(ys), end) implies (th.1 matches Some(
        u,
    ) ==> ys.len() <= u) by {
        let bs = choose|bs: Seq<Take<I>>| steps(rel_t, bs, yields(ys)) && bs[0] == t && bs.last() == end;
        lemma_take_at_most(bs, ys);
        let xs = lemma_project_run(rel_i, rel_t, inv, proj, bs, ys, false);
        assert(runs(rel_i, t.iter(), yields(xs), end.iter()));
    }
}

/// The first `n` of `xs`, or all of them when there are fewer.
pub open spec fn first_items<T>(xs: Seq<T>, n: usize) -> Seq<T> {
    if n < xs.len() {
        xs.take(n as int)
    } else {
        xs
    }
}

/// `take`'s `next` is deterministic when that of the underlying iterator is.
pub proof fn lemma_take_deterministic<I: FallibleIterator>()
    requires
        deterministic(rel_of::<I>()),
    ensures
        deterministic(rel_of::<Take<I>>()),
{
    let rel = rel_of::<Take<I>>();
    let ri = rel_of::<I>();
    assert forall|a: Take<I>, b1: Take<I>, b2: Take<I>, o1: Result<Option<I::Item>, I::Error>, o2: Result<Option<I::Item>, I::Error>|
        #![trigger rel(a, b1, o1), rel(a, b2, o2)]
        rel(a, b1, o1) && rel(a, b2, o2) implies b1 == b2 && o1 == o2 by {
        assert(take_step(a, b1, o1) && take_step(a, b2, o2));
        if a.remaining != 0 {
            assert(ri(a.it, b1.it, o1) && ri(a.it, b2.it, o2));
        }
    }
}

/// The first items of an iterator make a run of `take(n)`: when the underlying iterator yields
/// `xs` and then `Ok(None)`, a run of `take(n)` yields the first `min(n, xs.len())` of them and
/// then `Ok(None)`; when `n` items came first, that last call leaves the underlying iterator
/// alone, with nothing more to yield.
pub proof fn lemma_take_yields<I: FallibleIterator>(t: Take<I>, xs: Seq<I::Item>, iend: I) -> (end: Take<I>)
    requires
        ends_ok(rel_of::<I>(), t.iter(), xs, iend),
    ensures
        ends_ok(rel_of::<Take<I>>(), t, first_items(xs, t.remaining()), end),
        t.remaining() <= xs.len() ==> end.remaining() == 0,
{
    let rel = rel_of::<Take<I>>();
    let n = t.remaining() as int;
    let m = if n < xs.len() { n } else { xs.len() as int };
    let iouts = yields::<I::Item, I::Error>(xs).push(Ok(None));
    let is = choose|s: Seq<I>| steps(rel_of::<I>(), s, iouts) && s[0] == t.it && s.last() == iend;
    let items = first_items(xs, t.remaining());
    assert(items =~= xs.take(m));
    let outs = yields::<I::Item, I::Error>(items).push(Ok(None));
    let last_state = if m == n {
        Take { it: is[m], remaining: 0 }
    } else {
        Take { it: is[m + 1], remaining: (n - m) as usize }
    };
    let ts = Seq::new(
        (m + 2) as nat,
        |i: int|
            if i <= m {
                Take { it: is[i], remaining: (n - i) as usize }
            } else {
                last_state
            },
    );
    assert forall|i: int| 0 <= i < outs.len() implies #[trigger] step_at(rel, ts, outs, i) by {
        assert(step_at(rel_of::<I>(), is, iouts, i));
        if i < m {
            assert(iouts[i] == Ok::<Option<I::Item>, I::Error>(Some(xs[i])));
            assert(outs[i] == Ok::<Option<I::Item>, I::Error>(Some(xs[i])));
            assert(take_step(ts[i], ts[i + 1], outs[i]));
        } else {
            if m < n {
                assert(iouts[m] == Ok::<Option<I::Item>, I::Error>(None));
            }
            assert(take_step(ts[i], ts[i + 1], outs[i]));
        }
    }
    assert(steps(rel, ts, outs));
    ts.last()
}

/// The calls of `next` on `take(n)` of a deterministic iterator that yields `xs` and then
/// `Ok(None)`: the first `min(n, xs.len())` calls yield the first items of `xs`, in order, and
/// the next one returns `Ok(None)`.
pub proof fn lemma_take_runs<I: FallibleIterator>(
    t: Take<I>,
    xs: Seq<I::Item>,
    iend: I,
    outs: Seq<Result<Option<I::Item>, I::Error>>,
    end: Take<I>,
)
    requires
        deterministic(rel_of::<I>()),
        ends_ok(rel_of::<I>(), t.iter(), xs, iend),
        runs(rel_of::<Take<I>>(), t, outs, end),
    ensures
        forall|j: int|
            0 <= j < outs.len() && j <= first_items(xs, t.remaining()).len() ==> outs[j]
                == #[trigger] yields::<I::Item, I::Error>(first_items(xs, t.remaining())).push(Ok(None))[j],
{
    lemma_take_deterministic::<I>();
    let e = lemma_take_yields(t, xs, iend);
    lemma_runs_unique(rel_of::<Take<I>>(), t, outs, end, yields(first_items(xs, t.remaining())).push(Ok(None)), e);
}

/// Once `take(n)` has yielded `n` items, every later call returns `Ok(None)` and leaves the
/// underlying iterator untouched.
pub proof fn lemma_take_spent<I: FallibleIterator>(
    t: Take<I>,
    outs: Seq<Result<Option<I::Item>, I::Error>>,
    end: Take<I>,
)
    requires
        t.remaining() == 0,
        runs(rel_of::<Take<I>>(), t, outs, end),
    ensures
        forall|j: int| 0 <= j < outs.len() ==> is_none(#[trigger] outs[j]),
        end.iter() == t.iter(),
        end.remaining() == 0,
    decreases outs.len(),
{
    let rel = rel_of::<Take<I>>();
    let ts = choose|s: Seq<Take<I>>| steps(rel, s, outs) && s[0] == t && s.last() == end;
    if outs.len() > 0 {
        let k = outs.len() - 1;
        lemma_steps_prefix(rel, ts, outs, k);
        lemma_take_spent(t, outs.subrange(0, k), ts[k]);
        assert(step_at(rel, ts, outs, k));
        assert forall|j: int| 0 <= j < outs.len() implies is_none(#[trigger] outs[j]) by {
            if j < k {
                assert(outs.subrange(0, k)[j] == outs[j]);
            }
        }
    }
}

} // verus!
