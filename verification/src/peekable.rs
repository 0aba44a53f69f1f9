//! `Peekable`: an iterator that can look at its next item without consuming it.
use vstd::prelude::*;

use crate::iterator::{rel_of, size_hint_of, FallibleIterator};
use crate::run::{
    ends_ok, hint_valid, lemma_hint_project, lemma_project_run, lemma_steps_drop_first,
    fused, lemma_yields_drop_first, runs, step_at, steps, yields,
};

verus! {

/// An iterator which can look at the next element without consuming it.
#[derive(Debug)]
pub struct Peekable<I: FallibleIterator> {
    it: I,
    next: Option<I::Item>,
}

impl<I: FallibleIterator> Peekable<I> {
    /// The underlying iterator.
    pub closed spec fn iter(&self) -> I {
        self.it
    }

    /// The item taken from the underlying iterator and not yet yielded, if any.
    pub closed spec fn peeked(&self) -> Option<I::Item> {
        self.next
    }

    /// A peekable iterator over `it` that has taken nothing from it yet.
    pub(crate) fn new(it: I) -> (r: Self)
        ensures
            r.iter() == it,
            r.peeked() is None,
    {
        Peekable { it, next: None }
    }

    /// Returns a reference to the next value without advancing the iterator.
    ///
    /// With an item already taken, it is returned and nothing changes. Otherwise the
    /// underlying iterator is advanced once: an item it yields is kept as the peeked one and
    /// returned, `Ok(None)` is returned as is, and an error is returned with nothing kept.
    pub fn peek(&mut self) -> (r: Result<Option<&I::Item>, I::Error>)
        requires
            (*old(self)).peeked() is None ==> (*old(self)).iter().can_next(),
        ensures
            (*old(self)).peeked() is Some ==> {
                &&& final(self).peeked() == (*old(self)).peeked()
                &&& final(self).iter() == (*old(self)).iter()
            },
            (*old(self)).peeked() is None ==> match r {
                Ok(_) => (*old(self)).iter().next_rel(&final(self).iter(), Ok(final(self).peeked())),
                Err(e) => {
                    &&& (*old(self)).iter().next_rel(&final(self).iter(), Err(e))
                    &&& final(self).peeked() is None
                },
            },
            match r {
                Ok(Some(x)) => final(self).peeked() == Some(*x),
                Ok(None) => final(self).peeked() is None,
                Err(_) => (*old(self)).peeked() is None,
            },
    {
        if self.next.is_none() {
            self.next = match self.it.next() {
                Ok(v) => v,
                Err(e) => return Err(e),
            };
        }
        Ok(self.next.as_ref())
    }
}

/// The bounds on the length of a peekable iterator, from those of the underlying iterator: one
/// more when an item is peeked (the lower bound at most `usize::MAX`, the upper bound only if
/// it fits).
pub open spec fn peek_hint_spec(hint: (usize, Option<usize>), peeked: bool) -> (usize, Option<usize>) {
    if peeked {
        (
            if hint.0 < usize::MAX {
                (hint.0 + 1) as usize
            } else {
                usize::MAX
            },
            match hint.1 {
                Some(h) => if h < usize::MAX {
                    Some((h + 1) as usize)
                } else {
                    None
                },
                None => None,
            },
        )
    } else {
        hint
    }
}

/// Computes `peek_hint_spec`.
pub fn peek_hint(hint: (usize, Option<usize>), peeked: bool) -> (r: (usize, Option<usize>))
    ensures
        r == peek_hint_spec(hint, peeked),
{
    let mut hint = hint;
    if peeked {
        hint.0 = hint.0.saturating_add(1);
        hint.1 = match hint.1 {
            Some(h) => h.checked_add(1),
            None => None,
        };
    }
    hint
}

/// A call of `next` on `p` is allowed: it yields the peeked item, or calls the underlying
/// iterator.
pub open spec fn peekable_can<I: FallibleIterator>(p: Peekable<I>) -> bool {
    p.peeked() is Some || p.iter().can_next()
}

/// One call of `next` on `p`: the peeked item, if any, else a call on the underlying iterator.
pub open spec fn peekable_step<I: FallibleIterator>(
    p: Peekable<I>,
    post: Peekable<I>,
    r: Result<Option<I::Item>, I::Error>,
) -> bool {
    &&& post.peeked() is None
    &&& match p.peeked() {
        Some(x) => r == Ok::<Option<I::Item>, I::Error>(Some(x)) && post.iter() == p.iter(),
        None => p.iter().next_rel(&post.iter(), r),
    }
}

impl<I> FallibleIterator for Peekable<I> where I: FallibleIterator {
    type Item = I::Item;

    type Error = I::Error;

    open spec fn can_next(&self) -> bool {
        peekable_can(*self)
    }

    open spec fn next_rel(&self, post: &Self, r: Result<Option<I::Item>, I::Error>) -> bool {
        peekable_step(*self, *post, r)
    }

    fn next(&mut self) -> (r: Result<Option<I::Item>, I::Error>) {
        if let Some(next) = self.next.take() {
            return Ok(Some(next));
        }
        self.it.next()
    }

    fn size_hint(&self) -> (r: (usize, Option<usize>))
        ensures
            self.peeked() is Some ==> r.0 >= 1,
            exists|h: (usize, Option<usize>)|
                #[trigger] call_ensures(size_hint_of::<I>, (&self.iter(),), h) && r == peek_hint_spec(
                    h,
                    self.peeked() is Some,
                ),
    {
        let hint = size_hint_of(&self.it);
        assert(call_ensures(size_hint_of::<I>, (&self.iter(),), hint));
        peek_hint(hint, self.next.is_some())
    }
}

/// An item returned by `peek` is what the next call of `next` yields, and that call leaves
/// the underlying iterator where `peek` left it.
pub proof fn lemma_peek_then_next<I: FallibleIterator>(
    p: Peekable<I>,
    post: Peekable<I>,
    r: Result<Option<I::Item>, I::Error>,
    x: I::Item,
)
    requires
        p.peeked() == Some(x),
        p.next_rel(&post, r),
    ensures
        r == Ok::<Option<I::Item>, I::Error>(Some(x)),
        post.iter() == p.iter(),
        post.peeked() is None,
{
}

/// The bounds on the items of the underlying iterator, with one more for a peeked item, are
/// bounds on those of the peekable iterator (which `size_hint` returns).
pub proof fn lemma_peekable_hint<I: FallibleIterator>(p: Peekable<I>, h: (usize, Option<usize>))
    requires
        hint_valid(rel_of::<I>(), p.iter(), h),
    ensures
        hint_valid(rel_of::<Peekable<I>>(), p, peek_hint_spec(h, p.peeked() is Some)),
{
    let rel_p = rel_of::<Peekable<I>>();
    let rel_i = rel_of::<I>();
    let inv = |g: Peekable<I>| g.peeked() is None;
    let proj = |g: Peekable<I>| g.iter();
    let ph = peek_hint_spec(h, p.peeked() is Some);
    assert forall|b1: Peekable<I>, b2: Peekable<I>, y: I::Item|
        inv(b1) && #[trigger] rel_p(b1, b2, Ok(Some(y))) implies inv(b2) && exists|x: I::Item|
        rel_i(proj(b1), proj(b2), Ok(Some(x))) by {
        assert(rel_i(proj(b1), proj(b2), Ok(Some(y))));
    }
    if p.peeked() is None {
        lemma_hint_project(rel_i, rel_p, inv, proj, p, h);
    } else {
        assert forall|ys: Seq<I::Item>, end: Peekable<I>| #[trigger] ends_ok(rel_p, p, ys, end) implies ph.0
            <= ys.len() by {
            let outs = yields::<I::Item, I::Error>(ys).push(Ok(None));
            let bs = choose|bs: Seq<Peekable<I>>| steps(rel_p, bs, outs) && bs[0] == p && bs.last() == end;
            lemma_steps_drop_first(rel_p, bs, outs);
            if ys.len() == 0 {
                assert(outs[0] == Ok::<Option<I::Item>, I::Error>(None));
                assert(false);
            }
            lemma_yields_drop_first(ys, Ok::<Option<I::Item>, I::Error>(None));
            let xs = lemma_project_run(rel_i, rel_p, inv, proj, bs.drop_first(), ys.drop_first(), true);
            assert(ends_ok(rel_i, p.iter(), xs, end.iter()));
        }
        assert forall|ys: Seq<I::Item>, end: Peekable<I>| #[trigger] runs(rel_p, p, yields(ys), end) implies (ph.1 matches Some(
            u,
        ) ==> ys.len() <= u) by {
            if ys.len() > 0 {
                let outs = yields::<I::Item, I::Error>(ys);
                let bs = choose|bs: Seq<Peekable<I>>| steps(rel_p, bs, outs) && bs[0] == p && bs.last() == end;
                lemma_steps_drop_first(rel_p, bs, outs);
                lemma_yields_drop_first(ys, Ok::<Option<I::Item>, I::Error>(None));
                let xs = lemma_project_run(rel_i, rel_p, inv, proj, bs.drop_first(), ys.drop_first(), false);
                assert(runs(rel_i, p.iter(), yields(xs), end.iter()));
            }
        }
    }
}

/// A peek that returns an item changes nothing that calls of `next` can see: every run of
/// `next` (of one call or more) from the state after the peek is also a run from the state
/// before it, with the same results and the same end. (The requirements are what `peek`
/// ensures when it returns `Ok(Some(x))`.)
pub proof fn lemma_peek_keeps_runs<I: FallibleIterator>(
    p: Peekable<I>,
    p2: Peekable<I>,
    x: I::Item,
    outs: Seq<Result<Option<I::Item>, I::Error>>,
    end: Peekable<I>,
)
    requires
        p2.peeked() == Some(x),
        p.peeked() is Some ==> p2.iter() == p.iter() && p2.peeked() == p.peeked(),
        p.peeked() is None ==> p.iter().next_rel(&p2.iter(), Ok(Some(x))),
        runs(rel_of::<Peekable<I>>(), p2, outs, end),
        outs.len() > 0,
    ensures
        runs(rel_of::<Peekable<I>>(), p, outs, end),
{
    let rel = rel_of::<Peekable<I>>();
    let ts = choose|ts: Seq<Peekable<I>>| steps(rel, ts, outs) && ts[0] == p2 && ts.last() == end;
    if p.peeked() is Some {
        assert(p2.it == p.it && p2.next == p.next);
        assert(p2 == p);
    } else {
        assert(step_at(rel, ts, outs, 0));
        assert(peekable_step(p2, ts[1], outs[0]));
        let us = ts.update(0, p);
        assert(peekable_step(p, ts[1], outs[0]));
        assert forall|k: int| 0 <= k < outs.len() implies #[trigger] step_at(rel, us, outs, k) by {
            assert(step_at(rel, ts, outs, k));
            if k == 0 {
                assert(rel(p, ts[1], outs[0]));
            }
        }
        assert(steps(rel, us, outs) && us[0] == p && us.last() == end);
    }
}

/// A peek that returns `Ok(None)` on a fused underlying iterator changes nothing that calls of
/// `next` can see either: every run of `next` (of one call or more) from the state after the
/// peek is also a run from the state before it. (The requirements are what `peek` ensures when
/// it returns `Ok(None)`.) With `lemma_peek_keeps_runs`, any peeks that return `Ok`, put
/// anywhere among calls of `next`, leave the results of those calls as they were.
pub proof fn lemma_peek_end_keeps_runs<I: FallibleIterator>(
    p: Peekable<I>,
    p2: Peekable<I>,
    outs: Seq<Result<Option<I::Item>, I::Error>>,
    end: Peekable<I>,
)
    requires
        fused(rel_of::<I>()),
        p.peeked() is None,
        p2.peeked() is None,
        p.iter().next_rel(&p2.iter(), Ok(None)),
        runs(rel_of::<Peekable<I>>(), p2, outs, end),
        outs.len() > 0,
    ensures
        runs(rel_of::<Peekable<I>>(), p, outs, end),
{
    let rel = rel_of::<Peekable<I>>();
    let ri = rel_of::<I>();
    let ts = choose|ts: Seq<Peekable<I>>| steps(rel, ts, outs) && ts[0] == p2 && ts.last() == end;
    assert(step_at(rel, ts, outs, 0));
    assert(peekable_step(p2, ts[1], outs[0]));
    assert(ri(p.it, p2.it, Ok(None)) && ri(p2.it, ts[1].it, outs[0]));
    assert(ts[1].it == p2.it && ts[1].next == p2.next);
    let us = ts.update(0, p);
    assert(peekable_step(p, ts[1], outs[0]));
    assert forall|k: int| 0 <= k < outs.len() implies #[trigger] step_at(rel, us, outs, k) by {
        assert(step_at(rel, ts, outs, k));
        if k == 0 {
            assert(rel(p, ts[1], outs[0]));
        }
    }
    assert(steps(rel, us, outs) && us[0] == p && us.last() == end);
}

} // verus!
