//! `Chain`: the items of one iterator followed by those of another.
use vstd::prelude::*;

use crate::iterator::{
    can_of, rel_back_of, rel_of, size_hint_of, DoubleEndedFallibleIterator, FallibleIterator,
};
use crate::run::{
    always, count_result, deterministic, ends_err, ends_ok, finishes, hint_valid, is_none, lemma_count_err,
    lemma_runs_unique,
    lemma_count_ok, lemma_steps_prefix, lemma_steps_push, lemma_stops_along, lemma_stops_lower,
    runs, step_at, steps, stops_within, yields, StepRel,
};

verus! {

#[derive(Debug)]
enum ChainState {
    Both,
    Front,
    Back,
}

/// An iterator which yields the elements of one iterator followed by another.
#[derive(Debug)]
pub struct Chain<T, U> {
    front: T,
    back: U,
    state: ChainState,
}

impl<T, U> Chain<T, U> {
    /// The iterator whose items come first.
    pub closed spec fn front(&self) -> T {
        self.front
    }

    /// The iterator whose items come last.
    pub closed spec fn back(&self) -> U {
        self.back
    }

    /// `next` and `next_back` may still call the front iterator.
    pub closed spec fn uses_front(&self) -> bool {
        !(self.state is Back)
    }

    /// `next` and `next_back` may still call the back iterator.
    pub closed spec fn uses_back(&self) -> bool {
        !(self.state is Front)
    }

    /// `front` followed by `back`.
    pub(crate) fn new(front: T, back: U) -> (r: Self)
        ensures
            r.front() == front,
            r.back() == back,
            r.uses_front(),
            r.uses_back(),
    {
        Chain { front, back, state: ChainState::Both }
    }
}

/// The bounds on the length of a chain, from those of its two iterators: the lower bounds
/// added (at most `usize::MAX`), and the upper bounds added when both are known and the sum
/// fits in a `usize`.
pub open spec fn chain_hint_spec(front_hint: (usize, Option<usize>), back_hint: (usize, Option<usize>)) -> (
    usize,
    Option<usize>,
) {
    (
        if front_hint.0 + back_hint.0 <= usize::MAX {
            (front_hint.0 + back_hint.0) as usize
        } else {
            usize::MAX
        },
        match (front_hint.1, back_hint.1) {
            (Some(f), Some(b)) => if f + b <= usize::MAX {
                Some((f + b) as usize)
            } else {
                None
            },
            _ => None,
        },
    )
}

/// Computes `chain_hint_spec`.
pub fn chain_hint(front_hint: (usize, Option<usize>), back_hint: (usize, Option<usize>)) -> (r: (
    usize,
    Option<usize>,
))
    ensures
        r == chain_hint_spec(front_hint, back_hint),
{
    let low = front_hint.0.saturating_add(back_hint.0);
    let high = match (front_hint.1, back_hint.1) {
        (Some(f), Some(b)) => f.checked_add(b),
        _ => None,
    };

    (low, high)
}

/// A call of `next` on `c` is allowed: each of the calls it makes on the two iterators is.
pub open spec fn chain_can<T: FallibleIterator, U: FallibleIterator<Item = T::Item, Error = T::Error>>(
    c: Chain<T, U>,
) -> bool {
    if c.uses_front() && c.uses_back() {
        &&& c.front().can_next()
        &&& forall|f2: T| #[trigger] c.front().next_rel(&f2, Ok(None)) ==> c.back().can_next()
    } else if c.uses_front() {
        c.front().can_next()
    } else {
        c.back().can_next()
    }
}

/// One call of `next` on `c`: a call on the front iterator, then, once it has yielded
/// `Ok(None)`, calls on the back iterator.
pub open spec fn chain_step<T: FallibleIterator, U: FallibleIterator<Item = T::Item, Error = T::Error>>(
    c: Chain<T, U>,
    p: Chain<T, U>,
    r: Result<Option<T::Item>, T::Error>,
) -> bool {
    if c.uses_front() && c.uses_back() {
        ||| {
            &&& c.front().next_rel(&p.front(), r)
            &&& !is_none(r)
            &&& p.back() == c.back()
            &&& p.uses_front() && p.uses_back()
        }
        ||| {
            &&& c.front().next_rel(&p.front(), Ok(None))
            &&& c.back().next_rel(&p.back(), r)
            &&& !p.uses_front() && p.uses_back()
        }
    } else if c.uses_front() {
        &&& c.front().next_rel(&p.front(), r)
        &&& p.back() == c.back()
        &&& p.uses_front() && !p.uses_back()
    } else {
        &&& c.back().next_rel(&p.back(), r)
        &&& p.front() == c.front()
        &&& !p.uses_front() && p.uses_back()
    }
}

/// A call of `next_back` on `c` is allowed.
pub open spec fn chain_can_back<
    T: DoubleEndedFallibleIterator,
    U: DoubleEndedFallibleIterator<Item = T::Item, Error = T::Error>,
>(c: Chain<T, U>) -> bool {
    if c.uses_front() && c.uses_back() {
        &&& c.back().can_next_back()
        &&& forall|b2: U| #[trigger] c.back().next_back_rel(&b2, Ok(None)) ==> c.front().can_next_back()
    } else if c.uses_front() {
        c.front().can_next_back()
    } else {
        c.back().can_next_back()
    }
}

/// One call of `next_back` on `c`: a call on the back iterator, then, once it has yielded
/// `Ok(None)`, calls on the front iterator.
pub open spec fn chain_step_back<
    T: DoubleEndedFallibleIterator,
    U: DoubleEndedFallibleIterator<Item = T::Item, Error = T::Error>,
>(c: Chain<T, U>, p: Chain<T, U>, r: Result<Option<T::Item>, T::Error>) -> bool {
    if c.uses_front() && c.uses_back() {
        ||| {
            &&& c.back().next_back_rel(&p.back(), r)
            &&& !is_none(r)
            &&& p.front() == c.front()
            &&& p.uses_front() && p.uses_back()
        }
        ||| {
            &&& c.back().next_back_rel(&p.back(), Ok(None))
            &&& c.front().next_back_rel(&p.front(), r)
            &&& p.uses_front() && !p.uses_back()
        }
    } else if c.uses_front() {
        &&& c.front().next_back_rel(&p.front(), r)
        &&& p.back() == c.back()
        &&& p.uses_front() && !p.uses_back()
    } else {
        &&& c.back().next_back_rel(&p.back(), r)
        &&& p.front() == c.front()
        &&& !p.uses_front() && p.uses_back()
    }
}

impl<T, U> FallibleIterator for Chain<T, U> where
    T: FallibleIterator,
    U: FallibleIterator<Item = T::Item, Error = T::Error>,
 {
    type Item = T::Item;

    type Error = T::Error;

    open spec fn can_next(&self) -> bool {
        chain_can(*self)
    }

    open spec fn next_rel(&self, post: &Self, r: Result<Option<T::Item>, T::Error>) -> bool {
        chain_step(*self, *post, r)
    }

    fn next(&mut self) -> (r: Result<Option<T::Item>, T::Error>) {
        match self.state {
            ChainState::Both => {
                match self.front.next() {
                    Ok(Some(e)) => Ok(Some(e)),
                    Ok(None) => {
                        self.state = ChainState::Back;
                        self.back.next()
                    },
                    Err(e) => Err(e),
                }
            },
            ChainState::Front => self.front.next(),
            ChainState::Back => self.back.next(),
        }
    }

    fn size_hint(&self) -> (r: (usize, Option<usize>))
        ensures
            exists|hf: (usize, Option<usize>), hb: (usize, Option<usize>)|
                #![trigger call_ensures(size_hint_of::<T>, (&self.front(),), hf), call_ensures(size_hint_of::<U>, (&self.back(),), hb)]
                {
                    &&& call_ensures(size_hint_of::<T>, (&self.front(),), hf)
                    &&& call_ensures(size_hint_of::<U>, (&self.back(),), hb)
                    &&& r == chain_hint_spec(hf, hb)
                },
    {
        let front_hint = size_hint_of(&self.front);
        let back_hint = size_hint_of(&self.back);
        assert(call_ensures(size_hint_of::<T>, (&self.front(),), front_hint));
        assert(call_ensures(size_hint_of::<U>, (&self.back(),), back_hint));
        chain_hint(front_hint, back_hint)
    }

    fn count(self) -> (r: Result<usize, T::Error>) {
        let ghost can = |s: Self| s.can_next();
        let ghost rel = |a: Self, b: Self, o: Result<Option<T::Item>, T::Error>| a.next_rel(&b, o);
        let ghost c = self;
        match self.state {
            ChainState::Both => {
                proof {
                    lemma_chain_lower_front(can, rel, c);
                }
                let a = match self.front.count() {
                    Ok(a) => a,
                    Err(e) => {
                        proof {
                            lemma_chain_front_err(rel, c, e);
                        }
                        return Err(e);
                    },
                };
                proof {
                    lemma_chain_lower_back(can, rel, c, a);
                }
                let b = match self.back.count() {
                    Ok(b) => b,
                    Err(e) => {
                        proof {
                            lemma_chain_back_err(rel, c, a, e);
                        }
                        return Err(e);
                    },
                };
                proof {
                    lemma_chain_both_ok(can, rel, c, a, b);
                }
                Ok(a + b)
            },
            ChainState::Front => {
                proof {
                    lemma_chain_lower_front(can, rel, c);
                }
                let r = self.front.count();
                proof {
                    lemma_chain_front_only(rel, c, r);
                }
                r
            },
            ChainState::Back => {
                proof {
                    lemma_chain_lower_back_only(can, rel, c);
                }
                let r = self.back.count();
                proof {
                    lemma_chain_back_only(rel, c, r);
                }
                r
            },
        }
    }
}

impl<T, U> DoubleEndedFallibleIterator for Chain<T, U> where
    T: DoubleEndedFallibleIterator,
    U: DoubleEndedFallibleIterator<Item = T::Item, Error = T::Error>,
 {
    open spec fn can_next_back(&self) -> bool {
        chain_can_back(*self)
    }

    open spec fn next_back_rel(&self, post: &Self, r: Result<Option<T::Item>, T::Error>) -> bool {
        chain_step_back(*self, *post, r)
    }

    fn next_back(&mut self) -> (r: Result<Option<T::Item>, T::Error>) {
        match self.state {
            ChainState::Both => {
                match self.back.next_back() {
                    Ok(Some(e)) => Ok(Some(e)),
                    Ok(None) => {
                        self.state = ChainState::Front;
                        self.front.next_back()
                    },
                    Err(e) => Err(e),
                }
            },
            ChainState::Front => self.front.next_back(),
            ChainState::Back => self.back.next_back(),
        }
    }
}

/// The relations that a chain's `count` is proved against.
pub open spec fn is_chain_rel<T: FallibleIterator, U: FallibleIterator<Item = T::Item, Error = T::Error>>(
    rel: StepRel<Chain<T, U>, T::Item, T::Error>,
) -> bool {
    forall|g: Chain<T, U>, h: Chain<T, U>, o: Result<Option<T::Item>, T::Error>|
        #[trigger] rel(g, h, o) == chain_step(g, h, o)
}

/// The spec closures that a chain's `count` is proved against.
pub open spec fn is_chain_can<T: FallibleIterator, U: FallibleIterator<Item = T::Item, Error = T::Error>>(
    can: spec_fn(Chain<T, U>) -> bool,
) -> bool {
    forall|g: Chain<T, U>| #[trigger] can(g) == chain_can(g)
}

/// When a chain's runs stop, so do those of its front iterator (while it is in use).
proof fn lemma_chain_lower_front<T: FallibleIterator, U: FallibleIterator<Item = T::Item, Error = T::Error>>(
    can: spec_fn(Chain<T, U>) -> bool,
    rel: StepRel<Chain<T, U>, T::Item, T::Error>,
    c: Chain<T, U>,
)
    requires
        is_chain_can(can),
        is_chain_rel(rel),
        c.uses_front(),
        finishes(can, rel, c),
    ensures
        finishes(can_of::<T>(), rel_of::<T>(), c.front),
{
    let n = choose|n: nat| n <= usize::MAX + 1 && stops_within(can, rel, c, always(), n);
    let proj = |g: Chain<T, U>| g.front;
    let inv = |g: Chain<T, U>| g.back == c.back && g.state == c.state;
    let lift = |g: Chain<T, U>, f2: T, x: T::Item| (Chain { front: f2, back: g.back, state: g.state }, x);
    assert forall|g: Chain<T, U>, f2: T, x: T::Item|
        inv(g) && can(g) && #[trigger] rel_of::<T>()(proj(g), f2, Ok(Some(x))) implies {
        &&& rel(g, lift(g, f2, x).0, Ok(Some(lift(g, f2, x).1)))
        &&& proj(lift(g, f2, x).0) == f2
        &&& inv(lift(g, f2, x).0)
    } by {
        let g2 = lift(g, f2, x).0;
        assert(g.front().next_rel(&g2.front(), Ok(Some(x))));
        assert(chain_step(g, g2, Ok(Some(x))));
    }
    lemma_stops_lower(can_of::<T>(), rel_of::<T>(), can, rel, inv, proj, lift, c, n);
}

/// When the runs of a chain that only uses its back iterator stop, so do those of that iterator.
proof fn lemma_chain_lower_back_only<
    T: FallibleIterator,
    U: FallibleIterator<Item = T::Item, Error = T::Error>,
>(can: spec_fn(Chain<T, U>) -> bool, rel: StepRel<Chain<T, U>, T::Item, T::Error>, c: Chain<T, U>)
    requires
        is_chain_can(can),
        is_chain_rel(rel),
        c.state is Back,
        finishes(can, rel, c),
    ensures
        finishes(can_of::<U>(), rel_of::<U>(), c.back),
{
    let n = choose|n: nat| n <= usize::MAX + 1 && stops_within(can, rel, c, always(), n);
    lemma_chain_lower_back_from(can, rel, c, n);
}

/// The back part of `lemma_chain_lower_back_only`, for any bound.
proof fn lemma_chain_lower_back_from<
    T: FallibleIterator,
    U: FallibleIterator<Item = T::Item, Error = T::Error>,
>(
    can: spec_fn(Chain<T, U>) -> bool,
    rel: StepRel<Chain<T, U>, T::Item, T::Error>,
    c: Chain<T, U>,
    n: nat,
)
    requires
        is_chain_can(can),
        is_chain_rel(rel),
        c.state is Back,
        stops_within(can, rel, c, always(), n),
    ensures
        stops_within(can_of::<U>(), rel_of::<U>(), c.back, always(), n),
{
    let proj = |g: Chain<T, U>| g.back;
    let inv = |g: Chain<T, U>| g.front == c.front && g.state is Back;
    let lift = |g: Chain<T, U>, b2: U, x: T::Item| (Chain { front: g.front, back: b2, state: g.state }, x);
    assert forall|g: Chain<T, U>, b2: U, x: T::Item|
        inv(g) && can(g) && #[trigger] rel_of::<U>()(proj(g), b2, Ok(Some(x))) implies {
        &&& rel(g, lift(g, b2, x).0, Ok(Some(lift(g, b2, x).1)))
        &&& proj(lift(g, b2, x).0) == b2
        &&& inv(lift(g, b2, x).0)
    } by {
        let g2 = lift(g, b2, x).0;
        assert(g.back().next_rel(&g2.back(), Ok(Some(x))));
        assert(chain_step(g, g2, Ok(Some(x))));
    }
    lemma_stops_lower(can_of::<U>(), rel_of::<U>(), can, rel, inv, proj, lift, c, n);
}

/// A run of the front iterator, as a run of a chain that uses it and keeps its back iterator.
proof fn lemma_chain_lift_front<T: FallibleIterator, U: FallibleIterator<Item = T::Item, Error = T::Error>>(
    rel: StepRel<Chain<T, U>, T::Item, T::Error>,
    c: Chain<T, U>,
    fs: Seq<T>,
    outs: Seq<Result<Option<T::Item>, T::Error>>,
) -> (cs: Seq<Chain<T, U>>)
    requires
        is_chain_rel(rel),
        c.uses_front(),
        steps(rel_of::<T>(), fs, outs),
        fs[0] == c.front,
        forall|k: int| 0 <= k < outs.len() ==> !is_none(#[trigger] outs[k]) || !c.uses_back(),
    ensures
        steps(rel, cs, outs),
        cs[0] == c,
        cs.len() == fs.len(),
        forall|k: int| 0 <= k < cs.len() ==> #[trigger] cs[k] == (Chain { front: fs[k], back: c.back, state: c.state }),
{
    let cs = Seq::new(fs.len(), |k: int| Chain { front: fs[k], back: c.back, state: c.state });
    assert forall|k: int| 0 <= k < outs.len() implies #[trigger] step_at(rel, cs, outs, k) by {
        assert(step_at(rel_of::<T>(), fs, outs, k));
        assert(cs[k].front().next_rel(&cs[k + 1].front(), outs[k]));
        assert(chain_step(cs[k], cs[k + 1], outs[k]));
    }
    cs
}

/// A run of the back iterator, as a run of a chain that only uses it and keeps its front one.
proof fn lemma_chain_lift_back<T: FallibleIterator, U: FallibleIterator<Item = T::Item, Error = T::Error>>(
    rel: StepRel<Chain<T, U>, T::Item, T::Error>,
    c: Chain<T, U>,
    bs: Seq<U>,
    outs: Seq<Result<Option<T::Item>, T::Error>>,
) -> (cs: Seq<Chain<T, U>>)
    requires
        is_chain_rel(rel),
        c.state is Back,
        steps(rel_of::<U>(), bs, outs),
        bs[0] == c.back,
    ensures
        steps(rel, cs, outs),
        cs[0] == c,
        cs.len() == bs.len(),
{
    let cs = Seq::new(bs.len(), |k: int| Chain { front: c.front, back: bs[k], state: ChainState::Back });
    assert forall|k: int| 0 <= k < outs.len() implies #[trigger] step_at(rel, cs, outs, k) by {
        assert(step_at(rel_of::<U>(), bs, outs, k));
        assert(cs[k].back().next_rel(&cs[k + 1].back(), outs[k]));
        assert(chain_step(cs[k], cs[k + 1], outs[k]));
    }
    cs
}

/// A run of the front iterator to its end, then one of the back iterator, as one run of a chain
/// that uses both.
proof fn lemma_chain_join<T: FallibleIterator, U: FallibleIterator<Item = T::Item, Error = T::Error>>(
    rel: StepRel<Chain<T, U>, T::Item, T::Error>,
    c: Chain<T, U>,
    fs: Seq<T>,
    fitems: Seq<T::Item>,
    bs: Seq<U>,
    bitems: Seq<T::Item>,
    last: Result<Option<T::Item>, T::Error>,
) -> (cs: Seq<Chain<T, U>>)
    requires
        is_chain_rel(rel),
        c.state is Both,
        steps(rel_of::<T>(), fs, yields(fitems).push(Ok(None))),
        fs[0] == c.front,
        steps(rel_of::<U>(), bs, yields(bitems).push(last)),
        bs[0] == c.back,
    ensures
        steps(rel, cs, yields(fitems + bitems).push(last)),
        cs[0] == c,
        cs.last() == (Chain { front: fs.last(), back: bs.last(), state: ChainState::Back }),
{
    let a = fitems.len() as int;
    let b = bitems.len() as int;
    let fouts = yields::<T::Item, T::Error>(fitems).push(Ok(None));
    let bouts = yields::<T::Item, T::Error>(bitems).push(last);
    let outs = yields::<T::Item, T::Error>(fitems + bitems).push(last);
    let cs = Seq::new(
        (a + b + 2) as nat,
        |k: int|
            if k <= a {
                Chain { front: fs[k], back: c.back, state: ChainState::Both }
            } else {
                Chain { front: fs[a + 1], back: bs[k - a], state: ChainState::Back }
            },
    );
    assert forall|k: int| 0 <= k < outs.len() implies #[trigger] step_at(rel, cs, outs, k) by {
        if k < a {
            assert(step_at(rel_of::<T>(), fs, fouts, k));
            assert(outs[k] == fouts[k]);
            assert(cs[k].front().next_rel(&cs[k + 1].front(), outs[k]));
            assert(chain_step(cs[k], cs[k + 1], outs[k]));
        } else if k == a {
            assert(step_at(rel_of::<T>(), fs, fouts, k));
            assert(step_at(rel_of::<U>(), bs, bouts, 0));
            assert(outs[k] == bouts[0]);
            assert(cs[k].front().next_rel(&cs[k + 1].front(), Ok(None)));
            assert(cs[k].back().next_rel(&cs[k + 1].back(), outs[k]));
            assert(chain_step(cs[k], cs[k + 1], outs[k]));
        } else {
            assert(step_at(rel_of::<U>(), bs, bouts, k - a));
            assert(outs[k] == bouts[k - a]);
            assert(cs[k].back().next_rel(&cs[k + 1].back(), outs[k]));
            assert(chain_step(cs[k], cs[k + 1], outs[k]));
        }
    }
    cs
}

/// An error of the front iterator's count is one of the chain's.
proof fn lemma_chain_front_err<T: FallibleIterator, U: FallibleIterator<Item = T::Item, Error = T::Error>>(
    rel: StepRel<Chain<T, U>, T::Item, T::Error>,
    c: Chain<T, U>,
    e: T::Error,
)
    requires
        is_chain_rel(rel),
        c.uses_front(),
        count_result(rel_of::<T>(), c.front, Err(e)),
    ensures
        count_result(rel, c, Err(e)),
{
    let (items, end) = choose|items: Seq<T::Item>, end: T|
        #[trigger] ends_err(rel_of::<T>(), c.front, items, e, end);
    let outs = yields::<T::Item, T::Error>(items).push(Err(e));
    let fs = choose|fs: Seq<T>| steps(rel_of::<T>(), fs, outs) && fs[0] == c.front && fs.last() == end;
    assert forall|k: int| 0 <= k < outs.len() implies !is_none(#[trigger] outs[k]) || !c.uses_back() by {}
    let cs = lemma_chain_lift_front(rel, c, fs, outs);
    lemma_count_err(rel, c, items, e, cs.last());
}

/// A count of the front iterator of a chain that only uses it is one of the chain's.
proof fn lemma_chain_front_only<T: FallibleIterator, U: FallibleIterator<Item = T::Item, Error = T::Error>>(
    rel: StepRel<Chain<T, U>, T::Item, T::Error>,
    c: Chain<T, U>,
    r: Result<usize, T::Error>,
)
    requires
        is_chain_rel(rel),
        c.state is Front,
        count_result(rel_of::<T>(), c.front, r),
    ensures
        count_result(rel, c, r),
{
    match r {
        Ok(n) => {
            let (items, end) = choose|items: Seq<T::Item>, end: T|
                items.len() == n && #[trigger] ends_ok(rel_of::<T>(), c.front, items, end);
            let outs = yields::<T::Item, T::Error>(items).push(Ok(None));
            let fs = choose|fs: Seq<T>| steps(rel_of::<T>(), fs, outs) && fs[0] == c.front && fs.last() == end;
            let cs = lemma_chain_lift_front(rel, c, fs, outs);
            lemma_count_ok(rel, c, items, cs.last());
        },
        Err(e) => {
            lemma_chain_front_err(rel, c, e);
        },
    }
}

/// A count of the back iterator of a chain that only uses it is one of the chain's.
proof fn lemma_chain_back_only<T: FallibleIterator, U: FallibleIterator<Item = T::Item, Error = T::Error>>(
    rel: StepRel<Chain<T, U>, T::Item, T::Error>,
    c: Chain<T, U>,
    r: Result<usize, T::Error>,
)
    requires
        is_chain_rel(rel),
        c.state is Back,
        count_result(rel_of::<U>(), c.back, r),
    ensures
        count_result(rel, c, r),
{
    match r {
        Ok(n) => {
            let (items, end) = choose|items: Seq<T::Item>, end: U|
                items.len() == n && #[trigger] ends_ok(rel_of::<U>(), c.back, items, end);
            let outs = yields::<T::Item, T::Error>(items).push(Ok(None));
            let bs = choose|bs: Seq<U>| steps(rel_of::<U>(), bs, outs) && bs[0] == c.back && bs.last() == end;
            let cs = lemma_chain_lift_back(rel, c, bs, outs);
            lemma_count_ok(rel, c, items, cs.last());
        },
        Err(e) => {
            let (items, end) = choose|items: Seq<T::Item>, end: U|
                #[trigger] ends_err(rel_of::<U>(), c.back, items, e, end);
            let outs = yields::<T::Item, T::Error>(items).push(Err(e));
            let bs = choose|bs: Seq<U>| steps(rel_of::<U>(), bs, outs) && bs[0] == c.back && bs.last() == end;
            let cs = lemma_chain_lift_back(rel, c, bs, outs);
            lemma_count_err(rel, c, items, e, cs.last());
        },
    }
}

/// A complete run of the front iterator with `a` items leaves the chain, still using both,
/// with a bound `n - a` on its runs, and its next call goes on to the back iterator.
proof fn lemma_chain_after_front<T: FallibleIterator, U: FallibleIterator<Item = T::Item, Error = T::Error>>(
    can: spec_fn(Chain<T, U>) -> bool,
    rel: StepRel<Chain<T, U>, T::Item, T::Error>,
    c: Chain<T, U>,
    n: nat,
    fs: Seq<T>,
    fitems: Seq<T::Item>,
)
    requires
        is_chain_can(can),
        is_chain_rel(rel),
        c.state is Both,
        stops_within(can, rel, c, always(), n),
        steps(rel_of::<T>(), fs, yields(fitems).push(Ok(None))),
        fs[0] == c.front,
    ensures
        fitems.len() < n,
        stops_within(can_of::<U>(), rel_of::<U>(), c.back, always(), (n - fitems.len()) as nat),
{
    let a = fitems.len() as int;
    let fouts = yields::<T::Item, T::Error>(fitems).push(Ok(None));
    lemma_steps_prefix(rel_of::<T>(), fs, fouts, a);
    assert(fouts.subrange(0, a) =~= yields::<T::Item, T::Error>(fitems));
    let fs_a = fs.subrange(0, a + 1);
    let cs = lemma_chain_lift_front(rel, c, fs_a, yields(fitems));
    assert(crate::run::all_items(fitems, always())) by {
        assert forall|k: int| 0 <= k < fitems.len() implies #[trigger] always::<T::Item>()(fitems[k]) by {}
    }
    lemma_stops_along(can, rel, always(), cs, fitems, n);
    let m = (n - a) as nat;
    let ca = cs.last();
    assert(ca == (Chain { front: fs[a], back: c.back, state: ChainState::Both }));
    assert(step_at(rel_of::<T>(), fs, fouts, a));
    assert(fs[a].next_rel(&fs[a + 1], Ok(None)));
    assert(can(ca));
    assert(ca.back().can_next()) by {
        assert(ca.front().next_rel(&fs[a + 1], Ok(None)));
    }
    assert forall|b2: U, x: T::Item| #[trigger] rel_of::<U>()(c.back, b2, Ok(Some(x))) && always::<T::Item>()(
        x,
    ) implies stops_within(can_of::<U>(), rel_of::<U>(), b2, always(), (m - 1) as nat) by {
        let c2 = Chain { front: fs[a + 1], back: b2, state: ChainState::Back };
        assert(ca.front().next_rel(&c2.front(), Ok(None)));
        assert(ca.back().next_rel(&c2.back(), Ok(Some(x))));
        assert(chain_step(ca, c2, Ok(Some(x))));
        assert(rel(ca, c2, Ok(Some(x))));
        assert(stops_within(can, rel, c2, always(), (m - 1) as nat));
        lemma_chain_lower_back_from(can, rel, c2, (m - 1) as nat);
    }
}

/// When a chain's runs stop and the front iterator has a complete run with `a` items, the runs
/// of the back iterator stop.
proof fn lemma_chain_lower_back<T: FallibleIterator, U: FallibleIterator<Item = T::Item, Error = T::Error>>(
    can: spec_fn(Chain<T, U>) -> bool,
    rel: StepRel<Chain<T, U>, T::Item, T::Error>,
    c: Chain<T, U>,
    a: usize,
)
    requires
        is_chain_can(can),
        is_chain_rel(rel),
        c.state is Both,
        finishes(can, rel, c),
        count_result(rel_of::<T>(), c.front, Ok(a)),
    ensures
        finishes(can_of::<U>(), rel_of::<U>(), c.back),
{
    let n = choose|n: nat| n <= usize::MAX + 1 && stops_within(can, rel, c, always(), n);
    let (fitems, fend) = choose|items: Seq<T::Item>, end: T|
        items.len() == a && #[trigger] ends_ok(rel_of::<T>(), c.front, items, end);
    let fouts = yields::<T::Item, T::Error>(fitems).push(Ok(None));
    let fs = choose|fs: Seq<T>| steps(rel_of::<T>(), fs, fouts) && fs[0] == c.front && fs.last() == fend;
    lemma_chain_after_front(can, rel, c, n, fs, fitems);
}

/// An error of the back iterator's count, after a complete run of the front one, is one of the
/// chain's.
proof fn lemma_chain_back_err<T: FallibleIterator, U: FallibleIterator<Item = T::Item, Error = T::Error>>(
    rel: StepRel<Chain<T, U>, T::Item, T::Error>,
    c: Chain<T, U>,
    a: usize,
    e: T::Error,
)
    requires
        is_chain_rel(rel),
        c.state is Both,
        count_result(rel_of::<T>(), c.front, Ok(a)),
        count_result(rel_of::<U>(), c.back, Err(e)),
    ensures
        count_result(rel, c, Err(e)),
{
    let (fitems, fend) = choose|items: Seq<T::Item>, end: T|
        items.len() == a && #[trigger] ends_ok(rel_of::<T>(), c.front, items, end);
    let fouts = yields::<T::Item, T::Error>(fitems).push(Ok(None));
    let fs = choose|fs: Seq<T>| steps(rel_of::<T>(), fs, fouts) && fs[0] == c.front && fs.last() == fend;
    let (bitems, bend) = choose|items: Seq<T::Item>, end: U|
        #[trigger] ends_err(rel_of::<U>(), c.back, items, e, end);
    let bouts = yields::<T::Item, T::Error>(bitems).push(Err(e));
    let bs = choose|bs: Seq<U>| steps(rel_of::<U>(), bs, bouts) && bs[0] == c.back && bs.last() == bend;
    let cs = lemma_chain_join(rel, c, fs, fitems, bs, bitems, Err(e));
    lemma_count_err(rel, c, fitems + bitems, e, cs.last());
}

/// Complete runs of both iterators make one of the chain, whose count is the sum, and fits.
proof fn lemma_chain_both_ok<T: FallibleIterator, U: FallibleIterator<Item = T::Item, Error = T::Error>>(
    can: spec_fn(Chain<T, U>) -> bool,
    rel: StepRel<Chain<T, U>, T::Item, T::Error>,
    c: Chain<T, U>,
    a: usize,
    b: usize,
)
    requires
        is_chain_can(can),
        is_chain_rel(rel),
        c.state is Both,
        finishes(can, rel, c),
        count_result(rel_of::<T>(), c.front, Ok(a)),
        count_result(rel_of::<U>(), c.back, Ok(b)),
    ensures
        a + b <= usize::MAX,
        count_result(rel, c, Ok((a + b) as usize)),
{
    let n = choose|n: nat| n <= usize::MAX + 1 && stops_within(can, rel, c, always(), n);
    let (fitems, fend) = choose|items: Seq<T::Item>, end: T|
        items.len() == a && #[trigger] ends_ok(rel_of::<T>(), c.front, items, end);
    let fouts = yields::<T::Item, T::Error>(fitems).push(Ok(None));
    let fs = choose|fs: Seq<T>| steps(rel_of::<T>(), fs, fouts) && fs[0] == c.front && fs.last() == fend;
    let (bitems, bend) = choose|items: Seq<T::Item>, end: U|
        items.len() == b && #[trigger] ends_ok(rel_of::<U>(), c.back, items, end);
    let bouts = yields::<T::Item, T::Error>(bitems).push(Ok(None));
    let bs = choose|bs: Seq<U>| steps(rel_of::<U>(), bs, bouts) && bs[0] == c.back && bs.last() == bend;
    let items = fitems + bitems;
    let outs = yields::<T::Item, T::Error>(items).push(Ok(None));
    let cs = lemma_chain_join(rel, c, fs, fitems, bs, bitems, Ok(None));
    lemma_steps_prefix(rel, cs, outs, items.len() as int);
    assert(outs.subrange(0, items.len() as int) =~= yields::<T::Item, T::Error>(items));
    assert(crate::run::all_items(items, always())) by {
        assert forall|k: int| 0 <= k < items.len() implies #[trigger] always::<T::Item>()(items[k]) by {}
    }
    lemma_stops_along(can, rel, always(), cs.subrange(0, items.len() as int + 1), items, n);
    lemma_count_ok(rel, c, items, cs.last());
}

/// A chain yields the items of its front iterator, up to that iterator's `Ok(None)`, and then
/// those of its back iterator: a complete run of the front iterator followed by a run of the
/// back one is a run of a fresh chain of the two, which then uses only the back iterator.
pub proof fn lemma_chain_yields<T: FallibleIterator, U: FallibleIterator<Item = T::Item, Error = T::Error>>(
    c: Chain<T, U>,
    fitems: Seq<T::Item>,
    fend: T,
    bitems: Seq<T::Item>,
    last: Result<Option<T::Item>, T::Error>,
    bend: U,
) -> (end: Chain<T, U>)
    requires
        c.uses_front(),
        c.uses_back(),
        ends_ok(rel_of::<T>(), c.front(), fitems, fend),
        runs(rel_of::<U>(), c.back(), yields(bitems).push(last), bend),
    ensures
        runs(rel_of::<Chain<T, U>>(), c, yields(fitems + bitems).push(last), end),
        end.front() == fend,
        end.back() == bend,
        !end.uses_front(),
        end.uses_back(),
{
    let rel = rel_of::<Chain<T, U>>();
    assert(is_chain_rel(rel));
    let fouts = yields::<T::Item, T::Error>(fitems).push(Ok(None));
    let fs = choose|fs: Seq<T>| steps(rel_of::<T>(), fs, fouts) && fs[0] == c.front && fs.last() == fend;
    let bouts = yields::<T::Item, T::Error>(bitems).push(last);
    let bs = choose|bs: Seq<U>| steps(rel_of::<U>(), bs, bouts) && bs[0] == c.back && bs.last() == bend;
    let cs = lemma_chain_join(rel, c, fs, fitems, bs, bitems, last);
    cs.last()
}

/// The fronts of a sequence of chain states.
spec fn fronts<T, U>(cs: Seq<Chain<T, U>>) -> Seq<T> {
    cs.map_values(|g: Chain<T, U>| g.front)
}

/// The backs of a sequence of chain states.
spec fn backs<T, U>(cs: Seq<Chain<T, U>>) -> Seq<U> {
    cs.map_values(|g: Chain<T, U>| g.back)
}

/// A run of a fresh chain without errors splits at the call `j` that moves on to the back
/// iterator (or `j` is the run's length when no call does): before it, a run of the front
/// iterator; at it, the front iterator's `Ok(None)`; from it on, a run of the back iterator.
proof fn lemma_chain_split<T: FallibleIterator, U: FallibleIterator<Item = T::Item, Error = T::Error>>(
    rel: StepRel<Chain<T, U>, T::Item, T::Error>,
    cs: Seq<Chain<T, U>>,
    outs: Seq<Result<Option<T::Item>, T::Error>>,
) -> (j: int)
    requires
        is_chain_rel(rel),
        steps(rel, cs, outs),
        cs[0].state is Both,
        forall|k: int| 0 <= k < outs.len() ==> (#[trigger] outs[k]) is Ok,
    ensures
        0 <= j <= outs.len(),
        forall|k: int| 0 <= k <= j ==> (#[trigger] cs[k]).state is Both && cs[k].back == cs[0].back,
        forall|k: int| 0 <= k < j ==> !is_none(#[trigger] outs[k]),
        steps(rel_of::<T>(), fronts(cs.subrange(0, j + 1)), outs.subrange(0, j)),
        j < outs.len() ==> {
            &&& rel_of::<T>()(cs[j].front, cs[j + 1].front, Ok(None))
            &&& steps(rel_of::<U>(), backs(cs.subrange(j, cs.len() as int)), outs.subrange(j, outs.len() as int))
            &&& cs.last().state is Back
        },
    decreases outs.len(),
{
    if outs.len() == 0 {
        0
    } else {
        let n = outs.len() - 1;
        lemma_steps_prefix(rel, cs, outs, n);
        let pcs = cs.subrange(0, n + 1);
        let pouts = outs.subrange(0, n);
        assert forall|k: int| 0 <= k < pouts.len() implies (#[trigger] pouts[k]) is Ok by {
            assert(pouts[k] == outs[k]);
        }
        let j0 = lemma_chain_split(rel, pcs, pouts);
        assert(step_at(rel, cs, outs, n));
        assert(chain_step(cs[n], cs[n + 1], outs[n]));
        assert(pcs.last() == cs[n]);
        if j0 == n {
            assert(pcs[n] == cs[n]);
            assert(cs[n].state is Both);
            assert(pcs.subrange(0, j0 + 1) =~= cs.subrange(0, n + 1));
            assert(pouts.subrange(0, j0) =~= outs.subrange(0, n));
            let f = fronts(cs.subrange(0, n + 1));
            assert(f.last() == cs[n].front);
            if cs[n + 1].state is Both {
                assert(cs[n].front().next_rel(&cs[n + 1].front(), outs[n]));
                lemma_steps_push(rel_of::<T>(), f, outs.subrange(0, n), cs[n + 1].front, outs[n]);
                assert(f.push(cs[n + 1].front) =~= fronts(cs.subrange(0, n + 2)));
                assert(outs.subrange(0, n).push(outs[n]) =~= outs.subrange(0, n + 1));
                assert forall|k: int| 0 <= k <= n + 1 implies (#[trigger] cs[k]).state is Both && cs[k].back
                    == cs[0].back by {
                    if k <= n {
                        assert(pcs[k] == cs[k]);
                    }
                }
                assert forall|k: int| 0 <= k < n + 1 implies !is_none(#[trigger] outs[k]) by {
                    if k < n {
                        assert(pouts[k] == outs[k]);
                    }
                }
                n + 1
            } else {
                let b = backs(cs.subrange(n, cs.len() as int));
                assert(b.len() == 2 && b[0] == cs[n].back && b[1] == cs[n + 1].back);
                assert(outs.subrange(n, outs.len() as int).len() == 1);
                assert(step_at(rel_of::<U>(), b, outs.subrange(n, outs.len() as int), 0));
                assert forall|k: int| 0 <= k <= n implies (#[trigger] cs[k]).state is Both && cs[k].back
                    == cs[0].back by {
                    assert(pcs[k] == cs[k]);
                }
                assert forall|k: int| 0 <= k < n implies !is_none(#[trigger] outs[k]) by {
                    assert(pouts[k] == outs[k]);
                }
                n
            }
        } else {
            assert(pcs.last().state is Back);
            assert(cs[n + 1].state is Back);
            assert(pcs.subrange(0, j0 + 1) =~= cs.subrange(0, j0 + 1));
            assert(pouts.subrange(0, j0) =~= outs.subrange(0, j0));
            assert forall|k: int| 0 <= k <= j0 implies (#[trigger] cs[k]).state is Both && cs[k].back
                == cs[0].back by {
                assert(pcs[k] == cs[k]);
            }
            assert forall|k: int| 0 <= k < j0 implies !is_none(#[trigger] outs[k]) by {
                assert(pouts[k] == outs[k]);
            }
            assert(pcs[j0] == cs[j0] && pcs[j0 + 1] == cs[j0 + 1]);
            let b = backs(pcs.subrange(j0, pcs.len() as int));
            assert(b =~= backs(cs.subrange(j0, n + 1)));
            assert(pouts.subrange(j0, pouts.len() as int) =~= outs.subrange(j0, n));
            assert(b.last() == cs[n].back);
            assert(cs[n].back().next_rel(&cs[n + 1].back(), outs[n]));
            lemma_steps_push(rel_of::<U>(), b, outs.subrange(j0, n), cs[n + 1].back, outs[n]);
            assert(b.push(cs[n + 1].back) =~= backs(cs.subrange(j0, cs.len() as int)));
            assert(outs.subrange(j0, n).push(outs[n]) =~= outs.subrange(j0, outs.len() as int));
            j0
        }
    }
}

/// The bounds of `size_hint` on a fresh chain: when those of its two iterators hold, their
/// combination (`chain_hint_spec`) holds of the chain.
pub proof fn lemma_chain_hint<T: FallibleIterator, U: FallibleIterator<Item = T::Item, Error = T::Error>>(
    c: Chain<T, U>,
    hf: (usize, Option<usize>),
    hb: (usize, Option<usize>),
)
    requires
        c.uses_front(),
        c.uses_back(),
        hint_valid(rel_of::<T>(), c.front(), hf),
        hint_valid(rel_of::<U>(), c.back(), hb),
    ensures
        hint_valid(rel_of::<Chain<T, U>>(), c, chain_hint_spec(hf, hb)),
{
    let rel = rel_of::<Chain<T, U>>();
    assert(is_chain_rel(rel));
    let h = chain_hint_spec(hf, hb);
    assert forall|ys: Seq<T::Item>, end: Chain<T, U>| #[trigger] ends_ok(rel, c, ys, end) implies h.0
        <= ys.len() by {
        let outs = yields::<T::Item, T::Error>(ys).push(Ok(None));
        let cs = choose|cs: Seq<Chain<T, U>>| steps(rel, cs, outs) && cs[0] == c && cs.last() == end;
        let m = ys.len() as int;
        assert forall|k: int| 0 <= k < outs.len() implies (#[trigger] outs[k]) is Ok by {
            if k < m {
                assert(outs[k] == yields::<T::Item, T::Error>(ys)[k]);
            }
        }
        let j = lemma_chain_split(rel, cs, outs);
        assert(is_none(outs[m]));
        assert(j <= m);
        let fitems = ys.subrange(0, j);
        let bitems = ys.subrange(j, m);
        assert(outs.subrange(0, j) =~= yields::<T::Item, T::Error>(fitems));
        let f = fronts(cs.subrange(0, j + 1));
        lemma_steps_push(rel_of::<T>(), f, yields(fitems), cs[j + 1].front, Ok(None));
        assert(ends_ok(rel_of::<T>(), c.front, fitems, cs[j + 1].front));
        assert(outs.subrange(j, outs.len() as int) =~= yields::<T::Item, T::Error>(bitems).push(Ok(None)));
        let b = backs(cs.subrange(j, cs.len() as int));
        assert(b[0] == c.back);
        assert(ends_ok(rel_of::<U>(), c.back, bitems, b.last()));
    }
    assert forall|ys: Seq<T::Item>, end: Chain<T, U>| #[trigger] runs(rel, c, yields(ys), end) implies (
    h.1 matches Some(u) ==> ys.len() <= u) by {
        let outs = yields::<T::Item, T::Error>(ys);
        let cs = choose|cs: Seq<Chain<T, U>>| steps(rel, cs, outs) && cs[0] == c && cs.last() == end;
        let m = ys.len() as int;
        assert forall|k: int| 0 <= k < outs.len() implies (#[trigger] outs[k]) is Ok by {}
        let j = lemma_chain_split(rel, cs, outs);
        let fitems = ys.subrange(0, j);
        assert(outs.subrange(0, j) =~= yields::<T::Item, T::Error>(fitems));
        let f = fronts(cs.subrange(0, j + 1));
        assert(runs(rel_of::<T>(), c.front, yields(fitems), f.last()));
        if j < m {
            let bitems = ys.subrange(j, m);
            assert(outs.subrange(j, outs.len() as int) =~= yields::<T::Item, T::Error>(bitems));
            let b = backs(cs.subrange(j, cs.len() as int));
            assert(b[0] == c.back);
            assert(runs(rel_of::<U>(), c.back, yields(bitems), b.last()));
        }
    }
}

/// A chain's `next` is deterministic when those of its two iterators are.
pub proof fn lemma_chain_deterministic<T: FallibleIterator, U: FallibleIterator<Item = T::Item, Error = T::Error>>()
    requires
        deterministic(rel_of::<T>()),
        deterministic(rel_of::<U>()),
    ensures
        deterministic(rel_of::<Chain<T, U>>()),
{
    let rel = rel_of::<Chain<T, U>>();
    let rf = rel_of::<T>();
    let rb = rel_of::<U>();
    assert forall|a: Chain<T, U>, b1: Chain<T, U>, b2: Chain<T, U>, o1: Result<Option<T::Item>, T::Error>, o2: Result<Option<T::Item>, T::Error>|
        #![trigger rel(a, b1, o1), rel(a, b2, o2)]
        rel(a, b1, o1) && rel(a, b2, o2) implies b1 == b2 && o1 == o2 by {
        assert(chain_step(a, b1, o1) && chain_step(a, b2, o2));
        if a.state is Both {
            if chain_step_front_first(a, b1, o1) {
                assert(rf(a.front, b1.front, o1));
                if chain_step_front_first(a, b2, o2) {
                    assert(rf(a.front, b2.front, o2));
                } else {
                    assert(rf(a.front, b2.front, Ok(None)));
                }
            } else {
                assert(rf(a.front, b1.front, Ok(None)));
                assert(rb(a.back, b1.back, o1));
                if chain_step_front_first(a, b2, o2) {
                    assert(rf(a.front, b2.front, o2));
                } else {
                    assert(rf(a.front, b2.front, Ok(None)));
                    assert(rb(a.back, b2.back, o2));
                }
            }
        } else if a.state is Front {
            assert(rf(a.front, b1.front, o1) && rf(a.front, b2.front, o2));
        } else {
            assert(rb(a.back, b1.back, o1) && rb(a.back, b2.back, o2));
        }
    }
}

/// The first form of a step of a chain that uses both iterators: the front iterator's result,
/// not its end.
spec fn chain_step_front_first<T: FallibleIterator, U: FallibleIterator<Item = T::Item, Error = T::Error>>(
    c: Chain<T, U>,
    p: Chain<T, U>,
    r: Result<Option<T::Item>, T::Error>,
) -> bool {
    &&& c.front().next_rel(&p.front(), r)
    &&& !is_none(r)
    &&& p.back() == c.back()
    &&& p.uses_front() && p.uses_back()
}

/// The calls of `next` on a fresh chain of two deterministic iterators, the front one yielding
/// `xs` and then `Ok(None)` and the back one `ys` and then `Ok(None)`: the first
/// `xs.len() + ys.len()` calls yield `xs` followed by `ys`, and the next one returns `Ok(None)`.
pub proof fn lemma_chain_runs<T: FallibleIterator, U: FallibleIterator<Item = T::Item, Error = T::Error>>(
    c: Chain<T, U>,
    xs: Seq<T::Item>,
    fend: T,
    ys: Seq<T::Item>,
    bend: U,
    outs: Seq<Result<Option<T::Item>, T::Error>>,
    end: Chain<T, U>,
)
    requires
        deterministic(rel_of::<T>()),
        deterministic(rel_of::<U>()),
        c.uses_front(),
        c.uses_back(),
        ends_ok(rel_of::<T>(), c.front(), xs, fend),
        ends_ok(rel_of::<U>(), c.back(), ys, bend),
        runs(rel_of::<Chain<T, U>>(), c, outs, end),
    ensures
        forall|j: int|
            0 <= j < outs.len() && j <= xs.len() + ys.len() ==> outs[j] == #[trigger] yields::<T::Item, T::Error>(xs + ys).push(Ok(None))[j],
{
    lemma_chain_deterministic::<T, U>();
    let e = lemma_chain_yields(c, xs, fend, ys, Ok(None), bend);
    lemma_runs_unique(rel_of::<Chain<T, U>>(), c, outs, end, yields(xs + ys).push(Ok(None)), e);
}

/// A run of `next_back` of the back iterator to its end, then one of the front iterator, as one
/// run of `next_back` of a chain that uses both.
proof fn lemma_chain_join_back<
    T: DoubleEndedFallibleIterator,
    U: DoubleEndedFallibleIterator<Item = T::Item, Error = T::Error>,
>(
    c: Chain<T, U>,
    bs: Seq<U>,
    bitems: Seq<T::Item>,
    fs: Seq<T>,
    fitems: Seq<T::Item>,
    last: Result<Option<T::Item>, T::Error>,
) -> (cs: Seq<Chain<T, U>>)
    requires
        c.state is Both,
        steps(rel_back_of::<U>(), bs, yields(bitems).push(Ok(None))),
        bs[0] == c.back,
        steps(rel_back_of::<T>(), fs, yields(fitems).push(last)),
        fs[0] == c.front,
    ensures
        steps(rel_back_of::<Chain<T, U>>(), cs, yields(bitems + fitems).push(last)),
        cs[0] == c,
        cs.last() == (Chain { front: fs.last(), back: bs.last(), state: ChainState::Front }),
{
    let rel = rel_back_of::<Chain<T, U>>();
    let a = bitems.len() as int;
    let b = fitems.len() as int;
    let bouts = yields::<T::Item, T::Error>(bitems).push(Ok(None));
    let fouts = yields::<T::Item, T::Error>(fitems).push(last);
    let outs = yields::<T::Item, T::Error>(bitems + fitems).push(last);
    let cs = Seq::new(
        (a + b + 2) as nat,
        |k: int|
            if k <= a {
                Chain { front: c.front, back: bs[k], state: ChainState::Both }
            } else {
                Chain { front: fs[k - a], back: bs[a + 1], state: ChainState::Front }
            },
    );
    assert forall|k: int| 0 <= k < outs.len() implies #[trigger] step_at(rel, cs, outs, k) by {
        if k < a {
            assert(step_at(rel_back_of::<U>(), bs, bouts, k));
            assert(outs[k] == bouts[k]);
            assert(cs[k].back().next_back_rel(&cs[k + 1].back(), outs[k]));
            assert(chain_step_back(cs[k], cs[k + 1], outs[k]));
        } else if k == a {
            assert(step_at(rel_back_of::<U>(), bs, bouts, k));
            assert(step_at(rel_back_of::<T>(), fs, fouts, 0));
            assert(outs[k] == fouts[0]);
            assert(cs[k].back().next_back_rel(&cs[k + 1].back(), Ok(None)));
            assert(cs[k].front().next_back_rel(&cs[k + 1].front(), outs[k]));
            assert(chain_step_back(cs[k], cs[k + 1], outs[k]));
        } else {
            assert(step_at(rel_back_of::<T>(), fs, fouts, k - a));
            assert(outs[k] == fouts[k - a]);
            assert(cs[k].front().next_back_rel(&cs[k + 1].front(), outs[k]));
            assert(chain_step_back(cs[k], cs[k + 1], outs[k]));
        }
    }
    cs
}

/// A chain's `next_back` yields the items of its back iterator, up to that iterator's
/// `Ok(None)`, and then those of its front iterator: a complete run of `next_back` of the back
/// iterator followed by a run of the front one is a run of `next_back` of a fresh chain, which
/// then no longer calls the back iterator.
pub proof fn lemma_chain_yields_back<
    T: DoubleEndedFallibleIterator,
    U: DoubleEndedFallibleIterator<Item = T::Item, Error = T::Error>,
>(
    c: Chain<T, U>,
    bitems: Seq<T::Item>,
    bend: U,
    fitems: Seq<T::Item>,
    last: Result<Option<T::Item>, T::Error>,
    fend: T,
) -> (end: Chain<T, U>)
    requires
        c.uses_front(),
        c.uses_back(),
        ends_ok(rel_back_of::<U>(), c.back(), bitems, bend),
        runs(rel_back_of::<T>(), c.front(), yields(fitems).push(last), fend),
    ensures
        runs(rel_back_of::<Chain<T, U>>(), c, yields(bitems + fitems).push(last), end),
        end.front() == fend,
        end.back() == bend,
        end.uses_front(),
        !end.uses_back(),
{
    let bouts = yields::<T::Item, T::Error>(bitems).push(Ok(None));
    let bs = choose|bs: Seq<U>| steps(rel_back_of::<U>(), bs, bouts) && bs[0] == c.back && bs.last() == bend;
    let fouts = yields::<T::Item, T::Error>(fitems).push(last);
    let fs = choose|fs: Seq<T>| steps(rel_back_of::<T>(), fs, fouts) && fs[0] == c.front && fs.last() == fend;
    let cs = lemma_chain_join_back(c, bs, bitems, fs, fitems, last);
    cs.last()
}

/// A chain's `next_back` is deterministic when those of its two iterators are.
pub proof fn lemma_chain_deterministic_back<
    T: DoubleEndedFallibleIterator,
    U: DoubleEndedFallibleIterator<Item = T::Item, Error = T::Error>,
>()
    requires
        deterministic(rel_back_of::<T>()),
        deterministic(rel_back_of::<U>()),
    ensures
        deterministic(rel_back_of::<Chain<T, U>>()),
{
    let rel = rel_back_of::<Chain<T, U>>();
    let rf = rel_back_of::<T>();
    let rb = rel_back_of::<U>();
    assert forall|a: Chain<T, U>, b1: Chain<T, U>, b2: Chain<T, U>, o1: Result<Option<T::Item>, T::Error>, o2: Result<Option<T::Item>, T::Error>|
        #![trigger rel(a, b1, o1), rel(a, b2, o2)]
        rel(a, b1, o1) && rel(a, b2, o2) implies b1 == b2 && o1 == o2 by {
        assert(chain_step_back(a, b1, o1) && chain_step_back(a, b2, o2));
        if a.state is Both {
            if chain_step_back_first(a, b1, o1) {
                assert(rb(a.back, b1.back, o1));
                if chain_step_back_first(a, b2, o2) {
                    assert(rb(a.back, b2.back, o2));
                } else {
                    assert(rb(a.back, b2.back, Ok(None)));
                }
            } else {
                assert(rb(a.back, b1.back, Ok(None)));
                assert(rf(a.front, b1.front, o1));
                if chain_step_back_first(a, b2, o2) {
                    assert(rb(a.back, b2.back, o2));
                } else {
                    assert(rb(a.back, b2.back, Ok(None)));
                    assert(rf(a.front, b2.front, o2));
                }
            }
        } else if a.state is Front {
            assert(rf(a.front, b1.front, o1) && rf(a.front, b2.front, o2));
        } else {
            assert(rb(a.back, b1.back, o1) && rb(a.back, b2.back, o2));
        }
    }
}

/// The first form of a step of `next_back` of a chain that uses both iterators: the back
/// iterator's result, not its end.
spec fn chain_step_back_first<
    T: DoubleEndedFallibleIterator,
    U: DoubleEndedFallibleIterator<Item = T::Item, Error = T::Error>,
>(c: Chain<T, U>, p: Chain<T, U>, r: Result<Option<T::Item>, T::Error>) -> bool {
    &&& c.back().next_back_rel(&p.back(), r)
    &&& !is_none(r)
    &&& p.front() == c.front()
    &&& p.uses_front() && p.uses_back()
}

/// The calls of `next_back` on a fresh chain of two iterators whose `next_back` is
/// deterministic, the back one yielding `ys` and then `Ok(None)` and the front one `xs` and
/// then `Ok(None)`: the first `ys.len() + xs.len()` calls yield `ys` followed by `xs`, and the
/// next one returns `Ok(None)`; the run ends on a chain that no longer calls the back iterator.
pub proof fn lemma_chain_runs_back<
    T: DoubleEndedFallibleIterator,
    U: DoubleEndedFallibleIterator<Item = T::Item, Error = T::Error>,
>(
    c: Chain<T, U>,
    ys: Seq<T::Item>,
    bend: U,
    xs: Seq<T::Item>,
    fend: T,
    outs: Seq<Result<Option<T::Item>, T::Error>>,
    end: Chain<T, U>,
)
    requires
        deterministic(rel_back_of::<T>()),
        deterministic(rel_back_of::<U>()),
        c.uses_front(),
        c.uses_back(),
        ends_ok(rel_back_of::<U>(), c.back(), ys, bend),
        ends_ok(rel_back_of::<T>(), c.front(), xs, fend),
        runs(rel_back_of::<Chain<T, U>>(), c, outs, end),
    ensures
        forall|j: int|
            0 <= j < outs.len() && j <= ys.len() + xs.len() ==> outs[j] == #[trigger] yields::<T::Item, T::Error>(ys + xs).push(Ok(None))[j],
        outs.len() == ys.len() + xs.len() + 1 ==> !end.uses_back(),
{
    lemma_chain_deterministic_back::<T, U>();
    let e = lemma_chain_yields_back(c, ys, bend, xs, Ok(None), fend);
    lemma_runs_unique(rel_back_of::<Chain<T, U>>(), c, outs, end, yields(ys + xs).push(Ok(None)), e);
}

/// Along a run of `next_back` of a chain that only uses its back iterator, every call is a call
/// of `next_back` on the back iterator, and the front iterator is left alone.
proof fn lemma_chain_back_only_steps<
    T: DoubleEndedFallibleIterator,
    U: DoubleEndedFallibleIterator<Item = T::Item, Error = T::Error>,
>(cs: Seq<Chain<T, U>>, outs: Seq<Result<Option<T::Item>, T::Error>>)
    requires
        steps(rel_back_of::<Chain<T, U>>(), cs, outs),
        !cs[0].uses_front(),
        cs[0].uses_back(),
    ensures
        steps(rel_back_of::<U>(), backs(cs), outs),
        forall|k: int| 0 <= k < cs.len() ==> (#[trigger] cs[k]).front == cs[0].front && cs[k].state is Back,
    decreases outs.len(),
{
    let rel = rel_back_of::<Chain<T, U>>();
    if outs.len() > 0 {
        let n = outs.len() - 1;
        lemma_steps_prefix(rel, cs, outs, n);
        let pcs = cs.subrange(0, n + 1);
        lemma_chain_back_only_steps(pcs, outs.subrange(0, n));
        assert(pcs[n] == cs[n]);
        assert(step_at(rel, cs, outs, n));
        assert(chain_step_back(cs[n], cs[n + 1], outs[n]));
        let b = backs(pcs);
        assert(b.last() == cs[n].back);
        lemma_steps_push(rel_back_of::<U>(), b, outs.subrange(0, n), cs[n + 1].back, outs[n]);
        assert(b.push(cs[n + 1].back) =~= backs(cs));
        assert(outs.subrange(0, n).push(outs[n]) =~= outs);
        assert forall|k: int| 0 <= k < cs.len() implies (#[trigger] cs[k]).front == cs[0].front && cs[k].state is Back by {
            if k <= n {
                assert(pcs[k] == cs[k]);
            }
        }
    } else {
        assert(steps(rel_back_of::<U>(), backs(cs), outs));
    }
}

/// Once a chain's `next` has reached the end of its front iterator (a call of `next` during
/// which the front iterator returned `Ok(None)`), `next_back` works on the back iterator
/// alone: every run of `next_back` from there is a run of `next_back` of the back iterator with
/// the same results, and the front iterator is not touched again.
pub proof fn lemma_chain_back_after_front_end<
    T: DoubleEndedFallibleIterator,
    U: DoubleEndedFallibleIterator<Item = T::Item, Error = T::Error>,
>(
    c: Chain<T, U>,
    c1: Chain<T, U>,
    r: Result<Option<T::Item>, T::Error>,
    outs: Seq<Result<Option<T::Item>, T::Error>>,
    end: Chain<T, U>,
)
    requires
        c.uses_front(),
        c.uses_back(),
        deterministic(rel_of::<T>()),
        rel_of::<Chain<T, U>>()(c, c1, r),
        rel_of::<T>()(c.front(), c1.front(), Ok(None)),
        runs(rel_back_of::<Chain<T, U>>(), c1, outs, end),
    ensures
        runs(rel_back_of::<U>(), c1.back(), outs, end.back()),
        end.front() == c1.front(),
{
    assert(chain_step(c, c1, r));
    if c.front().next_rel(&c1.front(), r) && !is_none(r) {
        assert(rel_of::<T>()(c.front, c1.front, r));
        assert(rel_of::<T>()(c.front, c1.front, Ok(None)));
        assert(false);
    }
    assert(!c1.uses_front() && c1.uses_back());
    let cs = choose|cs: Seq<Chain<T, U>>| steps(rel_back_of::<Chain<T, U>>(), cs, outs) && cs[0] == c1 && cs.last() == end;
    lemma_chain_back_only_steps(cs, outs);
    assert(cs.last() == cs[cs.len() - 1]);
    assert(backs(cs)[0] == c1.back && backs(cs).last() == end.back);
}

/// An error of the back iterator does not end it: when `next_back` on a chain that uses both
/// iterators gets `Err(e)` from the back iterator (whose `next_back` is deterministic), it
/// returns `Err(e)`, leaves the front iterator alone, and the chain still uses both: the next
/// `next_back` again calls the back iterator first, and `next` still calls the front iterator
/// first.
pub proof fn lemma_chain_back_error_keeps_both<
    T: DoubleEndedFallibleIterator,
    U: DoubleEndedFallibleIterator<Item = T::Item, Error = T::Error>,
>(c: Chain<T, U>, c1: Chain<T, U>, r: Result<Option<T::Item>, T::Error>, b1: U, e: T::Error)
    requires
        c.uses_front(),
        c.uses_back(),
        deterministic(rel_back_of::<U>()),
        rel_back_of::<Chain<T, U>>()(c, c1, r),
        rel_back_of::<U>()(c.back(), b1, Err(e)),
    ensures
        r == Err::<Option<T::Item>, T::Error>(e),
        c1.back() == b1,
        c1.front() == c.front(),
        c1.uses_front(),
        c1.uses_back(),
        forall|c2: Chain<T, U>, o: Result<Option<T::Item>, T::Error>|
            #[trigger] rel_back_of::<Chain<T, U>>()(c1, c2, o) ==> rel_back_of::<U>()(c1.back(), c2.back(), o)
                || rel_back_of::<U>()(c1.back(), c2.back(), Ok(None)),
        forall|c2: Chain<T, U>, o: Result<Option<T::Item>, T::Error>|
            #[trigger] rel_of::<Chain<T, U>>()(c1, c2, o) ==> rel_of::<T>()(c1.front(), c2.front(), o)
                || rel_of::<T>()(c1.front(), c2.front(), Ok(None)),
{
    assert(chain_step_back(c, c1, r));
    if c.back().next_back_rel(&c1.back(), Ok(None)) {
        assert(rel_back_of::<U>()(c.back, c1.back, Ok(None)));
        assert(rel_back_of::<U>()(c.back, b1, Err(e)));
        assert(false);
    }
    assert(rel_back_of::<U>()(c.back, c1.back, r));
    assert(rel_back_of::<U>()(c.back, b1, Err(e)));
    assert forall|c2: Chain<T, U>, o: Result<Option<T::Item>, T::Error>|
        #[trigger] rel_back_of::<Chain<T, U>>()(c1, c2, o) implies rel_back_of::<U>()(c1.back(), c2.back(), o)
            || rel_back_of::<U>()(c1.back(), c2.back(), Ok(None)) by {
        assert(chain_step_back(c1, c2, o));
    }
    assert forall|c2: Chain<T, U>, o: Result<Option<T::Item>, T::Error>|
        #[trigger] rel_of::<Chain<T, U>>()(c1, c2, o) implies rel_of::<T>()(c1.front(), c2.front(), o)
            || rel_of::<T>()(c1.front(), c2.front(), Ok(None)) by {
        assert(chain_step(c1, c2, o));
    }
}

} // verus!
