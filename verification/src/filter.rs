//! `Filter` and `FilterMap`: adaptors that skip items.
use vstd::prelude::*;

use crate::iterator::{
    can_back_of, can_of, hint_upper, lemma_hint_upper, size_hint_of, rel_back_of, rel_of, DoubleEndedFallibleIterator,
    FallibleIterator,
};
use crate::run::{
    all_items, ends_ok, hint_valid, lemma_all_items_push, lemma_record_end, lemma_record_item,
    lemma_steps_concat, lemma_steps_drop_first, lemma_steps_prefix, lemma_steps_push,
    lemma_yields_drop_first, lemma_yields_push, runs, step_at, steps, stops,
    stops_within, yields, StepRel,
};

verus! {

broadcast use vstd::function::group_function_axioms;

/// An iterator which uses a predicate to determine which values of the
/// underlying iterator should be yielded.
#[derive(Debug)]
pub struct Filter<I, F> {
    it: I,
    f: F,
}

impl<I, F> Filter<I, F> {
    /// The underlying iterator.
    pub closed spec fn iter(&self) -> I {
        self.it
    }

    /// The predicate.
    pub closed spec fn func(&self) -> F {
        self.f
    }

    /// An iterator over the items of `it` that `f` accepts.
    pub(crate) fn new(it: I, f: F) -> (r: Self)
        ensures
            r.iter() == it,
            r.func() == f,
    {
        Filter { it, f }
    }
}

/// The predicate `f` rejects `x` (`false` is a result of `f` on `x`).
pub open spec fn rejects<T, F: FnMut(&T) -> bool>(f: F) -> spec_fn(T) -> bool {
    |x: T| call_ensures(f, (&x,), false)
}

/// A call of `next` (or `next_back`) on `fl` is allowed: the predicate accepts every item, and
/// the calls `can`/`rel` on the underlying iterator, which go on while the predicate rejects
/// the items, are allowed and stop.
pub open spec fn filter_can<I: FallibleIterator, F: FnMut(&I::Item) -> bool>(
    can: spec_fn(I) -> bool,
    rel: StepRel<I, I::Item, I::Error>,
    fl: Filter<I, F>,
) -> bool {
    &&& forall|x: I::Item| call_requires(fl.func(), (&x,))
    &&& stops(can, rel, fl.iter(), rejects(fl.func()))
}

/// One call of `next` (or `next_back`) on `fl`: calls `rel` on the underlying iterator skip
/// items that the predicate rejects (as results of its calls), and the call that ends the
/// search gives the result, an item only if the predicate's call on it returned `true`.
pub open spec fn filter_step<I: FallibleIterator, F: FnMut(&I::Item) -> bool>(
    rel: StepRel<I, I::Item, I::Error>,
    fl: Filter<I, F>,
    post: Filter<I, F>,
    r: Result<Option<I::Item>, I::Error>,
) -> bool {
    &&& post.func() == fl.func()
    &&& exists|skipped: Seq<I::Item>|
        #[trigger] runs(rel, fl.iter(), yields(skipped).push(r), post.iter())
            && all_items(skipped, rejects(fl.func()))
            && (r matches Ok(Some(x)) ==> call_ensures(fl.func(), (&x,), true))
}

impl<I, F> FallibleIterator for Filter<I, F> where I: FallibleIterator, F: FnMut(&I::Item) -> bool {
    type Item = I::Item;

    type Error = I::Error;

    open spec fn can_next(&self) -> bool {
        filter_can(can_of::<I>(), rel_of::<I>(), *self)
    }

    open spec fn next_rel(&self, post: &Self, r: Result<Option<I::Item>, I::Error>) -> bool {
        filter_step(rel_of::<I>(), *self, *post, r)
    }

    #[verifier::loop_isolation(false)]
    fn next(&mut self) -> (r: Result<Option<I::Item>, I::Error>) {
        let ghost fl = *self;
        let ghost can = can_of::<I>();
        let ghost rel = rel_of::<I>();
        let ghost go = rejects(fl.func());
        let ghost mut states: Seq<I> = seq![self.it];
        let ghost mut skipped: Seq<I::Item> = seq![];
        let ghost mut fuel: nat = choose|n: nat| stops_within(can, rel, fl.it, go, n);
        loop
            invariant
                self.f == fl.f,
                stops_within(can, rel, self.it, go, fuel),
                steps(rel, states, yields(skipped)),
                states[0] == fl.it,
                states.last() == self.it,
                all_items(skipped, go),
            decreases fuel,
        {
            let ghost prev = self.it;
            match self.it.next() {
                Ok(Some(v)) => {
                    assert(rel(prev, self.it, Ok(Some(v))));
                    assert(call_requires(fl.func(), (&v,)));
                    let keep = (self.f)(&v);
                    proof {
                        lemma_record_item(rel, states, skipped, self.it, v);
                    }
                    if keep {
                        proof {
                            lemma_record_end(rel, states, skipped, self.it, Ok(Some(v)));
                            assert(runs(rel, fl.iter(), yields(skipped).push(Ok(Some(v))), self.iter()));
                        }
                        return Ok(Some(v));
                    }
                    proof {
                        assert(go(v));
                        assert(stops_within(can, rel, self.it, go, (fuel - 1) as nat));
                        lemma_all_items_push(skipped, go, v);
                        states = states.push(self.it);
                        skipped = skipped.push(v);
                        fuel = (fuel - 1) as nat;
                    }
                },
                Ok(None) => {
                    proof {
                        lemma_record_end(rel, states, skipped, self.it, Ok(None));
                        assert(runs(rel, fl.iter(), yields(skipped).push(Ok(None)), self.iter()));
                    }
                    return Ok(None);
                },
                Err(e) => {
                    proof {
                        lemma_record_end(rel, states, skipped, self.it, Err(e));
                        assert(runs(rel, fl.iter(), yields(skipped).push(Err(e)), self.iter()));
                    }
                    return Err(e);
                },
            }
        }
    }

    fn size_hint(&self) -> (r: (usize, Option<usize>))
        ensures
            r.0 == 0,
            hint_upper(self.iter(), r.1),
    {
        let h = size_hint_of(&self.it);
        proof {
            lemma_hint_upper(self.iter(), h.1);
        }
        (0, h.1)
    }
}

impl<I, F> DoubleEndedFallibleIterator for Filter<I, F> where
    I: DoubleEndedFallibleIterator,
    F: FnMut(&I::Item) -> bool,
 {
    open spec fn can_next_back(&self) -> bool {
        filter_can(can_back_of::<I>(), rel_back_of::<I>(), *self)
    }

    open spec fn next_back_rel(&self, post: &Self, r: Result<Option<I::Item>, I::Error>) -> bool {
        filter_step(rel_back_of::<I>(), *self, *post, r)
    }

    #[verifier::loop_isolation(false)]
    fn next_back(&mut self) -> (r: Result<Option<I::Item>, I::Error>) {
        let ghost fl = *self;
        let ghost can = can_back_of::<I>();
        let ghost rel = rel_back_of::<I>();
        let ghost go = rejects(fl.func());
        let ghost mut states: Seq<I> = seq![self.it];
        let ghost mut skipped: Seq<I::Item> = seq![];
        let ghost mut fuel: nat = choose|n: nat| stops_within(can, rel, fl.it, go, n);
        loop
            invariant
                self.f == fl.f,
                stops_within(can, rel, self.it, go, fuel),
                steps(rel, states, yields(skipped)),
                states[0] == fl.it,
                states.last() == self.it,
                all_items(skipped, go),
            decreases fuel,
        {
            let ghost prev = self.it;
            match self.it.next_back() {
                Ok(Some(v)) => {
                    assert(rel(prev, self.it, Ok(Some(v))));
                    assert(call_requires(fl.func(), (&v,)));
                    let keep = (self.f)(&v);
                    proof {
                        lemma_record_item(rel, states, skipped, self.it, v);
                    }
                    if keep {
                        proof {
                            lemma_record_end(rel, states, skipped, self.it, Ok(Some(v)));
                            assert(runs(rel, fl.iter(), yields(skipped).push(Ok(Some(v))), self.iter()));
                        }
                        return Ok(Some(v));
                    }
                    proof {
                        assert(go(v));
                        assert(stops_within(can, rel, self.it, go, (fuel - 1) as nat));
                        lemma_all_items_push(skipped, go, v);
                        states = states.push(self.it);
                        skipped = skipped.push(v);
                        fuel = (fuel - 1) as nat;
                    }
                },
                Ok(None) => {
                    proof {
                        lemma_record_end(rel, states, skipped, self.it, Ok(None));
                        assert(runs(rel, fl.iter(), yields(skipped).push(Ok(None)), self.iter()));
                    }
                    return Ok(None);
                },
                Err(e) => {
                    proof {
                        lemma_record_end(rel, states, skipped, self.it, Err(e));
                        assert(runs(rel, fl.iter(), yields(skipped).push(Err(e)), self.iter()));
                    }
                    return Err(e);
                },
            }
        }
    }
}

/// An iterator which both filters and maps the values of the underlying
/// iterator.
#[derive(Debug)]
pub struct FilterMap<I, F> {
    it: I,
    f: F,
}

impl<I, F> FilterMap<I, F> {
    /// The underlying iterator.
    pub closed spec fn iter(&self) -> I {
        self.it
    }

    /// The transform.
    pub closed spec fn func(&self) -> F {
        self.f
    }

    /// An iterator over the `Some` results of `f` on the items of `it`.
    pub(crate) fn new(it: I, f: F) -> (r: Self)
        ensures
            r.iter() == it,
            r.func() == f,
    {
        FilterMap { it, f }
    }
}

/// The transform `f` drops `x` (`None` is a result of `f` on `x`).
pub open spec fn drops<T, B, F: FnMut(T) -> Option<B>>(f: F) -> spec_fn(T) -> bool {
    |x: T| call_ensures(f, (x,), None)
}

/// A call of `next` (or `next_back`) on `fm` is allowed: the transform accepts every item, and
/// the calls `can`/`rel` on the underlying iterator, which go on while the transform returns
/// `None`, are allowed and stop.
pub open spec fn filter_map_can<B, I: FallibleIterator, F: FnMut(I::Item) -> Option<B>>(
    can: spec_fn(I) -> bool,
    rel: StepRel<I, I::Item, I::Error>,
    fm: FilterMap<I, F>,
) -> bool {
    &&& forall|x: I::Item| call_requires(fm.func(), (x,))
    &&& stops(can, rel, fm.iter(), drops(fm.func()))
}

/// One call of `next` (or `next_back`) on `fm`: calls `rel` on the underlying iterator skip
/// items on which the transform's call returned `None`, and the call that ends the search gives the
/// result, the transform's `Some` value on an item.
pub open spec fn filter_map_step<B, I: FallibleIterator, F: FnMut(I::Item) -> Option<B>>(
    rel: StepRel<I, I::Item, I::Error>,
    fm: FilterMap<I, F>,
    post: FilterMap<I, F>,
    r: Result<Option<B>, I::Error>,
) -> bool {
    &&& post.func() == fm.func()
    &&& exists|skipped: Seq<I::Item>, last: Result<Option<I::Item>, I::Error>|
        #[trigger] runs(rel, fm.iter(), yields(skipped).push(last), post.iter()) && all_items(
            skipped,
            drops(fm.func()),
        ) && match last {
            Ok(Some(x)) => r matches Ok(Some(y)) && call_ensures(fm.func(), (x,), Some(y)),
            Ok(None) => r == Ok::<Option<B>, I::Error>(None),
            Err(e) => r == Err::<Option<B>, I::Error>(e),
        }
}

impl<B, I, F> FallibleIterator for FilterMap<I, F> where
    I: FallibleIterator,
    F: FnMut(I::Item) -> Option<B>,
 {
    type Item = B;

    type Error = I::Error;

    open spec fn can_next(&self) -> bool {
        filter_map_can(can_of::<I>(), rel_of::<I>(), *self)
    }

    open spec fn next_rel(&self, post: &Self, r: Result<Option<B>, I::Error>) -> bool {
        filter_map_step(rel_of::<I>(), *self, *post, r)
    }

    #[verifier::loop_isolation(false)]
    fn next(&mut self) -> (r: Result<Option<B>, I::Error>) {
        let ghost fm = *self;
        let ghost can = can_of::<I>();
        let ghost rel = rel_of::<I>();
        let ghost go = drops(fm.func());
        let ghost mut states: Seq<I> = seq![self.it];
        let ghost mut skipped: Seq<I::Item> = seq![];
        let ghost mut fuel: nat = choose|n: nat| stops_within(can, rel, fm.it, go, n);
        loop
            invariant
                self.f == fm.f,
                stops_within(can, rel, self.it, go, fuel),
                steps(rel, states, yields(skipped)),
                states[0] == fm.it,
                states.last() == self.it,
                all_items(skipped, go),
            decreases fuel,
        {
            let ghost prev = self.it;
            match self.it.next() {
                Ok(Some(v)) => {
                    assert(rel(prev, self.it, Ok(Some(v))));
                    assert(call_requires(fm.func(), (v,)));
                    let ghost x = v;
                    let out = (self.f)(v);
                    proof {
                        lemma_record_item(rel, states, skipped, self.it, x);
                    }
                    if let Some(y) = out {
                        proof {
                            lemma_record_end(rel, states, skipped, self.it, Ok(Some(x)));
                            assert(runs(rel, fm.iter(), yields(skipped).push(Ok(Some(x))), self.iter()));
                        }
                        return Ok(Some(y));
                    }
                    proof {
                        assert(go(x));
                        assert(stops_within(can, rel, self.it, go, (fuel - 1) as nat));
                        lemma_all_items_push(skipped, go, x);
                        states = states.push(self.it);
                        skipped = skipped.push(x);
                        fuel = (fuel - 1) as nat;
                    }
                },
                Ok(None) => {
                    proof {
                        lemma_record_end(rel, states, skipped, self.it, Ok(None));
                        assert(runs(rel, fm.iter(), yields(skipped).push(Ok(None)), self.iter()));
                    }
                    return Ok(None);
                },
                Err(e) => {
                    proof {
                        lemma_record_end(rel, states, skipped, self.it, Err(e));
                        assert(runs(rel, fm.iter(), yields(skipped).push(Err(e)), self.iter()));
                    }
                    return Err(e);
                },
            }
        }
    }

    fn size_hint(&self) -> (r: (usize, Option<usize>))
        ensures
            r.0 == 0,
            hint_upper(self.iter(), r.1),
    {
        let h = size_hint_of(&self.it);
        proof {
            lemma_hint_upper(self.iter(), h.1);
        }
        (0, h.1)
    }
}

impl<B, I, F> DoubleEndedFallibleIterator for FilterMap<I, F> where
    I: DoubleEndedFallibleIterator,
    F: FnMut(I::Item) -> Option<B>,
 {
    open spec fn can_next_back(&self) -> bool {
        filter_map_can(can_back_of::<I>(), rel_back_of::<I>(), *self)
    }

    open spec fn next_back_rel(&self, post: &Self, r: Result<Option<B>, I::Error>) -> bool {
        filter_map_step(rel_back_of::<I>(), *self, *post, r)
    }

    #[verifier::loop_isolation(false)]
    fn next_back(&mut self) -> (r: Result<Option<B>, I::Error>) {
        let ghost fm = *self;
        let ghost can = can_back_of::<I>();
        let ghost rel = rel_back_of::<I>();
        let ghost go = drops(fm.func());
        let ghost mut states: Seq<I> = seq![self.it];
        let ghost mut skipped: Seq<I::Item> = seq![];
        let ghost mut fuel: nat = choose|n: nat| stops_within(can, rel, fm.it, go, n);
        loop
            invariant
                self.f == fm.f,
                stops_within(can, rel, self.it, go, fuel),
                steps(rel, states, yields(skipped)),
                states[0] == fm.it,
                states.last() == self.it,
                all_items(skipped, go),
            decreases fuel,
        {
            let ghost prev = self.it;
            match self.it.next_back() {
                Ok(Some(v)) => {
                    assert(rel(prev, self.it, Ok(Some(v))));
                    assert(call_requires(fm.func(), (v,)));
                    let ghost x = v;
                    let out = (self.f)(v);
                    proof {
                        lemma_record_item(rel, states, skipped, self.it, x);
                    }
                    if let Some(y) = out {
                        proof {
                            lemma_record_end(rel, states, skipped, self.it, Ok(Some(x)));
                            assert(runs(rel, fm.iter(), yields(skipped).push(Ok(Some(x))), self.iter()));
                        }
                        return Ok(Some(y));
                    }
                    proof {
                        assert(go(x));
                        assert(stops_within(can, rel, self.it, go, (fuel - 1) as nat));
                        lemma_all_items_push(skipped, go, x);
                        states = states.push(self.it);
                        skipped = skipped.push(x);
                        fuel = (fuel - 1) as nat;
                    }
                },
                Ok(None) => {
                    proof {
                        lemma_record_end(rel, states, skipped, self.it, Ok(None));
                        assert(runs(rel, fm.iter(), yields(skipped).push(Ok(None)), self.iter()));
                    }
                    return Ok(None);
                },
                Err(e) => {
                    proof {
                        lemma_record_end(rel, states, skipped, self.it, Err(e));
                        assert(runs(rel, fm.iter(), yields(skipped).push(Err(e)), self.iter()));
                    }
                    return Err(e);
                },
            }
        }
    }
}

/// The items of `xs` whose verdict in `keep` (at the same position) is `true`, in order.
pub open spec fn kept<T>(xs: Seq<T>, keep: Seq<bool>) -> Seq<T>
    decreases xs.len(),
{
    if xs.len() == 0 {
        Seq::empty()
    } else if keep[xs.len() - 1] {
        kept(xs.drop_last(), keep).push(xs.last())
    } else {
        kept(xs.drop_last(), keep)
    }
}

/// `kept` reads only the verdicts of the items of `xs`.
proof fn lemma_kept_prefix<T>(xs: Seq<T>, k1: Seq<bool>, k2: Seq<bool>)
    requires
        k1.len() >= xs.len(),
        k2.len() >= xs.len(),
        forall|i: int| 0 <= i < xs.len() ==> k1[i] == k2[i],
    ensures
        kept(xs, k1) == kept(xs, k2),
    decreases xs.len(),
{
    if xs.len() > 0 {
        lemma_kept_prefix(xs.drop_last(), k1, k2);
    }
}

/// One more item and its verdict.
proof fn lemma_kept_push<T>(xs: Seq<T>, keep: Seq<bool>, x: T, b: bool)
    requires
        keep.len() == xs.len(),
    ensures
        kept(xs.push(x), keep.push(b)) == if b {
            kept(xs, keep).push(x)
        } else {
            kept(xs, keep)
        },
{
    assert(xs.push(x).drop_last() =~= xs);
    lemma_kept_prefix(xs, keep.push(b), keep);
}

/// Items that are all rejected add nothing.
proof fn lemma_kept_rejected<T>(xs: Seq<T>, keep: Seq<bool>, skipped: Seq<T>)
    requires
        keep.len() == xs.len(),
    ensures
        kept(xs + skipped, keep + Seq::new(skipped.len(), |i: int| false)) == kept(xs, keep),
    decreases skipped.len(),
{
    let fs = Seq::new(skipped.len(), |i: int| false);
    if skipped.len() > 0 {
        let n = skipped.len() - 1;
        let s1 = skipped.drop_last();
        lemma_kept_rejected(xs, keep, s1);
        assert(xs + skipped =~= (xs + s1).push(skipped[n]));
        assert(keep + fs =~= (keep + Seq::new(s1.len(), |i: int| false)).push(false));
        lemma_kept_push(xs + s1, keep + Seq::new(s1.len(), |i: int| false), skipped[n], false);
    } else {
        assert(xs + skipped =~= xs);
        assert(keep + fs =~= keep);
    }
}

/// A run of items of a filter, as a run of items of the underlying iterator (through the calls
/// `rel`): with the predicate's verdict on each of its items, a result of its call on the
/// item, the filter's items are those with a `true` verdict.
proof fn lemma_filter_inner_run<I: FallibleIterator, F: FnMut(&I::Item) -> bool>(
    rel: StepRel<I, I::Item, I::Error>,
    fs: Seq<Filter<I, F>>,
    ys: Seq<I::Item>,
) -> (r: (Seq<I>, Seq<I::Item>, Seq<bool>))
    requires
        steps(|a: Filter<I, F>, b: Filter<I, F>, o: Result<Option<I::Item>, I::Error>| filter_step(rel, a, b, o), fs, yields(ys)),
    ensures
        steps(rel, r.0, yields(r.1)),
        r.0[0] == fs[0].iter(),
        r.0.last() == fs.last().iter(),
        r.1.len() >= ys.len(),
        r.2.len() == r.1.len(),
        forall|i: int| 0 <= i < r.1.len() ==> call_ensures(fs[0].func(), (&r.1[i],), #[trigger] r.2[i]),
        kept(r.1, r.2) == ys,
        fs.last().func() == fs[0].func(),
    decreases ys.len(),
{
    let rel_f = |a: Filter<I, F>, b: Filter<I, F>, o: Result<Option<I::Item>, I::Error>| filter_step(rel, a, b, o);
    if ys.len() == 0 {
        let s0 = seq![fs[0].iter()];
        assert(steps(rel, s0, yields(Seq::<I::Item>::empty())));
        assert(ys =~= Seq::<I::Item>::empty());
        (s0, Seq::<I::Item>::empty(), Seq::<bool>::empty())
    } else {
        let k = ys.len() - 1;
        lemma_steps_prefix(rel_f, fs, yields(ys), k);
        assert(yields::<I::Item, I::Error>(ys).subrange(0, k) =~= yields::<I::Item, I::Error>(
            ys.subrange(0, k),
        ));
        let (s1, x1, k1) = lemma_filter_inner_run(rel, fs.subrange(0, k + 1), ys.subrange(0, k));
        assert(step_at(rel_f, fs, yields(ys), k));
        let y = ys[k];
        assert(filter_step(rel, fs[k], fs[k + 1], Ok(Some(y))));
        let skipped = choose|skipped: Seq<I::Item>|
            #[trigger] runs(rel, fs[k].iter(), yields(skipped).push(Ok(Some(y))), fs[k + 1].iter())
                && all_items(skipped, rejects(fs[k].func()));
        lemma_yields_push::<I::Item, I::Error>(skipped, y);
        let s2 = choose|s2: Seq<I>|
            steps(rel, s2, yields(skipped.push(y))) && s2[0] == fs[k].iter() && s2.last() == fs[k
                + 1].iter();
        lemma_steps_concat(rel, s1, x1, s2, skipped.push(y));
        let falses = Seq::new(skipped.len(), |i: int| false);
        lemma_kept_rejected(x1, k1, skipped);
        lemma_kept_push(x1 + skipped, k1 + falses, y, true);
        let xs = x1 + skipped.push(y);
        let keep = k1 + falses.push(true);
        assert(xs =~= (x1 + skipped).push(y));
        assert(keep =~= (k1 + falses).push(true));
        assert(ys =~= ys.subrange(0, k).push(y));
        let f0 = fs[0].func();
        assert(fs.subrange(0, k + 1).last() == fs[k]);
        assert forall|i: int| 0 <= i < xs.len() implies call_ensures(f0, (&xs[i],), #[trigger] keep[i]) by {
            if i < x1.len() {
                assert(xs[i] == x1[i] && keep[i] == k1[i]);
            } else if i < x1.len() + skipped.len() {
                let j = i - x1.len();
                assert(xs[i] == skipped[j] && keep[i] == false);
                assert(rejects(fs[k].func())(skipped[j]));
            } else {
                assert(xs[i] == y && keep[i] == true);
            }
        }
        (s1 + s2.drop_first(), xs, keep)
    }
}

/// Successive calls of `next` on a filter (or of `next_back`, through `rel`) yield, in order,
/// the items of the underlying iterator that the predicate accepts: a run of the filter that
/// yields `ys` and then `Ok(None)` comes from a run of the underlying iterator that yields `xs`
/// and then `Ok(None)`, with a verdict on each of `xs` that is a result of the predicate on it, and `ys`
/// the items of `xs` whose verdict is `true`.
proof fn lemma_filter_yields_by<I: FallibleIterator, F: FnMut(&I::Item) -> bool>(
    rel: StepRel<I, I::Item, I::Error>,
    fl: Filter<I, F>,
    ys: Seq<I::Item>,
    end: Filter<I, F>,
) -> (r: (Seq<I::Item>, Seq<bool>))
    requires
        ends_ok(|a: Filter<I, F>, b: Filter<I, F>, o: Result<Option<I::Item>, I::Error>| filter_step(rel, a, b, o), fl, ys, end),
    ensures
        ends_ok(rel, fl.iter(), r.0, end.iter()),
        r.1.len() == r.0.len(),
        forall|i: int| 0 <= i < r.0.len() ==> call_ensures(fl.func(), (&r.0[i],), #[trigger] r.1[i]),
        kept(r.0, r.1) == ys,
{
    let rel_f = |a: Filter<I, F>, b: Filter<I, F>, o: Result<Option<I::Item>, I::Error>| filter_step(rel, a, b, o);
    let outs = yields::<I::Item, I::Error>(ys).push(Ok(None));
    let fs = choose|fs: Seq<Filter<I, F>>| steps(rel_f, fs, outs) && fs[0] == fl && fs.last() == end;
    let n = ys.len() as int;
    lemma_steps_prefix(rel_f, fs, outs, n);
    assert(outs.subrange(0, n) =~= yields::<I::Item, I::Error>(ys));
    let (s1, x1, k1) = lemma_filter_inner_run(rel, fs.subrange(0, n + 1), ys);
    assert(fs.subrange(0, n + 1).last() == fs[n]);
    assert(step_at(rel_f, fs, outs, n));
    assert(filter_step(rel, fs[n], fs[n + 1], Ok(None)));
    let skipped = choose|skipped: Seq<I::Item>|
        #[trigger] runs(rel, fs[n].iter(), yields(skipped).push(Ok(None)), fs[n + 1].iter())
            && all_items(skipped, rejects(fs[n].func()));
    let souts = yields::<I::Item, I::Error>(skipped).push(Ok(None));
    let s2 = choose|s2: Seq<I>| steps(rel, s2, souts) && s2[0] == fs[n].iter() && s2.last() == fs[n + 1].iter();
    let m = skipped.len() as int;
    lemma_steps_prefix(rel, s2, souts, m);
    assert(souts.subrange(0, m) =~= yields::<I::Item, I::Error>(skipped));
    let s2p = s2.subrange(0, m + 1);
    lemma_steps_concat(rel, s1, x1, s2p, skipped);
    let ss = s1 + s2p.drop_first();
    assert(step_at(rel, s2, souts, m));
    assert(ss.last() == s2[m]);
    lemma_steps_push(rel, ss, yields(x1 + skipped), s2[m + 1], Ok(None));
    assert(s2[m + 1] == end.iter());
    assert(ends_ok(rel, fl.iter(), x1 + skipped, end.iter()));
    let falses = Seq::new(skipped.len(), |i: int| false);
    lemma_kept_rejected(x1, k1, skipped);
    let xs = x1 + skipped;
    let keep = k1 + falses;
    assert forall|i: int| 0 <= i < xs.len() implies call_ensures(fl.func(), (&xs[i],), #[trigger] keep[i]) by {
        if i < x1.len() {
            assert(xs[i] == x1[i] && keep[i] == k1[i]);
        } else {
            let j = i - x1.len();
            assert(xs[i] == skipped[j] && keep[i] == false);
            assert(rejects(fs[n].func())(skipped[j]));
        }
    }
    (xs, keep)
}

/// Successive calls of `next` on a filter yield, in order, the items of the underlying
/// iterator that the predicate accepts, each tested once: a run of the filter that yields `ys`
/// and then `Ok(None)` comes from a run of the underlying iterator that yields `xs` and then
/// `Ok(None)`, with a verdict on each of `xs` that is a result of the predicate on it, and `ys` the items
/// of `xs` whose verdict is `true`.
pub proof fn lemma_filter_yields<I: FallibleIterator, F: FnMut(&I::Item) -> bool>(
    fl: Filter<I, F>,
    ys: Seq<I::Item>,
    end: Filter<I, F>,
) -> (r: (Seq<I::Item>, Seq<bool>))
    requires
        ends_ok(rel_of::<Filter<I, F>>(), fl, ys, end),
    ensures
        ends_ok(rel_of::<I>(), fl.iter(), r.0, end.iter()),
        r.1.len() == r.0.len(),
        forall|i: int| 0 <= i < r.0.len() ==> call_ensures(fl.func(), (&r.0[i],), #[trigger] r.1[i]),
        kept(r.0, r.1) == ys,
{
    let rel_i = rel_of::<I>();
    assert(rel_of::<Filter<I, F>>() == (|a: Filter<I, F>, b: Filter<I, F>, o: Result<Option<I::Item>, I::Error>| filter_step(rel_i, a, b, o)));
    lemma_filter_yields_by(rel_i, fl, ys, end)
}

/// The same for `next_back`: successive calls of `next_back` on a filter yield, in order, the
/// items that `next_back` of the underlying iterator yields and the predicate accepts.
pub proof fn lemma_filter_yields_back<I: DoubleEndedFallibleIterator, F: FnMut(&I::Item) -> bool>(
    fl: Filter<I, F>,
    ys: Seq<I::Item>,
    end: Filter<I, F>,
) -> (r: (Seq<I::Item>, Seq<bool>))
    requires
        ends_ok(rel_back_of::<Filter<I, F>>(), fl, ys, end),
    ensures
        ends_ok(rel_back_of::<I>(), fl.iter(), r.0, end.iter()),
        r.1.len() == r.0.len(),
        forall|i: int| 0 <= i < r.0.len() ==> call_ensures(fl.func(), (&r.0[i],), #[trigger] r.1[i]),
        kept(r.0, r.1) == ys,
{
    let rel_i = rel_back_of::<I>();
    assert(rel_back_of::<Filter<I, F>>() == (|a: Filter<I, F>, b: Filter<I, F>, o: Result<Option<I::Item>, I::Error>| filter_step(rel_i, a, b, o)));
    lemma_filter_yields_by(rel_i, fl, ys, end)
}

/// The upper bound on the items of the underlying iterator is one on those of the filter,
/// whose lower bound is 0 (which `size_hint` returns).
pub proof fn lemma_filter_hint<I: FallibleIterator, F: FnMut(&I::Item) -> bool>(
    fl: Filter<I, F>,
    h: (usize, Option<usize>),
)
    requires
        hint_valid(rel_of::<I>(), fl.iter(), h),
    ensures
        hint_valid(rel_of::<Filter<I, F>>(), fl, (0, h.1)),
{
    let rel_f = rel_of::<Filter<I, F>>();
    let rel_i = rel_of::<I>();
    assert(rel_f == (|a: Filter<I, F>, b: Filter<I, F>, o: Result<Option<I::Item>, I::Error>| filter_step(rel_i, a, b, o)));
    assert forall|ys: Seq<I::Item>, end: Filter<I, F>| #[trigger] runs(rel_f, fl, yields(ys), end) implies (h.1 matches Some(
        u,
    ) ==> ys.len() <= u) by {
        let fs = choose|fs: Seq<Filter<I, F>>| steps(rel_f, fs, yields(ys)) && fs[0] == fl && fs.last() == end;
        let (s, xs, keep) = lemma_filter_inner_run(rel_i, fs, ys);
        assert(runs(rel_i, fl.iter(), yields(xs), end.iter()));
    }
}

/// The values of the `Some` verdicts among `os`, in order.
pub open spec fn somes<B>(os: Seq<Option<B>>) -> Seq<B>
    decreases os.len(),
{
    if os.len() == 0 {
        Seq::empty()
    } else {
        match os.last() {
            Some(y) => somes(os.drop_last()).push(y),
            None => somes(os.drop_last()),
        }
    }
}

/// One more verdict.
proof fn lemma_somes_push<B>(os: Seq<Option<B>>, o: Option<B>)
    ensures
        somes(os.push(o)) == match o {
            Some(y) => somes(os).push(y),
            None => somes(os),
        },
{
    assert(os.push(o).drop_last() =~= os);
}

/// `None` verdicts add nothing.
proof fn lemma_somes_nones<B>(os: Seq<Option<B>>, n: nat)
    ensures
        somes(os + Seq::new(n, |i: int| None::<B>)) == somes(os),
    decreases n,
{
    if n > 0 {
        let m = (n - 1) as nat;
        lemma_somes_nones(os, m);
        assert(os + Seq::new(n, |i: int| None::<B>) =~= (os + Seq::new(m, |i: int| None::<B>)).push(None));
        lemma_somes_push(os + Seq::new(m, |i: int| None::<B>), None);
    } else {
        assert(os + Seq::new(n, |i: int| None::<B>) =~= os);
    }
}

/// A run of items of a filter-map, as a run of items of the underlying iterator (through the
/// calls `rel`): with the transform's result on each of its items, a result of its call on the
/// item, the filter-map's items are the `Some` values among them.
proof fn lemma_filter_map_inner_run<B, I: FallibleIterator, F: FnMut(I::Item) -> Option<B>>(
    rel: StepRel<I, I::Item, I::Error>,
    fs: Seq<FilterMap<I, F>>,
    ys: Seq<B>,
) -> (r: (Seq<I>, Seq<I::Item>, Seq<Option<B>>))
    requires
        steps(|a: FilterMap<I, F>, b: FilterMap<I, F>, o: Result<Option<B>, I::Error>| filter_map_step(rel, a, b, o), fs, yields(ys)),
    ensures
        steps(rel, r.0, yields(r.1)),
        r.0[0] == fs[0].iter(),
        r.0.last() == fs.last().iter(),
        r.1.len() >= ys.len(),
        r.2.len() == r.1.len(),
        forall|i: int| 0 <= i < r.1.len() ==> call_ensures(fs[0].func(), (r.1[i],), #[trigger] r.2[i]),
        somes(r.2) == ys,
        fs.last().func() == fs[0].func(),
    decreases ys.len(),
{
    let rel_f = |a: FilterMap<I, F>, b: FilterMap<I, F>, o: Result<Option<B>, I::Error>| filter_map_step(rel, a, b, o);
    if ys.len() == 0 {
        let s0 = seq![fs[0].iter()];
        assert(steps(rel, s0, yields(Seq::<I::Item>::empty())));
        assert(ys =~= Seq::<B>::empty());
        (s0, Seq::<I::Item>::empty(), Seq::<Option<B>>::empty())
    } else {
        let k = ys.len() - 1;
        lemma_steps_prefix(rel_f, fs, yields(ys), k);
        assert(yields::<B, I::Error>(ys).subrange(0, k) =~= yields::<B, I::Error>(ys.subrange(0, k)));
        let (s1, x1, o1) = lemma_filter_map_inner_run(rel, fs.subrange(0, k + 1), ys.subrange(0, k));
        assert(step_at(rel_f, fs, yields(ys), k));
        let y = ys[k];
        assert(filter_map_step(rel, fs[k], fs[k + 1], Ok(Some(y))));
        let (skipped, last) = choose|skipped: Seq<I::Item>, last: Result<Option<I::Item>, I::Error>|
            #[trigger] runs(rel, fs[k].iter(), yields(skipped).push(last), fs[k + 1].iter()) && all_items(
                skipped,
                drops(fs[k].func()),
            ) && match last {
                Ok(Some(x)) => Ok::<Option<B>, I::Error>(Some(y)) matches Ok(Some(z)) && call_ensures(fs[k].func(), (x,), Some(z)),
                Ok(None) => Ok::<Option<B>, I::Error>(Some(y)) == Ok::<Option<B>, I::Error>(None),
                Err(e) => Ok::<Option<B>, I::Error>(Some(y)) == Err::<Option<B>, I::Error>(e),
            };
        let x = last->Ok_0->Some_0;
        assert(last == Ok::<Option<I::Item>, I::Error>(Some(x)));
        lemma_yields_push::<I::Item, I::Error>(skipped, x);
        let s2 = choose|s2: Seq<I>|
            steps(rel, s2, yields(skipped.push(x))) && s2[0] == fs[k].iter() && s2.last() == fs[k
                + 1].iter();
        lemma_steps_concat(rel, s1, x1, s2, skipped.push(x));
        let nones = Seq::new(skipped.len(), |i: int| None::<B>);
        lemma_somes_nones(o1, skipped.len());
        lemma_somes_push(o1 + nones, Some(y));
        let xs = x1 + skipped.push(x);
        let os = o1 + nones.push(Some(y));
        assert(os =~= (o1 + nones).push(Some(y)));
        assert(ys =~= ys.subrange(0, k).push(y));
        let f0 = fs[0].func();
        assert(fs.subrange(0, k + 1).last() == fs[k]);
        assert forall|i: int| 0 <= i < xs.len() implies call_ensures(f0, (xs[i],), #[trigger] os[i]) by {
            if i < x1.len() {
                assert(xs[i] == x1[i] && os[i] == o1[i]);
            } else if i < x1.len() + skipped.len() {
                let j = i - x1.len();
                assert(xs[i] == skipped[j] && os[i] == None::<B>);
                assert(drops(fs[k].func())(skipped[j]));
            } else {
                assert(xs[i] == x && os[i] == Some(y));
            }
        }
        (s1 + s2.drop_first(), xs, os)
    }
}

/// Successive calls of `next` on a filter-map (or of `next_back`, through `rel`) yield, in
/// order, the `Some` results of the transform on the items of the underlying iterator (see
/// `lemma_filter_map_yields`).
proof fn lemma_filter_map_yields_by<B, I: FallibleIterator, F: FnMut(I::Item) -> Option<B>>(
    rel: StepRel<I, I::Item, I::Error>,
    fm: FilterMap<I, F>,
    ys: Seq<B>,
    end: FilterMap<I, F>,
) -> (r: (Seq<I::Item>, Seq<Option<B>>))
    requires
        ends_ok(|a: FilterMap<I, F>, b: FilterMap<I, F>, o: Result<Option<B>, I::Error>| filter_map_step(rel, a, b, o), fm, ys, end),
    ensures
        ends_ok(rel, fm.iter(), r.0, end.iter()),
        r.1.len() == r.0.len(),
        forall|i: int| 0 <= i < r.0.len() ==> call_ensures(fm.func(), (r.0[i],), #[trigger] r.1[i]),
        somes(r.1) == ys,
{
    let rel_f = |a: FilterMap<I, F>, b: FilterMap<I, F>, o: Result<Option<B>, I::Error>| filter_map_step(rel, a, b, o);
    let outs = yields::<B, I::Error>(ys).push(Ok(None));
    let fs = choose|fs: Seq<FilterMap<I, F>>| steps(rel_f, fs, outs) && fs[0] == fm && fs.last() == end;
    let n = ys.len() as int;
    lemma_steps_prefix(rel_f, fs, outs, n);
    assert(outs.subrange(0, n) =~= yields::<B, I::Error>(ys));
    let (s1, x1, o1) = lemma_filter_map_inner_run(rel, fs.subrange(0, n + 1), ys);
    assert(fs.subrange(0, n + 1).last() == fs[n]);
    assert(step_at(rel_f, fs, outs, n));
    assert(filter_map_step(rel, fs[n], fs[n + 1], Ok(None)));
    let (skipped, last) = choose|skipped: Seq<I::Item>, last: Result<Option<I::Item>, I::Error>|
        #[trigger] runs(rel, fs[n].iter(), yields(skipped).push(last), fs[n + 1].iter()) && all_items(
            skipped,
            drops(fs[n].func()),
        ) && match last {
            Ok(Some(x)) => Ok::<Option<B>, I::Error>(None) matches Ok(Some(z)) && call_ensures(fs[n].func(), (x,), Some(z)),
            Ok(None) => Ok::<Option<B>, I::Error>(None) == Ok::<Option<B>, I::Error>(None),
            Err(e) => Ok::<Option<B>, I::Error>(None) == Err::<Option<B>, I::Error>(e),
        };
    assert(last == Ok::<Option<I::Item>, I::Error>(None));
    let souts = yields::<I::Item, I::Error>(skipped).push(Ok(None));
    let s2 = choose|s2: Seq<I>| steps(rel, s2, souts) && s2[0] == fs[n].iter() && s2.last() == fs[n + 1].iter();
    let m = skipped.len() as int;
    lemma_steps_prefix(rel, s2, souts, m);
    assert(souts.subrange(0, m) =~= yields::<I::Item, I::Error>(skipped));
    let s2p = s2.subrange(0, m + 1);
    lemma_steps_concat(rel, s1, x1, s2p, skipped);
    let ss = s1 + s2p.drop_first();
    assert(step_at(rel, s2, souts, m));
    assert(ss.last() == s2[m]);
    lemma_steps_push(rel, ss, yields(x1 + skipped), s2[m + 1], Ok(None));
    assert(ends_ok(rel, fm.iter(), x1 + skipped, end.iter()));
    let nones = Seq::new(skipped.len(), |i: int| None::<B>);
    lemma_somes_nones(o1, skipped.len());
    let xs = x1 + skipped;
    let os = o1 + nones;
    assert forall|i: int| 0 <= i < xs.len() implies call_ensures(fm.func(), (xs[i],), #[trigger] os[i]) by {
        if i < x1.len() {
            assert(xs[i] == x1[i] && os[i] == o1[i]);
        } else {
            let j = i - x1.len();
            assert(xs[i] == skipped[j] && os[i] == None::<B>);
            assert(drops(fs[n].func())(skipped[j]));
        }
    }
    (xs, os)
}

/// Successive calls of `next` on a filter-map yield, in order, the `Some` results of the
/// transform on the items of the underlying iterator, each transformed once: a run of the
/// filter-map that yields `ys` and then `Ok(None)` comes from a run of the underlying iterator
/// that yields `xs` and then `Ok(None)`, with a result of the transform's call on each of `xs`, and `ys` the values of the `Some` results.
pub proof fn lemma_filter_map_yields<B, I: FallibleIterator, F: FnMut(I::Item) -> Option<B>>(
    fm: FilterMap<I, F>,
    ys: Seq<B>,
    end: FilterMap<I, F>,
) -> (r: (Seq<I::Item>, Seq<Option<B>>))
    requires
        ends_ok(rel_of::<FilterMap<I, F>>(), fm, ys, end),
    ensures
        ends_ok(rel_of::<I>(), fm.iter(), r.0, end.iter()),
        r.1.len() == r.0.len(),
        forall|i: int| 0 <= i < r.0.len() ==> call_ensures(fm.func(), (r.0[i],), #[trigger] r.1[i]),
        somes(r.1) == ys,
{
    let rel_i = rel_of::<I>();
    assert(rel_of::<FilterMap<I, F>>() == (|a: FilterMap<I, F>, b: FilterMap<I, F>, o: Result<Option<B>, I::Error>| filter_map_step(rel_i, a, b, o)));
    lemma_filter_map_yields_by(rel_i, fm, ys, end)
}

/// The same for `next_back`: successive calls of `next_back` on a filter-map yield, in order,
/// the `Some` results of the transform on what `next_back` of the underlying iterator yields.
pub proof fn lemma_filter_map_yields_back<B, I: DoubleEndedFallibleIterator, F: FnMut(I::Item) -> Option<B>>(
    fm: FilterMap<I, F>,
    ys: Seq<B>,
    end: FilterMap<I, F>,
) -> (r: (Seq<I::Item>, Seq<Option<B>>))
    requires
        ends_ok(rel_back_of::<FilterMap<I, F>>(), fm, ys, end),
    ensures
        ends_ok(rel_back_of::<I>(), fm.iter(), r.0, end.iter()),
        r.1.len() == r.0.len(),
        forall|i: int| 0 <= i < r.0.len() ==> call_ensures(fm.func(), (r.0[i],), #[trigger] r.1[i]),
        somes(r.1) == ys,
{
    let rel_i = rel_back_of::<I>();
    assert(rel_back_of::<FilterMap<I, F>>() == (|a: FilterMap<I, F>, b: FilterMap<I, F>, o: Result<Option<B>, I::Error>| filter_map_step(rel_i, a, b, o)));
    lemma_filter_map_yields_by(rel_i, fm, ys, end)
}

/// The upper bound on the items of the underlying iterator is one on those of the filter-map,
/// whose lower bound is 0 (which `size_hint` returns).
pub proof fn lemma_filter_map_hint<B, I: FallibleIterator, F: FnMut(I::Item) -> Option<B>>(
    fm: FilterMap<I, F>,
    h: (usize, Option<usize>),
)
    requires
        hint_valid(rel_of::<I>(), fm.iter(), h),
    ensures
        hint_valid(rel_of::<FilterMap<I, F>>(), fm, (0, h.1)),
{
    let rel_f = rel_of::<FilterMap<I, F>>();
    let rel_i = rel_of::<I>();
    assert(rel_f == (|a: FilterMap<I, F>, b: FilterMap<I, F>, o: Result<Option<B>, I::Error>| filter_map_step(rel_i, a, b, o)));
    assert forall|ys: Seq<B>, end: FilterMap<I, F>| #[trigger] runs(rel_f, fm, yields(ys), end) implies (h.1 matches Some(
        u,
    ) ==> ys.len() <= u) by {
        let fs = choose|fs: Seq<FilterMap<I, F>>| steps(rel_f, fs, yields(ys)) && fs[0] == fm && fs.last() == end;
        let (s, xs, os) = lemma_filter_map_inner_run(rel_i, fs, ys);
        assert(runs(rel_i, fm.iter(), yields(xs), end.iter()));
    }
}

/// `kept`, seen from the first item.
proof fn lemma_kept_cons<T>(xs: Seq<T>, keep: Seq<bool>)
    requires
        keep.len() == xs.len(),
        xs.len() > 0,
    ensures
        kept(xs, keep) == (if keep[0] {
            seq![xs[0]]
        } else {
            Seq::<T>::empty()
        }) + kept(xs.drop_first(), keep.drop_first()),
    decreases xs.len(),
{
    let n = xs.len() as int;
    let head = if keep[0] {
        seq![xs[0]]
    } else {
        Seq::<T>::empty()
    };
    if n == 1 {
        assert(xs.drop_last() =~= Seq::<T>::empty());
        assert(xs.drop_first() =~= Seq::<T>::empty());
        assert(kept(Seq::<T>::empty(), keep) =~= Seq::<T>::empty());
        assert(head + Seq::<T>::empty() =~= head);
        if keep[0] {
            assert(Seq::<T>::empty().push(xs[0]) =~= seq![xs[0]]);
        }
    } else {
        let xl = xs.drop_last();
        let kl = keep.drop_last();
        lemma_kept_prefix(xl, keep, kl);
        lemma_kept_cons(xl, kl);
        let xf = xs.drop_first();
        let kf = keep.drop_first();
        assert(xf.drop_last() =~= xl.drop_first());
        lemma_kept_prefix(xl.drop_first(), kf, kl.drop_first());
        assert(kf[xf.len() - 1] == keep[n - 1]);
        assert(xf.last() == xs.last());
        if keep[n - 1] {
            assert(head + kept(xl.drop_first(), kl.drop_first()).push(xs.last()) =~= (head + kept(
                xl.drop_first(),
                kl.drop_first(),
            )).push(xs.last()));
        }
    }
}

/// Runs of the underlying iterator (through `rel`) with a result of the predicate on each item
/// make a run of a filter: it yields the items whose result is `true`, in order.
proof fn lemma_filter_from_inner_by<I: FallibleIterator, F: FnMut(&I::Item) -> bool>(
    rel: StepRel<I, I::Item, I::Error>,
    f: F,
    is: Seq<I>,
    xs: Seq<I::Item>,
    keep: Seq<bool>,
) -> (fs: Seq<Filter<I, F>>)
    requires
        steps(rel, is, yields(xs).push(Ok(None))),
        keep.len() == xs.len(),
        forall|i: int| 0 <= i < xs.len() ==> call_ensures(f, (&xs[i],), #[trigger] keep[i]),
    ensures
        steps(|a: Filter<I, F>, b: Filter<I, F>, o: Result<Option<I::Item>, I::Error>| filter_step(rel, a, b, o), fs, yields(kept(xs, keep)).push(Ok(None))),
        fs[0] == (Filter { it: is[0], f }),
        fs.last() == (Filter { it: is.last(), f }),
    decreases xs.len(),
{
    let rel_f = |a: Filter<I, F>, b: Filter<I, F>, o: Result<Option<I::Item>, I::Error>| filter_step(rel, a, b, o);
    let outs = yields::<I::Item, I::Error>(xs).push(Ok(None));
    if xs.len() == 0 {
        let fs = seq![Filter { it: is[0], f }, Filter { it: is[1], f }];
        assert(step_at(rel, is, outs, 0));
        assert(kept(xs, keep) =~= Seq::<I::Item>::empty());
        let fouts = yields::<I::Item, I::Error>(Seq::<I::Item>::empty()).push(Ok(None));
        assert(outs =~= fouts);
        assert(steps(rel, is, yields(Seq::<I::Item>::empty()).push(Ok(None))));
        assert(runs(rel, fs[0].iter(), yields(Seq::<I::Item>::empty()).push(Ok(None)), fs[1].iter()));
        assert(all_items(Seq::<I::Item>::empty(), rejects(f)));
        assert(filter_step(rel, fs[0], fs[1], Ok(None)));
        assert(step_at(rel_f, fs, fouts, 0));
        fs
    } else {
        lemma_steps_drop_first(rel, is, outs);
        lemma_yields_drop_first(xs, Ok::<Option<I::Item>, I::Error>(None));
        let xf = xs.drop_first();
        let kf = keep.drop_first();
        assert forall|i: int| 0 <= i < xf.len() implies call_ensures(f, (&xf[i],), #[trigger] kf[i]) by {
            assert(call_ensures(f, (&xs[i + 1],), keep[i + 1]));
        }
        let fs1 = lemma_filter_from_inner_by(rel, f, is.drop_first(), xf, kf);
        lemma_kept_cons(xs, keep);
        let ys1 = kept(xf, kf);
        let outs1 = yields::<I::Item, I::Error>(ys1).push(Ok(None));
        assert(step_at(rel, is, outs, 0));
        assert(outs[0] == Ok::<Option<I::Item>, I::Error>(Some(xs[0])));
        assert(call_ensures(f, (&xs[0],), keep[0]));
        if keep[0] {
            let fs = seq![Filter { it: is[0], f }] + fs1;
            let ys = seq![xs[0]] + ys1;
            let fouts = yields::<I::Item, I::Error>(ys).push(Ok(None));
            assert(fouts =~= seq![Ok::<Option<I::Item>, I::Error>(Some(xs[0]))] + outs1);
            let one = seq![is[0], is[1]];
            assert(step_at(rel, one, yields(Seq::<I::Item>::empty()).push(Ok(Some(xs[0]))), 0));
            assert(steps(rel, one, yields(Seq::<I::Item>::empty()).push(Ok(Some(xs[0])))));
            assert(runs(rel, is[0], yields(Seq::<I::Item>::empty()).push(Ok(Some(xs[0]))), is[1]));
            assert(all_items(Seq::<I::Item>::empty(), rejects(f)));
            assert(is.drop_first()[0] == is[1]);
            assert(fs[1] == fs1[0]);
            assert(fs[0].iter() == is[0] && fs[1].iter() == is[1] && fs[1].func() == fs[0].func());
            assert(filter_step(rel, fs[0], fs[1], Ok(Some(xs[0]))));
            assert forall|k: int| 0 <= k < fouts.len() implies #[trigger] step_at(rel_f, fs, fouts, k) by {
                if k > 0 {
                    assert(step_at(rel_f, fs1, outs1, k - 1));
                }
            }
            assert(fs.last() == fs1.last());
            fs
        } else {
            assert(kept(xs, keep) =~= ys1);
            assert(step_at(rel_f, fs1, outs1, 0));
            assert(filter_step(rel, fs1[0], fs1[1], outs1[0]));
            let s = choose|s: Seq<I::Item>|
                #[trigger] runs(rel, fs1[0].iter(), yields(s).push(outs1[0]), fs1[1].iter())
                    && all_items(s, rejects(fs1[0].func()))
                    && (outs1[0] matches Ok(Some(x)) ==> call_ensures(fs1[0].func(), (&x,), true));
            let so = yields::<I::Item, I::Error>(s).push(outs1[0]);
            let ss = choose|ss: Seq<I>| steps(rel, ss, so) && ss[0] == fs1[0].iter() && ss.last() == fs1[1].iter();
            let s2 = seq![xs[0]] + s;
            let so2 = yields::<I::Item, I::Error>(s2).push(outs1[0]);
            let ss2 = seq![is[0]] + ss;
            assert(so2 =~= seq![Ok::<Option<I::Item>, I::Error>(Some(xs[0]))] + so);
            assert(is.drop_first()[0] == is[1]);
            assert(ss[0] == is[1]);
            assert forall|k: int| 0 <= k < so2.len() implies #[trigger] step_at(rel, ss2, so2, k) by {
                assert(ss2[k + 1] == ss[k]);
                if k > 0 {
                    assert(ss2[k] == ss[k - 1]);
                    assert(so2[k] == so[k - 1]);
                    assert(step_at(rel, ss, so, k - 1));
                } else {
                    assert(so2[0] == Ok::<Option<I::Item>, I::Error>(Some(xs[0])));
                }
            }
            assert(ss2.last() == ss.last());
            assert(steps(rel, ss2, so2));
            assert(runs(rel, is[0], so2, fs1[1].iter()));
            assert forall|k: int| 0 <= k < s2.len() implies #[trigger] rejects(f)(s2[k]) by {
                if k > 0 {
                    assert(rejects(fs1[0].func())(s[k - 1]));
                }
            }
            let fs = fs1.update(0, Filter { it: is[0], f });
            assert(fs[1] == fs1[1] && fs1[0].func() == f && fs1[1].func() == f);
            assert(all_items(s2, rejects(f)));
            assert(runs(rel, fs[0].iter(), yields(s2).push(outs1[0]), fs[1].iter()));
            assert(filter_step(rel, fs[0], fs[1], outs1[0]));
            assert forall|k: int| 0 <= k < outs1.len() implies #[trigger] step_at(rel_f, fs, outs1, k) by {
                assert(step_at(rel_f, fs1, outs1, k));
            }
            fs
        }
    }
}

/// Conversely to `lemma_filter_yields`: when the underlying iterator yields `xs` and then
/// `Ok(None)`, and `keep` holds a result of the predicate on each of `xs`, the filter has a
/// run that yields the items of `xs` whose result is `true`, in order, and then `Ok(None)`.
pub proof fn lemma_filter_from_inner<I: FallibleIterator, F: FnMut(&I::Item) -> bool>(
    fl: Filter<I, F>,
    xs: Seq<I::Item>,
    keep: Seq<bool>,
    iend: I,
) -> (end: Filter<I, F>)
    requires
        ends_ok(rel_of::<I>(), fl.iter(), xs, iend),
        keep.len() == xs.len(),
        forall|i: int| 0 <= i < xs.len() ==> call_ensures(fl.func(), (&xs[i],), #[trigger] keep[i]),
    ensures
        ends_ok(rel_of::<Filter<I, F>>(), fl, kept(xs, keep), end),
        end.iter() == iend,
        end.func() == fl.func(),
{
    let rel_i = rel_of::<I>();
    assert(rel_of::<Filter<I, F>>() == (|a: Filter<I, F>, b: Filter<I, F>, o: Result<Option<I::Item>, I::Error>| filter_step(rel_i, a, b, o)));
    let is = choose|is: Seq<I>| steps(rel_i, is, yields(xs).push(Ok(None))) && is[0] == fl.it && is.last() == iend;
    let fs = lemma_filter_from_inner_by(rel_i, fl.f, is, xs, keep);
    assert(fs[0] == fl);
    fs.last()
}

/// `somes`, seen from the first result.
proof fn lemma_somes_cons<B>(os: Seq<Option<B>>)
    requires
        os.len() > 0,
    ensures
        somes(os) == (match os[0] {
            Some(y) => seq![y],
            None => Seq::<B>::empty(),
        }) + somes(os.drop_first()),
    decreases os.len(),
{
    let n = os.len() as int;
    let head = match os[0] {
        Some(y) => seq![y],
        None => Seq::<B>::empty(),
    };
    if n == 1 {
        assert(os.drop_last() =~= Seq::<Option<B>>::empty());
        assert(os.drop_first() =~= Seq::<Option<B>>::empty());
        assert(head + Seq::<B>::empty() =~= head);
        if os[0] is Some {
            assert(Seq::<B>::empty().push(os[0]->Some_0) =~= seq![os[0]->Some_0]);
        }
    } else {
        let ol = os.drop_last();
        lemma_somes_cons(ol);
        let of = os.drop_first();
        assert(of.drop_last() =~= ol.drop_first());
        assert(of.last() == os.last());
        if os.last() is Some {
            assert(head + somes(ol.drop_first()).push(os.last()->Some_0) =~= (head + somes(
                ol.drop_first(),
            )).push(os.last()->Some_0));
        }
    }
}

/// Runs of the underlying iterator (through `rel`) with a result of the transform on each item
/// make a run of a filter-map: it yields the values of the `Some` results, in order.
proof fn lemma_filter_map_from_inner_by<B, I: FallibleIterator, F: FnMut(I::Item) -> Option<B>>(
    rel: StepRel<I, I::Item, I::Error>,
    f: F,
    is: Seq<I>,
    xs: Seq<I::Item>,
    os: Seq<Option<B>>,
) -> (fs: Seq<FilterMap<I, F>>)
    requires
        steps(rel, is, yields(xs).push(Ok(None))),
        os.len() == xs.len(),
        forall|i: int| 0 <= i < xs.len() ==> call_ensures(f, (xs[i],), #[trigger] os[i]),
    ensures
        steps(|a: FilterMap<I, F>, b: FilterMap<I, F>, o: Result<Option<B>, I::Error>| filter_map_step(rel, a, b, o), fs, yields(somes(os)).push(Ok(None))),
        fs[0] == (FilterMap { it: is[0], f }),
        fs.last() == (FilterMap { it: is.last(), f }),
    decreases xs.len(),
{
    let rel_f = |a: FilterMap<I, F>, b: FilterMap<I, F>, o: Result<Option<B>, I::Error>| filter_map_step(rel, a, b, o);
    let outs = yields::<I::Item, I::Error>(xs).push(Ok(None));
    if xs.len() == 0 {
        let fs = seq![FilterMap { it: is[0], f }, FilterMap { it: is[1], f }];
        assert(step_at(rel, is, outs, 0));
        assert(somes(os) =~= Seq::<B>::empty());
        let fouts = yields::<B, I::Error>(Seq::<B>::empty()).push(Ok(None));
        assert(outs =~= yields::<I::Item, I::Error>(Seq::<I::Item>::empty()).push(Ok(None)));
        assert(runs(rel, fs[0].iter(), yields(Seq::<I::Item>::empty()).push(Ok(None)), fs[1].iter()));
        assert(all_items(Seq::<I::Item>::empty(), drops(f)));
        assert(filter_map_step(rel, fs[0], fs[1], Ok(None)));
        assert(step_at(rel_f, fs, fouts, 0));
        fs
    } else {
        lemma_steps_drop_first(rel, is, outs);
        lemma_yields_drop_first(xs, Ok::<Option<I::Item>, I::Error>(None));
        let xf = xs.drop_first();
        let of = os.drop_first();
        assert forall|i: int| 0 <= i < xf.len() implies call_ensures(f, (xf[i],), #[trigger] of[i]) by {
            assert(call_ensures(f, (xs[i + 1],), os[i + 1]));
        }
        let fs1 = lemma_filter_map_from_inner_by(rel, f, is.drop_first(), xf, of);
        lemma_somes_cons(os);
        let ys1 = somes(of);
        let outs1 = yields::<B, I::Error>(ys1).push(Ok(None));
        assert(step_at(rel, is, outs, 0));
        assert(outs[0] == Ok::<Option<I::Item>, I::Error>(Some(xs[0])));
        assert(call_ensures(f, (xs[0],), os[0]));
        assert(is.drop_first()[0] == is[1]);
        if os[0] is Some {
            let y = os[0]->Some_0;
            let fs = seq![FilterMap { it: is[0], f }] + fs1;
            let ys = seq![y] + ys1;
            let fouts = yields::<B, I::Error>(ys).push(Ok(None));
            assert(fouts =~= seq![Ok::<Option<B>, I::Error>(Some(y))] + outs1);
            let one = seq![is[0], is[1]];
            assert(step_at(rel, one, yields(Seq::<I::Item>::empty()).push(Ok(Some(xs[0]))), 0));
            assert(steps(rel, one, yields(Seq::<I::Item>::empty()).push(Ok(Some(xs[0])))));
            assert(all_items(Seq::<I::Item>::empty(), drops(f)));
            assert(fs[1] == fs1[0]);
            assert(fs[0].iter() == is[0] && fs[1].iter() == is[1] && fs[1].func() == fs[0].func());
            assert(runs(rel, fs[0].iter(), yields(Seq::<I::Item>::empty()).push(Ok(Some(xs[0]))), fs[1].iter()));
            assert(filter_map_step(rel, fs[0], fs[1], Ok(Some(y))));
            assert forall|k: int| 0 <= k < fouts.len() implies #[trigger] step_at(rel_f, fs, fouts, k) by {
                if k > 0 {
                    assert(step_at(rel_f, fs1, outs1, k - 1));
                }
            }
            assert(fs.last() == fs1.last());
            fs
        } else {
            assert(somes(os) =~= ys1);
            assert(step_at(rel_f, fs1, outs1, 0));
            assert(filter_map_step(rel, fs1[0], fs1[1], outs1[0]));
            let (s, last) = choose|s: Seq<I::Item>, last: Result<Option<I::Item>, I::Error>|
                #[trigger] runs(rel, fs1[0].iter(), yields(s).push(last), fs1[1].iter()) && all_items(
                    s,
                    drops(fs1[0].func()),
                ) && match last {
                    Ok(Some(x)) => outs1[0] matches Ok(Some(z)) && call_ensures(fs1[0].func(), (x,), Some(z)),
                    Ok(None) => outs1[0] == Ok::<Option<B>, I::Error>(None),
                    Err(e) => outs1[0] == Err::<Option<B>, I::Error>(e),
                };
            let so = yields::<I::Item, I::Error>(s).push(last);
            let ss = choose|ss: Seq<I>| steps(rel, ss, so) && ss[0] == fs1[0].iter() && ss.last() == fs1[1].iter();
            let s2 = seq![xs[0]] + s;
            let so2 = yields::<I::Item, I::Error>(s2).push(last);
            let ss2 = seq![is[0]] + ss;
            assert(so2 =~= seq![Ok::<Option<I::Item>, I::Error>(Some(xs[0]))] + so);
            assert(ss[0] == is[1]);
            assert forall|k: int| 0 <= k < so2.len() implies #[trigger] step_at(rel, ss2, so2, k) by {
                assert(ss2[k + 1] == ss[k]);
                if k > 0 {
                    assert(ss2[k] == ss[k - 1]);
                    assert(so2[k] == so[k - 1]);
                    assert(step_at(rel, ss, so, k - 1));
                } else {
                    assert(so2[0] == Ok::<Option<I::Item>, I::Error>(Some(xs[0])));
                }
            }
            assert(ss2.last() == ss.last());
            assert(steps(rel, ss2, so2));
            assert forall|k: int| 0 <= k < s2.len() implies #[trigger] drops(f)(s2[k]) by {
                if k > 0 {
                    assert(drops(fs1[0].func())(s[k - 1]));
                } else {
                    assert(os[0] == None::<B>);
                }
            }
            let fs = fs1.update(0, FilterMap { it: is[0], f });
            assert(fs[1] == fs1[1] && fs1[0].func() == f && fs1[1].func() == f);
            assert(all_items(s2, drops(f)));
            assert(runs(rel, fs[0].iter(), yields(s2).push(last), fs[1].iter()));
            assert(filter_map_step(rel, fs[0], fs[1], outs1[0]));
            assert forall|k: int| 0 <= k < outs1.len() implies #[trigger] step_at(rel_f, fs, outs1, k) by {
                assert(step_at(rel_f, fs1, outs1, k));
            }
            fs
        }
    }
}

/// Conversely to `lemma_filter_map_yields`: when the underlying iterator yields `xs` and then
/// `Ok(None)`, and `os` holds a result of the transform on each of `xs`, the filter-map has a
/// run that yields the values of the `Some` results, in order, and then `Ok(None)`.
pub proof fn lemma_filter_map_from_inner<B, I: FallibleIterator, F: FnMut(I::Item) -> Option<B>>(
    fm: FilterMap<I, F>,
    xs: Seq<I::Item>,
    os: Seq<Option<B>>,
    iend: I,
) -> (end: FilterMap<I, F>)
    requires
        ends_ok(rel_of::<I>(), fm.iter(), xs, iend),
        os.len() == xs.len(),
        forall|i: int| 0 <= i < xs.len() ==> call_ensures(fm.func(), (xs[i],), #[trigger] os[i]),
    ensures
        ends_ok(rel_of::<FilterMap<I, F>>(), fm, somes(os), end),
        end.iter() == iend,
        end.func() == fm.func(),
{
    let rel_i = rel_of::<I>();
    assert(rel_of::<FilterMap<I, F>>() == (|a: FilterMap<I, F>, b: FilterMap<I, F>, o: Result<Option<B>, I::Error>| filter_map_step(rel_i, a, b, o)));
    let is = choose|is: Seq<I>| steps(rel_i, is, yields(xs).push(Ok(None))) && is[0] == fm.it && is.last() == iend;
    let fs = lemma_filter_map_from_inner_by(rel_i, fm.f, is, xs, os);
    assert(fs[0] == fm);
    fs.last()
}

} // verus!
