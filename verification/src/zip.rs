//! `Zip`: pairs of the items of two iterators.
use vstd::prelude::*;

use crate::iterator::{rel_of, size_hint_of, FallibleIterator};
use crate::run::{
    deterministic, lemma_runs_unique, ends_ok, hint_valid, lemma_project_run, lemma_steps_prefix, lemma_steps_push, runs, step_at,
    steps, yields,
};

verus! {

/// An iterator that yields pairs of this iterator's and another iterator's
/// values.
#[derive(Debug)]
pub struct Zip<T, U>(T, U);

impl<T, U> Zip<T, U> {
    /// The iterator whose items come first in the pairs.
    pub closed spec fn first(&self) -> T {
        self.0
    }

    /// The iterator whose items come second in the pairs.
    pub closed spec fn second(&self) -> U {
        self.1
    }

    /// The pairs of items of `a` and `b`.
    pub(crate) fn new(a: T, b: U) -> (r: Self)
        ensures
            r.first() == a,
            r.second() == b,
    {
        Zip(a, b)
    }
}

/// The smaller of two counts.
pub open spec fn min_usize(a: usize, b: usize) -> usize {
    if a < b {
        a
    } else {
        b
    }
}

/// The bounds on the length of a zip, from those of its two iterators: the smaller lower bound,
/// and the smaller of the known upper bounds.
pub open spec fn zip_hint_spec(a: (usize, Option<usize>), b: (usize, Option<usize>)) -> (usize, Option<usize>) {
    (
        min_usize(a.0, b.0),
        match (a.1, b.1) {
            (Some(x), Some(y)) => Some(min_usize(x, y)),
            (Some(x), None) => Some(x),
            (None, Some(y)) => Some(y),
            (None, None) => None,
        },
    )
}

/// Computes `zip_hint_spec`.
pub fn zip_hint(a: (usize, Option<usize>), b: (usize, Option<usize>)) -> (r: (usize, Option<usize>))
    ensures
        r == zip_hint_spec(a, b),
{
    let low = if a.0 < b.0 {
        a.0
    } else {
        b.0
    };

    let high = match (a.1, b.1) {
        (Some(a), Some(b)) => Some(
            if a < b {
                a
            } else {
                b
            },
        ),
        (Some(a), None) => Some(a),
        (None, Some(b)) => Some(b),
        (None, None) => None,
    };

    (low, high)
}

/// A call of `next` on `z` is allowed: the call on the first iterator is, and so is the one on
/// the second, which is made whenever the first call succeeds.
pub open spec fn zip_can<T: FallibleIterator, U: FallibleIterator<Error = T::Error>>(
    z: Zip<T, U>,
) -> bool {
    &&& z.first().can_next()
    &&& forall|a2: T, o: Option<T::Item>|
        #[trigger] z.first().next_rel(&a2, Ok(o)) ==> z.second().can_next()
}

/// One call of `next` on `z`: a call on the first iterator, then, unless it fails, one on the
/// second; a pair when both yield an item, `Ok(None)` when either ends, and the first error.
pub open spec fn zip_step<T: FallibleIterator, U: FallibleIterator<Error = T::Error>>(
    z: Zip<T, U>,
    post: Zip<T, U>,
    r: Result<Option<(T::Item, U::Item)>, T::Error>,
) -> bool {
    match r {
        Ok(Some((a, b))) => {
            &&& z.first().next_rel(&post.first(), Ok(Some(a)))
            &&& z.second().next_rel(&post.second(), Ok(Some(b)))
        },
        Ok(None) => exists|oa: Option<T::Item>, ob: Option<U::Item>|
            {
                &&& #[trigger] z.first().next_rel(&post.first(), Ok(oa))
                &&& #[trigger] z.second().next_rel(&post.second(), Ok(ob))
                &&& oa is None || ob is None
            },
        Err(e) => {
            ||| {
                &&& z.first().next_rel(&post.first(), Err(e))
                &&& post.second() == z.second()
            }
            ||| exists|oa: Option<T::Item>|
                {
                    &&& #[trigger] z.first().next_rel(&post.first(), Ok(oa))
                    &&& z.second().next_rel(&post.second(), Err(e))
                }
        },
    }
}

impl<T, U> FallibleIterator for Zip<T, U> where
    T: FallibleIterator,
    U: FallibleIterator<Error = T::Error>,
 {
    type Item = (T::Item, U::Item);

    type Error = T::Error;

    open spec fn can_next(&self) -> bool {
        zip_can(*self)
    }

    open spec fn next_rel(&self, post: &Self, r: Result<Option<(T::Item, U::Item)>, T::Error>) -> bool {
        zip_step(*self, *post, r)
    }

    fn next(&mut self) -> (r: Result<Option<(T::Item, U::Item)>, T::Error>) {
        let ghost z = *self;
        let a = match self.0.next() {
            Ok(a) => a,
            Err(e) => {
                assert(zip_step(z, *self, Err(e)));
                return Err(e);
            },
        };
        let ghost ga = a;
        assert(z.first().next_rel(&self.first(), Ok(ga)));
        let b = match self.1.next() {
            Ok(b) => b,
            Err(e) => {
                assert(z.second().next_rel(&self.second(), Err(e)));
                assert(zip_step(z, *self, Err(e)));
                return Err(e);
            },
        };
        let ghost gb = b;
        assert(z.second().next_rel(&self.second(), Ok(gb)));
        match (a, b) {
            (Some(a), Some(b)) => {
                assert(zip_step(z, *self, Ok(Some((a, b)))));
                Ok(Some((a, b)))
            },
            _ => {
                assert(ga is None || gb is None);
                assert(z.first().next_rel(&self.first(), Ok(ga)) && z.second().next_rel(
                    &self.second(),
                    Ok(gb),
                ));
                assert(zip_step(z, *self, Ok(None)));
                Ok(None)
            },
        }
    }

    fn size_hint(&self) -> (r: (usize, Option<usize>))
        ensures
            exists|ha: (usize, Option<usize>), hb: (usize, Option<usize>)|
                #![trigger call_ensures(size_hint_of::<T>, (&self.first(),), ha), call_ensures(size_hint_of::<U>, (&self.second(),), hb)]
                {
                    &&& call_ensures(size_hint_of::<T>, (&self.first(),), ha)
                    &&& call_ensures(size_hint_of::<U>, (&self.second(),), hb)
                    &&& r == zip_hint_spec(ha, hb)
                },
    {
        let a = size_hint_of(&self.0);
        let b = size_hint_of(&self.1);
        assert(call_ensures(size_hint_of::<T>, (&self.first(),), a));
        assert(call_ensures(size_hint_of::<U>, (&self.second(),), b));
        zip_hint(a, b)
    }
}

/// The bounds on the items of the two iterators, combined, are bounds on the pairs of the zip
/// (which `size_hint` returns).
pub proof fn lemma_zip_hint<T: FallibleIterator, U: FallibleIterator<Error = T::Error>>(
    z: Zip<T, U>,
    ha: (usize, Option<usize>),
    hb: (usize, Option<usize>),
)
    requires
        hint_valid(rel_of::<T>(), z.first(), ha),
        hint_valid(rel_of::<U>(), z.second(), hb),
    ensures
        hint_valid(rel_of::<Zip<T, U>>(), z, zip_hint_spec(ha, hb)),
{
    let rel_z = rel_of::<Zip<T, U>>();
    let rel_a = rel_of::<T>();
    let rel_b = rel_of::<U>();
    let inv = |g: Zip<T, U>| true;
    let pa = |g: Zip<T, U>| g.first();
    let pb = |g: Zip<T, U>| g.second();
    let zh = zip_hint_spec(ha, hb);
    assert forall|z1: Zip<T, U>, z2: Zip<T, U>, y: (T::Item, U::Item)|
        inv(z1) && #[trigger] rel_z(z1, z2, Ok(Some(y))) implies inv(z2) && exists|x: T::Item|
        rel_a(pa(z1), pa(z2), Ok(Some(x))) by {
        assert(rel_a(pa(z1), pa(z2), Ok(Some(y.0))));
    }
    assert forall|z1: Zip<T, U>, z2: Zip<T, U>, y: (T::Item, U::Item)|
        inv(z1) && #[trigger] rel_z(z1, z2, Ok(Some(y))) implies inv(z2) && exists|x: U::Item|
        rel_b(pb(z1), pb(z2), Ok(Some(x))) by {
        assert(rel_b(pb(z1), pb(z2), Ok(Some(y.1))));
    }
    assert forall|ys: Seq<(T::Item, U::Item)>, end: Zip<T, U>| #[trigger] ends_ok(rel_z, z, ys, end) implies zh.0
        <= ys.len() by {
        let outs = yields::<(T::Item, U::Item), T::Error>(ys).push(Ok(None));
        let zs = choose|zs: Seq<Zip<T, U>>| steps(rel_z, zs, outs) && zs[0] == z && zs.last() == end;
        let k = ys.len() as int;
        lemma_steps_prefix(rel_z, zs, outs, k);
        assert(outs.subrange(0, k) =~= yields::<(T::Item, U::Item), T::Error>(ys));
        let pre = zs.subrange(0, k + 1);
        let xa = lemma_project_run(rel_a, rel_z, inv, pa, pre, ys, false);
        let xb = lemma_project_run(rel_b, rel_z, inv, pb, pre, ys, false);
        assert(step_at(rel_z, zs, outs, k));
        assert(zip_step(zs[k], zs[k + 1], Ok(None)));
        let (oa, ob) = choose|oa: Option<T::Item>, ob: Option<U::Item>|
            {
                &&& #[trigger] zs[k].first().next_rel(&zs[k + 1].first(), Ok(oa))
                &&& #[trigger] zs[k].second().next_rel(&zs[k + 1].second(), Ok(ob))
                &&& oa is None || ob is None
            };
        if oa is None {
            assert(rel_a(zs[k].first(), zs[k + 1].first(), Ok(None)));
            lemma_steps_push(rel_a, pre.map_values(pa), yields(xa), zs[k + 1].first(), Ok(None));
            assert(ends_ok(rel_a, z.first(), xa, zs[k + 1].first()));
        } else {
            assert(rel_b(zs[k].second(), zs[k + 1].second(), Ok(None)));
            lemma_steps_push(rel_b, pre.map_values(pb), yields(xb), zs[k + 1].second(), Ok(None));
            assert(ends_ok(rel_b, z.second(), xb, zs[k + 1].second()));
        }
    }
    assert forall|ys: Seq<(T::Item, U::Item)>, end: Zip<T, U>| #[trigger] runs(rel_z, z, yields(ys), end) implies (zh.1 matches Some(
        u,
    ) ==> ys.len() <= u) by {
        let zs = choose|zs: Seq<Zip<T, U>>| steps(rel_z, zs, yields(ys)) && zs[0] == z && zs.last() == end;
        let xa = lemma_project_run(rel_a, rel_z, inv, pa, zs, ys, false);
        let xb = lemma_project_run(rel_b, rel_z, inv, pb, zs, ys, false);
        assert(runs(rel_a, z.first(), yields(xa), end.first()));
        assert(runs(rel_b, z.second(), yields(xb), end.second()));
    }
}

/// The result of a zip's call from the results of the calls on its two iterators.
pub open spec fn zip_combine<A, B, E>(fo: Result<Option<A>, E>, so: Result<Option<B>, E>) -> Result<Option<(A, B)>, E> {
    match fo {
        Err(e) => Err(e),
        Ok(oa) => match so {
            Err(e) => Err(e),
            Ok(ob) => match (oa, ob) {
                (Some(a), Some(b)) => Ok(Some((a, b))),
                _ => Ok(None),
            },
        },
    }
}

/// A call of `next` on a zip, taken apart: the call on the first iterator, and, unless it
/// failed, the call on the second, whose results combine into the zip's.
proof fn lemma_zip_step_parts<T: FallibleIterator, U: FallibleIterator<Error = T::Error>>(
    z: Zip<T, U>,
    post: Zip<T, U>,
    r: Result<Option<(T::Item, U::Item)>, T::Error>,
) -> (parts: (Result<Option<T::Item>, T::Error>, Result<Option<U::Item>, T::Error>))
    requires
        zip_step(z, post, r),
    ensures
        z.0.next_rel(&post.0, parts.0),
        parts.0 is Err ==> r == Err::<Option<(T::Item, U::Item)>, T::Error>(parts.0->Err_0) && post.1 == z.1,
        parts.0 is Ok ==> z.1.next_rel(&post.1, parts.1) && r == zip_combine(parts.0, parts.1),
{
    match r {
        Ok(Some((a, b))) => (Ok(Some(a)), Ok(Some(b))),
        Ok(None) => {
            let (oa, ob) = choose|oa: Option<T::Item>, ob: Option<U::Item>|
                {
                    &&& #[trigger] z.first().next_rel(&post.first(), Ok(oa))
                    &&& #[trigger] z.second().next_rel(&post.second(), Ok(ob))
                    &&& oa is None || ob is None
                };
            (Ok(oa), Ok(ob))
        },
        Err(e) => {
            if z.first().next_rel(&post.first(), Err(e)) && post.second() == z.second() {
                (Err(e), Err(e))
            } else {
                let oa = choose|oa: Option<T::Item>|
                    {
                        &&& #[trigger] z.first().next_rel(&post.first(), Ok(oa))
                        &&& z.second().next_rel(&post.second(), Err(e))
                    };
                (Ok(oa), Err(e))
            }
        },
    }
}

/// A zip's `next` is deterministic when those of its two iterators are.
pub proof fn lemma_zip_deterministic<T: FallibleIterator, U: FallibleIterator<Error = T::Error>>()
    requires
        deterministic(rel_of::<T>()),
        deterministic(rel_of::<U>()),
    ensures
        deterministic(rel_of::<Zip<T, U>>()),
{
    let rel = rel_of::<Zip<T, U>>();
    let ra = rel_of::<T>();
    let rb = rel_of::<U>();
    assert forall|a: Zip<T, U>, b1: Zip<T, U>, b2: Zip<T, U>, o1: Result<Option<(T::Item, U::Item)>, T::Error>, o2: Result<Option<(T::Item, U::Item)>, T::Error>|
        #![trigger rel(a, b1, o1), rel(a, b2, o2)]
        rel(a, b1, o1) && rel(a, b2, o2) implies b1 == b2 && o1 == o2 by {
        let p1 = lemma_zip_step_parts(a, b1, o1);
        let p2 = lemma_zip_step_parts(a, b2, o2);
        assert(ra(a.0, b1.0, p1.0) && ra(a.0, b2.0, p2.0));
        if p1.0 is Ok {
            assert(rb(a.1, b1.1, p1.1) && rb(a.1, b2.1, p2.1));
        }
    }
}

/// The pairs of the items of `xs` and `ys`, as far as both go.
pub open spec fn pairs<A, B>(xs: Seq<A>, ys: Seq<B>) -> Seq<(A, B)> {
    Seq::new(if xs.len() < ys.len() { xs.len() } else { ys.len() }, |i: int| (xs[i], ys[i]))
}

/// A zip yields the pairs of the items of its two iterators: complete runs of the two (without
/// errors) make a run of a zip of them that yields the pairs, as far as the shorter run goes,
/// and then `Ok(None)`.
pub proof fn lemma_zip_yields<T: FallibleIterator, U: FallibleIterator<Error = T::Error>>(
    z: Zip<T, U>,
    xs: Seq<T::Item>,
    aend: T,
    ys: Seq<U::Item>,
    bend: U,
) -> (end: Zip<T, U>)
    requires
        ends_ok(rel_of::<T>(), z.first(), xs, aend),
        ends_ok(rel_of::<U>(), z.second(), ys, bend),
    ensures
        ends_ok(rel_of::<Zip<T, U>>(), z, pairs(xs, ys), end),
{
    let rel = rel_of::<Zip<T, U>>();
    let aouts = yields::<T::Item, T::Error>(xs).push(Ok(None));
    let as_ = choose|s: Seq<T>| steps(rel_of::<T>(), s, aouts) && s[0] == z.0 && s.last() == aend;
    let bouts = yields::<U::Item, T::Error>(ys).push(Ok(None));
    let bs = choose|s: Seq<U>| steps(rel_of::<U>(), s, bouts) && s[0] == z.1 && s.last() == bend;
    let ps = pairs(xs, ys);
    let k = ps.len() as int;
    let outs = yields::<(T::Item, U::Item), T::Error>(ps).push(Ok(None));
    let cs = Seq::new((k + 2) as nat, |i: int| Zip(as_[i], bs[i]));
    assert forall|i: int| 0 <= i < outs.len() implies #[trigger] step_at(rel, cs, outs, i) by {
        assert(step_at(rel_of::<T>(), as_, aouts, i));
        assert(step_at(rel_of::<U>(), bs, bouts, i));
        if i < k {
            assert(aouts[i] == Ok::<Option<T::Item>, T::Error>(Some(xs[i])));
            assert(bouts[i] == Ok::<Option<U::Item>, T::Error>(Some(ys[i])));
            assert(outs[i] == Ok::<Option<(T::Item, U::Item)>, T::Error>(Some((xs[i], ys[i]))));
            assert(zip_step(cs[i], cs[i + 1], outs[i]));
        } else {
            let oa = if k < xs.len() { Some(xs[k]) } else { None };
            let ob = if k < ys.len() { Some(ys[k]) } else { None };
            assert(aouts[k] == Ok::<Option<T::Item>, T::Error>(oa));
            assert(bouts[k] == Ok::<Option<U::Item>, T::Error>(ob));
            assert(cs[k].first().next_rel(&cs[k + 1].first(), Ok(oa)));
            assert(cs[k].second().next_rel(&cs[k + 1].second(), Ok(ob)));
            assert(zip_step(cs[k], cs[k + 1], outs[k]));
        }
    }
    assert(steps(rel, cs, outs));
    cs.last()
}

/// The calls of `next` on a zip of two deterministic iterators that yield `xs` and `ys`, each
/// then `Ok(None)`: with `k` the length of the shorter, the first `k` calls yield the pairs
/// `(xs[i], ys[i])` in order, and the next one returns `Ok(None)`.
pub proof fn lemma_zip_runs<T: FallibleIterator, U: FallibleIterator<Error = T::Error>>(
    z: Zip<T, U>,
    xs: Seq<T::Item>,
    aend: T,
    ys: Seq<U::Item>,
    bend: U,
    outs: Seq<Result<Option<(T::Item, U::Item)>, T::Error>>,
    end: Zip<T, U>,
)
    requires
        deterministic(rel_of::<T>()),
        deterministic(rel_of::<U>()),
        ends_ok(rel_of::<T>(), z.first(), xs, aend),
        ends_ok(rel_of::<U>(), z.second(), ys, bend),
        runs(rel_of::<Zip<T, U>>(), z, outs, end),
    ensures
        forall|j: int|
            0 <= j < outs.len() && j <= pairs(xs, ys).len() ==> outs[j] == #[trigger] yields::<(T::Item, U::Item), T::Error>(pairs(xs, ys)).push(Ok(None))[j],
{
    lemma_zip_deterministic::<T, U>();
    let e = lemma_zip_yields(z, xs, aend, ys, bend);
    lemma_runs_unique(rel_of::<Zip<T, U>>(), z, outs, end, yields(pairs(xs, ys)).push(Ok(None)), e);
}

/// What a call of `next` on a zip of two deterministic iterators returns, from what the calls
/// on the two iterators return: the first iterator is called first; its error is returned and
/// the second iterator is not called; otherwise the second iterator is called too, and its
/// error is returned (whether or not the first had an item); with no error, two items make a
/// pair, and the end of either iterator makes `Ok(None)`.
pub proof fn lemma_zip_next_result<T: FallibleIterator, U: FallibleIterator<Error = T::Error>>(
    z: Zip<T, U>,
    post: Zip<T, U>,
    r: Result<Option<(T::Item, U::Item)>, T::Error>,
    a1: T,
    fo: Result<Option<T::Item>, T::Error>,
)
    requires
        deterministic(rel_of::<T>()),
        deterministic(rel_of::<U>()),
        rel_of::<Zip<T, U>>()(z, post, r),
        rel_of::<T>()(z.first(), a1, fo),
    ensures
        post.first() == a1,
        fo matches Err(e) ==> r == Err::<Option<(T::Item, U::Item)>, T::Error>(e) && post.second() == z.second(),
        fo is Ok ==> forall|b1: U, so: Result<Option<U::Item>, T::Error>|
            #[trigger] rel_of::<U>()(z.second(), b1, so) ==> post.second() == b1 && match so {
                Err(e) => r == Err::<Option<(T::Item, U::Item)>, T::Error>(e),
                Ok(Some(b)) => match fo {
                    Ok(Some(a)) => r == Ok::<Option<(T::Item, U::Item)>, T::Error>(Some((a, b))),
                    _ => r == Ok::<Option<(T::Item, U::Item)>, T::Error>(None),
                },
                Ok(None) => r == Ok::<Option<(T::Item, U::Item)>, T::Error>(None),
            },
{
    let parts = lemma_zip_step_parts(z, post, r);
    assert(rel_of::<T>()(z.0, post.0, parts.0));
    assert(rel_of::<T>()(z.0, a1, fo));
    if fo is Ok {
        assert forall|b1: U, so: Result<Option<U::Item>, T::Error>|
            #[trigger] rel_of::<U>()(z.second(), b1, so) implies post.second() == b1 && match so {
                Err(e) => r == Err::<Option<(T::Item, U::Item)>, T::Error>(e),
                Ok(Some(b)) => match fo {
                    Ok(Some(a)) => r == Ok::<Option<(T::Item, U::Item)>, T::Error>(Some((a, b))),
                    _ => r == Ok::<Option<(T::Item, U::Item)>, T::Error>(None),
                },
                Ok(None) => r == Ok::<Option<(T::Item, U::Item)>, T::Error>(None),
            } by {
            assert(rel_of::<U>()(z.1, post.1, parts.1));
            assert(rel_of::<U>()(z.1, b1, so));
        }
    }
}

} // verus!
