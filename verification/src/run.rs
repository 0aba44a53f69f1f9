//! Runs of a fallible iterator: what successive calls of `next` may return.
//!
//! An iterator is described by two relations on its states (see `FallibleIterator`):
//! whether `next` may be called, and what one call may do. Everything in this module is stated
//! over these relations, passed as spec closures, so that it serves every iterator type alike.
use vstd::prelude::*;

verus! {

/// One call of `next` as a relation: `rel(a, b, r)` when the call may take the iterator from
/// state `a` to state `b` and return `r`.
pub type StepRel<S, T, E> = spec_fn(S, S, Result<Option<T>, E>) -> bool;

/// The results of successive calls of `next` that each yield an item.
pub open spec fn yields<T, E>(items: Seq<T>) -> Seq<Result<Option<T>, E>> {
    items.map_values(|x: T| Ok::<Option<T>, E>(Some(x)))
}

/// `r` reports the end of the iteration.
pub open spec fn is_none<T, E>(r: Result<Option<T>, E>) -> bool {
    r is Ok && r->Ok_0 is None
}

/// Call `k` of a run: from `states[k]`, `next` goes to `states[k + 1]` and returns `outs[k]`.
pub open spec fn step_at<S, T, E>(
    rel: StepRel<S, T, E>,
    states: Seq<S>,
    outs: Seq<Result<Option<T>, E>>,
    k: int,
) -> bool {
    rel(states[k], states[k + 1], outs[k])
}

/// `states` and `outs` describe successive calls of `next`.
pub open spec fn steps<S, T, E>(
    rel: StepRel<S, T, E>,
    states: Seq<S>,
    outs: Seq<Result<Option<T>, E>>,
) -> bool {
    &&& states.len() == outs.len() + 1
    &&& forall|k: int| 0 <= k < outs.len() ==> #[trigger] step_at(rel, states, outs, k)
}

/// Successive calls of `next` may lead from `start` to `end`, returning `outs`.
pub open spec fn runs<S, T, E>(
    rel: StepRel<S, T, E>,
    start: S,
    outs: Seq<Result<Option<T>, E>>,
    end: S,
) -> bool {
    exists|states: Seq<S>|
        #![trigger steps(rel, states, outs)]
        steps(rel, states, outs) && states[0] == start && states.last() == end
}

/// From `start`, `next` may yield `items` and then `Ok(None)`, leaving the iterator as `end`.
pub open spec fn ends_ok<S, T, E>(rel: StepRel<S, T, E>, start: S, items: Seq<T>, end: S) -> bool {
    runs(rel, start, yields(items).push(Ok(None)), end)
}

/// From `start`, `next` may yield `items` and then the error `e`, leaving the iterator as `end`.
pub open spec fn ends_err<S, T, E>(
    rel: StepRel<S, T, E>,
    start: S,
    items: Seq<T>,
    e: E,
    end: S,
) -> bool {
    runs(rel, start, yields(items).push(Err(e)), end)
}

/// The predicate that accepts every item.
pub open spec fn always<T>() -> spec_fn(T) -> bool {
    |x: T| true
}

/// Every run from `it` stops within `n` calls of `next`, where a run goes on only after an item
/// that `go_on` accepts; each of these calls is allowed.
pub open spec fn stops_within<S, T, E>(
    can: spec_fn(S) -> bool,
    rel: StepRel<S, T, E>,
    it: S,
    go_on: spec_fn(T) -> bool,
    n: nat,
) -> bool
    decreases n,
{
    if n == 0 {
        false
    } else {
        &&& can(it)
        &&& forall|post: S, x: T|
            #[trigger] rel(it, post, Ok(Some(x))) && go_on(x) ==> stops_within(
                can,
                rel,
                post,
                go_on,
                (n - 1) as nat,
            )
    }
}

/// Every run from `it` stops after finitely many calls, where a run goes on only after an item
/// that `go_on` accepts; each of these calls is allowed.
pub open spec fn stops<S, T, E>(
    can: spec_fn(S) -> bool,
    rel: StepRel<S, T, E>,
    it: S,
    go_on: spec_fn(T) -> bool,
) -> bool {
    exists|n: nat| #[trigger] stops_within(can, rel, it, go_on, n)
}

/// The first `n` calls of `next` from `it` are allowed, for as long as they yield items.
pub open spec fn allowed_for<S, T, E>(
    can: spec_fn(S) -> bool,
    rel: StepRel<S, T, E>,
    it: S,
    n: nat,
) -> bool
    decreases n,
{
    if n == 0 {
        true
    } else {
        &&& can(it)
        &&& forall|post: S, x: T|
            #[trigger] rel(it, post, Ok(Some(x))) ==> allowed_for(can, rel, post, (n - 1) as nat)
    }
}

/// Every run from `it` ends with `Ok(None)` or an error, after at most `usize::MAX` items.
pub open spec fn finishes<S, T, E>(can: spec_fn(S) -> bool, rel: StepRel<S, T, E>, it: S) -> bool {
    exists|n: nat| n <= usize::MAX + 1 && stops_within(can, rel, it, always(), n)
}

/// The last of `items`, if any.
pub open spec fn last_of<T>(items: Seq<T>) -> Option<T> {
    if items.len() == 0 {
        None
    } else {
        Some(items.last())
    }
}

/// `r` is what counting the items of some complete run from `it` gives.
pub open spec fn count_result<S, T, E>(rel: StepRel<S, T, E>, it: S, r: Result<usize, E>) -> bool {
    match r {
        Ok(n) => exists|items: Seq<T>, end: S| items.len() == n && #[trigger] ends_ok(rel, it, items, end),
        Err(e) => exists|items: Seq<T>, end: S| #[trigger] ends_err(rel, it, items, e, end),
    }
}

/// `r` is what taking the last item of some complete run from `it` gives.
pub open spec fn last_result<S, T, E>(rel: StepRel<S, T, E>, it: S, r: Result<Option<T>, E>) -> bool {
    match r {
        Ok(o) => exists|items: Seq<T>, end: S| o == last_of(items) && #[trigger] ends_ok(rel, it, items, end),
        Err(e) => exists|items: Seq<T>, end: S| #[trigger] ends_err(rel, it, items, e, end),
    }
}

/// `r` is what collecting the items of some complete run from `it` gives, where `collects`
/// says what collecting a sequence of items gives.
pub open spec fn collect_result<S, T, E, C>(
    rel: StepRel<S, T, E>,
    it: S,
    r: Result<C, E>,
    collects: spec_fn(Seq<T>, C) -> bool,
) -> bool {
    match r {
        Ok(c) => exists|items: Seq<T>, end: S| #[trigger] ends_ok(rel, it, items, end) && collects(items, c),
        Err(e) => exists|items: Seq<T>, end: S| #[trigger] ends_err(rel, it, items, e, end),
    }
}

/// `go(x)` holds for every one of `items`.
pub open spec fn all_items<T>(items: Seq<T>, go: spec_fn(T) -> bool) -> bool {
    forall|k: int| 0 <= k < items.len() ==> #[trigger] go(items[k])
}

/// `r` is what testing the items of a run from `start` to `end` with `test` gives, where the run
/// stops at the first item on which `test` may return `stop`: `Ok(!stop)` when no item stops it
/// and the run ends with `Ok(None)`, `Ok(stop)` when an item stops it, and the error when the
/// run ends with one before any item stops it.
pub open spec fn search_result<S, T, E>(
    rel: StepRel<S, T, E>,
    start: S,
    go_on: spec_fn(T) -> bool,
    halt: spec_fn(T) -> bool,
    stop: bool,
    r: Result<bool, E>,
    end: S,
) -> bool {
    match r {
        Ok(b) => if b == stop {
            exists|items: Seq<T>, x: T|
                all_items(items, go_on) && halt(x) && #[trigger] runs(
                    rel,
                    start,
                    yields(items.push(x)),
                    end,
                )
        } else {
            exists|items: Seq<T>| all_items(items, go_on) && #[trigger] ends_ok(rel, start, items, end)
        },
        Err(e) => exists|items: Seq<T>|
            all_items(items, go_on) && #[trigger] ends_err(rel, start, items, e, end),
    }
}

/// `r` is what asking for item `n` (counting from 0) of a run from `start` to `end` gives.
pub open spec fn nth_result<S, T, E>(
    rel: StepRel<S, T, E>,
    start: S,
    n: nat,
    r: Result<Option<T>, E>,
    end: S,
) -> bool {
    match r {
        Ok(Some(x)) => exists|items: Seq<T>|
            items.len() == n && #[trigger] runs(rel, start, yields(items.push(x)), end),
        Ok(None) => exists|items: Seq<T>| items.len() <= n && #[trigger] ends_ok(rel, start, items, end),
        Err(e) => exists|items: Seq<T>|
            items.len() <= n && #[trigger] ends_err(rel, start, items, e, end),
    }
}

/// One more yielded item.
pub proof fn lemma_yields_push<T, E>(items: Seq<T>, x: T)
    ensures
        yields::<T, E>(items.push(x)) == yields::<T, E>(items).push(Ok(Some(x))),
{
    assert(yields::<T, E>(items.push(x)) =~= yields::<T, E>(items).push(Ok(Some(x))));
}

/// A run extended by one more call.
pub proof fn lemma_steps_push<S, T, E>(
    rel: StepRel<S, T, E>,
    states: Seq<S>,
    outs: Seq<Result<Option<T>, E>>,
    s: S,
    o: Result<Option<T>, E>,
)
    requires
        steps(rel, states, outs),
        rel(states.last(), s, o),
    ensures
        steps(rel, states.push(s), outs.push(o)),
        states.push(s).last() == s,
        states.push(s)[0] == states[0],
{
    assert forall|k: int| 0 <= k < outs.push(o).len() implies #[trigger] step_at(
        rel,
        states.push(s),
        outs.push(o),
        k,
    ) by {
        if k < outs.len() {
            assert(step_at(rel, states, outs, k));
        }
    }
}

/// A run that yields `items` extended by one more item.
pub proof fn lemma_record_item<S, T, E>(
    rel: StepRel<S, T, E>,
    states: Seq<S>,
    items: Seq<T>,
    s: S,
    x: T,
)
    requires
        steps(rel, states, yields(items)),
        rel(states.last(), s, Ok(Some(x))),
    ensures
        steps(rel, states.push(s), yields(items.push(x))),
        states.push(s).last() == s,
        states.push(s)[0] == states[0],
{
    lemma_steps_push(rel, states, yields(items), s, Ok(Some(x)));
    lemma_yields_push::<T, E>(items, x);
}

/// A run that yields `items` and then ends with `o`.
pub proof fn lemma_record_end<S, T, E>(
    rel: StepRel<S, T, E>,
    states: Seq<S>,
    items: Seq<T>,
    s: S,
    o: Result<Option<T>, E>,
)
    requires
        steps(rel, states, yields(items)),
        rel(states.last(), s, o),
    ensures
        runs(rel, states[0], yields(items).push(o), s),
{
    lemma_steps_push(rel, states, yields(items), s, o);
}

/// A run that yields `items`, from its first state to its last.
pub proof fn lemma_record_partial<S, T, E>(rel: StepRel<S, T, E>, states: Seq<S>, items: Seq<T>)
    requires
        steps(rel, states, yields(items)),
    ensures
        runs(rel, states[0], yields(items), states.last()),
{
}

/// A run that ends in an error is one that counting may report.
pub proof fn lemma_count_err<S, T, E>(rel: StepRel<S, T, E>, it: S, items: Seq<T>, e: E, end: S)
    requires
        ends_err(rel, it, items, e, end),
    ensures
        count_result(rel, it, Err(e)),
{
    let r = Err::<usize, E>(e);
    assert(r->Err_0 == e);
    assert(ends_err(rel, it, items, r->Err_0, end));
}

/// A run that ends in an error is one that collecting may report.
pub proof fn lemma_collect_err<S, T, E, C>(
    rel: StepRel<S, T, E>,
    it: S,
    items: Seq<T>,
    e: E,
    end: S,
    collects: spec_fn(Seq<T>, C) -> bool,
)
    requires
        ends_err(rel, it, items, e, end),
    ensures
        collect_result(rel, it, Err(e), collects),
{
    let r = Err::<C, E>(e);
    assert(r->Err_0 == e);
    assert(ends_err(rel, it, items, r->Err_0, end));
}

/// A complete run whose items collect to `c` is one that collecting may report.
pub proof fn lemma_collect_ok<S, T, E, C>(
    rel: StepRel<S, T, E>,
    it: S,
    items: Seq<T>,
    end: S,
    collects: spec_fn(Seq<T>, C) -> bool,
    c: C,
)
    requires
        ends_ok(rel, it, items, end),
        collects(items, c),
    ensures
        collect_result(rel, it, Ok(c), collects),
{
    let r = Ok::<C, E>(c);
    assert(r->Ok_0 == c);
}

/// A complete run is one that counting may report.
pub proof fn lemma_count_ok<S, T, E>(rel: StepRel<S, T, E>, it: S, items: Seq<T>, end: S)
    requires
        ends_ok(rel, it, items, end),
        items.len() <= usize::MAX,
    ensures
        count_result(rel, it, Ok(items.len() as usize)),
{
    let r = Ok::<usize, E>(items.len() as usize);
    assert(r->Ok_0 == items.len());
}

/// A run that ends in an error before any item stops it is one that a search may report.
pub proof fn lemma_search_err<S, T, E>(
    rel: StepRel<S, T, E>,
    start: S,
    go_on: spec_fn(T) -> bool,
    halt: spec_fn(T) -> bool,
    stop: bool,
    items: Seq<T>,
    e: E,
    end: S,
)
    requires
        all_items(items, go_on),
        ends_err(rel, start, items, e, end),
    ensures
        search_result(rel, start, go_on, halt, stop, Err(e), end),
{
    let r = Err::<bool, E>(e);
    assert(r->Err_0 == e);
    assert(ends_err(rel, start, items, r->Err_0, end));
}

/// A run that ends in an error is one that taking the last item may report.
pub proof fn lemma_last_err<S, T, E>(rel: StepRel<S, T, E>, it: S, items: Seq<T>, e: E, end: S)
    requires
        ends_err(rel, it, items, e, end),
    ensures
        last_result(rel, it, Err(e)),
{
    let r = Err::<Option<T>, E>(e);
    assert(r->Err_0 == e);
    assert(ends_err(rel, it, items, r->Err_0, end));
}

/// A complete run is one that taking the last item may report.
pub proof fn lemma_last_ok<S, T, E>(rel: StepRel<S, T, E>, it: S, items: Seq<T>, end: S)
    requires
        ends_ok(rel, it, items, end),
    ensures
        last_result(rel, it, Ok(last_of(items))),
{
    let r = Ok::<Option<T>, E>(last_of(items));
    assert(r->Ok_0 == last_of(items));
}

/// A run that ends in an error within `n` items is one that asking for item `n` may report.
pub proof fn lemma_nth_err<S, T, E>(
    rel: StepRel<S, T, E>,
    start: S,
    n: nat,
    items: Seq<T>,
    e: E,
    end: S,
)
    requires
        items.len() <= n,
        ends_err(rel, start, items, e, end),
    ensures
        nth_result(rel, start, n, Err(e), end),
{
    let r = Err::<Option<T>, E>(e);
    assert(r->Err_0 == e);
    assert(ends_err(rel, start, items, r->Err_0, end));
}

/// A run that yields item `n` is one that asking for item `n` may report.
pub proof fn lemma_nth_some<S, T, E>(rel: StepRel<S, T, E>, start: S, items: Seq<T>, x: T, end: S)
    requires
        runs(rel, start, yields(items.push(x)), end),
    ensures
        nth_result(rel, start, items.len(), Ok(Some(x)), end),
{
    let r = Ok::<Option<T>, E>(Some(x));
    assert(r->Ok_0->Some_0 == x);
    assert(runs(rel, start, yields(items.push(r->Ok_0->Some_0)), end));
}

/// A search that an item stops.
pub proof fn lemma_search_stopped<S, T, E>(
    rel: StepRel<S, T, E>,
    start: S,
    go_on: spec_fn(T) -> bool,
    halt: spec_fn(T) -> bool,
    stop: bool,
    items: Seq<T>,
    x: T,
    end: S,
)
    requires
        all_items(items, go_on),
        halt(x),
        runs(rel, start, yields(items.push(x)), end),
    ensures
        search_result(rel, start, go_on, halt, stop, Ok(stop), end),
{
    let r = Ok::<bool, E>(stop);
    assert(r->Ok_0 == stop);
}

/// A search that no item stops.
pub proof fn lemma_search_done<S, T, E>(
    rel: StepRel<S, T, E>,
    start: S,
    go_on: spec_fn(T) -> bool,
    halt: spec_fn(T) -> bool,
    stop: bool,
    items: Seq<T>,
    end: S,
)
    requires
        all_items(items, go_on),
        ends_ok(rel, start, items, end),
    ensures
        search_result(rel, start, go_on, halt, stop, Ok(!stop), end),
{
    let r = Ok::<bool, E>(!stop);
    assert(r->Ok_0 == !stop);
}

/// `go(x)` holds for every one of `items` and for `x`.
pub proof fn lemma_all_items_push<T>(items: Seq<T>, go: spec_fn(T) -> bool, x: T)
    requires
        all_items(items, go),
        go(x),
    ensures
        all_items(items.push(x), go),
{
    assert forall|k: int| 0 <= k < items.push(x).len() implies #[trigger] go(items.push(x)[k]) by {
        if k < items.len() {
            assert(go(items[k]));
        }
    }
}

/// The first calls of a run form a run.
pub proof fn lemma_steps_prefix<S, T, E>(
    rel: StepRel<S, T, E>,
    states: Seq<S>,
    outs: Seq<Result<Option<T>, E>>,
    k: int,
)
    requires
        steps(rel, states, outs),
        0 <= k <= outs.len(),
    ensures
        steps(rel, states.subrange(0, k + 1), outs.subrange(0, k)),
{
    assert forall|j: int| 0 <= j < outs.subrange(0, k).len() implies #[trigger] step_at(
        rel,
        states.subrange(0, k + 1),
        outs.subrange(0, k),
        j,
    ) by {
        assert(step_at(rel, states, outs, j));
    }
}

/// Along a run of items that `go_on` accepts, a bound on the calls until a stop shrinks by one
/// per item; so such a run has fewer items than the bound.
pub proof fn lemma_stops_along<S, T, E>(
    can: spec_fn(S) -> bool,
    rel: StepRel<S, T, E>,
    go_on: spec_fn(T) -> bool,
    states: Seq<S>,
    items: Seq<T>,
    n: nat,
)
    requires
        steps(rel, states, yields(items)),
        all_items(items, go_on),
        stops_within(can, rel, states[0], go_on, n),
    ensures
        items.len() < n,
        stops_within(can, rel, states.last(), go_on, (n - items.len()) as nat),
    decreases items.len(),
{
    if items.len() > 0 {
        let k = items.len() - 1;
        lemma_steps_prefix(rel, states, yields(items), k);
        assert(yields::<T, E>(items).subrange(0, k) =~= yields::<T, E>(items.subrange(0, k)));
        assert(all_items(items.subrange(0, k), go_on)) by {
            assert forall|j: int| 0 <= j < items.subrange(0, k).len() implies #[trigger] go_on(
                items.subrange(0, k)[j],
            ) by {
                assert(go_on(items[j]));
            }
        }
        lemma_stops_along(can, rel, go_on, states.subrange(0, k + 1), items.subrange(0, k), n);
        assert(step_at(rel, states, yields(items), k));
        assert(go_on(items[k]));
        assert(rel(states[k], states[k + 1], Ok(Some(items[k]))));
        assert(stops_within(can, rel, states[k + 1], go_on, (n - k - 1) as nat));
    } else {
        assert(n > 0);
    }
}

/// Simulation of one iterator by another, for bounds on runs: if every call of `a` from the
/// `proj` of an allowed state `sb` of `b` (where `inv` holds) that yields an item is matched by a
/// call of `b` from `sb` that yields an item, and `b` is allowed only where `a` is, then a bound
/// on `b`'s runs is one on `a`'s.
pub proof fn lemma_stops_lower<SA, TA, EA, SB, TB, EB>(
    can_a: spec_fn(SA) -> bool,
    rel_a: StepRel<SA, TA, EA>,
    can_b: spec_fn(SB) -> bool,
    rel_b: StepRel<SB, TB, EB>,
    inv: spec_fn(SB) -> bool,
    proj: spec_fn(SB) -> SA,
    lift: spec_fn(SB, SA, TA) -> (SB, TB),
    b: SB,
    n: nat,
)
    requires
        inv(b),
        stops_within(can_b, rel_b, b, always(), n),
        forall|sb: SB| #[trigger] can_b(sb) && inv(sb) ==> can_a(proj(sb)),
        forall|sb: SB, sa2: SA, x: TA|
            inv(sb) && can_b(sb) && #[trigger] rel_a(proj(sb), sa2, Ok(Some(x))) ==> {
                &&& rel_b(sb, lift(sb, sa2, x).0, Ok(Some(lift(sb, sa2, x).1)))
                &&& proj(lift(sb, sa2, x).0) == sa2
                &&& inv(lift(sb, sa2, x).0)
            },
    ensures
        stops_within(can_a, rel_a, proj(b), always(), n),
    decreases n,
{
    assert forall|post: SA, x: TA| #[trigger] rel_a(proj(b), post, Ok(Some(x))) && always::<TA>()(
        x,
    ) implies stops_within(can_a, rel_a, post, always(), (n - 1) as nat) by {
        let (b2, y) = lift(b, post, x);
        assert(rel_b(b, b2, Ok(Some(y))));
        assert(always::<TB>()(y));
        lemma_stops_lower(can_a, rel_a, can_b, rel_b, inv, proj, lift, b2, (n - 1) as nat);
    }
}

/// `h` bounds the number of items of `it`, assuming that the calls succeed: every run that
/// ends with `Ok(None)` has at least `h.0` items, and, when `h.1` is `Some(u)`, every run of
/// items has at most `u` of them.
pub open spec fn hint_valid<S, T, E>(rel: StepRel<S, T, E>, it: S, h: (usize, Option<usize>)) -> bool {
    &&& forall|items: Seq<T>, end: S| #[trigger] ends_ok(rel, it, items, end) ==> h.0 <= items.len()
    &&& forall|items: Seq<T>, end: S|
        #[trigger] runs(rel, it, yields(items), end) ==> (h.1 matches Some(u) ==> items.len() <= u)
}

/// Projection of runs: when, from states where `inv` holds, every call of `b` that yields an
/// item is matched by a call of `a` between the projected states that yields an item (and
/// keeps `inv`), then a run of items of `b` from such a state projects to a run of `a` with as
/// many items; and when also every call of `b` that yields `Ok(None)` is matched by one of `a`
/// that does, a run that ends with `Ok(None)` projects to one that does too.
pub proof fn lemma_project_run<SA, TA, EA, SB, TB, EB>(
    rel_a: StepRel<SA, TA, EA>,
    rel_b: StepRel<SB, TB, EB>,
    inv: spec_fn(SB) -> bool,
    proj: spec_fn(SB) -> SA,
    bs: Seq<SB>,
    ys: Seq<TB>,
    ended: bool,
) -> (xs: Seq<TA>)
    requires
        inv(bs[0]),
        ended ==> steps(rel_b, bs, yields(ys).push(Ok(None))),
        !ended ==> steps(rel_b, bs, yields(ys)),
        forall|b1: SB, b2: SB, y: TB|
            inv(b1) && #[trigger] rel_b(b1, b2, Ok(Some(y))) ==> inv(b2) && exists|x: TA|
                rel_a(proj(b1), proj(b2), Ok(Some(x))),
        ended ==> forall|b1: SB, b2: SB|
            inv(b1) && #[trigger] rel_b(b1, b2, Ok(None)) ==> rel_a(proj(b1), proj(b2), Ok(None)),
    ensures
        xs.len() == ys.len(),
        ended ==> steps(rel_a, bs.map_values(proj), yields(xs).push(Ok(None))),
        !ended ==> steps(rel_a, bs.map_values(proj), yields(xs)),
{
    let outs_b = if ended {
        yields::<TB, EB>(ys).push(Ok(None))
    } else {
        yields::<TB, EB>(ys)
    };
    let xs = Seq::new(
        ys.len(),
        |k: int| choose|x: TA| rel_a(proj(bs[k]), proj(bs[k + 1]), Ok(Some(x))),
    );
    let outs_a = if ended {
        yields::<TA, EA>(xs).push(Ok(None))
    } else {
        yields::<TA, EA>(xs)
    };
    let as_ = bs.map_values(proj);
    assert forall|k: int| 0 <= k <= ys.len() && k < bs.len() implies inv(#[trigger] bs[k]) by {
        lemma_project_inv(rel_b, inv, bs, outs_b, ys, k);
    }
    assert forall|k: int| 0 <= k < outs_a.len() implies #[trigger] step_at(rel_a, as_, outs_a, k) by {
        assert(step_at(rel_b, bs, outs_b, k));
        assert(inv(bs[k]));
        if k < ys.len() {
            assert(outs_b[k] == Ok::<Option<TB>, EB>(Some(ys[k])));
            assert(rel_b(bs[k], bs[k + 1], Ok(Some(ys[k]))));
        } else {
            assert(outs_b[k] == Ok::<Option<TB>, EB>(None));
            assert(rel_b(bs[k], bs[k + 1], Ok(None)));
        }
    }
    xs
}

/// Along the items of a run, `inv` holds when each call that yields an item keeps it.
proof fn lemma_project_inv<SB, TB, EB>(
    rel_b: StepRel<SB, TB, EB>,
    inv: spec_fn(SB) -> bool,
    bs: Seq<SB>,
    outs_b: Seq<Result<Option<TB>, EB>>,
    ys: Seq<TB>,
    k: int,
)
    requires
        inv(bs[0]),
        steps(rel_b, bs, outs_b),
        ys.len() <= outs_b.len(),
        forall|j: int| 0 <= j < ys.len() ==> outs_b[j] == Ok::<Option<TB>, EB>(Some(ys[j])),
        forall|b1: SB, b2: SB, y: TB|
            inv(b1) && #[trigger] rel_b(b1, b2, Ok(Some(y))) ==> inv(b2),
        0 <= k <= ys.len(),
    ensures
        inv(bs[k]),
    decreases k,
{
    if k > 0 {
        lemma_project_inv(rel_b, inv, bs, outs_b, ys, k - 1);
        assert(step_at(rel_b, bs, outs_b, k - 1));
        assert(rel_b(bs[k - 1], bs[k], Ok(Some(ys[k - 1]))));
    }
}

/// Bounds on the items of `a` are bounds on those of `b`, when the runs of `b` project to runs
/// of `a` as in `lemma_project_run`.
pub proof fn lemma_hint_project<SA, TA, EA, SB, TB, EB>(
    rel_a: StepRel<SA, TA, EA>,
    rel_b: StepRel<SB, TB, EB>,
    inv: spec_fn(SB) -> bool,
    proj: spec_fn(SB) -> SA,
    b: SB,
    h: (usize, Option<usize>),
)
    requires
        inv(b),
        hint_valid(rel_a, proj(b), h),
        forall|b1: SB, b2: SB, y: TB|
            inv(b1) && #[trigger] rel_b(b1, b2, Ok(Some(y))) ==> inv(b2) && exists|x: TA|
                rel_a(proj(b1), proj(b2), Ok(Some(x))),
        forall|b1: SB, b2: SB|
            inv(b1) && #[trigger] rel_b(b1, b2, Ok(None)) ==> rel_a(proj(b1), proj(b2), Ok(None)),
    ensures
        hint_valid(rel_b, b, h),
{
    assert forall|ys: Seq<TB>, end: SB| #[trigger] ends_ok(rel_b, b, ys, end) implies h.0 <= ys.len() by {
        let bs = choose|bs: Seq<SB>|
            steps(rel_b, bs, yields(ys).push(Ok(None))) && bs[0] == b && bs.last() == end;
        let xs = lemma_project_run(rel_a, rel_b, inv, proj, bs, ys, true);
        assert(ends_ok(rel_a, proj(b), xs, proj(end)));
    }
    assert forall|ys: Seq<TB>, end: SB| #[trigger] runs(rel_b, b, yields(ys), end) implies (h.1 matches Some(
        u,
    ) ==> ys.len() <= u) by {
        let bs = choose|bs: Seq<SB>| steps(rel_b, bs, yields(ys)) && bs[0] == b && bs.last() == end;
        let xs = lemma_project_run(rel_a, rel_b, inv, proj, bs, ys, false);
        assert(runs(rel_a, proj(b), yields(xs), proj(end)));
    }
}

/// A run without its first call.
pub proof fn lemma_steps_drop_first<S, T, E>(
    rel: StepRel<S, T, E>,
    states: Seq<S>,
    outs: Seq<Result<Option<T>, E>>,
)
    requires
        steps(rel, states, outs),
        outs.len() > 0,
    ensures
        steps(rel, states.drop_first(), outs.drop_first()),
        rel(states[0], states[1], outs[0]),
{
    assert(step_at(rel, states, outs, 0));
    assert forall|k: int| 0 <= k < outs.drop_first().len() implies #[trigger] step_at(
        rel,
        states.drop_first(),
        outs.drop_first(),
        k,
    ) by {
        assert(step_at(rel, states, outs, k + 1));
    }
}

/// The outcomes of a run of items, without the first.
pub proof fn lemma_yields_drop_first<T, E>(items: Seq<T>, last: Result<Option<T>, E>)
    requires
        items.len() > 0,
    ensures
        yields::<T, E>(items).drop_first() == yields::<T, E>(items.drop_first()),
        yields::<T, E>(items).push(last).drop_first() == yields::<T, E>(items.drop_first()).push(last),
        yields::<T, E>(items)[0] == Ok::<Option<T>, E>(Some(items[0])),
{
    assert(yields::<T, E>(items).drop_first() =~= yields::<T, E>(items.drop_first()));
    assert(yields::<T, E>(items).push(last).drop_first() =~= yields::<T, E>(items.drop_first()).push(
        last,
    ));
}

/// Two runs of items, one after the other, make one.
pub proof fn lemma_steps_concat<S, T, E>(
    rel: StepRel<S, T, E>,
    s1: Seq<S>,
    xs: Seq<T>,
    s2: Seq<S>,
    zs: Seq<T>,
)
    requires
        steps(rel, s1, yields(xs)),
        steps(rel, s2, yields(zs)),
        s1.last() == s2[0],
    ensures
        steps(rel, s1 + s2.drop_first(), yields(xs + zs)),
        (s1 + s2.drop_first())[0] == s1[0],
        (s1 + s2.drop_first()).last() == s2.last(),
{
    let ss = s1 + s2.drop_first();
    let outs = yields::<T, E>(xs + zs);
    assert forall|k: int| 0 <= k < outs.len() implies #[trigger] step_at(rel, ss, outs, k) by {
        if k < xs.len() {
            assert(step_at(rel, s1, yields(xs), k));
        } else {
            assert(step_at(rel, s2, yields(zs), k - xs.len()));
        }
    }
}

/// `rel` allows at most one outcome of a call from each state: the result and the state after
/// the call are determined by the state before it.
pub open spec fn deterministic<S, T, E>(rel: StepRel<S, T, E>) -> bool {
    forall|a: S, b1: S, b2: S, o1: Result<Option<T>, E>, o2: Result<Option<T>, E>|
        #![trigger rel(a, b1, o1), rel(a, b2, o2)]
        rel(a, b1, o1) && rel(a, b2, o2) ==> b1 == b2 && o1 == o2
}

/// Two runs of a deterministic relation from the same state agree on their first `k` calls.
proof fn lemma_runs_agree<S, T, E>(
    rel: StepRel<S, T, E>,
    s1: Seq<S>,
    o1: Seq<Result<Option<T>, E>>,
    s2: Seq<S>,
    o2: Seq<Result<Option<T>, E>>,
    k: int,
)
    requires
        deterministic(rel),
        steps(rel, s1, o1),
        steps(rel, s2, o2),
        s1[0] == s2[0],
        0 <= k <= o1.len(),
        k <= o2.len(),
    ensures
        s1[k] == s2[k],
        forall|j: int| 0 <= j < k ==> o1[j] == o2[j],
    decreases k,
{
    if k > 0 {
        lemma_runs_agree(rel, s1, o1, s2, o2, k - 1);
        assert(step_at(rel, s1, o1, k - 1));
        assert(step_at(rel, s2, o2, k - 1));
    }
}

/// For a deterministic relation, when the run from `start` yields `xs` and then `Ok(None)`,
/// asking for item `n < xs.len()` gives `xs[n]`, and the calls after it yield the rest of `xs`
/// and then `Ok(None)`.
pub proof fn lemma_nth_then_rest<S, T, E>(
    rel: StepRel<S, T, E>,
    start: S,
    xs: Seq<T>,
    end: S,
    n: nat,
    r: Result<Option<T>, E>,
    post: S,
)
    requires
        deterministic(rel),
        ends_ok(rel, start, xs, end),
        n < xs.len(),
        nth_result(rel, start, n, r, post),
    ensures
        r == Ok::<Option<T>, E>(Some(xs[n as int])),
        ends_ok(rel, post, xs.subrange(n + 1 as int, xs.len() as int), end),
{
    let outs = yields::<T, E>(xs).push(Ok(None));
    let ss = choose|ss: Seq<S>| steps(rel, ss, outs) && ss[0] == start && ss.last() == end;
    match r {
        Ok(Some(x)) => {
            let items = choose|items: Seq<T>| items.len() == n && #[trigger] runs(rel, start, yields(items.push(x)), post);
            let o2 = yields::<T, E>(items.push(x));
            let ts = choose|ts: Seq<S>| steps(rel, ts, o2) && ts[0] == start && ts.last() == post;
            lemma_runs_agree(rel, ss, outs, ts, o2, n as int + 1);
            assert(o2[n as int] == outs[n as int]);
            assert(o2[n as int] == Ok::<Option<T>, E>(Some(items.push(x)[n as int])));
            assert(outs[n as int] == Ok::<Option<T>, E>(Some(xs[n as int])));
            let m = n + 1;
            let rest = xs.subrange(m as int, xs.len() as int);
            let routs = yields::<T, E>(rest).push(Ok(None));
            let rs = ss.subrange(m as int, ss.len() as int);
            assert(routs =~= outs.subrange(m as int, outs.len() as int));
            assert forall|j: int| 0 <= j < routs.len() implies #[trigger] step_at(rel, rs, routs, j) by {
                assert(step_at(rel, ss, outs, j + m));
            }
            assert(rs[0] == post);
            assert(steps(rel, rs, routs));
        },
        Ok(None) => {
            let items = choose|items: Seq<T>| items.len() <= n && #[trigger] ends_ok(rel, start, items, post);
            let o2 = yields::<T, E>(items).push(Ok(None));
            let ts = choose|ts: Seq<S>| steps(rel, ts, o2) && ts[0] == start && ts.last() == post;
            let k = items.len() as int;
            lemma_runs_agree(rel, ss, outs, ts, o2, k + 1);
            assert(o2[k] == outs[k]);
            assert(outs[k] == Ok::<Option<T>, E>(Some(xs[k])));
        },
        Err(e) => {
            let items = choose|items: Seq<T>| items.len() <= n && #[trigger] ends_err(rel, start, items, e, post);
            let o2 = yields::<T, E>(items).push(Err(e));
            let ts = choose|ts: Seq<S>| steps(rel, ts, o2) && ts[0] == start && ts.last() == post;
            let k = items.len() as int;
            lemma_runs_agree(rel, ss, outs, ts, o2, k + 1);
            assert(o2[k] == outs[k]);
            assert(outs[k] == Ok::<Option<T>, E>(Some(xs[k])));
        },
    }
}

/// Two runs of a deterministic relation from the same state give the same results, call for
/// call, as far as both go, and end in the same state when they have as many calls.
pub proof fn lemma_runs_unique<S, T, E>(
    rel: StepRel<S, T, E>,
    start: S,
    o1: Seq<Result<Option<T>, E>>,
    e1: S,
    o2: Seq<Result<Option<T>, E>>,
    e2: S,
)
    requires
        deterministic(rel),
        runs(rel, start, o1, e1),
        runs(rel, start, o2, e2),
    ensures
        forall|j: int| 0 <= j < o1.len() && j < o2.len() ==> o1[j] == o2[j],
        o1.len() == o2.len() ==> e1 == e2,
{
    let s1 = choose|s: Seq<S>| steps(rel, s, o1) && s[0] == start && s.last() == e1;
    let s2 = choose|s: Seq<S>| steps(rel, s, o2) && s[0] == start && s.last() == e2;
    let k = if o1.len() < o2.len() {
        o1.len() as int
    } else {
        o2.len() as int
    };
    lemma_runs_agree(rel, s1, o1, s2, o2, k);
}

/// `rel` is fused: after a call that returns `Ok(None)`, every call returns `Ok(None)` and
/// leaves the state as it is.
pub open spec fn fused<S, T, E>(rel: StepRel<S, T, E>) -> bool {
    forall|a: S, b: S, c: S, o: Result<Option<T>, E>|
        #![trigger rel(a, b, Ok(None)), rel(b, c, o)]
        rel(a, b, Ok(None)) && rel(b, c, o) ==> o == Ok::<Option<T>, E>(None) && c == b
}

} // verus!
