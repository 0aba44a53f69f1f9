# Fallible iterators, verified

Iterators whose `next` can fail: `next` returns `Result<Option<Item>, Error>`, and the
consuming methods (`count`, `last`, `all`, `any`, `nth`, `collect`) stop at the first error.
Every function of the library is verified with Verus, but for one trusted wrapper that calls
the standard library's `Iterator::size_hint` (in `src/convert.rs`), of whose result nothing is
stated.

## The model

A `FallibleIterator` describes its `next` by two spec functions on its values:

- `can_next(&self)`: a call of `next` is allowed (and returns);
- `next_rel(&self, post, r)`: a call may take the iterator from `self` to `post` and return `r`.

`next` is specified by them, and so is everything else: an adaptor's relation is defined from
the relation of the iterator it wraps, and the consuming methods are specified over *runs*,
sequences of calls that the relation allows (`src/run.rs`). For example `count` returns
`Ok(n)` only when some run yields `n` items and then `Ok(None)`, and `Err(e)` only when some run
ends with the error `e`. The relation need not be deterministic: closures are described only by
their `requires`/`ensures`.

Loops that may not end (`count` on an endless iterator, `Filter::next` when no item passes)
require a bound on the calls, `stops_within`.

An adaptor's `size_hint` is specified by what it computes from the results of `size_hint` on
the iterators it wraps, as results of `size_hint_of` (through `call_ensures`); that the bounds
hold is stated by the `lemma_*_hint` laws below.

Double-ended iterators describe `next_back` in the same way (`can_next_back`,
`next_back_rel`).

## Converted standard iterators

`convert` wraps a standard iterator over `Result`s. vstd describes what a standard iterator
yields only through a prophetic specification (`remaining()`), which a relation cannot use.
So `Convert`'s `next_rel` states only what does not need it (`convert_step`): when the wrapped
iterator obeys the standard iterator laws and has a termination measure (`decrease`, as the
standard collections' iterators do), each call that yields an item or an error lowers the
measure. From this, `lemma_convert_stops` gives the `stops` bound that `all`, `any`, `last`,
`collect` and the filters require, and `finishes` (needed by `count`) when the measure is at
most `usize::MAX`. What the calls yield is stated only in `Convert::next`'s and
`Convert::next_back`'s own `ensures` (item for item, through `remaining()`); no law over whole
runs of a converted iterator states the items.

## Layout

- `src/iterator.rs`: the traits `FallibleIterator`, `FallibleIteratorExt`,
  `DoubleEndedFallibleIterator`, `FromFallibleIterator`, `IntoFallibleIterator`, and their
  impls for `&mut I` and `Box<I>`.
- `src/run.rs`: runs, bounds on runs, and what the consuming methods return over them.
- `src/collect.rs`: collecting into `Vec`, `HashSet`, `HashMap`, `BTreeSet`, `BTreeMap`.
- One module per adaptor: `chain`, `cloned`, `convert` (`Convert`, `convert`, `Iterator`),
  `enumerate`, `filter` (`Filter`, `FilterMap`), `fuse`, `mapped` (`Mapped`, `MapErr`),
  `peekable`, `rev`, `take`, `zip`.
- `tests/`: tests on concrete values.

Laws that relate several calls are public proof functions named `lemma_*`: for example
`lemma_chain_yields` (a chain yields its front iterator's items, then its back one's),
`lemma_fuse_stays_done`, `lemma_peek_then_next`, `lemma_peek_keeps_runs` (a peek that returns an
item changes no run of `next`), `lemma_filter_yields` and `lemma_filter_map_yields` (and their
`_back` forms: the items that come out, in order, each tested once), `lemma_nth_then_next`
(for a deterministic `next`), `lemma_take_at_most`, `lemma_rev_rev`, and,
for each adaptor, a `lemma_*_hint` stating that the bounds its `size_hint` computes hold.
