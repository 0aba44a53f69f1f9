//! "Fallible" iterators.
//!
//! A fallible iterator is built around the concept that a call to `next` can fail. The trait
//! has an additional `Error` associated type in addition to the `Item` type, and `next` returns
//! `Result<Option<Self::Item>, Self::Error>` rather than `Option<Self::Item>`. Methods like
//! `count` return `Result`s as well.
mod chain;
mod cloned;
mod collect;
mod convert;
mod enumerate;
mod filter;
mod fuse;
mod iterator;
mod mapped;
mod peekable;
mod rev;
mod take;
mod zip;
mod run;

pub use chain::{
    chain_can, chain_can_back, chain_hint, chain_hint_spec, chain_step, chain_step_back, lemma_chain_back_after_front_end,
    lemma_chain_back_error_keeps_both, lemma_chain_deterministic,
    lemma_chain_deterministic_back, lemma_chain_hint, lemma_chain_runs, lemma_chain_runs_back, lemma_chain_yields,
    lemma_chain_yields_back, Chain,
};
pub use cloned::{cloned_step, lemma_cloned_hint, Cloned, ItemRef};
pub use collect::pairs_to_map;
pub use convert::{
    convert, convert_step, from_std, lemma_convert_stops, lemma_convert_stops_back, lemma_iterator_runs,
    lemma_std_round_trip, std_hint_of, to_std, Convert, Iterator,
};
pub use enumerate::{
    counted, enumerate_can, enumerate_step, lemma_enumerate_hint, lemma_enumerate_positions, Enumerate,
};
pub use filter::{
    drops, filter_can, filter_map_can, filter_map_step, filter_step, kept, lemma_filter_from_inner, lemma_filter_hint,
    lemma_filter_map_from_inner, lemma_filter_map_hint, lemma_filter_map_yields, lemma_filter_map_yields_back,
    lemma_filter_yields, lemma_filter_yields_back, rejects, somes, Filter, FilterMap,
};
pub use fuse::{lemma_fuse_fused, lemma_fuse_hint, lemma_fuse_live_until_end, lemma_fuse_stays_done, Fuse};
pub use iterator::{
    can_back_of, can_of, hint_upper, lemma_hint_upper, lemma_nth_then_next, lemma_pick, may_return, pick, referent,
    rel_back_of, rel_of, size_hint_of, DoubleEndedFallibleIterator, FallibleIterator, FallibleIteratorExt,
    FromFallibleIterator, IntoFallibleIterator,
};
pub use mapped::{
    lemma_map_err_hint, lemma_mapped_hint, map_err_can, map_err_step, mapped_can, mapped_step, MapErr, Mapped,
};
pub use peekable::{
    lemma_peek_end_keeps_runs, lemma_peek_keeps_runs, lemma_peek_then_next, lemma_peekable_hint, peek_hint,
    peek_hint_spec, peekable_can, peekable_step, Peekable,
};
pub use rev::{lemma_rev_rev, Rev};
pub use run::{
    all_items, allowed_for, always, collect_result, count_result, deterministic, ends_err, ends_ok, finishes, fused,
    hint_valid, is_none, last_of, last_result, lemma_nth_then_rest, lemma_runs_unique, nth_result, runs,
    search_result, step_at, steps, stops, stops_within, yields, StepRel,
};
pub use take::{
    first_items, lemma_take_at_most, lemma_take_deterministic, lemma_take_hint, lemma_take_runs, lemma_take_spent,
    lemma_take_yields, take_can, take_hint, take_hint_spec, take_step, Take,
};
pub use zip::{
    lemma_zip_deterministic, lemma_zip_hint, lemma_zip_next_result, lemma_zip_runs, lemma_zip_yields, min_usize, pairs, zip_can, zip_combine,
    zip_hint, zip_hint_spec, zip_step, Zip,
};
