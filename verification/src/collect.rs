//! Collecting the items of a fallible iterator into the standard collections.
use std::collections::{BTreeMap, BTreeSet, HashMap, HashSet};
use std::hash::Hash;

use vstd::prelude::*;

use crate::iterator::{FallibleIterator, FromFallibleIterator};
use crate::run::{
    always, lemma_collect_err, lemma_collect_ok, lemma_record_end,
    lemma_record_item, steps, stops_within, yields,
};

verus! {

broadcast use vstd::std_specs::hash::group_hash_axioms;

/// The map made by inserting the pairs of `items` in order: a later pair for a key replaces an
/// earlier one.
pub open spec fn pairs_to_map<K, V>(items: Seq<(K, V)>) -> Map<K, V>
    decreases items.len(),
{
    if items.len() == 0 {
        Map::empty()
    } else {
        pairs_to_map(items.drop_last()).insert(items.last().0, items.last().1)
    }
}

/// Inserting one more pair.
proof fn lemma_pairs_to_map_push<K, V>(items: Seq<(K, V)>, p: (K, V))
    ensures
        pairs_to_map(items.push(p)) == pairs_to_map(items).insert(p.0, p.1),
{
    assert(items.push(p).drop_last() =~= items);
}

impl<T> FromFallibleIterator<T> for Vec<T> {
    /// The items in order.
    open spec fn collects(items: Seq<T>, c: Vec<T>) -> bool {
        c@ == items
    }

    #[verifier::loop_isolation(false)]
    fn from_fallible_iterator<I>(it: I) -> (r: Result<Vec<T>, I::Error>) where
        I: FallibleIterator<Item = T>,
     {
        let ghost can = |s: I| s.can_next();
        let ghost rel = |a: I, b: I, o: Result<Option<T>, I::Error>| a.next_rel(&b, o);
        let ghost collects = |items: Seq<T>, c: Vec<T>| Self::collects(items, c);
        let ghost start = it;
        let mut it = it;
        let ghost mut states: Seq<I> = seq![it];
        let ghost mut items: Seq<T> = seq![];
        let ghost mut fuel: nat = choose|n: nat| stops_within(can, rel, it, always(), n);
        let mut vec = Vec::with_capacity(it.size_hint().0);
        loop
            invariant
                vec@ == items,
                stops_within(can, rel, it, always(), fuel),
                steps(rel, states, yields(items)),
                states[0] == start,
                states.last() == it,
            decreases fuel,
        {
            let ghost prev = it;
            match it.next() {
                Ok(Some(v)) => {
                    proof {
                        assert(rel(prev, it, Ok(Some(v))));
                        assert(always::<T>()(v));
                        lemma_record_item(rel, states, items, it, v);
                        states = states.push(it);
                        items = items.push(v);
                        assert(stops_within(can, rel, it, always(), (fuel - 1) as nat));
                        fuel = (fuel - 1) as nat;
                    }
                    vec.push(v);
                },
                Ok(None) => {
                    proof {
                        lemma_record_end(rel, states, items, it, Ok(None));
                        lemma_collect_ok(rel, start, items, it, collects, vec);
                    }
                    return Ok(vec);
                },
                Err(e) => {
                    proof {
                        lemma_record_end(rel, states, items, it, Err(e));
                        lemma_collect_err(rel, start, items, e, it, collects);
                    }
                    return Err(e);
                },
            }
        }
    }
}

impl<T> FromFallibleIterator<T> for HashSet<T> where T: Hash + Eq {
    /// The set of the items, for a type of items that the hashing model covers.
    open spec fn collects(items: Seq<T>, c: HashSet<T>) -> bool {
        vstd::std_specs::hash::obeys_key_model::<T>() ==> c@ == items.to_set()
    }

    #[verifier::loop_isolation(false)]
    fn from_fallible_iterator<I>(it: I) -> (r: Result<HashSet<T>, I::Error>) where
        I: FallibleIterator<Item = T>,
     {
        let ghost can = |s: I| s.can_next();
        let ghost rel = |a: I, b: I, o: Result<Option<T>, I::Error>| a.next_rel(&b, o);
        let ghost collects = |items: Seq<T>, c: HashSet<T>| Self::collects(items, c);
        let ghost start = it;
        let mut it = it;
        let ghost mut states: Seq<I> = seq![it];
        let ghost mut items: Seq<T> = seq![];
        let ghost mut fuel: nat = choose|n: nat| stops_within(can, rel, it, always(), n);
        let mut set = HashSet::with_capacity(it.size_hint().0);
        assert(items.to_set() =~= Set::<T>::empty());
        loop
            invariant
                Self::collects(items, set),
                stops_within(can, rel, it, always(), fuel),
                steps(rel, states, yields(items)),
                states[0] == start,
                states.last() == it,
            decreases fuel,
        {
            let ghost prev = it;
            match it.next() {
                Ok(Some(v)) => {
                    proof {
                        assert(rel(prev, it, Ok(Some(v))));
                        assert(always::<T>()(v));
                        lemma_record_item(rel, states, items, it, v);
                        items.lemma_push_to_set_commute(v);
                        states = states.push(it);
                        items = items.push(v);
                        assert(stops_within(can, rel, it, always(), (fuel - 1) as nat));
                        fuel = (fuel - 1) as nat;
                    }
                    set.insert(v);
                },
                Ok(None) => {
                    proof {
                        lemma_record_end(rel, states, items, it, Ok(None));
                        lemma_collect_ok(rel, start, items, it, collects, set);
                    }
                    return Ok(set);
                },
                Err(e) => {
                    proof {
                        lemma_record_end(rel, states, items, it, Err(e));
                        lemma_collect_err(rel, start, items, e, it, collects);
                    }
                    return Err(e);
                },
            }
        }
    }
}

impl<K, V> FromFallibleIterator<(K, V)> for HashMap<K, V> where K: Hash + Eq {
    /// The map made by inserting the pairs in order, for a type of keys that the hashing model
    /// covers.
    open spec fn collects(items: Seq<(K, V)>, c: HashMap<K, V>) -> bool {
        vstd::std_specs::hash::obeys_key_model::<K>() ==> c@ == pairs_to_map(items)
    }

    #[verifier::loop_isolation(false)]
    fn from_fallible_iterator<I>(it: I) -> (r: Result<HashMap<K, V>, I::Error>) where
        I: FallibleIterator<Item = (K, V)>,
     {
        let ghost can = |s: I| s.can_next();
        let ghost rel = |a: I, b: I, o: Result<Option<(K, V)>, I::Error>| a.next_rel(&b, o);
        let ghost collects = |items: Seq<(K, V)>, c: HashMap<K, V>| Self::collects(items, c);
        let ghost start = it;
        let mut it = it;
        let ghost mut states: Seq<I> = seq![it];
        let ghost mut items: Seq<(K, V)> = seq![];
        let ghost mut fuel: nat = choose|n: nat| stops_within(can, rel, it, always(), n);
        let mut map = HashMap::with_capacity(it.size_hint().0);
        assert(pairs_to_map(items) =~= Map::<K, V>::empty());
        loop
            invariant
                Self::collects(items, map),
                stops_within(can, rel, it, always(), fuel),
                steps(rel, states, yields(items)),
                states[0] == start,
                states.last() == it,
            decreases fuel,
        {
            let ghost prev = it;
            match it.next() {
                Ok(Some((k, v))) => {
                    proof {
                        assert(rel(prev, it, Ok(Some((k, v)))));
                        assert(always::<(K, V)>()((k, v)));
                        lemma_record_item(rel, states, items, it, (k, v));
                        lemma_pairs_to_map_push(items, (k, v));
                        states = states.push(it);
                        items = items.push((k, v));
                        assert(stops_within(can, rel, it, always(), (fuel - 1) as nat));
                        fuel = (fuel - 1) as nat;
                    }
                    map.insert(k, v);
                },
                Ok(None) => {
                    proof {
                        lemma_record_end(rel, states, items, it, Ok(None));
                        lemma_collect_ok(rel, start, items, it, collects, map);
                    }
                    return Ok(map);
                },
                Err(e) => {
                    proof {
                        lemma_record_end(rel, states, items, it, Err(e));
                        lemma_collect_err(rel, start, items, e, it, collects);
                    }
                    return Err(e);
                },
            }
        }
    }
}

impl<T> FromFallibleIterator<T> for BTreeSet<T> where T: Ord {
    /// The set of the items, for a type of items whose order follows its specification.
    open spec fn collects(items: Seq<T>, c: BTreeSet<T>) -> bool {
        vstd::laws_cmp::obeys_cmp::<T>() ==> c@ == items.to_set()
    }

    #[verifier::loop_isolation(false)]
    fn from_fallible_iterator<I>(it: I) -> (r: Result<BTreeSet<T>, I::Error>) where
        I: FallibleIterator<Item = T>,
     {
        let ghost can = |s: I| s.can_next();
        let ghost rel = |a: I, b: I, o: Result<Option<T>, I::Error>| a.next_rel(&b, o);
        let ghost collects = |items: Seq<T>, c: BTreeSet<T>| Self::collects(items, c);
        let ghost start = it;
        let mut it = it;
        let ghost mut states: Seq<I> = seq![it];
        let ghost mut items: Seq<T> = seq![];
        let ghost mut fuel: nat = choose|n: nat| stops_within(can, rel, it, always(), n);
        let mut set = BTreeSet::new();
        assert(items.to_set() =~= Set::<T>::empty());
        loop
            invariant
                Self::collects(items, set),
                stops_within(can, rel, it, always(), fuel),
                steps(rel, states, yields(items)),
                states[0] == start,
                states.last() == it,
            decreases fuel,
        {
            let ghost prev = it;
            match it.next() {
                Ok(Some(v)) => {
                    proof {
                        assert(rel(prev, it, Ok(Some(v))));
                        assert(always::<T>()(v));
                        lemma_record_item(rel, states, items, it, v);
                        items.lemma_push_to_set_commute(v);
                        states = states.push(it);
                        items = items.push(v);
                        assert(stops_within(can, rel, it, always(), (fuel - 1) as nat));
                        fuel = (fuel - 1) as nat;
                    }
                    set.insert(v);
                },
                Ok(None) => {
                    proof {
                        lemma_record_end(rel, states, items, it, Ok(None));
                        lemma_collect_ok(rel, start, items, it, collects, set);
                    }
                    return Ok(set);
                },
                Err(e) => {
                    proof {
                        lemma_record_end(rel, states, items, it, Err(e));
                        lemma_collect_err(rel, start, items, e, it, collects);
                    }
                    return Err(e);
                },
            }
        }
    }
}

impl<K, V> FromFallibleIterator<(K, V)> for BTreeMap<K, V> where K: Ord {
    /// The map made by inserting the pairs in order, for a type of keys whose order follows its
    /// specification.
    open spec fn collects(items: Seq<(K, V)>, c: BTreeMap<K, V>) -> bool {
        vstd::laws_cmp::obeys_cmp::<K>() ==> c@ == pairs_to_map(items)
    }

    #[verifier::loop_isolation(false)]
    fn from_fallible_iterator<I>(it: I) -> (r: Result<BTreeMap<K, V>, I::Error>) where
        I: FallibleIterator<Item = (K, V)>,
     {
        let ghost can = |s: I| s.can_next();
        let ghost rel = |a: I, b: I, o: Result<Option<(K, V)>, I::Error>| a.next_rel(&b, o);
        let ghost collects = |items: Seq<(K, V)>, c: BTreeMap<K, V>| Self::collects(items, c);
        let ghost start = it;
        let mut it = it;
        let ghost mut states: Seq<I> = seq![it];
        let ghost mut items: Seq<(K, V)> = seq![];
        let ghost mut fuel: nat = choose|n: nat| stops_within(can, rel, it, always(), n);
        let mut map = BTreeMap::new();
        assert(pairs_to_map(items) =~= Map::<K, V>::empty());
        loop
            invariant
                Self::collects(items, map),
                stops_within(can, rel, it, always(), fuel),
                steps(rel, states, yields(items)),
                states[0] == start,
                states.last() == it,
            decreases fuel,
        {
            let ghost prev = it;
            match it.next() {
                Ok(Some((k, v))) => {
                    proof {
                        assert(rel(prev, it, Ok(Some((k, v)))));
                        assert(always::<(K, V)>()((k, v)));
                        lemma_record_item(rel, states, items, it, (k, v));
                        lemma_pairs_to_map_push(items, (k, v));
                        states = states.push(it);
                        items = items.push((k, v));
                        assert(stops_within(can, rel, it, always(), (fuel - 1) as nat));
                        fuel = (fuel - 1) as nat;
                    }
                    map.insert(k, v);
                },
                Ok(None) => {
                    proof {
                        lemma_record_end(rel, states, items, it, Ok(None));
                        lemma_collect_ok(rel, start, items, it, collects, map);
                    }
                    return Ok(map);
                },
                Err(e) => {
                    proof {
                        lemma_record_end(rel, states, items, it, Err(e));
                        lemma_collect_err(rel, start, items, e, it, collects);
                    }
                    return Err(e);
                },
            }
        }
    }
}

} // verus!
