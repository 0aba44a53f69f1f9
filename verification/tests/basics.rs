use std::collections::{BTreeMap, BTreeSet, HashMap, HashSet};

use lib::{convert, FallibleIterator, FallibleIteratorExt};

/// Counts up from `n` to `limit`, then yields `Ok(None)`.
struct Counter {
    n: u32,
    limit: u32,
}

impl FallibleIterator for Counter {
    type Item = u32;
    type Error = String;

    fn next(&mut self) -> Result<Option<u32>, String> {
        if self.n == self.limit {
            return Ok(None);
        }
        self.n += 1;
        Ok(Some(self.n))
    }
}

fn items(v: Vec<Result<u32, &'static str>>) -> lib::Convert<std::vec::IntoIter<Result<u32, &'static str>>> {
    convert(v.into_iter())
}

#[test]
fn count_of_own_iterator() {
    let c = Counter { n: 0, limit: 3 };
    assert_eq!(c.count(), Ok(3));
}

#[test]
fn count_of_converted_iterator() {
    assert_eq!(items(vec![Ok(1), Ok(2)]).count(), Ok(2));
    assert_eq!(items(vec![]).count(), Ok(0));
}

#[test]
fn count_stops_at_first_error() {
    assert_eq!(items(vec![Ok(1), Err("bad"), Ok(2), Err("worse")]).count(), Err("bad"));
}

#[test]
fn last_item() {
    assert_eq!(items(vec![Ok(1), Ok(2), Ok(3)]).last(), Ok(Some(3)));
    assert_eq!(items(vec![]).last(), Ok(None));
    assert_eq!(items(vec![Ok(1), Err("bad")]).last(), Err("bad"));
}

#[test]
fn all_items_match() {
    let mut it = items(vec![Ok(2), Ok(4), Ok(6)]);
    assert_eq!(it.all(|x| x % 2 == 0), Ok(true));
    let mut it = items(vec![Ok(2), Ok(3), Ok(4)]);
    assert_eq!(it.all(|x| x % 2 == 0), Ok(false));
    // `all` stops at the first item that fails the test.
    assert_eq!(it.next(), Ok(Some(4)));
    let mut it = items(vec![Ok(2), Err("bad"), Ok(3)]);
    assert_eq!(it.all(|x| x % 2 == 0), Err("bad"));
}

#[test]
fn any_item_matches() {
    let mut it = items(vec![Ok(1), Ok(4), Ok(5)]);
    assert_eq!(it.any(|x| x % 2 == 0), Ok(true));
    assert_eq!(it.next(), Ok(Some(5)));
    let mut it = items(vec![Ok(1), Ok(3)]);
    assert_eq!(it.any(|x| x % 2 == 0), Ok(false));
    let mut it = items(vec![Ok(1), Err("bad"), Ok(4)]);
    assert_eq!(it.any(|x| x % 2 == 0), Err("bad"));
}

#[test]
fn nth_item() {
    let mut it = items(vec![Ok(10), Ok(11), Ok(12), Ok(13)]);
    assert_eq!(it.nth(0), Ok(Some(10)));
    assert_eq!(it.nth(1), Ok(Some(12)));
    assert_eq!(it.nth(5), Ok(None));
    let mut it = items(vec![Ok(10), Err("bad"), Ok(12)]);
    assert_eq!(it.nth(2), Err("bad"));
}

#[test]
fn by_ref_does_not_consume() {
    let mut it = items(vec![Ok(1), Ok(2), Ok(3), Ok(4)]);
    assert_eq!(it.by_ref().take(2).count(), Ok(2));
    assert_eq!(it.next(), Ok(Some(3)));
}

#[test]
fn collect_into_vec_keeps_order() {
    let v: Result<Vec<u32>, &str> = items(vec![Ok(3), Ok(1), Ok(2)]).collect();
    assert_eq!(v, Ok(vec![3, 1, 2]));
    let v: Result<Vec<u32>, &str> = items(vec![Ok(3), Err("bad"), Ok(2)]).collect();
    assert_eq!(v, Err("bad"));
}

#[test]
fn collect_into_sets() {
    let s: Result<HashSet<u32>, &str> = items(vec![Ok(3), Ok(1), Ok(3)]).collect();
    assert_eq!(s, Ok([1, 3].iter().cloned().collect::<HashSet<u32>>()));
    let s: Result<BTreeSet<u32>, &str> = items(vec![Ok(3), Ok(1), Ok(3)]).collect();
    assert_eq!(s.map(|s| s.into_iter().collect::<Vec<u32>>()), Ok(vec![1, 3]));
    let s: Result<BTreeSet<u32>, &str> = items(vec![Ok(3), Err("bad")]).collect();
    assert_eq!(s, Err("bad"));
}

#[test]
fn collect_into_maps_later_pair_wins() {
    let pairs = vec![Ok((1, "a")), Ok((2, "b")), Ok((1, "c"))];
    let m: Result<HashMap<u32, &str>, ()> = convert(pairs.clone().into_iter()).collect();
    let m = m.unwrap();
    assert_eq!(m.len(), 2);
    assert_eq!(m[&1], "c");
    assert_eq!(m[&2], "b");
    let m: Result<BTreeMap<u32, &str>, ()> = convert(pairs.into_iter()).collect();
    assert_eq!(m.map(|m| m.into_iter().collect::<Vec<_>>()), Ok(vec![(1, "c"), (2, "b")]));
    let m: Result<HashMap<u32, &str>, &str> = convert(vec![Ok((1, "a")), Err("bad")].into_iter()).collect();
    assert_eq!(m, Err("bad"));
}

#[test]
fn default_size_hint() {
    let c = Counter { n: 0, limit: 3 };
    assert_eq!(c.size_hint(), (0, None));
}

fn ints(v: Vec<Result<i32, i32>>) -> lib::Convert<std::vec::IntoIter<Result<i32, i32>>> {
    lib::convert(v.into_iter())
}

#[test]
fn any_returns_error_before_later_match() {
    let mut it = ints(vec![Ok(1), Err(9), Ok(2)]);
    assert_eq!(it.any(|x| x == 2), Err(9));
}

#[test]
fn count_returns_error() {
    assert_eq!(ints(vec![Ok(1), Err(5), Ok(3)]).count(), Err(5));
}

#[test]
fn last_returns_error_rather_than_last_item() {
    assert_eq!(ints(vec![Ok(1), Err(2)]).last(), Err(2));
}

#[test]
fn collect_into_vec_returns_error() {
    assert_eq!(ints(vec![Ok(1), Err(7), Ok(3)]).collect::<Vec<i32>>(), Err(7));
}

#[test]
fn collect_into_btree_map_later_pair_wins() {
    let it = lib::convert(vec![Ok::<(i32, char), i32>((2, 'a')), Ok((1, 'b')), Ok((2, 'c'))].into_iter());
    let mut expected = BTreeMap::new();
    expected.insert(1, 'b');
    expected.insert(2, 'c');
    assert_eq!(it.collect::<BTreeMap<i32, char>>(), Ok(expected));
}
