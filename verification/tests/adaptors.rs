use lib::{convert, DoubleEndedFallibleIterator, FallibleIterator, FallibleIteratorExt};

fn items(v: Vec<Result<u32, &'static str>>) -> lib::Convert<std::vec::IntoIter<Result<u32, &'static str>>> {
    convert(v.into_iter())
}

/// Yields `Ok(None)` on every third call and an item otherwise, forever.
struct Blinker {
    calls: u32,
}

impl FallibleIterator for Blinker {
    type Item = u32;
    type Error = ();

    fn next(&mut self) -> Result<Option<u32>, ()> {
        self.calls += 1;
        if self.calls % 3 == 0 {
            Ok(None)
        } else {
            Ok(Some(self.calls))
        }
    }
}

#[test]
fn chain_front_then_back() {
    let mut it = items(vec![Ok(1), Ok(2)]).chain(items(vec![Ok(3)]));
    assert_eq!(it.next(), Ok(Some(1)));
    assert_eq!(it.next(), Ok(Some(2)));
    assert_eq!(it.next(), Ok(Some(3)));
    assert_eq!(it.next(), Ok(None));
}

#[test]
fn chain_count_sums() {
    let it = items(vec![Ok(1), Ok(2)]).chain(items(vec![Ok(3), Ok(4), Ok(5)]));
    assert_eq!(it.count(), Ok(5));
    let it = items(vec![Ok(1), Err("front")]).chain(items(vec![Ok(3)]));
    assert_eq!(it.count(), Err("front"));
    let it = items(vec![Ok(1)]).chain(items(vec![Ok(3), Err("back")]));
    assert_eq!(it.count(), Err("back"));
}

#[test]
fn chain_from_the_back() {
    let mut it = items(vec![Ok(1), Ok(2)]).chain(items(vec![Ok(3)]));
    assert_eq!(it.next_back(), Ok(Some(3)));
    assert_eq!(it.next_back(), Ok(Some(2)));
    assert_eq!(it.next(), Ok(Some(1)));
    assert_eq!(it.next(), Ok(None));
}

#[test]
fn chain_size_hint_adds() {
    let it = items(vec![Ok(1), Ok(2)]).chain(items(vec![Ok(3)]));
    assert_eq!(it.size_hint(), (3, Some(3)));
}

#[test]
fn cloned_items() {
    let data = vec![String::from("a"), String::from("b")];
    let refs: Vec<Result<&String, ()>> = data.iter().map(Ok).collect();
    let mut it = convert(refs.into_iter()).cloned();
    assert_eq!(it.next(), Ok(Some(String::from("a"))));
    assert_eq!(it.next_back(), Ok(Some(String::from("b"))));
    assert_eq!(it.next(), Ok(None));
    let refs: Vec<Result<&String, ()>> = data.iter().map(Ok).collect();
    assert_eq!(convert(refs.into_iter()).cloned().count(), Ok(2));
}

#[test]
fn enumerate_positions() {
    let mut it = items(vec![Ok(7), Ok(8), Ok(9)]).enumerate();
    assert_eq!(it.next(), Ok(Some((0, 7))));
    assert_eq!(it.next(), Ok(Some((1, 8))));
    assert_eq!(it.next(), Ok(Some((2, 9))));
    assert_eq!(it.next(), Ok(None));
    assert_eq!(items(vec![Ok(7), Ok(8)]).enumerate().count(), Ok(2));
}

#[test]
fn enumerate_error_keeps_position() {
    let mut it = items(vec![Ok(7), Err("bad"), Ok(9)]).enumerate();
    assert_eq!(it.next(), Ok(Some((0, 7))));
    assert_eq!(it.next(), Err("bad"));
    assert_eq!(it.next(), Ok(Some((1, 9))));
}

#[test]
fn filter_skips_rejected() {
    let mut it = items(vec![Ok(1), Ok(2), Ok(3), Ok(4), Ok(5)]).filter(|x| x % 2 == 1);
    assert_eq!(it.next(), Ok(Some(1)));
    assert_eq!(it.next_back(), Ok(Some(5)));
    assert_eq!(it.next(), Ok(Some(3)));
    assert_eq!(it.next(), Ok(None));
    assert_eq!(it.size_hint().0, 0);
}

#[test]
fn filter_passes_errors_on() {
    let mut it = items(vec![Ok(2), Err("bad"), Ok(3)]).filter(|x| x % 2 == 1);
    assert_eq!(it.next(), Err("bad"));
    assert_eq!(it.next(), Ok(Some(3)));
}

#[test]
fn filter_map_keeps_some() {
    let mut it = items(vec![Ok(1), Ok(2), Ok(3), Ok(4)])
        .filter_map(|x| if x % 2 == 0 { Some(x * 10) } else { None });
    assert_eq!(it.next(), Ok(Some(20)));
    assert_eq!(it.next_back(), Ok(Some(40)));
    assert_eq!(it.next(), Ok(None));
    let mut it = items(vec![Ok(1), Err("bad")]).filter_map(|x| Some(x));
    assert_eq!(it.next(), Ok(Some(1)));
    assert_eq!(it.next(), Err("bad"));
}

#[test]
fn fuse_stays_done() {
    let mut raw = Blinker { calls: 0 };
    assert_eq!(raw.next(), Ok(Some(1)));
    assert_eq!(raw.next(), Ok(Some(2)));
    assert_eq!(raw.next(), Ok(None));
    assert_eq!(raw.next(), Ok(Some(4)));
    let mut it = Blinker { calls: 0 }.fuse();
    assert_eq!(it.next(), Ok(Some(1)));
    assert_eq!(it.next(), Ok(Some(2)));
    assert_eq!(it.next(), Ok(None));
    assert_eq!(it.next(), Ok(None));
    assert_eq!(it.next(), Ok(None));
}

#[test]
fn fuse_count() {
    assert_eq!(Blinker { calls: 0 }.fuse().count(), Ok(2));
    let mut it = Blinker { calls: 0 }.fuse();
    assert_eq!(it.nth(2), Ok(None));
    assert_eq!(it.count(), Ok(0));
}

#[test]
fn iterator_wraps_results() {
    let mut it = items(vec![Ok(1), Err("bad"), Ok(3)]).iterator();
    assert_eq!(it.next(), Some(Ok(1)));
    assert_eq!(it.next(), Some(Err("bad")));
    assert_eq!(it.next_back(), Some(Ok(3)));
    assert_eq!(it.next(), None);
}

#[test]
fn convert_maps_results() {
    let mut it = items(vec![Ok(1), Err("bad"), Ok(3)]);
    assert_eq!(it.size_hint(), (3, Some(3)));
    assert_eq!(it.next(), Ok(Some(1)));
    assert_eq!(it.next_back(), Ok(Some(3)));
    assert_eq!(it.next(), Err("bad"));
    assert_eq!(it.next(), Ok(None));
}

#[test]
fn map_transforms_items() {
    let mut it = items(vec![Ok(1), Ok(2), Ok(3)]).map(|x| x * 2);
    assert_eq!(it.next(), Ok(Some(2)));
    assert_eq!(it.next_back(), Ok(Some(6)));
    assert_eq!(it.size_hint(), (1, Some(1)));
    assert_eq!(it.count(), Ok(1));
    let mut it = items(vec![Err("bad")]).map(|x| x * 2);
    assert_eq!(it.next(), Err("bad"));
}

#[test]
fn map_err_transforms_errors() {
    let mut it = items(vec![Ok(1), Err("bad")]).map_err(|e| e.len());
    assert_eq!(it.next(), Ok(Some(1)));
    assert_eq!(it.next(), Err(3));
    assert_eq!(items(vec![Ok(1), Err("worse")]).map_err(|e| e.len()).count(), Err(5));
    assert_eq!(items(vec![Ok(1), Ok(2)]).map_err(|e| e.len()).count(), Ok(2));
    let mut it = items(vec![Ok(1), Err("no")]).map_err(|e| e.len());
    assert_eq!(it.next_back(), Err(2));
}

#[test]
fn peek_then_next() {
    let mut it = items(vec![Ok(1), Ok(2)]).peekable();
    assert_eq!(it.peek(), Ok(Some(&1)));
    assert_eq!(it.peek(), Ok(Some(&1)));
    assert_eq!(it.size_hint(), (2, Some(2)));
    assert_eq!(it.next(), Ok(Some(1)));
    assert_eq!(it.next(), Ok(Some(2)));
    assert_eq!(it.peek(), Ok(None));
    assert_eq!(it.next(), Ok(None));
}

#[test]
fn peek_error_keeps_nothing() {
    let mut it = items(vec![Err("bad"), Ok(2)]).peekable();
    assert_eq!(it.peek(), Err("bad"));
    assert_eq!(it.next(), Ok(Some(2)));
}

#[test]
fn rev_reverses() {
    let mut it = items(vec![Ok(1), Ok(2), Ok(3)]).rev();
    assert_eq!(it.next(), Ok(Some(3)));
    assert_eq!(it.next_back(), Ok(Some(1)));
    assert_eq!(it.next(), Ok(Some(2)));
    assert_eq!(it.next(), Ok(None));
    let mut it = items(vec![Ok(1), Ok(2)]).rev().rev();
    assert_eq!(it.next(), Ok(Some(1)));
    assert_eq!(items(vec![Ok(1), Ok(2)]).rev().count(), Ok(2));
}

#[test]
fn take_at_most_n() {
    let mut it = items(vec![Ok(1), Ok(2), Ok(3)]).take(2);
    assert_eq!(it.size_hint(), (2, Some(2)));
    assert_eq!(it.next(), Ok(Some(1)));
    assert_eq!(it.next(), Ok(Some(2)));
    assert_eq!(it.next(), Ok(None));
    assert_eq!(items(vec![Ok(1)]).take(5).count(), Ok(1));
    assert_eq!(items(vec![Ok(1), Ok(2)]).take(0).count(), Ok(0));
    assert_eq!(Blinker { calls: 0 }.take(1).count(), Ok(1));
}

#[test]
fn take_error_does_not_count() {
    let mut it = items(vec![Err("bad"), Ok(1), Ok(2)]).take(1);
    assert_eq!(it.next(), Err("bad"));
    assert_eq!(it.next(), Ok(Some(1)));
    assert_eq!(it.next(), Ok(None));
}

#[test]
fn zip_pairs() {
    let mut it = items(vec![Ok(1), Ok(2), Ok(3)]).zip(items(vec![Ok(10), Ok(20)]));
    assert_eq!(it.size_hint(), (2, Some(2)));
    assert_eq!(it.next(), Ok(Some((1, 10))));
    assert_eq!(it.next(), Ok(Some((2, 20))));
    assert_eq!(it.next(), Ok(None));
}

#[test]
fn zip_errors() {
    let mut it = items(vec![Err("first"), Ok(2)]).zip(items(vec![Ok(10), Ok(20)]));
    assert_eq!(it.next(), Err("first"));
    assert_eq!(it.next(), Ok(Some((2, 10))));
    let mut it = items(vec![Ok(1), Ok(2)]).zip(items(vec![Err("second"), Ok(20)]));
    assert_eq!(it.next(), Err("second"));
    assert_eq!(it.next(), Ok(Some((2, 20))));
}

#[test]
fn boxed_and_borrowed_iterators() {
    let mut boxed: Box<lib::Convert<std::vec::IntoIter<Result<u32, &'static str>>>> =
        Box::new(items(vec![Ok(1), Ok(2)]));
    assert_eq!(boxed.next_back(), Ok(Some(2)));
    assert_eq!(boxed.size_hint(), (1, Some(1)));
    assert_eq!(boxed.next(), Ok(Some(1)));
    let mut it = items(vec![Ok(1), Ok(2), Ok(3)]);
    {
        let mut borrowed = &mut it;
        assert_eq!(borrowed.next(), Ok(Some(1)));
        assert_eq!(borrowed.next_back(), Ok(Some(3)));
    }
    assert_eq!(it.next(), Ok(Some(2)));
}

#[test]
fn nth_then_next_continues_after_item() {
    let mut it = items(vec![Ok(10), Ok(11), Ok(12)]);
    assert_eq!(it.nth(1), Ok(Some(11)));
    assert_eq!(it.next(), Ok(Some(12)));
    assert_eq!(it.next(), Ok(None));
}

#[test]
fn peeks_leave_next_results_unchanged() {
    let mut a = items(vec![Ok(1), Ok(2), Ok(3)]).peekable();
    let mut b = items(vec![Ok(1), Ok(2), Ok(3)]).peekable();
    assert_eq!(b.peek(), Ok(Some(&1)));
    assert_eq!(a.next(), b.next());
    assert_eq!(b.peek(), Ok(Some(&2)));
    assert_eq!(b.peek(), Ok(Some(&2)));
    assert_eq!(a.next(), b.next());
    assert_eq!(a.next(), b.next());
    assert_eq!(a.next(), b.next());
}

#[test]
fn filter_yields_accepted_in_order_each_tested_once() {
    let mut calls = 0;
    let mut it = items(vec![Ok(1), Ok(2), Ok(3), Ok(4), Ok(6)]).filter(|x: &u32| {
        calls += 1;
        *x % 2 == 0
    });
    assert_eq!(it.next(), Ok(Some(2)));
    assert_eq!(it.next(), Ok(Some(4)));
    assert_eq!(it.next(), Ok(Some(6)));
    assert_eq!(it.next(), Ok(None));
    drop(it);
    assert_eq!(calls, 5);
}

#[test]
fn filter_from_the_back() {
    let mut it = items(vec![Ok(1), Ok(2), Ok(3), Ok(4)]).filter(|x: &u32| *x > 1);
    assert_eq!(it.next_back(), Ok(Some(4)));
    assert_eq!(it.next_back(), Ok(Some(3)));
    assert_eq!(it.next_back(), Ok(Some(2)));
    assert_eq!(it.next_back(), Ok(None));
}

#[test]
fn filter_map_yields_some_results_in_order() {
    let mut it = items(vec![Ok(1), Ok(2), Ok(3), Ok(4)]).filter_map(|x: u32| if x % 2 == 0 { Some(x * 10) } else { None });
    assert_eq!(it.next(), Ok(Some(20)));
    assert_eq!(it.next(), Ok(Some(40)));
    assert_eq!(it.next(), Ok(None));
    let mut back = items(vec![Ok(1), Ok(2), Ok(3), Ok(4)]).filter_map(|x: u32| if x > 2 { Some(x) } else { None });
    assert_eq!(back.next_back(), Ok(Some(4)));
    assert_eq!(back.next_back(), Ok(Some(3)));
    assert_eq!(back.next_back(), Ok(None));
}

#[test]
fn last_of_converted_iterator() {
    assert_eq!(items(vec![Ok(1), Ok(2)]).last(), Ok(Some(2)));
    assert_eq!(items(vec![]).last(), Ok(None));
}

#[test]
fn chain_back_yields_back_items_then_front_items() {
    let mut it = items(vec![Ok(1), Ok(2)]).chain(items(vec![Ok(3), Ok(4)]));
    assert_eq!(it.next_back(), Ok(Some(4)));
    assert_eq!(it.next_back(), Ok(Some(3)));
    assert_eq!(it.next_back(), Ok(Some(2)));
    assert_eq!(it.next_back(), Ok(Some(1)));
    assert_eq!(it.next_back(), Ok(None));
}

#[test]
fn zip_stops_at_shorter() {
    let mut it = items(vec![Ok(1), Ok(2), Ok(3)]).zip(items(vec![Ok(10), Ok(20)]));
    assert_eq!(it.next(), Ok(Some((1, 10))));
    assert_eq!(it.next(), Ok(Some((2, 20))));
    assert_eq!(it.next(), Ok(None));
}

#[test]
fn take_yields_first_items_then_none_forever() {
    let mut it = items(vec![Ok(1), Ok(2), Ok(3)]).take(2);
    assert_eq!(it.next(), Ok(Some(1)));
    assert_eq!(it.next(), Ok(Some(2)));
    assert_eq!(it.next(), Ok(None));
    assert_eq!(it.next(), Ok(None));
    let mut short = items(vec![Ok(1)]).take(5);
    assert_eq!(short.next(), Ok(Some(1)));
    assert_eq!(short.next(), Ok(None));
}

#[test]
fn peek_of_end_on_fused_changes_nothing() {
    let mut a = items(vec![Ok(1)]).fuse().peekable();
    let mut b = items(vec![Ok(1)]).fuse().peekable();
    assert_eq!(a.next(), b.next());
    assert_eq!(b.peek(), Ok(None));
    assert_eq!(a.next(), b.next());
    assert_eq!(b.peek(), Ok(None));
    assert_eq!(a.next(), b.next());
}

#[test]
fn iterator_view_gives_std_results() {
    let mut it = items(vec![Ok(1), Err("bad"), Ok(3)]).iterator();
    assert_eq!(it.next(), Some(Ok(1)));
    assert_eq!(it.next(), Some(Err("bad")));
    assert_eq!(it.next(), Some(Ok(3)));
    assert_eq!(it.next(), None);
}
