use lib::{chain_hint, peek_hint, take_hint, zip_hint, FallibleIterator, FallibleIteratorExt};

#[test]
fn chain_hint_adds_bounds() {
    assert_eq!(chain_hint((2, Some(3)), (4, Some(5))), (6, Some(8)));
    assert_eq!(chain_hint((2, None), (4, Some(5))), (6, None));
}

#[test]
fn chain_hint_saturates_and_overflows() {
    assert_eq!(chain_hint((usize::MAX, Some(usize::MAX)), (1, Some(1))), (usize::MAX, None));
}

#[test]
fn zip_hint_takes_smaller() {
    assert_eq!(zip_hint((2, Some(9)), (4, Some(5))), (2, Some(5)));
    assert_eq!(zip_hint((2, None), (4, Some(5))), (2, Some(5)));
    assert_eq!(zip_hint((2, Some(7)), (4, None)), (2, Some(7)));
    assert_eq!(zip_hint((2, None), (4, None)), (2, None));
}

#[test]
fn take_hint_caps() {
    assert_eq!(take_hint((5, Some(10)), 3), (3, Some(3)));
    assert_eq!(take_hint((1, None), 3), (1, None));
    assert_eq!(take_hint((1, Some(2)), 3), (1, Some(2)));
}

#[test]
fn peek_hint_adds_one() {
    assert_eq!(peek_hint((1, Some(2)), true), (2, Some(3)));
    assert_eq!(peek_hint((1, Some(2)), false), (1, Some(2)));
    assert_eq!(peek_hint((usize::MAX, Some(usize::MAX)), true), (usize::MAX, None));
}

fn numbers(n: u32) -> lib::Convert<std::vec::IntoIter<Result<u32, ()>>> {
    lib::convert((0..n).map(Ok).collect::<Vec<_>>().into_iter())
}

#[test]
fn chain_size_hint_bounds_its_items() {
    let it = numbers(2).chain(numbers(3));
    assert_eq!(it.size_hint(), (5, Some(5)));
    assert_eq!(it.count(), Ok(5));
}

#[test]
fn zip_size_hint_bounds_its_pairs() {
    let it = numbers(2).zip(numbers(3));
    assert_eq!(it.size_hint(), (2, Some(2)));
    assert_eq!(it.count(), Ok(2));
}

#[test]
fn size_hint_of_calls_size_hint() {
    let it = numbers(2).chain(numbers(3));
    assert_eq!(lib::size_hint_of(&it), (5, Some(5)));
    assert_eq!(lib::size_hint_of(&it), it.size_hint());
    let taken = numbers(4).take(3);
    assert_eq!(taken.size_hint(), (3, Some(3)));
    let filtered = numbers(4).filter(|x: &u32| *x > 1);
    assert_eq!(filtered.size_hint(), (0, Some(4)));
}

#[test]
fn peekable_size_hint_counts_peeked_item() {
    let mut p = lib::convert(vec![Ok::<i32, i32>(1), Ok(2)].into_iter()).peekable();
    assert_eq!(p.size_hint(), (2, Some(2)));
    assert_eq!(p.peek(), Ok(Some(&1)));
    assert_eq!(p.size_hint(), (2, Some(2)));
    assert_eq!(p.next(), Ok(Some(1)));
    assert_eq!(p.size_hint(), (1, Some(1)));
}

#[test]
fn convert_size_hint_is_the_wrapped_one() {
    let v = vec![Ok::<i32, i32>(1), Err(2), Ok(3)];
    let c = lib::convert(v.clone().into_iter());
    assert_eq!(c.size_hint(), v.into_iter().size_hint());
    assert_eq!(lib::std_hint_of(&vec![1, 2].into_iter()), (2, Some(2)));
}
