use futures::executor::block_on;
use futures::future::ready;
use futures_async_combinators::future::then;
use futures_async_combinators::stream::chain::Chain;
use futures_async_combinators::stream::collect::{Collect, Concat};
use futures_async_combinators::stream::filter::{Filter, FilterMap, SkipWhile, TakeWhile};
use futures_async_combinators::stream::flatten::{Flatten, Pulled};
use futures_async_combinators::stream::fold::{Fold, FoldStep};
use futures_async_combinators::stream::skip::Skip;
use futures_async_combinators::stream::take::Take;
use futures_async_combinators::stream::unfold::Unfold;
use futures_async_combinators::stream::zip::Zip;
use futures_async_combinators::stream::Step;

/// Pulling a finite stream: each item, then the end.
fn pulled<T>(items: impl IntoIterator<Item = T>) -> impl Iterator<Item = Option<T>> {
    items.into_iter().map(Some).chain(std::iter::once(None))
}

/// Feeds pulls to an adapter until it stops, and collects what it yields.
fn drive<P, U>(pulls: impl IntoIterator<Item = P>, mut step: impl FnMut(P) -> Step<U>) -> Vec<U> {
    let mut out = Collect::new();
    for p in pulls {
        match step(p) {
            Step::Yield(x) => {
                out.on_item(Some(x));
            },
            Step::Skip => {},
            Step::Stop => break,
        }
    }
    out.on_item(None);
    out.into_vec()
}

/// Pulls a chain of two finite streams as the adapter asks.
fn drive_chain<T>(first: Vec<T>, second: Vec<T>) -> Vec<T> {
    let mut chain = Chain::new();
    let mut first = first.into_iter();
    let mut second = second.into_iter();
    let mut out = Vec::new();
    loop {
        let item = if chain.pulls_second() { second.next() } else { first.next() };
        match chain.on_item(item) {
            Step::Yield(x) => out.push(x),
            Step::Skip => {},
            Step::Stop => return out,
        }
    }
}

/// Pulls a stream of streams as `flatten` asks.
fn drive_flatten<T>(subs: Vec<Vec<T>>) -> Vec<T> {
    let mut flatten = Flatten::new();
    let mut outer = subs.into_iter();
    let mut inner: std::vec::IntoIter<T> = Vec::new().into_iter();
    let mut out = Vec::new();
    loop {
        let pull = if flatten.pulls_inner() {
            Pulled::Inner(inner.next())
        } else {
            match outer.next() {
                Some(sub) => {
                    inner = sub.into_iter();
                    Pulled::Outer(true)
                },
                None => Pulled::Outer(false),
            }
        };
        match flatten.on_pull(pull) {
            Step::Yield(x) => out.push(x),
            Step::Skip => {},
            Step::Stop => return out,
        }
    }
}

#[test]
fn test_collect() {
    let mut collection = Collect::new();
    for item in pulled(1..=5) {
        if !collection.on_item(item) {
            break;
        }
    }
    let collection: Vec<i32> = collection.into_vec();
    assert_eq!(collection, vec![1, 2, 3, 4, 5]);
}

#[test]
fn collect_ignores_pulls_after_end() {
    let mut collection = Collect::new();
    assert!(collection.on_item(Some(1)));
    assert!(!collection.on_item(None));
    assert!(!collection.on_item(Some(2)));
    assert_eq!(collection.into_vec(), vec![1]);
}

#[test]
fn stream_test_map() {
    let result = drive(pulled(1..=3), |p| match p {
        Some(x) => Step::Yield(futures_async_combinators::future::map(x, |x| x * 2)),
        None => Step::Stop,
    });
    assert_eq!(vec![2, 4, 6], result);
}

#[test]
fn stream_test_then() {
    let result = drive(pulled(1..=3), |p| match p {
        Some(x) => Step::Yield(block_on(then(x, |x| ready(x + 3)))),
        None => Step::Stop,
    });
    assert_eq!(vec![4, 5, 6], result);
}

#[test]
fn test_filter() {
    let mut filter = Filter::new();
    let evens = drive(pulled((1..=10).map(|x| (x, block_on(ready(x % 2 == 0))))), |p| {
        filter.on_item(p)
    });
    assert_eq!(vec![2, 4, 6, 8, 10], evens);
}

#[test]
fn test_filter_map() {
    let mut filter_map = FilterMap::new();
    let evens = drive(
        pulled((1..=10).map(|x| {
            let ret = if x % 2 == 0 { Some(x + 1) } else { None };
            block_on(ready(ret))
        })),
        |p| filter_map.on_item(p),
    );
    assert_eq!(vec![3, 5, 7, 9, 11], evens);
}

#[test]
fn test_concat() {
    let mut concat = Concat::new();
    for item in pulled(vec![vec![1, 2], vec![3], vec![4, 5]]) {
        if !concat.on_item(item) {
            break;
        }
    }
    let collection: Vec<i32> = concat.into_vec();
    assert_eq!(collection, vec![1, 2, 3, 4, 5]);
}

#[test]
fn concat_of_empty_stream_is_empty() {
    let mut concat: Concat<i32> = Concat::new();
    assert!(!concat.on_item(None));
    assert!(concat.into_vec().is_empty());
}

/// Drives `take` over an upstream, pulling only while it asks for an item;
/// gives what it yields and how many pulls it made.
fn drive_take<T>(n: u64, upstream: impl IntoIterator<Item = Option<T>>) -> (Vec<T>, usize) {
    let mut take = Take::new(n);
    let mut upstream = upstream.into_iter();
    let mut pulls = 0;
    let mut out = Vec::new();
    while take.wants_item() {
        pulls += 1;
        match take.on_item(upstream.next().unwrap_or(None)) {
            Step::Yield(x) => out.push(x),
            Step::Skip => {},
            Step::Stop => break,
        }
    }
    assert!(!take.wants_item());
    (out, pulls)
}

#[test]
fn test_take() {
    let (result, _) = drive_take(3, pulled(1..=10));
    assert_eq!(vec![1, 2, 3], result);
}

#[test]
fn test_take_more_than_size() {
    let (result, _) = drive_take(10, pulled(1..=3));
    assert_eq!(vec![1, 2, 3], result);
}

#[test]
fn take_pulls_no_item_beyond_the_nth() {
    let (result, pulls) = drive_take(2, (1..=10).map(Some));
    assert_eq!(result, vec![1, 2]);
    assert_eq!(pulls, 2);
    let mut take = Take::new(1);
    assert!(take.wants_item());
    assert!(matches!(take.on_item(Some(1)), Step::Yield(1)));
    assert!(!take.wants_item());
    assert!(matches!(take.on_item(Some(2)), Step::Stop));
    assert!(matches!(take.on_item(Some(3)), Step::Stop));
}

#[test]
fn take_zero_yields_nothing_and_pulls_nothing() {
    let (result, pulls) = drive_take(0, pulled(1..=3));
    assert!(result.is_empty());
    assert_eq!(pulls, 0);
}

#[test]
fn take_ends_an_endless_stream() {
    let (result, pulls) = drive_take(3, std::iter::repeat(9).map(Some));
    assert_eq!(vec![9, 9, 9], result);
    assert_eq!(pulls, 3);
}

#[test]
fn stream_test_flatten() {
    let stream0: Vec<i32> = (0..0).collect();
    let stream1: Vec<i32> = (1..4).collect();
    let stream2: Vec<i32> = (4..7).collect();
    let stream3: Vec<i32> = (7..10).collect();
    let result = drive_flatten(vec![stream0, stream1, stream2, stream3]);
    assert_eq!(vec![1, 2, 3, 4, 5, 6, 7, 8, 9], result);
}

#[test]
fn flatten_switches_between_outer_and_inner() {
    let mut flatten = Flatten::new();
    assert!(!flatten.pulls_inner());
    assert!(matches!(flatten.on_pull(Pulled::<i32>::Outer(true)), Step::Skip));
    assert!(flatten.pulls_inner());
    assert!(matches!(flatten.on_pull(Pulled::Inner(Some(5))), Step::Yield(5)));
    assert!(matches!(flatten.on_pull(Pulled::<i32>::Inner(None)), Step::Skip));
    assert!(!flatten.pulls_inner());
    assert!(matches!(flatten.on_pull(Pulled::<i32>::Outer(false)), Step::Stop));
    assert!(flatten.ended);
}

#[test]
fn test_skip() {
    let mut skip = Skip::new(5);
    let result = drive(pulled(1..=10), |p| skip.on_item(p));
    assert_eq!(vec![6, 7, 8, 9, 10], result);
}

#[test]
fn test_skip_more_than_size() {
    let mut skip = Skip::new(15);
    let result = drive(pulled(1..=10), |p| skip.on_item(p));
    assert!(result.is_empty());
}

#[test]
fn test_zip() {
    let mut zip = Zip::new();
    let mut left = 1..=3;
    let mut right = 5..=10;
    let mut result = Vec::new();
    loop {
        let l = left.next();
        let r = right.next();
        match zip.on_items(l, r) {
            Step::Yield(pair) => result.push(pair),
            Step::Skip => {},
            Step::Stop => break,
        }
    }
    assert_eq!(vec![(1, 5), (2, 6), (3, 7)], result);
}

#[test]
fn zip_ends_when_either_side_ends() {
    let mut zip = Zip::new();
    assert!(matches!(zip.on_items(Some(1), None::<i32>), Step::Stop));
    assert!(matches!(zip.on_items(Some(2), Some(3)), Step::Stop));
}

#[test]
fn test_chain() {
    let result = drive_chain((1..=2).collect(), (3..=4).collect());
    assert_eq!(vec![1, 2, 3, 4], result);
}

#[test]
fn chain_of_empty_streams_is_empty() {
    let result: Vec<i32> = drive_chain(Vec::new(), Vec::new());
    assert!(result.is_empty());
    let result = drive_chain(Vec::new(), vec![7]);
    assert_eq!(result, vec![7]);
}

#[test]
fn test_take_while() {
    let mut take_while = TakeWhile::new();
    let result = drive(pulled((1..=10).map(|x| (x, block_on(ready(x <= 5))))), |p| {
        take_while.on_item(p)
    });
    assert_eq!(vec![1, 2, 3, 4, 5], result);
}

#[test]
fn test_take_while_more_than_size() {
    let mut take_while = TakeWhile::new();
    let result = drive(pulled((1..=3).map(|x| (x, block_on(ready(x <= 5))))), |p| {
        take_while.on_item(p)
    });
    assert_eq!(vec![1, 2, 3], result);
}

fn run_skip_while(items: Vec<i32>, limit: i32) -> (Vec<i32>, usize) {
    let mut skip_while = SkipWhile::new();
    let mut asked = 0;
    let mut result = Vec::new();
    for item in pulled(items) {
        let pull = item.map(|x| {
            let verdict = if skip_while.consults_predicate() {
                asked += 1;
                block_on(ready(x <= limit))
            } else {
                false
            };
            (x, verdict)
        });
        match skip_while.on_item(pull) {
            Step::Yield(x) => result.push(x),
            Step::Skip => {},
            Step::Stop => break,
        }
    }
    (result, asked)
}

#[test]
fn test_skip_while() {
    let (result, asked) = run_skip_while((1..=10).collect(), 5);
    assert_eq!(vec![6, 7, 8, 9, 10], result);
    assert_eq!(asked, 6);
}

#[test]
fn test_skip_while_more_than_size() {
    let (result, _) = run_skip_while((1..=3).collect(), 5);
    assert!(result.is_empty());
}

#[test]
fn test_fold() {
    let mut fold = Fold::new(0);
    let mut calls = Vec::new();
    let mut sum = None;
    for item in pulled(0..6) {
        match fold.on_item(item) {
            FoldStep::Apply(acc, x) => {
                calls.push((acc, x));
                fold.resume(block_on(ready(acc + x)));
            },
            FoldStep::Finish(acc) => {
                sum = Some(acc);
                break;
            },
        }
    }
    assert_eq!(Some(15), sum);
    assert_eq!(calls, vec![(0, 0), (0, 1), (1, 2), (3, 3), (6, 4), (10, 5)]);
}

#[test]
fn fold_of_empty_stream_is_initial_value() {
    let mut fold = Fold::new(42);
    assert!(matches!(fold.on_item(None::<i32>), FoldStep::Finish(42)));
}

#[test]
fn test_unfold() {
    let mut unfold = Unfold::new(0);
    let mut result = Vec::new();
    loop {
        let seed = unfold.next_seed().expect("a seed at each pull");
        let step = block_on(if seed <= 2 {
            let next_state = seed + 1;
            let yielded = seed * 2;
            ready(Some((yielded, next_state)))
        } else {
            ready(None)
        });
        match unfold.on_result(step) {
            Step::Yield(x) => result.push(x),
            Step::Skip => {},
            Step::Stop => break,
        }
    }
    assert_eq!(vec![0, 2, 4], result);
    assert!(unfold.next_seed().is_none());
}

#[test]
fn take_while_stays_ended_after_false() {
    let mut take_while = TakeWhile::new();
    assert!(matches!(take_while.on_item(Some((1, true))), Step::Yield(1)));
    assert!(matches!(take_while.on_item(Some((2, false))), Step::Stop));
    assert!(matches!(take_while.on_item(Some((3, true))), Step::Stop));
}

#[test]
fn skip_while_stops_asking_after_false() {
    let mut skip_while = SkipWhile::new();
    assert!(skip_while.consults_predicate());
    assert!(matches!(skip_while.on_item(Some((1, true))), Step::Skip));
    assert!(matches!(skip_while.on_item(Some((2, false))), Step::Yield(2)));
    assert!(!skip_while.consults_predicate());
    assert!(matches!(skip_while.on_item(Some((3, true))), Step::Yield(3)));
    assert!(matches!(skip_while.on_item(None::<(i32, bool)>), Step::Stop));
}

#[test]
fn unfold_ends_at_first_none() {
    let mut unfold = Unfold::new(10u32);
    assert_eq!(unfold.next_seed(), Some(10));
    assert_eq!(unfold.next_seed(), None);
    assert!(matches!(unfold.on_result(Some(("a", 11u32))), Step::Yield("a")));
    assert_eq!(unfold.next_seed(), Some(11));
    assert!(matches!(unfold.on_result(None::<(&str, u32)>), Step::Stop));
    assert_eq!(unfold.next_seed(), None);
    assert!(matches!(unfold.on_result(Some(("b", 12u32))), Step::Stop));
}
