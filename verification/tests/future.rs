use futures::executor::block_on;
use futures::future::ready;
use futures_async_combinators::future::{
    and_then, err_into, inspect, map_err, map_ok, or_else, then, unwrap_or_else, Chained,
    FlattenStream, IntoStream,
};
use futures_async_combinators::stream::flatten::Pulled;
use futures_async_combinators::stream::Step;

/// Runs what a chaining combinator decided: awaits the next future, or takes the value.
fn finish<Fut: std::future::Future<Output = R>, R>(next: Chained<Fut, R>) -> R {
    match next {
        Chained::Continue(fut) => block_on(fut),
        Chained::Finished(r) => r,
    }
}

/// Feeds pulls to a step function until it stops, and gathers what it yields.
fn drive<P, U>(pulls: impl IntoIterator<Item = P>, mut step: impl FnMut(P) -> Step<U>) -> Vec<U> {
    let mut out = Vec::new();
    for p in pulls {
        match step(p) {
            Step::Yield(x) => out.push(x),
            Step::Skip => {},
            Step::Stop => return out,
        }
    }
    out
}

#[test]
fn future_test_map() {
    let output = block_on(ready(1));
    assert_eq!(futures_async_combinators::future::map(output, |x| x + 3), 4);
}

#[test]
fn future_test_then() {
    let output = block_on(ready(1));
    let next = then(output, |x| ready(x + 3));
    assert_eq!(block_on(next), 4);
}

#[test]
fn test_and_then_ok() {
    let output = block_on(ready(Ok::<i32, i32>(1)));
    let next = and_then(output, |x| ready(Ok::<i32, i32>(x + 3)));
    assert_eq!(finish(next), Ok(4));
}

#[test]
fn test_and_then_err() {
    let output = block_on(ready(Err::<i32, i32>(1)));
    let next = and_then(output, |x| ready(Ok::<i32, i32>(x + 3)));
    assert_eq!(finish(next), Err(1));
}

#[test]
fn test_or_else() {
    let output = block_on(ready(Err::<i32, i32>(1)));
    let next = or_else(output, |x| ready(Err::<i32, i32>(x + 3)));
    assert_eq!(finish(next), Err(4));
}

#[test]
fn or_else_on_success_has_no_effect() {
    let next = or_else(Ok::<i32, i32>(1), |x| ready(Ok::<i32, i32>(x + 3)));
    assert!(matches!(next, Chained::Finished(Ok(1))));
    assert_eq!(finish(next), Ok(1));
}

#[test]
fn and_then_on_error_does_not_call_closure() {
    let mut called = false;
    let next: Chained<_, Result<i32, i32>> = and_then(Err::<i32, i32>(1), |x| {
        called = true;
        ready(Err::<i32, i32>(x + 3))
    });
    assert!(matches!(next, Chained::Finished(Err(1))));
    assert!(!called);
}

#[test]
fn test_map_ok() {
    let output = block_on(ready(Ok::<i32, i32>(1)));
    assert_eq!(map_ok(output, |x| x + 3), Ok(4));
}

#[test]
fn map_ok_on_error_has_no_effect() {
    assert_eq!(map_ok(Err::<i32, i32>(1), |x| x + 3), Err(1));
}

#[test]
fn test_map_err() {
    let output = block_on(ready(Err::<i32, i32>(1)));
    assert_eq!(map_err(output, |x| x + 3), Err(4));
}

#[test]
fn map_err_on_success_has_no_effect() {
    assert_eq!(map_err(Ok::<i32, i32>(1), |x| x + 3), Ok(1));
}

#[test]
fn test_inspect() {
    let output = block_on(ready(1));
    let passed = inspect(output, |&x| assert_eq!(x, 1));
    assert_eq!(passed, 1);
}

#[test]
fn test_err_into() {
    let output = block_on(ready(Err::<(), u8>(1)));
    let converted = err_into::<i32, _, _>(output);
    assert_eq!(converted, Err::<(), i32>(1));
}

#[test]
fn err_into_keeps_success() {
    assert_eq!(err_into::<i64, _, u8>(Ok::<i32, u8>(7)), Ok::<i32, i64>(7));
}

#[test]
fn test_unwrap_or_else() {
    let output = block_on(ready(Err::<(), &str>("Boom!")));
    assert_eq!(unwrap_or_else(output, |_| ()), ());
}

#[test]
fn unwrap_or_else_keeps_success() {
    assert_eq!(unwrap_or_else(Ok::<i32, &str>(5), |_| 0), 5);
    assert_eq!(unwrap_or_else(Err::<i32, &str>("no"), |e| e.len() as i32), 2);
}

#[test]
fn test_flatten_stream() {
    let stream_items = vec![17, 18, 19];
    let mut machine = FlattenStream::new();
    assert!(machine.awaits_future());
    let mut pulls = vec![Pulled::Outer(true)];
    pulls.extend(stream_items.into_iter().map(|x| Pulled::Inner(Some(x))));
    pulls.push(Pulled::Inner(None));
    let list = drive(pulls, |p| machine.on_pull(p));
    assert_eq!(list, vec![17, 18, 19]);
    assert!(!machine.awaits_future());
    assert!(matches!(machine.on_pull(Pulled::Inner(Some(20))), Step::Stop));
}

#[test]
fn test_into_stream() {
    let future = ready(17);
    let mut future = Some(future);
    let mut machine = IntoStream::new();
    let mut collected = Vec::new();
    loop {
        let output = if machine.awaits_future() {
            future.take().map(block_on)
        } else {
            None
        };
        match machine.on_pull(output) {
            Step::Yield(x) => collected.push(x),
            Step::Skip => {},
            Step::Stop => break,
        }
    }
    assert_eq!(collected, vec![17]);
}
