//! Future combinators: what each one computes once the future it wraps has
//! resolved, and the two that turn a future into a stream.

use vstd::prelude::*;

use crate::stream::flatten::{inner_pulls, Pulled};
use crate::stream::{first_pull, left_after_pull, run, Step};

verus! {

/// What a combinator that may await a second future does with the first one's output.
pub enum Chained<Fut, Out> {
    /// Await this future: its output is the combinator's output.
    Continue(Fut),
    /// Resolve to this value without awaiting anything more.
    Finished(Out),
}

/// `map`: the user's closure applied to the output of the future.
pub fn map<T, U, F: FnOnce(T) -> U>(output: T, f: F) -> (mapped: U)
    requires
        call_requires(f, (output,)),
    ensures
        call_ensures(f, (output,), mapped),
{
    f(output)
}

/// `then`: the future that the user's closure makes of the output of the
/// first future; the combinator resolves to what that future gives.
pub fn then<T, B, F: FnOnce(T) -> B>(output: T, f: F) -> (next: B)
    requires
        call_requires(f, (output,)),
    ensures
        call_ensures(f, (output,), next),
{
    f(output)
}

/// `and_then`: on success the closure makes the next future of the success
/// value; an error is the result as it is, and the closure is not called.
pub fn and_then<T, U, E, B, F: FnOnce(T) -> B>(output: Result<T, E>, f: F) -> (next: Chained<
    B,
    Result<U, E>,
>)
    requires
        output matches Ok(t) ==> call_requires(f, (t,)),
    ensures
        output matches Ok(t) ==> next matches Chained::Continue(b) && call_ensures(f, (t,), b),
        output matches Err(e) ==> next == Chained::<B, Result<U, E>>::Finished(Err(e)),
{
    match output {
        Ok(t) => Chained::Continue(f(t)),
        Err(e) => Chained::Finished(Err(e)),
    }
}

/// `or_else`: on error the closure makes the next future of the error value;
/// a success value is the result as it is, and the closure is not called.
pub fn or_else<T, E, U, B, F: FnOnce(E) -> B>(output: Result<T, E>, f: F) -> (next: Chained<
    B,
    Result<T, U>,
>)
    requires
        output matches Err(e) ==> call_requires(f, (e,)),
    ensures
        output matches Err(e) ==> next matches Chained::Continue(b) && call_ensures(f, (e,), b),
        output matches Ok(t) ==> next == Chained::<B, Result<T, U>>::Finished(Ok(t)),
{
    match output {
        Ok(t) => Chained::Finished(Ok(t)),
        Err(e) => Chained::Continue(f(e)),
    }
}

/// `map_ok`: the closure applied to a success value; an error passes unchanged.
pub fn map_ok<T, U, E, F: FnOnce(T) -> U>(output: Result<T, E>, f: F) -> (mapped: Result<U, E>)
    requires
        output matches Ok(t) ==> call_requires(f, (t,)),
    ensures
        output matches Ok(t) ==> mapped matches Ok(u) && call_ensures(f, (t,), u),
        output matches Err(e) ==> mapped == Err::<U, E>(e),
{
    match output {
        Ok(t) => Ok(f(t)),
        Err(e) => Err(e),
    }
}

/// `map_err`: the closure applied to an error value; a success value passes unchanged.
pub fn map_err<T, E, U, F: FnOnce(E) -> U>(output: Result<T, E>, f: F) -> (mapped: Result<T, U>)
    requires
        output matches Err(e) ==> call_requires(f, (e,)),
    ensures
        output matches Err(e) ==> mapped matches Err(u) && call_ensures(f, (e,), u),
        output matches Ok(t) ==> mapped == Ok::<T, U>(t),
{
    match output {
        Ok(t) => Ok(t),
        Err(e) => Err(f(e)),
    }
}

/// `unwrap_or_else`: a success value, or what the closure makes of the error.
pub fn unwrap_or_else<T, E, F: FnOnce(E) -> T>(output: Result<T, E>, f: F) -> (value: T)
    requires
        output matches Err(e) ==> call_requires(f, (e,)),
    ensures
        output matches Ok(t) ==> value == t,
        output matches Err(e) ==> call_ensures(f, (e,), value),
{
    match output {
        Ok(t) => t,
        Err(e) => f(e),
    }
}

/// `inspect`: the closure is run on the output, which is then passed on
/// unchanged; what the closure ensures of its argument holds of the output.
pub fn inspect<T, F: FnOnce(&T)>(output: T, f: F) -> (passed: T)
    requires
        call_requires(f, (&output,)),
    ensures
        call_ensures(f, (&output,), ()),
        passed == output,
{
    f(&output);
    output
}

/// `err_into`: an error converted by `Into`; a success value passes unchanged.
pub fn err_into<U, T, E: Into<U>>(output: Result<T, E>) -> (converted: Result<T, U>)
    ensures
        output matches Ok(t) ==> converted == Ok::<T, U>(t),
        output matches Err(e) ==> converted matches Err(u) && call_ensures(E::into, (e,), u),
{
    match output {
        Ok(t) => Ok(t),
        Err(e) => Err(e.into()),
    }
}

/// The state of `into_stream`: whether the future's output has been yielded.
pub struct IntoStream {
    /// Whether the one item has been yielded (or the stream otherwise ended).
    pub done: bool,
}

impl IntoStream {
    /// A fresh `into_stream`.
    pub fn new() -> (s: IntoStream)
        ensures
            s == IntoStream::start(),
    {
        IntoStream { done: false }
    }

    /// The state of a fresh `into_stream`.
    pub open spec fn start() -> IntoStream {
        IntoStream { done: false }
    }

    /// Whether the future is still to be awaited at the next pull.
    pub fn awaits_future(&self) -> (b: bool)
        ensures
            b == !self.done,
    {
        !self.done
    }

    /// One pull: the future's output when it was awaited, `None` otherwise.
    pub open spec fn step_spec<T>(self, output: Option<T>) -> (IntoStream, Step<T>) {
        if !self.done && output is Some {
            (IntoStream { done: true }, Step::Yield(output->Some_0))
        } else {
            (IntoStream { done: true }, Step::Stop)
        }
    }

    /// Takes one pull into account.
    pub fn on_pull<T>(&mut self, output: Option<T>) -> (step: Step<T>)
        ensures
            (*final(self), step) == old(self).step_spec(output),
    {
        if self.done {
            return Step::Stop;
        }
        self.done = true;
        match output {
            Some(v) => Step::Yield(v),
            None => Step::Stop,
        }
    }
}

/// The step function of `into_stream`, as a value.
pub open spec fn into_stream_step<T>() -> spec_fn(IntoStream, Option<T>) -> (IntoStream, Step<T>) {
    |s: IntoStream, o: Option<T>| s.step_spec(o)
}

/// `into_stream` yields exactly one item, the output of the future, and then ends.
pub proof fn lemma_into_stream_single<T>(v: T, rest: Seq<Option<T>>)
    ensures
        run(into_stream_step::<T>(), IntoStream::start(), seq![Some(v)] + rest) == seq![v],
{
    let pulls = seq![Some(v)] + rest;
    assert(pulls[0] == Some(v));
    assert(pulls.drop_first() =~= rest);
    let after = IntoStream { done: true };
    if rest.len() > 0 {
        assert(after.step_spec(rest[0]).1 == Step::<T>::Stop);
    }
    assert(run(into_stream_step::<T>(), after, rest) =~= Seq::<T>::empty());
    assert(seq![v] + Seq::<T>::empty() =~= seq![v]);
}

/// The state of `flatten_stream`.
pub struct FlattenStream {
    /// Whether the future has resolved to the stream, which is pulled now.
    pub streaming: bool,
    /// Whether the stream has ended.
    pub ended: bool,
}

impl FlattenStream {
    /// A fresh `flatten_stream`.
    pub fn new() -> (s: FlattenStream)
        ensures
            s == FlattenStream::start(),
    {
        FlattenStream { streaming: false, ended: false }
    }

    /// The state of a fresh `flatten_stream`.
    pub open spec fn start() -> FlattenStream {
        FlattenStream { streaming: false, ended: false }
    }

    /// Whether the future is to be awaited at the next pull (otherwise the
    /// stream it resolved to is pulled).
    pub fn awaits_future(&self) -> (b: bool)
        ensures
            b == (!self.streaming && !self.ended),
            b == self.awaits(),
    {
        !self.streaming && !self.ended
    }

    /// Whether the future is to be awaited at the next pull.
    pub open spec fn awaits(self) -> bool {
        !self.streaming && !self.ended
    }

    /// One pull: `Outer(true)` when the future resolved to the stream, which
    /// the driver keeps and pulls next; `Inner` for what that stream gave.
    pub open spec fn step_spec<T>(self, pull: Pulled<T>) -> (FlattenStream, Step<T>) {
        if self.ended {
            (self, Step::Stop)
        } else {
            match pull {
                Pulled::Outer(true) => (FlattenStream { streaming: true, ended: false }, Step::Skip),
                Pulled::Outer(false) => (FlattenStream { streaming: false, ended: true }, Step::Stop),
                Pulled::Inner(Some(x)) => (self, Step::Yield(x)),
                Pulled::Inner(None) => (FlattenStream { streaming: false, ended: true }, Step::Stop),
            }
        }
    }

    /// Takes one pull into account.
    pub fn on_pull<T>(&mut self, pull: Pulled<T>) -> (step: Step<T>)
        ensures
            (*final(self), step) == old(self).step_spec(pull),
    {
        if self.ended {
            return Step::Stop;
        }
        match pull {
            Pulled::Outer(true) => {
                self.streaming = true;
                Step::Skip
            },
            Pulled::Outer(false) => {
                self.streaming = false;
                self.ended = true;
                Step::Stop
            },
            Pulled::Inner(Some(x)) => Step::Yield(x),
            Pulled::Inner(None) => {
                self.streaming = false;
                self.ended = true;
                Step::Stop
            },
        }
    }
}

/// The step function of `flatten_stream`, as a value.
pub open spec fn flatten_stream_step<T>() -> spec_fn(FlattenStream, Pulled<T>) -> (
    FlattenStream,
    Step<T>,
) {
    |s: FlattenStream, p: Pulled<T>| s.step_spec(p)
}

/// While the stream is pulled, `flatten_stream` hands on its items and ends with it.
proof fn lemma_flatten_stream_drains<T>(items: Seq<T>)
    ensures
        run(
            flatten_stream_step::<T>(),
            FlattenStream { streaming: true, ended: false },
            inner_pulls(items),
        ) == items,
    decreases items.len(),
{
    let pulls = inner_pulls(items);
    if items.len() == 0 {
        assert(pulls[0] == Pulled::<T>::Inner(None));
        assert(run(
            flatten_stream_step::<T>(),
            FlattenStream { streaming: true, ended: false },
            pulls,
        ) =~= items);
    } else {
        assert(pulls[0] == Pulled::Inner(Some(items[0])));
        assert(pulls.drop_first() =~= inner_pulls(items.drop_first()));
        lemma_flatten_stream_drains(items.drop_first());
        assert(items =~= seq![items[0]] + items.drop_first());
    }
}

/// `flatten_stream` of a future that resolves to a stream yields exactly the
/// items of that stream.
pub proof fn lemma_flatten_stream_yields_stream<T>(items: Seq<T>)
    ensures
        run(
            flatten_stream_step::<T>(),
            FlattenStream::start(),
            seq![Pulled::Outer(true)] + inner_pulls(items),
        ) == items,
{
    let pulls = seq![Pulled::Outer(true)] + inner_pulls(items);
    assert(pulls[0] == Pulled::<T>::Outer(true));
    assert(pulls.drop_first() =~= inner_pulls(items));
    lemma_flatten_stream_drains(items);
}

/// `flatten_stream` as its driver runs it, on a future that resolves to a
/// finite stream with the given items: when `awaits()` holds the future is
/// awaited if it has not been (`Outer(true)`; the stream is kept), and
/// `Outer(false)` is handed in if it already was; otherwise the stream is
/// pulled. `fuel` bounds the number of pulls.
pub open spec fn flatten_stream_driven<T>(
    s: FlattenStream,
    awaited: bool,
    items: Seq<T>,
    fuel: nat,
) -> Seq<T>
    decreases fuel,
{
    if fuel == 0 {
        Seq::empty()
    } else {
        let pull = if s.awaits() {
            Pulled::Outer(!awaited)
        } else {
            Pulled::Inner(first_pull(items))
        };
        let awaited2 = awaited || s.awaits();
        let items2 = if s.awaits() {
            items
        } else {
            left_after_pull(items)
        };
        let (next, out) = s.step_spec(pull);
        match out {
            Step::Yield(x) => seq![x] + flatten_stream_driven(
                next,
                awaited2,
                items2,
                (fuel - 1) as nat,
            ),
            Step::Skip => flatten_stream_driven(next, awaited2, items2, (fuel - 1) as nat),
            Step::Stop => Seq::empty(),
        }
    }
}

/// Driven once the stream is there, `flatten_stream` keeps pulling it, yields
/// its items and ends with it.
proof fn lemma_flatten_stream_driven_drains<T>(items: Seq<T>, fuel: nat)
    requires
        fuel >= items.len() + 1,
    ensures
        flatten_stream_driven(FlattenStream { streaming: true, ended: false }, true, items, fuel)
            == items,
    decreases items.len(),
{
    if items.len() == 0 {
        assert(flatten_stream_driven(
            FlattenStream { streaming: true, ended: false },
            true,
            items,
            fuel,
        ) =~= items);
    } else {
        lemma_flatten_stream_driven_drains(items.drop_first(), (fuel - 1) as nat);
        assert(items =~= seq![items[0]] + items.drop_first());
    }
}

/// `flatten_stream` of a future that resolves to a stream, run by its driver,
/// awaits the future once and then yields exactly the items of that stream.
pub proof fn lemma_flatten_stream_driven_yields_stream<T>(items: Seq<T>, fuel: nat)
    requires
        fuel >= items.len() + 2,
    ensures
        flatten_stream_driven(FlattenStream::start(), false, items, fuel) == items,
{
    lemma_flatten_stream_driven_drains(items, (fuel - 1) as nat);
}

} // verus!
