//! Stream adapters as step machines, and what a run of such a machine yields.

use vstd::prelude::*;

pub mod chain;
pub mod collect;
pub mod filter;
pub mod flatten;
pub mod fold;
pub mod skip;
pub mod take;
pub mod unfold;
pub mod zip;

verus! {

/// What a stream adapter does with one thing it was handed.
pub enum Step<T> {
    /// Hand this item on to the consumer.
    Yield(T),
    /// Hand nothing on; pull again.
    Skip,
    /// The adapted stream has ended.
    Stop,
}

/// The items that a step machine hands on when it is fed `inputs` in order,
/// starting in `state`: feeding ends at the first `Stop`, or when the inputs
/// run out.
pub open spec fn run<S, I, O>(
    step: spec_fn(S, I) -> (S, Step<O>),
    state: S,
    inputs: Seq<I>,
) -> Seq<O>
    decreases inputs.len(),
{
    if inputs.len() == 0 {
        Seq::empty()
    } else {
        let (next, out) = step(state, inputs[0]);
        match out {
            Step::Yield(x) => seq![x] + run(step, next, inputs.drop_first()),
            Step::Skip => run(step, next, inputs.drop_first()),
            Step::Stop => Seq::empty(),
        }
    }
}

/// The state that a step machine is in after it has been fed `inputs` in
/// order, starting in `state`; feeding ends at the first `Stop`.
pub open spec fn state_after<S, I, O>(
    step: spec_fn(S, I) -> (S, Step<O>),
    state: S,
    inputs: Seq<I>,
) -> S
    decreases inputs.len(),
{
    if inputs.len() == 0 {
        state
    } else {
        let (next, out) = step(state, inputs[0]);
        match out {
            Step::Stop => next,
            _ => state_after(step, next, inputs.drop_first()),
        }
    }
}

/// What pulling a finite stream with the given items gives, one pull after
/// another: each item, then the end.
pub open spec fn pulled<T>(items: Seq<T>) -> Seq<Option<T>> {
    items.map_values(|x: T| Some(x)).push(None)
}

/// The smaller of two lengths.
pub open spec fn min_len(a: nat, b: nat) -> nat {
    if a <= b {
        a
    } else {
        b
    }
}

/// Pulling a non-empty stream gives its first item, then what pulling the rest gives.
pub proof fn lemma_pulled_first<T>(items: Seq<T>)
    requires
        items.len() > 0,
    ensures
        pulled(items)[0] == Some(items[0]),
        pulled(items).drop_first() == pulled(items.drop_first()),
{
    assert(pulled(items).drop_first() =~= pulled(items.drop_first()));
}

/// Pulling an empty stream gives only the end.
pub proof fn lemma_pulled_empty<T>(items: Seq<T>)
    requires
        items.len() == 0,
    ensures
        pulled(items) == seq![None::<T>],
{
    assert(pulled(items) =~= seq![None::<T>]);
}

/// Pulling a finite stream, followed by any further pulls: its first pull,
/// and what follows it.
pub proof fn lemma_pulled_followed<T>(items: Seq<T>, rest: Seq<Option<T>>)
    ensures
        items.len() == 0 ==> (pulled(items) + rest)[0] == None::<T>,
        items.len() == 0 ==> (pulled(items) + rest).drop_first() == rest,
        items.len() > 0 ==> (pulled(items) + rest)[0] == Some(items[0]),
        items.len() > 0 ==> (pulled(items) + rest).drop_first() == pulled(items.drop_first())
            + rest,
{
    if items.len() == 0 {
        assert((pulled(items) + rest).drop_first() =~= rest);
    } else {
        assert((pulled(items) + rest).drop_first() =~= pulled(items.drop_first()) + rest);
    }
}

/// What one pull of a finite stream with the given items gives: its first
/// item, or `None` once it has ended.
pub open spec fn first_pull<T>(items: Seq<T>) -> Option<T> {
    if items.len() > 0 {
        Some(items[0])
    } else {
        None
    }
}

/// What is left of a finite stream after one pull.
pub open spec fn left_after_pull<T>(items: Seq<T>) -> Seq<T> {
    if items.len() > 0 {
        items.drop_first()
    } else {
        items
    }
}

} // verus!
