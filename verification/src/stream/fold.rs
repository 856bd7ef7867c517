//! `fold`: one value accumulated over all the items of a stream.

use vstd::prelude::*;

use crate::stream::pulled;

verus! {

/// What `fold` asks the driver to do after a pull.
pub enum FoldStep<A, T> {
    /// Call the user's closure on the accumulator and the item, await the
    /// future it returns, and hand its output back to `resume`.
    Apply(A, T),
    /// The stream has ended: this is the result.
    Finish(A),
}

/// The accumulated value at the end of a fold: the last value handed back,
/// or the initial one when no item came.
pub open spec fn folded<A>(init: A, handed_back: Seq<A>) -> A {
    if handed_back.len() == 0 {
        init
    } else {
        handed_back.last()
    }
}

/// What `fold` asks for after a pull, given the current accumulator.
pub open spec fn fold_decision<A, T>(acc: A, item: Option<T>) -> FoldStep<A, T> {
    match item {
        Some(x) => FoldStep::Apply(acc, x),
        None => FoldStep::Finish(acc),
    }
}

/// The state of `fold` between two pulls.
pub struct Fold<A> {
    /// The accumulator; `None` while the closure's future is awaited, and once
    /// the result has been handed out.
    pub acc: Option<A>,
}

impl<A> Fold<A> {
    /// A fresh `fold`, starting from `init`.
    pub fn new(init: A) -> (f: Fold<A>)
        ensures
            f.acc == Some(init),
    {
        Fold { acc: Some(init) }
    }

    /// Takes one pull into account: an item is to be combined with the
    /// accumulator; the end of the stream hands out the accumulator.
    pub fn on_item<T>(&mut self, item: Option<T>) -> (step: FoldStep<A, T>)
        requires
            old(self).acc is Some,
        ensures
            final(self).acc is None,
            step == fold_decision(old(self).acc->Some_0, item),
    {
        let acc = self.acc.take().unwrap();
        match item {
            Some(x) => FoldStep::Apply(acc, x),
            None => FoldStep::Finish(acc),
        }
    }

    /// Hands back what the closure's future gave: the new accumulator.
    pub fn resume(&mut self, acc: A)
        ensures
            final(self).acc == Some(acc),
    {
        self.acc = Some(acc);
    }
}

/// A whole fold: starting from `acc`, each pull is decided on with the
/// current accumulator; an item goes to the closure, whose result (the next
/// entry of `results`) is handed back as the new accumulator. Gives the calls
/// made, as (accumulator, item) pairs, and what the end of the stream hands
/// out, if it came.
pub open spec fn fold_run<A, T>(acc: A, pulls: Seq<Option<T>>, results: Seq<A>) -> (
    Seq<(A, T)>,
    Option<A>,
)
    decreases pulls.len(),
{
    if pulls.len() == 0 {
        (Seq::empty(), None)
    } else {
        match fold_decision(acc, pulls[0]) {
            FoldStep::Apply(a, x) => {
                let (calls, last) = fold_run(results[0], pulls.drop_first(), results.drop_first());
                (seq![(a, x)] + calls, last)
            },
            FoldStep::Finish(a) => (Seq::empty(), Some(a)),
        }
    }
}

/// `fold` calls the closure once per item, first with the initial value and
/// then each time with what the previous call gave, and resolves to the value
/// that the last call gave (to the initial value when the stream is empty).
pub proof fn lemma_fold_threads_accumulator<A, T>(init: A, items: Seq<T>, results: Seq<A>)
    requires
        results.len() == items.len(),
    ensures
        fold_run(init, pulled(items), results).1 == Some(folded(init, results)),
        fold_run(init, pulled(items), results).0.len() == items.len(),
        forall|i: int|
            0 <= i < items.len() ==> #[trigger] fold_run(init, pulled(items), results).0[i] == (
                if i == 0 {
                    init
                } else {
                    results[i - 1]
                },
                items[i],
            ),
    decreases items.len(),
{
    if items.len() == 0 {
        assert(pulled(items)[0] == None::<T>);
    } else {
        assert(pulled(items)[0] == Some(items[0]));
        assert(pulled(items).drop_first() =~= pulled(items.drop_first()));
        let rest = fold_run(results[0], pulled(items.drop_first()), results.drop_first());
        lemma_fold_threads_accumulator(results[0], items.drop_first(), results.drop_first());
        if results.len() > 1 {
            assert(results.drop_first().last() == results.last());
        }
        assert forall|i: int| 0 <= i < items.len() implies #[trigger] fold_run(
            init,
            pulled(items),
            results,
        ).0[i] == (
            if i == 0 {
                init
            } else {
                results[i - 1]
            },
            items[i],
        ) by {
            if i > 0 {
                assert(fold_run(init, pulled(items), results).0[i] == rest.0[i - 1]);
            }
        }
    }
}

} // verus!
