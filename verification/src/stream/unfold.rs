//! `unfold`: a stream grown from a seed by repeated calls of the user's closure.

use vstd::prelude::*;

use crate::stream::{run, Step};

verus! {

/// The items of the leading `Some` results, up to the first `None`.
pub open spec fn leading_items<It, T>(results: Seq<Option<(It, T)>>) -> Seq<It>
    decreases results.len(),
{
    if results.len() == 0 {
        Seq::empty()
    } else {
        match results[0] {
            Some((it, _)) => seq![it] + leading_items(results.drop_first()),
            None => Seq::empty(),
        }
    }
}

/// The state of `unfold` between two pulls.
pub struct Unfold<T> {
    /// The state to call the closure with next; `None` while the future that
    /// the last call returned is still being awaited.
    pub seed: Option<T>,
    /// Whether the stream has ended.
    pub ended: bool,
}

impl<T> Unfold<T> {
    /// A fresh `unfold`, grown from `init`.
    pub fn new(init: T) -> (u: Unfold<T>)
        ensures
            u == Unfold::start(init),
    {
        Unfold { seed: Some(init), ended: false }
    }

    /// The state of a fresh `unfold` grown from `init`.
    pub open spec fn start(init: T) -> Unfold<T> {
        Unfold { seed: Some(init), ended: false }
    }

    /// At a pull: the state to call the closure with, when no future of an
    /// earlier call is pending (and the stream has not ended).
    pub fn next_seed(&mut self) -> (seed: Option<T>)
        ensures
            seed == (if old(self).ended {
                None
            } else {
                old(self).seed
            }),
            final(self).seed == (if old(self).ended {
                old(self).seed
            } else {
                None
            }),
            final(self).ended == old(self).ended,
    {
        if self.ended {
            None
        } else {
            self.seed.take()
        }
    }

    /// What the awaited future of a call gave: the next item with the next
    /// state, or `None`, which ends the stream.
    pub open spec fn step_spec<It>(self, result: Option<(It, T)>) -> (Unfold<T>, Step<It>) {
        if self.ended {
            (self, Step::Stop)
        } else {
            match result {
                None => (Unfold { seed: None, ended: true }, Step::Stop),
                Some((it, next)) => (Unfold { seed: Some(next), ended: false }, Step::Yield(it)),
            }
        }
    }

    /// Takes the result of a call into account.
    pub fn on_result<It>(&mut self, result: Option<(It, T)>) -> (step: Step<It>)
        ensures
            (*final(self), step) == old(self).step_spec(result),
    {
        if self.ended {
            return Step::Stop;
        }
        match result {
            None => {
                self.seed = None;
                self.ended = true;
                Step::Stop
            },
            Some((it, next)) => {
                self.seed = Some(next);
                Step::Yield(it)
            },
        }
    }
}

/// The step function of `unfold`, as a value.
pub open spec fn unfold_step<It, T>() -> spec_fn(Unfold<T>, Option<(It, T)>) -> (
    Unfold<T>,
    Step<It>,
) {
    |s: Unfold<T>, r: Option<(It, T)>| s.step_spec(r)
}

/// `unfold` yields the item of each result of the closure, in order, until
/// the first result that is `None`.
pub proof fn lemma_unfold_yields_until_none<It, T>(s: Unfold<T>, results: Seq<Option<(It, T)>>)
    requires
        !s.ended,
    ensures
        run(unfold_step::<It, T>(), s, results) == leading_items(results),
    decreases results.len(),
{
    if results.len() > 0 {
        match results[0] {
            Some((it, next)) => {
                lemma_unfold_yields_until_none(
                    Unfold { seed: Some(next), ended: false },
                    results.drop_first(),
                );
            },
            None => {},
        }
    }
}

/// After a result `Some((item, next))`, the closure is next called with `next`.
pub proof fn lemma_unfold_threads_state<It, T>(s: Unfold<T>, it: It, next: T)
    requires
        !s.ended,
    ensures
        s.step_spec(Some((it, next))).0.seed == Some(next),
        !s.step_spec(Some((it, next))).0.ended,
{
}

/// Once a call has given `None`, `unfold` yields nothing more and calls the
/// closure no more.
pub proof fn lemma_unfold_done_after_none<It, T>(s: Unfold<T>, results: Seq<Option<(It, T)>>)
    requires
        !s.ended,
    ensures
        s.step_spec(None::<(It, T)>).0.ended,
        s.step_spec(None::<(It, T)>).0.seed is None,
        run(unfold_step::<It, T>(), s.step_spec(None::<(It, T)>).0, results) == Seq::<It>::empty(),
{
    let e = s.step_spec(None::<(It, T)>).0;
    if results.len() > 0 {
        assert(e.step_spec(results[0]).1 == Step::<It>::Stop);
    }
    assert(run(unfold_step::<It, T>(), e, results) =~= Seq::<It>::empty());
}

/// The items of unfolding `g` from `state`: each call gives the next item
/// and the next state, until a call gives `None`; `fuel` bounds the calls.
pub open spec fn unfolding<It, T>(g: spec_fn(T) -> Option<(It, T)>, state: T, fuel: nat) -> Seq<It>
    decreases fuel,
{
    if fuel == 0 {
        Seq::empty()
    } else {
        match g(state) {
            Some((it, next)) => seq![it] + unfolding(g, next, (fuel - 1) as nat),
            None => Seq::empty(),
        }
    }
}

/// `unfold` as its driver runs it, with a closure whose awaited results `g`
/// gives: at each pull the seed that the machine hands out is given to the
/// closure, and the result is handed back; no seed ends the stream.
pub open spec fn unfold_driven<It, T>(
    s: Unfold<T>,
    g: spec_fn(T) -> Option<(It, T)>,
    fuel: nat,
) -> Seq<It>
    decreases fuel,
{
    if fuel == 0 || s.ended || s.seed is None {
        Seq::empty()
    } else {
        let taken = Unfold { seed: None, ended: false };
        let (next, out) = taken.step_spec(g(s.seed->Some_0));
        match out {
            Step::Yield(it) => seq![it] + unfold_driven(next, g, (fuel - 1) as nat),
            Step::Skip => unfold_driven(next, g, (fuel - 1) as nat),
            Step::Stop => Seq::empty(),
        }
    }
}

/// `unfold(init, f)`, run by its driver, yields the unfolding of `f` from
/// `init`: each call is made with the state that the previous call gave, and
/// the stream ends at the first call that gives `None`.
pub proof fn lemma_unfold_driven_unfolds<It, T>(
    init: T,
    g: spec_fn(T) -> Option<(It, T)>,
    fuel: nat,
)
    ensures
        unfold_driven(Unfold::start(init), g, fuel) == unfolding(g, init, fuel),
    decreases fuel,
{
    if fuel > 0 {
        match g(init) {
            Some((it, next)) => {
                lemma_unfold_driven_unfolds(next, g, (fuel - 1) as nat);
            },
            None => {},
        }
    }
}

} // verus!
