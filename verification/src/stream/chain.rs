//! `chain`: the items of one stream, then those of another.

use vstd::prelude::*;

use crate::stream::{first_pull, left_after_pull, lemma_pulled_followed, pulled, run, Step};

verus! {

/// The state of `chain` between two pulls.
pub struct Chain {
    /// Whether the first stream has ended, so that the second one is pulled.
    pub second: bool,
    /// Whether the second stream has ended too.
    pub ended: bool,
}

impl Chain {
    /// A fresh `chain`.
    pub fn new() -> (c: Chain)
        ensures
            c == Chain::start(),
    {
        Chain { second: false, ended: false }
    }

    /// The state of a fresh `chain`.
    pub open spec fn start() -> Chain {
        Chain { second: false, ended: false }
    }

    /// Whether the next pull is to be made of the second stream.
    pub fn pulls_second(&self) -> (b: bool)
        ensures
            b == self.second,
    {
        self.second
    }

    /// One pull of the stream that `second` names: its item, or `None` once it has ended.
    pub open spec fn step_spec<T>(self, item: Option<T>) -> (Chain, Step<T>) {
        if self.ended {
            (self, Step::Stop)
        } else {
            match item {
                Some(x) => (self, Step::Yield(x)),
                None => if self.second {
                    (Chain { second: true, ended: true }, Step::Stop)
                } else {
                    (Chain { second: true, ended: false }, Step::Skip)
                },
            }
        }
    }

    /// Takes one pull into account.
    pub fn on_item<T>(&mut self, item: Option<T>) -> (step: Step<T>)
        ensures
            (*final(self), step) == old(self).step_spec(item),
    {
        if self.ended {
            return Step::Stop;
        }
        match item {
            Some(x) => Step::Yield(x),
            None => {
                if self.second {
                    self.ended = true;
                    Step::Stop
                } else {
                    self.second = true;
                    Step::Skip
                }
            },
        }
    }
}

/// The step function of `chain`, as a value.
pub open spec fn chain_step<T>() -> spec_fn(Chain, Option<T>) -> (Chain, Step<T>) {
    |s: Chain, i: Option<T>| s.step_spec(i)
}

/// Pulling a finite stream and then something else.
proof fn lemma_pulled_then<T>(items: Seq<T>, rest: Seq<Option<T>>)
    ensures
        items.len() == 0 ==> (pulled(items) + rest)[0] == None::<T>,
        items.len() == 0 ==> (pulled(items) + rest).drop_first() == rest,
        items.len() > 0 ==> (pulled(items) + rest)[0] == Some(items[0]),
        items.len() > 0 ==> (pulled(items) + rest).drop_first() == pulled(items.drop_first())
            + rest,
{
    if items.len() == 0 {
        assert((pulled(items) + rest).drop_first() =~= rest);
    } else {
        assert((pulled(items) + rest).drop_first() =~= pulled(items.drop_first()) + rest);
    }
}

/// While on the second stream, `chain` hands on its items and ends with it.
proof fn lemma_chain_second<T>(b: Seq<T>, rest: Seq<Option<T>>)
    ensures
        run(chain_step::<T>(), Chain { second: true, ended: false }, pulled(b) + rest) == b,
    decreases b.len(),
{
    lemma_pulled_then(b, rest);
    if b.len() == 0 {
        assert(run(chain_step::<T>(), Chain { second: true, ended: false }, pulled(b) + rest)
            =~= b);
    } else {
        lemma_chain_second(b.drop_first(), rest);
        assert(b =~= seq![b[0]] + b.drop_first());
    }
}

/// While on the first stream, `chain` hands on its items, then those of the second.
proof fn lemma_chain_first<T>(a: Seq<T>, b: Seq<T>)
    ensures
        run(chain_step::<T>(), Chain::start(), pulled(a) + pulled(b)) == a + b,
    decreases a.len(),
{
    lemma_pulled_then(a, pulled(b));
    if a.len() == 0 {
        lemma_chain_second(b, Seq::<Option<T>>::empty());
        assert(pulled(b) + Seq::<Option<T>>::empty() =~= pulled(b));
        assert(a + b =~= b);
    } else {
        lemma_chain_first(a.drop_first(), b);
        assert(a + b =~= seq![a[0]] + (a.drop_first() + b));
    }
}

/// `chain(first, second)` yields every item of `first`, then every item of `second`.
pub proof fn lemma_chain_concatenates<T>(a: Seq<T>, b: Seq<T>)
    ensures
        run(chain_step::<T>(), Chain::start(), pulled(a) + pulled(b)) == a + b,
{
    lemma_chain_first(a, b);
}

/// The end of the second stream ends `chain`: over both finite streams
/// followed by any further pulls, it yields the first stream's items, then the
/// second's, and nothing of what follows.
pub proof fn lemma_chain_ends_with_second<T>(a: Seq<T>, b: Seq<T>, rest: Seq<Option<T>>)
    ensures
        run(chain_step::<T>(), Chain::start(), pulled(a) + (pulled(b) + rest)) == a + b,
    decreases a.len(),
{
    lemma_pulled_followed(a, pulled(b) + rest);
    if a.len() == 0 {
        lemma_chain_second(b, rest);
        assert(a + b =~= b);
    } else {
        lemma_chain_ends_with_second(a.drop_first(), b, rest);
        assert(a + b =~= seq![a[0]] + (a.drop_first() + b));
    }
}

/// `chain` as its driver runs it over two finite streams: each pull is made of
/// the stream that `second` names; `fuel` bounds the number of pulls.
pub open spec fn chain_driven<T>(s: Chain, a: Seq<T>, b: Seq<T>, fuel: nat) -> Seq<T>
    decreases fuel,
{
    if fuel == 0 {
        Seq::empty()
    } else {
        let item = if s.second {
            first_pull(b)
        } else {
            first_pull(a)
        };
        let a2 = if s.second {
            a
        } else {
            left_after_pull(a)
        };
        let b2 = if s.second {
            left_after_pull(b)
        } else {
            b
        };
        let (next, out) = s.step_spec(item);
        match out {
            Step::Yield(x) => seq![x] + chain_driven(next, a2, b2, (fuel - 1) as nat),
            Step::Skip => chain_driven(next, a2, b2, (fuel - 1) as nat),
            Step::Stop => Seq::empty(),
        }
    }
}

/// Driven on the second stream, `chain` yields its items and ends with it.
proof fn lemma_chain_driven_second<T>(a: Seq<T>, b: Seq<T>, fuel: nat)
    requires
        fuel >= b.len() + 1,
    ensures
        chain_driven(Chain { second: true, ended: false }, a, b, fuel) == b,
    decreases b.len(),
{
    if b.len() == 0 {
        assert(chain_driven(Chain { second: true, ended: false }, a, b, fuel) =~= b);
    } else {
        lemma_chain_driven_second(a, b.drop_first(), (fuel - 1) as nat);
        assert(b =~= seq![b[0]] + b.drop_first());
    }
}

/// `chain(first, second)`, run by its driver, yields every item of `first`,
/// then every item of `second`, and then ends.
pub proof fn lemma_chain_driven_concatenates<T>(a: Seq<T>, b: Seq<T>, fuel: nat)
    requires
        fuel >= a.len() + b.len() + 2,
    ensures
        chain_driven(Chain::start(), a, b, fuel) == a + b,
    decreases a.len(),
{
    if a.len() == 0 {
        lemma_chain_driven_second(a, b, (fuel - 1) as nat);
        assert(a + b =~= b);
    } else {
        lemma_chain_driven_concatenates(a.drop_first(), b, (fuel - 1) as nat);
        assert(a + b =~= seq![a[0]] + (a.drop_first() + b));
    }
}

} // verus!
