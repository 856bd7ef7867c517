//! `skip`: the upstream stream without its first `n` items.

use vstd::prelude::*;

use crate::stream::{
    lemma_pulled_empty, lemma_pulled_first, lemma_pulled_followed, min_len, pulled, run, Step,
};

verus! {

/// The state of `skip` between two pulls.
pub struct Skip {
    /// How many more items are to be dropped.
    pub remaining: u64,
    /// Whether the stream has ended.
    pub ended: bool,
}

impl Skip {
    /// A fresh `skip` that drops `n` items.
    pub fn new(n: u64) -> (s: Skip)
        ensures
            s == Skip::start(n),
    {
        Skip { remaining: n, ended: false }
    }

    /// The state of a fresh `skip` of `n` items.
    pub open spec fn start(n: u64) -> Skip {
        Skip { remaining: n, ended: false }
    }

    /// One pull: `item` is what upstream gave (`None` once it has ended).
    pub open spec fn step_spec<T>(self, item: Option<T>) -> (Skip, Step<T>) {
        if self.ended {
            (self, Step::Stop)
        } else {
            match item {
                None => (Skip { ended: true, ..self }, Step::Stop),
                Some(x) => if self.remaining == 0 {
                    (self, Step::Yield(x))
                } else {
                    (Skip { remaining: (self.remaining - 1) as u64, ended: false }, Step::Skip)
                },
            }
        }
    }

    /// Takes one pull of upstream into account.
    pub fn on_item<T>(&mut self, item: Option<T>) -> (step: Step<T>)
        ensures
            (*final(self), step) == old(self).step_spec(item),
    {
        if self.ended {
            return Step::Stop;
        }
        match item {
            None => {
                self.ended = true;
                Step::Stop
            },
            Some(x) => {
                if self.remaining == 0 {
                    Step::Yield(x)
                } else {
                    self.remaining = self.remaining - 1;
                    Step::Skip
                }
            },
        }
    }
}

/// The step function of `skip`, as a value.
pub open spec fn skip_step<T>() -> spec_fn(Skip, Option<T>) -> (Skip, Step<T>) {
    |s: Skip, i: Option<T>| s.step_spec(i)
}

/// From any live state, `skip` drops the next `remaining` items and hands on the rest.
pub proof fn lemma_skip_run<T>(s: Skip, items: Seq<T>)
    requires
        !s.ended,
    ensures
        run(skip_step::<T>(), s, pulled(items)) == items.skip(
            min_len(s.remaining as nat, items.len()) as int,
        ),
    decreases items.len(),
{
    if items.len() == 0 {
        lemma_pulled_empty(items);
        assert(run(skip_step::<T>(), s, pulled(items)) =~= Seq::<T>::empty());
        assert(items.skip(0) =~= Seq::<T>::empty());
    } else {
        lemma_pulled_first(items);
        if s.remaining == 0 {
            lemma_skip_run(s, items.drop_first());
            assert(items.skip(0) =~= seq![items[0]] + items.drop_first().skip(0));
        } else {
            let next = Skip { remaining: (s.remaining - 1) as u64, ended: false };
            lemma_skip_run(next, items.drop_first());
            assert(items.skip(min_len(s.remaining as nat, items.len()) as int)
                =~= items.drop_first().skip(
                min_len(next.remaining as nat, items.drop_first().len()) as int,
            ));
        }
    }
}

/// `skip(stream, n)` yields the items of the stream after its first `n`, and
/// nothing when it has no more than `n`.
pub proof fn lemma_skip_drops_prefix<T>(n: u64, items: Seq<T>)
    ensures
        run(skip_step::<T>(), Skip::start(n), pulled(items)) == items.skip(
            min_len(n as nat, items.len()) as int,
        ),
{
    lemma_skip_run(Skip::start(n), items);
}

/// The end of upstream ends `skip`: from any live state, over a finite
/// stream followed by any further pulls, `skip` yields the items after the
/// next `remaining` ones and nothing of what follows the end.
pub proof fn lemma_skip_ends_with_upstream<T>(s: Skip, items: Seq<T>, rest: Seq<Option<T>>)
    requires
        !s.ended,
    ensures
        run(skip_step::<T>(), s, pulled(items) + rest) == items.skip(
            min_len(s.remaining as nat, items.len()) as int,
        ),
    decreases items.len(),
{
    lemma_pulled_followed(items, rest);
    if items.len() == 0 {
        assert(run(skip_step::<T>(), s, pulled(items) + rest) =~= Seq::<T>::empty());
        assert(items.skip(0) =~= Seq::<T>::empty());
    } else if s.remaining == 0 {
        lemma_skip_ends_with_upstream(s, items.drop_first(), rest);
        assert(items.skip(0) =~= seq![items[0]] + items.drop_first().skip(0));
    } else {
        let next = Skip { remaining: (s.remaining - 1) as u64, ended: false };
        lemma_skip_ends_with_upstream(next, items.drop_first(), rest);
        assert(items.skip(min_len(s.remaining as nat, items.len()) as int) =~= items.drop_first().skip(
            min_len(next.remaining as nat, items.drop_first().len()) as int,
        ));
    }
}

} // verus!
