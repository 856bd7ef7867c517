//! `take`: at most `n` items of the upstream stream.

use vstd::prelude::*;

use crate::stream::{
    lemma_pulled_empty, lemma_pulled_first, lemma_pulled_followed, min_len, pulled, run,
    state_after, Step,
};

verus! {

/// The state of `take` between two pulls.
pub struct Take {
    /// How many more items may pass.
    pub remaining: u64,
    /// Whether the stream has ended.
    pub ended: bool,
}

impl Take {
    /// A fresh `take` that lets `n` items pass.
    pub fn new(n: u64) -> (t: Take)
        ensures
            t == Take::start(n),
    {
        Take { remaining: n, ended: false }
    }

    /// The state of a fresh `take` of `n` items.
    pub open spec fn start(n: u64) -> Take {
        Take { remaining: n, ended: false }
    }

    /// Whether upstream is to be pulled again: not once it has ended, and not
    /// once `n` items have passed. When this is false the stream is done, and
    /// the driver ends it without pulling upstream.
    pub open spec fn wants(self) -> bool {
        !self.ended && self.remaining > 0
    }

    /// Whether the driver is to pull upstream for the next item.
    pub fn wants_item(&self) -> (b: bool)
        ensures
            b == self.wants(),
    {
        !self.ended && self.remaining > 0
    }

    /// One pull: `item` is what upstream gave (`None` once it has ended).
    /// The driver pulls only while `wants()` holds; an item handed in after
    /// `n` items have passed is dropped and ends the stream.
    pub open spec fn step_spec<T>(self, item: Option<T>) -> (Take, Step<T>) {
        if self.ended {
            (self, Step::Stop)
        } else {
            match item {
                None => (Take { ended: true, ..self }, Step::Stop),
                Some(x) => if self.remaining == 0 {
                    (Take { ended: true, ..self }, Step::Stop)
                } else {
                    (Take { remaining: (self.remaining - 1) as u64, ended: false }, Step::Yield(x))
                },
            }
        }
    }

    /// Takes one pull of upstream into account.
    pub fn on_item<T>(&mut self, item: Option<T>) -> (step: Step<T>)
        ensures
            (*final(self), step) == old(self).step_spec(item),
    {
        if self.ended {
            return Step::Stop;
        }
        match item {
            None => {
                self.ended = true;
                Step::Stop
            },
            Some(x) => {
                if self.remaining == 0 {
                    self.ended = true;
                    Step::Stop
                } else {
                    self.remaining = self.remaining - 1;
                    Step::Yield(x)
                }
            },
        }
    }
}

/// The step function of `take`, as a value.
pub open spec fn take_step<T>() -> spec_fn(Take, Option<T>) -> (Take, Step<T>) {
    |s: Take, i: Option<T>| s.step_spec(i)
}

/// From any live state, `take` hands on the first `remaining` items of what is left.
pub proof fn lemma_take_run<T>(s: Take, items: Seq<T>)
    requires
        !s.ended,
    ensures
        run(take_step::<T>(), s, pulled(items)) == items.take(
            min_len(s.remaining as nat, items.len()) as int,
        ),
    decreases items.len(),
{
    if items.len() == 0 {
        lemma_pulled_empty(items);
        assert(run(take_step::<T>(), s, pulled(items)) =~= Seq::<T>::empty());
        assert(items.take(0) =~= Seq::<T>::empty());
    } else {
        lemma_pulled_first(items);
        if s.remaining == 0 {
            assert(items.take(0) =~= Seq::<T>::empty());
        } else {
            let next = Take { remaining: (s.remaining - 1) as u64, ended: false };
            lemma_take_run(next, items.drop_first());
            assert(items.take(min_len(s.remaining as nat, items.len()) as int) =~= seq![items[0]]
                + items.drop_first().take(
                min_len(next.remaining as nat, items.drop_first().len()) as int,
            ));
        }
    }
}

/// `take(stream, n)` yields exactly the first `n` items of the stream, or all
/// of them when it has fewer.
pub proof fn lemma_take_yields_prefix<T>(n: u64, items: Seq<T>)
    ensures
        run(take_step::<T>(), Take::start(n), pulled(items)) == items.take(
            min_len(n as nat, items.len()) as int,
        ),
{
    lemma_take_run(Take::start(n), items);
}

/// Once `n` items have passed, `take` yields nothing more, whatever upstream gives.
pub proof fn lemma_take_done_after_n<T>(s: Take, pulls: Seq<Option<T>>)
    requires
        s.ended || s.remaining == 0,
    ensures
        run(take_step::<T>(), s, pulls) == Seq::<T>::empty(),
{
    if pulls.len() > 0 {
        assert(s.step_spec(pulls[0]).1 == Step::<T>::Stop);
    }
    assert(run(take_step::<T>(), s, pulls) =~= Seq::<T>::empty());
}

/// The items given as pulls, followed by anything.
pub open spec fn items_then<T>(items: Seq<T>, rest: Seq<Option<T>>) -> Seq<Option<T>> {
    items.map_values(|x: T| Some(x)) + rest
}

/// Feeding a live `take` up to `remaining` items leaves it live, with the
/// count lowered by the number of items, and hands each item on.
proof fn lemma_take_counts_down<T>(s: Take, items: Seq<T>)
    requires
        !s.ended,
        items.len() <= s.remaining,
    ensures
        state_after(take_step::<T>(), s, items_then(items, Seq::empty())) == (Take {
            remaining: (s.remaining - items.len()) as u64,
            ended: false,
        }),
        run(take_step::<T>(), s, items_then(items, Seq::empty())) == items,
    decreases items.len(),
{
    let pulls = items_then(items, Seq::<Option<T>>::empty());
    if items.len() > 0 {
        assert(pulls[0] == Some(items[0]));
        assert(pulls.drop_first() =~= items_then(items.drop_first(), Seq::empty()));
        let next = Take { remaining: (s.remaining - 1) as u64, ended: false };
        lemma_take_counts_down(next, items.drop_first());
        assert(items =~= seq![items[0]] + items.drop_first());
    } else {
        assert(run(take_step::<T>(), s, pulls) =~= items);
    }
}

/// With its count spent, `take` yields nothing, whatever it is handed.
proof fn lemma_take_spent<T>(s: Take, rest: Seq<Option<T>>)
    requires
        s.remaining == 0,
    ensures
        run(take_step::<T>(), s, rest) == Seq::<T>::empty(),
{
    if rest.len() > 0 {
        assert(s.step_spec(rest[0]).1 == Step::<T>::Stop);
    }
    assert(run(take_step::<T>(), s, rest) =~= Seq::<T>::empty());
}

/// `take(stream, n)` on a stream whose first `n` pulls give items, whatever
/// comes after them (an endless stream too): it yields exactly those `n`
/// items; while fewer than `n` have passed it asks for another pull, and once
/// `n` have passed it asks for none, so no item beyond the `n`-th is pulled
/// and every later poll finds the stream done.
pub proof fn lemma_take_stops_after_n<T>(n: u64, items: Seq<T>, rest: Seq<Option<T>>)
    requires
        items.len() == n,
    ensures
        run(take_step::<T>(), Take::start(n), items_then(items, rest)) == items,
        !state_after(take_step::<T>(), Take::start(n), items_then(items, Seq::empty())).wants(),
        forall|k: int|
            0 <= k < n ==> #[trigger] state_after(
                take_step::<T>(),
                Take::start(n),
                items_then(items.take(k), Seq::empty()),
            ).wants(),
{
    lemma_take_counts_down(Take::start(n), items);
    assert forall|k: int| 0 <= k < n implies #[trigger] state_after(
        take_step::<T>(),
        Take::start(n),
        items_then(items.take(k), Seq::empty()),
    ).wants() by {
        lemma_take_counts_down(Take::start(n), items.take(k));
    }
    lemma_take_prefix_then(Take::start(n), items, rest);
}

/// A live `take` fed exactly `remaining` items and then anything yields those items.
proof fn lemma_take_prefix_then<T>(s: Take, items: Seq<T>, rest: Seq<Option<T>>)
    requires
        !s.ended,
        items.len() == s.remaining,
    ensures
        run(take_step::<T>(), s, items_then(items, rest)) == items,
    decreases items.len(),
{
    let pulls = items_then(items, rest);
    if items.len() == 0 {
        assert(pulls =~= rest);
        lemma_take_spent(s, rest);
    } else {
        assert(pulls[0] == Some(items[0]));
        assert(pulls.drop_first() =~= items_then(items.drop_first(), rest));
        let next = Take { remaining: (s.remaining - 1) as u64, ended: false };
        lemma_take_prefix_then(next, items.drop_first(), rest);
        assert(items =~= seq![items[0]] + items.drop_first());
    }
}

/// The end of upstream ends `take`: from any live state, over a finite stream
/// followed by any further pulls, `take` yields the first `remaining` items
/// of the stream and nothing of what follows its end.
pub proof fn lemma_take_ends_with_upstream<T>(s: Take, items: Seq<T>, rest: Seq<Option<T>>)
    requires
        !s.ended,
    ensures
        run(take_step::<T>(), s, pulled(items) + rest) == items.take(
            min_len(s.remaining as nat, items.len()) as int,
        ),
    decreases items.len(),
{
    lemma_pulled_followed(items, rest);
    if items.len() == 0 {
        assert(run(take_step::<T>(), s, pulled(items) + rest) =~= Seq::<T>::empty());
        assert(items.take(0) =~= Seq::<T>::empty());
    } else if s.remaining == 0 {
        assert(items.take(0) =~= Seq::<T>::empty());
    } else {
        let next = Take { remaining: (s.remaining - 1) as u64, ended: false };
        lemma_take_ends_with_upstream(next, items.drop_first(), rest);
        assert(items.take(min_len(s.remaining as nat, items.len()) as int) =~= seq![items[0]]
            + items.drop_first().take(
            min_len(next.remaining as nat, items.drop_first().len()) as int,
        ));
    }
}

} // verus!
