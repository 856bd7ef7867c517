//! The adapters that ask the user's predicate about items: `filter`,
//! `filter_map`, `take_while` and `skip_while`.
//!
//! The driver awaits the predicate's future on each item and hands the item
//! together with the verdict (or, for `filter_map`, with the mapped result).

use vstd::prelude::*;

use crate::stream::{lemma_pulled_empty, lemma_pulled_first, lemma_pulled_followed, pulled, run, Step};

verus! {

/// The items of `pairs` whose verdict is `true`, in order.
pub open spec fn marked<T>(pairs: Seq<(T, bool)>) -> Seq<T>
    decreases pairs.len(),
{
    if pairs.len() == 0 {
        Seq::empty()
    } else if pairs[0].1 {
        seq![pairs[0].0] + marked(pairs.drop_first())
    } else {
        marked(pairs.drop_first())
    }
}

/// How many leading pairs have the verdict `true`.
pub open spec fn passing<T>(pairs: Seq<(T, bool)>) -> nat
    decreases pairs.len(),
{
    if pairs.len() == 0 || !pairs[0].1 {
        0
    } else {
        1 + passing(pairs.drop_first())
    }
}

/// The items of `pairs`, without their verdicts.
pub open spec fn firsts<T>(pairs: Seq<(T, bool)>) -> Seq<T> {
    pairs.map_values(|p: (T, bool)| p.0)
}

/// The values of the `Some` entries of `results`, in order.
pub open spec fn somes<U>(results: Seq<Option<U>>) -> Seq<U>
    decreases results.len(),
{
    if results.len() == 0 {
        Seq::empty()
    } else {
        match results[0] {
            Some(u) => seq![u] + somes(results.drop_first()),
            None => somes(results.drop_first()),
        }
    }
}

/// The passing count never exceeds the number of pairs.
pub proof fn lemma_passing_bound<T>(pairs: Seq<(T, bool)>)
    ensures
        passing(pairs) <= pairs.len(),
    decreases pairs.len(),
{
    if pairs.len() > 0 && pairs[0].1 {
        lemma_passing_bound(pairs.drop_first());
    }
}

/// The state of `filter` between two pulls.
pub struct Filter {
    /// Whether the stream has ended.
    pub ended: bool,
}

impl Filter {
    /// A fresh `filter`.
    pub fn new() -> (f: Filter)
        ensures
            f == Filter::start(),
    {
        Filter { ended: false }
    }

    /// The state of a fresh `filter`.
    pub open spec fn start() -> Filter {
        Filter { ended: false }
    }

    /// One pull: an item with the predicate's verdict on it, or `None` once upstream has ended.
    pub open spec fn step_spec<T>(self, pull: Option<(T, bool)>) -> (Filter, Step<T>) {
        if self.ended {
            (self, Step::Stop)
        } else {
            match pull {
                None => (Filter { ended: true }, Step::Stop),
                Some((x, keep)) => if keep {
                    (self, Step::Yield(x))
                } else {
                    (self, Step::Skip)
                },
            }
        }
    }

    /// Takes one pull, with its verdict, into account.
    pub fn on_item<T>(&mut self, pull: Option<(T, bool)>) -> (step: Step<T>)
        ensures
            (*final(self), step) == old(self).step_spec(pull),
    {
        if self.ended {
            return Step::Stop;
        }
        match pull {
            None => {
                self.ended = true;
                Step::Stop
            },
            Some((x, keep)) => if keep {
                Step::Yield(x)
            } else {
                Step::Skip
            },
        }
    }
}

/// The step function of `filter`, as a value.
pub open spec fn filter_step<T>() -> spec_fn(Filter, Option<(T, bool)>) -> (Filter, Step<T>) {
    |s: Filter, p: Option<(T, bool)>| s.step_spec(p)
}

/// `filter` yields the items on which the predicate said `true`, in their order.
pub proof fn lemma_filter_keeps_marked<T>(pairs: Seq<(T, bool)>)
    ensures
        run(filter_step::<T>(), Filter::start(), pulled(pairs)) == marked(pairs),
    decreases pairs.len(),
{
    if pairs.len() == 0 {
        lemma_pulled_empty(pairs);
        assert(run(filter_step::<T>(), Filter::start(), pulled(pairs)) =~= Seq::<T>::empty());
    } else {
        lemma_pulled_first(pairs);
        lemma_filter_keeps_marked(pairs.drop_first());
    }
}

/// The state of `filter_map` between two pulls.
pub struct FilterMap {
    /// Whether the stream has ended.
    pub ended: bool,
}

impl FilterMap {
    /// A fresh `filter_map`.
    pub fn new() -> (f: FilterMap)
        ensures
            f == FilterMap::start(),
    {
        FilterMap { ended: false }
    }

    /// The state of a fresh `filter_map`.
    pub open spec fn start() -> FilterMap {
        FilterMap { ended: false }
    }

    /// One pull: what the user's closure gave for the item, or `None` once upstream has ended.
    pub open spec fn step_spec<U>(self, pull: Option<Option<U>>) -> (FilterMap, Step<U>) {
        if self.ended {
            (self, Step::Stop)
        } else {
            match pull {
                None => (FilterMap { ended: true }, Step::Stop),
                Some(Some(u)) => (self, Step::Yield(u)),
                Some(None) => (self, Step::Skip),
            }
        }
    }

    /// Takes one pull, with the closure's result, into account.
    pub fn on_item<U>(&mut self, pull: Option<Option<U>>) -> (step: Step<U>)
        ensures
            (*final(self), step) == old(self).step_spec(pull),
    {
        if self.ended {
            return Step::Stop;
        }
        match pull {
            None => {
                self.ended = true;
                Step::Stop
            },
            Some(Some(u)) => Step::Yield(u),
            Some(None) => Step::Skip,
        }
    }
}

/// The step function of `filter_map`, as a value.
pub open spec fn filter_map_step<U>() -> spec_fn(FilterMap, Option<Option<U>>) -> (
    FilterMap,
    Step<U>,
) {
    |s: FilterMap, p: Option<Option<U>>| s.step_spec(p)
}

/// `filter_map` yields the values that the closure gave as `Some`, in their order.
pub proof fn lemma_filter_map_keeps_somes<U>(results: Seq<Option<U>>)
    ensures
        run(filter_map_step::<U>(), FilterMap::start(), pulled(results)) == somes(results),
    decreases results.len(),
{
    if results.len() == 0 {
        lemma_pulled_empty(results);
        assert(run(filter_map_step::<U>(), FilterMap::start(), pulled(results))
            =~= Seq::<U>::empty());
    } else {
        lemma_pulled_first(results);
        lemma_filter_map_keeps_somes(results.drop_first());
    }
}

/// The state of `take_while` between two pulls.
pub struct TakeWhile {
    /// Whether the stream has ended.
    pub ended: bool,
}

impl TakeWhile {
    /// A fresh `take_while`.
    pub fn new() -> (t: TakeWhile)
        ensures
            t == TakeWhile::start(),
    {
        TakeWhile { ended: false }
    }

    /// The state of a fresh `take_while`.
    pub open spec fn start() -> TakeWhile {
        TakeWhile { ended: false }
    }

    /// One pull: an item with the predicate's verdict on it, or `None` once
    /// upstream has ended. The first `false` ends the stream.
    pub open spec fn step_spec<T>(self, pull: Option<(T, bool)>) -> (TakeWhile, Step<T>) {
        if self.ended {
            (self, Step::Stop)
        } else {
            match pull {
                None => (TakeWhile { ended: true }, Step::Stop),
                Some((x, keep)) => if keep {
                    (self, Step::Yield(x))
                } else {
                    (TakeWhile { ended: true }, Step::Stop)
                },
            }
        }
    }

    /// Takes one pull, with its verdict, into account.
    pub fn on_item<T>(&mut self, pull: Option<(T, bool)>) -> (step: Step<T>)
        ensures
            (*final(self), step) == old(self).step_spec(pull),
    {
        if self.ended {
            return Step::Stop;
        }
        match pull {
            None => {
                self.ended = true;
                Step::Stop
            },
            Some((x, keep)) => if keep {
                Step::Yield(x)
            } else {
                self.ended = true;
                Step::Stop
            },
        }
    }
}

/// The step function of `take_while`, as a value.
pub open spec fn take_while_step<T>() -> spec_fn(TakeWhile, Option<(T, bool)>) -> (
    TakeWhile,
    Step<T>,
) {
    |s: TakeWhile, p: Option<(T, bool)>| s.step_spec(p)
}

/// `take_while` yields the items before the first one on which the predicate
/// said `false`, and all of them when it never did.
pub proof fn lemma_take_while_yields_passing_prefix<T>(pairs: Seq<(T, bool)>)
    ensures
        run(take_while_step::<T>(), TakeWhile::start(), pulled(pairs)) == firsts(
            pairs.take(passing(pairs) as int),
        ),
    decreases pairs.len(),
{
    lemma_passing_bound(pairs);
    if pairs.len() == 0 {
        lemma_pulled_empty(pairs);
        assert(run(take_while_step::<T>(), TakeWhile::start(), pulled(pairs))
            =~= Seq::<T>::empty());
        assert(firsts(pairs.take(0)) =~= Seq::<T>::empty());
    } else {
        lemma_pulled_first(pairs);
        if pairs[0].1 {
            lemma_take_while_yields_passing_prefix(pairs.drop_first());
            lemma_passing_bound(pairs.drop_first());
            assert(firsts(pairs.take(passing(pairs) as int)) =~= seq![pairs[0].0] + firsts(
                pairs.drop_first().take(passing(pairs.drop_first()) as int),
            ));
        } else {
            assert(firsts(pairs.take(0)) =~= Seq::<T>::empty());
        }
    }
}

/// The state of `skip_while` between two pulls.
pub struct SkipWhile {
    /// Whether items are still being dropped, that is whether the predicate
    /// has said `true` on every item so far.
    pub skipping: bool,
    /// Whether the stream has ended.
    pub ended: bool,
}

impl SkipWhile {
    /// A fresh `skip_while`.
    pub fn new() -> (s: SkipWhile)
        ensures
            s == SkipWhile::start(),
    {
        SkipWhile { skipping: true, ended: false }
    }

    /// The state of a fresh `skip_while`.
    pub open spec fn start() -> SkipWhile {
        SkipWhile { skipping: true, ended: false }
    }

    /// Whether the predicate is to be asked about the next item; once it has
    /// said `false`, it is asked no more, and any verdict handed in is ignored.
    pub fn consults_predicate(&self) -> (b: bool)
        ensures
            b == (self.skipping && !self.ended),
            b == self.consults(),
    {
        self.skipping && !self.ended
    }

    /// Whether the predicate is to be asked about the next item.
    pub open spec fn consults(self) -> bool {
        self.skipping && !self.ended
    }

    /// One pull: an item with the predicate's verdict on it, or `None` once upstream has ended.
    pub open spec fn step_spec<T>(self, pull: Option<(T, bool)>) -> (SkipWhile, Step<T>) {
        if self.ended {
            (self, Step::Stop)
        } else {
            match pull {
                None => (SkipWhile { ended: true, ..self }, Step::Stop),
                Some((x, drop)) => if !self.skipping {
                    (self, Step::Yield(x))
                } else if drop {
                    (self, Step::Skip)
                } else {
                    (SkipWhile { skipping: false, ended: false }, Step::Yield(x))
                },
            }
        }
    }

    /// Takes one pull, with its verdict, into account.
    pub fn on_item<T>(&mut self, pull: Option<(T, bool)>) -> (step: Step<T>)
        ensures
            (*final(self), step) == old(self).step_spec(pull),
    {
        if self.ended {
            return Step::Stop;
        }
        match pull {
            None => {
                self.ended = true;
                Step::Stop
            },
            Some((x, drop)) => {
                if !self.skipping {
                    Step::Yield(x)
                } else if drop {
                    Step::Skip
                } else {
                    self.skipping = false;
                    Step::Yield(x)
                }
            },
        }
    }
}

/// The step function of `skip_while`, as a value.
pub open spec fn skip_while_step<T>() -> spec_fn(SkipWhile, Option<(T, bool)>) -> (
    SkipWhile,
    Step<T>,
) {
    |s: SkipWhile, p: Option<(T, bool)>| s.step_spec(p)
}

/// Once `skip_while` has stopped dropping, it hands on every item, whatever verdicts come with them.
pub proof fn lemma_skip_while_passes_rest<T>(pairs: Seq<(T, bool)>)
    ensures
        run(skip_while_step::<T>(), SkipWhile { skipping: false, ended: false }, pulled(pairs))
            == firsts(pairs),
    decreases pairs.len(),
{
    if pairs.len() == 0 {
        lemma_pulled_empty(pairs);
        assert(run(
            skip_while_step::<T>(),
            SkipWhile { skipping: false, ended: false },
            pulled(pairs),
        ) =~= Seq::<T>::empty());
        assert(firsts(pairs) =~= Seq::<T>::empty());
    } else {
        lemma_pulled_first(pairs);
        lemma_skip_while_passes_rest(pairs.drop_first());
        assert(firsts(pairs) =~= seq![pairs[0].0] + firsts(pairs.drop_first()));
    }
}

/// `skip_while` drops the items before the first one on which the predicate
/// said `false`, and yields that one and all after it.
pub proof fn lemma_skip_while_drops_passing_prefix<T>(pairs: Seq<(T, bool)>)
    ensures
        run(skip_while_step::<T>(), SkipWhile::start(), pulled(pairs)) == firsts(
            pairs.skip(passing(pairs) as int),
        ),
    decreases pairs.len(),
{
    lemma_passing_bound(pairs);
    if pairs.len() == 0 {
        lemma_pulled_empty(pairs);
        assert(run(skip_while_step::<T>(), SkipWhile::start(), pulled(pairs))
            =~= Seq::<T>::empty());
        assert(firsts(pairs.skip(0)) =~= Seq::<T>::empty());
    } else {
        lemma_pulled_first(pairs);
        if pairs[0].1 {
            lemma_skip_while_drops_passing_prefix(pairs.drop_first());
            assert(pairs.skip(passing(pairs) as int) =~= pairs.drop_first().skip(
                passing(pairs.drop_first()) as int,
            ));
        } else {
            lemma_skip_while_passes_rest(pairs.drop_first());
            assert(firsts(pairs.skip(0)) =~= seq![pairs[0].0] + firsts(pairs.drop_first()));
        }
    }
}

/// Once the predicate has said `false`, `take_while` yields nothing more,
/// whatever upstream gives.
pub proof fn lemma_take_while_done_after_false<T>(s: TakeWhile, x: T, pulls: Seq<Option<(T, bool)>>)
    ensures
        s.step_spec(Some((x, false))).1 == Step::<T>::Stop,
        run(
            take_while_step::<T>(),
            s.step_spec(Some((x, false))).0,
            pulls,
        ) == Seq::<T>::empty(),
{
    let e = s.step_spec(Some((x, false))).0;
    if pulls.len() > 0 {
        assert(e.step_spec(pulls[0]).1 == Step::<T>::Stop);
    }
    assert(run(take_while_step::<T>(), e, pulls) =~= Seq::<T>::empty());
}

/// The end of upstream ends `filter`: over a finite stream followed by any
/// further pulls, `filter` yields the items marked `true`, and nothing of what
/// follows the end.
pub proof fn lemma_filter_ends_with_upstream<T>(pairs: Seq<(T, bool)>, rest: Seq<Option<(T, bool)>>)
    ensures
        run(filter_step::<T>(), Filter::start(), pulled(pairs) + rest) == marked(pairs),
    decreases pairs.len(),
{
    lemma_pulled_followed(pairs, rest);
    if pairs.len() == 0 {
        assert(run(filter_step::<T>(), Filter::start(), pulled(pairs) + rest)
            =~= Seq::<T>::empty());
    } else {
        lemma_filter_ends_with_upstream(pairs.drop_first(), rest);
    }
}

/// The end of upstream ends `filter_map`: over a finite stream followed by any
/// further pulls, it yields the `Some` results, and nothing of what follows the end.
pub proof fn lemma_filter_map_ends_with_upstream<U>(
    results: Seq<Option<U>>,
    rest: Seq<Option<Option<U>>>,
)
    ensures
        run(filter_map_step::<U>(), FilterMap::start(), pulled(results) + rest) == somes(results),
    decreases results.len(),
{
    lemma_pulled_followed(results, rest);
    if results.len() == 0 {
        assert(run(filter_map_step::<U>(), FilterMap::start(), pulled(results) + rest)
            =~= Seq::<U>::empty());
    } else {
        lemma_filter_map_ends_with_upstream(results.drop_first(), rest);
    }
}

/// The end of upstream ends `take_while`: over a finite stream followed by any
/// further pulls, it yields the passing prefix and nothing after.
pub proof fn lemma_take_while_ends_with_upstream<T>(
    pairs: Seq<(T, bool)>,
    rest: Seq<Option<(T, bool)>>,
)
    ensures
        run(take_while_step::<T>(), TakeWhile::start(), pulled(pairs) + rest) == firsts(
            pairs.take(passing(pairs) as int),
        ),
    decreases pairs.len(),
{
    lemma_passing_bound(pairs);
    lemma_pulled_followed(pairs, rest);
    if pairs.len() == 0 {
        assert(run(take_while_step::<T>(), TakeWhile::start(), pulled(pairs) + rest)
            =~= Seq::<T>::empty());
        assert(firsts(pairs.take(0)) =~= Seq::<T>::empty());
    } else if pairs[0].1 {
        lemma_take_while_ends_with_upstream(pairs.drop_first(), rest);
        lemma_passing_bound(pairs.drop_first());
        assert(firsts(pairs.take(passing(pairs) as int)) =~= seq![pairs[0].0] + firsts(
            pairs.drop_first().take(passing(pairs.drop_first()) as int),
        ));
    } else {
        assert(firsts(pairs.take(0)) =~= Seq::<T>::empty());
    }
}

/// Once passing, `skip_while` hands on every item up to the end of upstream, and nothing after.
proof fn lemma_skip_while_rest_ends<T>(pairs: Seq<(T, bool)>, rest: Seq<Option<(T, bool)>>)
    ensures
        run(
            skip_while_step::<T>(),
            SkipWhile { skipping: false, ended: false },
            pulled(pairs) + rest,
        ) == firsts(pairs),
    decreases pairs.len(),
{
    lemma_pulled_followed(pairs, rest);
    if pairs.len() == 0 {
        assert(run(
            skip_while_step::<T>(),
            SkipWhile { skipping: false, ended: false },
            pulled(pairs) + rest,
        ) =~= Seq::<T>::empty());
        assert(firsts(pairs) =~= Seq::<T>::empty());
    } else {
        lemma_skip_while_rest_ends(pairs.drop_first(), rest);
        assert(firsts(pairs) =~= seq![pairs[0].0] + firsts(pairs.drop_first()));
    }
}

/// The end of upstream ends `skip_while`: over a finite stream followed by any
/// further pulls, it yields the items from the first one marked `false`, and
/// nothing of what follows the end.
pub proof fn lemma_skip_while_ends_with_upstream<T>(
    pairs: Seq<(T, bool)>,
    rest: Seq<Option<(T, bool)>>,
)
    ensures
        run(skip_while_step::<T>(), SkipWhile::start(), pulled(pairs) + rest) == firsts(
            pairs.skip(passing(pairs) as int),
        ),
    decreases pairs.len(),
{
    lemma_passing_bound(pairs);
    lemma_pulled_followed(pairs, rest);
    if pairs.len() == 0 {
        assert(run(skip_while_step::<T>(), SkipWhile::start(), pulled(pairs) + rest)
            =~= Seq::<T>::empty());
        assert(firsts(pairs.skip(0)) =~= Seq::<T>::empty());
    } else if pairs[0].1 {
        lemma_skip_while_ends_with_upstream(pairs.drop_first(), rest);
        assert(pairs.skip(passing(pairs) as int) =~= pairs.drop_first().skip(
            passing(pairs.drop_first()) as int,
        ));
    } else {
        lemma_skip_while_rest_ends(pairs.drop_first(), rest);
        assert(firsts(pairs.skip(0)) =~= seq![pairs[0].0] + firsts(pairs.drop_first()));
    }
}

/// How many leading items satisfy `p`.
pub open spec fn leading<T>(items: Seq<T>, p: spec_fn(T) -> bool) -> nat
    decreases items.len(),
{
    if items.len() == 0 || !p(items[0]) {
        0
    } else {
        1 + leading(items.drop_first(), p)
    }
}

/// The leading count never exceeds the number of items.
proof fn lemma_leading_bound<T>(items: Seq<T>, p: spec_fn(T) -> bool)
    ensures
        leading(items, p) <= items.len(),
    decreases items.len(),
{
    if items.len() > 0 && p(items[0]) {
        lemma_leading_bound(items.drop_first(), p);
    }
}

/// `skip_while` as its driver runs it over a finite stream: the predicate `p`
/// is asked about an item only while `consults()` holds, and `false` is
/// handed in otherwise; the end of the stream is handed in as `None`.
pub open spec fn skip_while_driven<T>(s: SkipWhile, items: Seq<T>, p: spec_fn(T) -> bool) -> Seq<
    T,
>
    decreases items.len(),
{
    if items.len() == 0 {
        match s.step_spec(None::<(T, bool)>).1 {
            Step::Yield(x) => seq![x],
            _ => Seq::empty(),
        }
    } else {
        let verdict = if s.consults() {
            p(items[0])
        } else {
            false
        };
        let (next, out) = s.step_spec(Some((items[0], verdict)));
        match out {
            Step::Yield(x) => seq![x] + skip_while_driven(next, items.drop_first(), p),
            Step::Skip => skip_while_driven(next, items.drop_first(), p),
            Step::Stop => Seq::empty(),
        }
    }
}

/// Once passing, the driven `skip_while` hands on every item.
proof fn lemma_skip_while_driven_passing<T>(items: Seq<T>, p: spec_fn(T) -> bool)
    ensures
        skip_while_driven(SkipWhile { skipping: false, ended: false }, items, p) == items,
    decreases items.len(),
{
    if items.len() > 0 {
        lemma_skip_while_driven_passing(items.drop_first(), p);
        assert(items =~= seq![items[0]] + items.drop_first());
    } else {
        assert(skip_while_driven(SkipWhile { skipping: false, ended: false }, items, p) =~= items);
    }
}

/// `skip_while(stream, p)`, run by its driver, drops the items before the
/// first one on which `p` is false and yields that one and all after it.
pub proof fn lemma_skip_while_driven_drops_leading<T>(items: Seq<T>, p: spec_fn(T) -> bool)
    ensures
        skip_while_driven(SkipWhile::start(), items, p) == items.skip(leading(items, p) as int),
    decreases items.len(),
{
    if items.len() == 0 {
        assert(skip_while_driven(SkipWhile::start(), items, p) =~= items.skip(0));
    } else if p(items[0]) {
        lemma_skip_while_driven_drops_leading(items.drop_first(), p);
        lemma_leading_bound(items.drop_first(), p);
        assert(items.skip(leading(items, p) as int) =~= items.drop_first().skip(
            leading(items.drop_first(), p) as int,
        ));
    } else {
        lemma_skip_while_driven_passing(items.drop_first(), p);
        assert(items.skip(0) =~= seq![items[0]] + items.drop_first());
    }
}

} // verus!
