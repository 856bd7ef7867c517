//! `flatten`: the items of each stream that a stream of streams yields, one
//! stream after another.

use vstd::prelude::*;

use crate::stream::{first_pull, left_after_pull, run, Step};

verus! {

/// What one pull gave, and of which stream: the outer stream (whether it gave
/// a new inner stream, which the driver keeps), or the current inner stream
/// (its item, or `None` once it has ended).
pub enum Pulled<T> {
    Outer(bool),
    Inner(Option<T>),
}

/// Pulling an inner stream with the given items to its end.
pub open spec fn inner_pulls<T>(items: Seq<T>) -> Seq<Pulled<T>> {
    items.map_values(|x: T| Pulled::Inner(Some(x))).push(Pulled::Inner(None))
}

/// The pulls that `flatten` makes of a finite stream of finite streams: a new
/// inner stream, all of its items, its end, and so on, then the end of the outer stream.
pub open spec fn flatten_pulls<T>(subs: Seq<Seq<T>>) -> Seq<Pulled<T>>
    decreases subs.len(),
{
    if subs.len() == 0 {
        seq![Pulled::Outer(false)]
    } else {
        seq![Pulled::Outer(true)] + inner_pulls(subs[0]) + flatten_pulls(subs.drop_first())
    }
}

/// The state of `flatten` between two pulls.
pub struct Flatten {
    /// Whether an inner stream is being drained, so that it is pulled next.
    pub inner: bool,
    /// Whether the stream has ended.
    pub ended: bool,
}

impl Flatten {
    /// A fresh `flatten`.
    pub fn new() -> (f: Flatten)
        ensures
            f == Flatten::start(),
    {
        Flatten { inner: false, ended: false }
    }

    /// The state of a fresh `flatten`.
    pub open spec fn start() -> Flatten {
        Flatten { inner: false, ended: false }
    }

    /// Whether the next pull is to be made of the current inner stream
    /// (otherwise of the outer one).
    pub fn pulls_inner(&self) -> (b: bool)
        ensures
            b == self.inner,
    {
        self.inner
    }

    /// One pull.
    pub open spec fn step_spec<T>(self, pull: Pulled<T>) -> (Flatten, Step<T>) {
        if self.ended {
            (self, Step::Stop)
        } else {
            match pull {
                Pulled::Outer(true) => (Flatten { inner: true, ended: false }, Step::Skip),
                Pulled::Outer(false) => (Flatten { inner: false, ended: true }, Step::Stop),
                Pulled::Inner(Some(x)) => (self, Step::Yield(x)),
                Pulled::Inner(None) => (Flatten { inner: false, ended: false }, Step::Skip),
            }
        }
    }

    /// Takes one pull into account.
    pub fn on_pull<T>(&mut self, pull: Pulled<T>) -> (step: Step<T>)
        ensures
            (*final(self), step) == old(self).step_spec(pull),
    {
        if self.ended {
            return Step::Stop;
        }
        match pull {
            Pulled::Outer(true) => {
                self.inner = true;
                Step::Skip
            },
            Pulled::Outer(false) => {
                self.inner = false;
                self.ended = true;
                Step::Stop
            },
            Pulled::Inner(Some(x)) => Step::Yield(x),
            Pulled::Inner(None) => {
                self.inner = false;
                Step::Skip
            },
        }
    }
}

/// The step function of `flatten`, as a value.
pub open spec fn flatten_step<T>() -> spec_fn(Flatten, Pulled<T>) -> (Flatten, Step<T>) {
    |s: Flatten, p: Pulled<T>| s.step_spec(p)
}

/// Draining an inner stream hands on its items, then goes back to the outer stream.
proof fn lemma_flatten_drains_inner<T>(items: Seq<T>, rest: Seq<Pulled<T>>)
    ensures
        run(flatten_step::<T>(), Flatten { inner: true, ended: false }, inner_pulls(items) + rest)
            == items + run(flatten_step::<T>(), Flatten::start(), rest),
    decreases items.len(),
{
    let pulls = inner_pulls(items) + rest;
    if items.len() == 0 {
        assert(pulls[0] == Pulled::<T>::Inner(None));
        assert(pulls.drop_first() =~= rest);
        assert(items + run(flatten_step::<T>(), Flatten::start(), rest) =~= run(
            flatten_step::<T>(),
            Flatten::start(),
            rest,
        ));
    } else {
        assert(pulls[0] == Pulled::Inner(Some(items[0])));
        assert(pulls.drop_first() =~= inner_pulls(items.drop_first()) + rest);
        lemma_flatten_drains_inner(items.drop_first(), rest);
        assert(items + run(flatten_step::<T>(), Flatten::start(), rest) =~= seq![items[0]] + (
        items.drop_first() + run(flatten_step::<T>(), Flatten::start(), rest)));
    }
}

/// `flatten` of a stream of streams yields the items of the first inner
/// stream, then those of the second, and so on.
pub proof fn lemma_flatten_concatenates<T>(subs: Seq<Seq<T>>)
    ensures
        run(flatten_step::<T>(), Flatten::start(), flatten_pulls(subs)) == subs.flatten(),
    decreases subs.len(),
{
    let pulls = flatten_pulls(subs);
    if subs.len() == 0 {
        assert(run(flatten_step::<T>(), Flatten::start(), pulls) =~= subs.flatten());
    } else {
        let rest = inner_pulls(subs[0]) + flatten_pulls(subs.drop_first());
        assert(pulls[0] == Pulled::<T>::Outer(true));
        assert(pulls.drop_first() =~= rest);
        lemma_flatten_drains_inner(subs[0], flatten_pulls(subs.drop_first()));
        lemma_flatten_concatenates(subs.drop_first());
    }
}

/// The end of the outer stream ends `flatten`: over the pulls of a finite
/// stream of finite streams, followed by any further pulls, it yields their
/// items one stream after another and nothing of what follows.
pub proof fn lemma_flatten_ends_with_outer<T>(subs: Seq<Seq<T>>, rest: Seq<Pulled<T>>)
    ensures
        run(flatten_step::<T>(), Flatten::start(), flatten_pulls(subs) + rest) == subs.flatten(),
    decreases subs.len(),
{
    let pulls = flatten_pulls(subs) + rest;
    if subs.len() == 0 {
        assert(pulls[0] == Pulled::<T>::Outer(false));
        assert(run(flatten_step::<T>(), Flatten::start(), pulls) =~= subs.flatten());
    } else {
        let tail = inner_pulls(subs[0]) + (flatten_pulls(subs.drop_first()) + rest);
        assert(pulls[0] == Pulled::<T>::Outer(true));
        assert(pulls.drop_first() =~= tail);
        lemma_flatten_drains_inner(subs[0], flatten_pulls(subs.drop_first()) + rest);
        lemma_flatten_ends_with_outer(subs.drop_first(), rest);
    }
}

/// `flatten` as its driver runs it over a finite stream of finite streams:
/// when `pulls_inner()` holds the current inner stream `cur` is pulled,
/// otherwise the outer one, whose next stream becomes the current one;
/// `fuel` bounds the number of pulls.
pub open spec fn flatten_driven<T>(s: Flatten, subs: Seq<Seq<T>>, cur: Seq<T>, fuel: nat) -> Seq<T>
    decreases fuel,
{
    if fuel == 0 {
        Seq::empty()
    } else {
        let pull = if s.inner {
            Pulled::Inner(first_pull(cur))
        } else {
            Pulled::Outer(subs.len() > 0)
        };
        let subs2 = if !s.inner && subs.len() > 0 {
            subs.drop_first()
        } else {
            subs
        };
        let cur2 = if s.inner {
            left_after_pull(cur)
        } else if subs.len() > 0 {
            subs[0]
        } else {
            cur
        };
        let (next, out) = s.step_spec(pull);
        match out {
            Step::Yield(x) => seq![x] + flatten_driven(next, subs2, cur2, (fuel - 1) as nat),
            Step::Skip => flatten_driven(next, subs2, cur2, (fuel - 1) as nat),
            Step::Stop => Seq::empty(),
        }
    }
}

/// Driven while an inner stream is drained, `flatten` yields its items, then
/// goes back to the outer stream.
proof fn lemma_flatten_driven_inner<T>(subs: Seq<Seq<T>>, cur: Seq<T>, fuel: nat)
    requires
        fuel >= cur.len() + 1,
    ensures
        flatten_driven(Flatten { inner: true, ended: false }, subs, cur, fuel) == cur
            + flatten_driven(Flatten::start(), subs, Seq::empty(), (fuel - cur.len() - 1) as nat),
    decreases cur.len(),
{
    if cur.len() == 0 {
        assert(left_after_pull(cur) =~= Seq::<T>::empty());
        assert(cur + flatten_driven(
            Flatten::start(),
            subs,
            Seq::empty(),
            (fuel - cur.len() - 1) as nat,
        ) =~= flatten_driven(Flatten::start(), subs, Seq::empty(), (fuel - 1) as nat));
    } else {
        lemma_flatten_driven_inner(subs, cur.drop_first(), (fuel - 1) as nat);
        assert(cur + flatten_driven(
            Flatten::start(),
            subs,
            Seq::empty(),
            (fuel - cur.len() - 1) as nat,
        ) =~= seq![cur[0]] + (cur.drop_first() + flatten_driven(
            Flatten::start(),
            subs,
            Seq::empty(),
            (fuel - 1 - cur.drop_first().len() - 1) as nat,
        )));
    }
}

/// `flatten` of a stream of streams, run by its driver, yields the items of
/// the first inner stream, then those of the second, and so on, and then ends.
pub proof fn lemma_flatten_driven_concatenates<T>(subs: Seq<Seq<T>>, fuel: nat)
    requires
        fuel >= subs.flatten().len() + 2 * subs.len() + 1,
    ensures
        flatten_driven(Flatten::start(), subs, Seq::empty(), fuel) == subs.flatten(),
    decreases subs.len(),
{
    if subs.len() == 0 {
        assert(flatten_driven(Flatten::start(), subs, Seq::empty(), fuel) =~= subs.flatten());
    } else {
        let rest_fuel = (fuel - 1 - subs[0].len() - 1) as nat;
        assert(subs.flatten() == subs[0] + subs.drop_first().flatten());
        lemma_flatten_driven_inner(subs.drop_first(), subs[0], (fuel - 1) as nat);
        lemma_flatten_driven_concatenates(subs.drop_first(), rest_fuel);
    }
}

} // verus!
