//! `zip`: pairs of items of two streams, as long as both have one.

use vstd::prelude::*;

use crate::stream::{min_len, run, Step};

verus! {

/// The `i`-th pull of a finite stream with the given items: the item, or
/// `None` once the stream has ended.
pub open spec fn pull_at<T>(items: Seq<T>, i: int) -> Option<T> {
    if 0 <= i < items.len() {
        Some(items[i])
    } else {
        None
    }
}

/// The pulls that `zip` makes of two finite streams, one of each per round,
/// until both have ended.
pub open spec fn zip_pulls<A, B>(a: Seq<A>, b: Seq<B>) -> Seq<(Option<A>, Option<B>)> {
    let n = if a.len() <= b.len() {
        b.len()
    } else {
        a.len()
    };
    Seq::new(n + 1, |i: int| (pull_at(a, i), pull_at(b, i)))
}

/// The pairs of items at equal positions, as many as the shorter sequence has.
pub open spec fn paired<A, B>(a: Seq<A>, b: Seq<B>) -> Seq<(A, B)> {
    Seq::new(min_len(a.len(), b.len()), |i: int| (a[i], b[i]))
}

/// The state of `zip` between two rounds.
pub struct Zip {
    /// Whether the stream has ended.
    pub ended: bool,
}

impl Zip {
    /// A fresh `zip`.
    pub fn new() -> (z: Zip)
        ensures
            z == Zip::start(),
    {
        Zip { ended: false }
    }

    /// The state of a fresh `zip`.
    pub open spec fn start() -> Zip {
        Zip { ended: false }
    }

    /// One round: what each stream gave when pulled (both are pulled every
    /// round, the first one first). The pair is handed on when both gave an
    /// item; otherwise the stream ends, and an item that one of them gave is dropped.
    pub open spec fn step_spec<A, B>(self, round: (Option<A>, Option<B>)) -> (Zip, Step<(A, B)>) {
        if self.ended {
            (self, Step::Stop)
        } else {
            match round {
                (Some(a), Some(b)) => (self, Step::Yield((a, b))),
                _ => (Zip { ended: true }, Step::Stop),
            }
        }
    }

    /// Takes one round of pulls into account.
    pub fn on_items<A, B>(&mut self, left: Option<A>, right: Option<B>) -> (step: Step<(A, B)>)
        ensures
            (*final(self), step) == old(self).step_spec((left, right)),
    {
        if self.ended {
            return Step::Stop;
        }
        match (left, right) {
            (Some(a), Some(b)) => Step::Yield((a, b)),
            _ => {
                self.ended = true;
                Step::Stop
            },
        }
    }
}

/// The step function of `zip`, as a value.
pub open spec fn zip_step<A, B>() -> spec_fn(Zip, (Option<A>, Option<B>)) -> (Zip, Step<(A, B)>) {
    |s: Zip, r: (Option<A>, Option<B>)| s.step_spec(r)
}

/// `zip` of two finite streams yields the pairs of their items at equal
/// positions, and ends when the shorter one does.
pub proof fn lemma_zip_pairs<A, B>(a: Seq<A>, b: Seq<B>)
    ensures
        run(zip_step::<A, B>(), Zip::start(), zip_pulls(a, b)) == paired(a, b),
    decreases a.len(),
{
    let pulls = zip_pulls(a, b);
    if a.len() == 0 || b.len() == 0 {
        assert(pulls[0] == (pull_at(a, 0), pull_at(b, 0)));
        assert(run(zip_step::<A, B>(), Zip::start(), pulls) =~= Seq::<(A, B)>::empty());
        assert(paired(a, b) =~= Seq::<(A, B)>::empty());
    } else {
        assert(pulls[0] == (Some(a[0]), Some(b[0])));
        assert(pulls.drop_first() =~= zip_pulls(a.drop_first(), b.drop_first()));
        lemma_zip_pairs(a.drop_first(), b.drop_first());
        assert(paired(a, b) =~= seq![(a[0], b[0])] + paired(a.drop_first(), b.drop_first()));
    }
}

/// The end of either stream ends `zip`: over the rounds that zip two finite
/// streams, followed by any further rounds, it yields the pairs at equal
/// positions and nothing of what follows the first round in which a side has ended.
pub proof fn lemma_zip_ends_with_shorter<A, B>(
    a: Seq<A>,
    b: Seq<B>,
    rest: Seq<(Option<A>, Option<B>)>,
)
    ensures
        run(zip_step::<A, B>(), Zip::start(), zip_pulls(a, b) + rest) == paired(a, b),
    decreases a.len(),
{
    let pulls = zip_pulls(a, b) + rest;
    if a.len() == 0 || b.len() == 0 {
        assert(pulls[0] == (pull_at(a, 0), pull_at(b, 0)));
        assert(run(zip_step::<A, B>(), Zip::start(), pulls) =~= Seq::<(A, B)>::empty());
        assert(paired(a, b) =~= Seq::<(A, B)>::empty());
    } else {
        assert(pulls[0] == (Some(a[0]), Some(b[0])));
        assert(pulls.drop_first() =~= zip_pulls(a.drop_first(), b.drop_first()) + rest);
        lemma_zip_ends_with_shorter(a.drop_first(), b.drop_first(), rest);
        assert(paired(a, b) =~= seq![(a[0], b[0])] + paired(a.drop_first(), b.drop_first()));
    }
}

} // verus!
