//! `collect` and `concat`: draining a stream into one collection.

use vstd::prelude::*;

use crate::stream::{lemma_pulled_followed, pulled};

verus! {

/// One pull of `collect`, on the items gathered so far and whether the
/// stream has ended: an item is appended, and `None` ends the stream.
pub open spec fn collect_step<T>(acc: Seq<T>, ended: bool, item: Option<T>) -> (Seq<T>, bool) {
    if ended {
        (acc, true)
    } else {
        match item {
            Some(x) => (acc.push(x), false),
            None => (acc, true),
        }
    }
}

/// What `collect` has gathered after the given pulls, from `acc` and `ended`.
pub open spec fn collected<T>(acc: Seq<T>, ended: bool, pulls: Seq<Option<T>>) -> Seq<T>
    decreases pulls.len(),
{
    if pulls.len() == 0 {
        acc
    } else {
        let (next, now_ended) = collect_step(acc, ended, pulls[0]);
        collected(next, now_ended, pulls.drop_first())
    }
}

/// One pull of `concat`: the items of a pulled collection are appended, and
/// `None` ends the stream.
pub open spec fn concat_step<T>(acc: Seq<T>, ended: bool, item: Option<Seq<T>>) -> (Seq<T>, bool) {
    if ended {
        (acc, true)
    } else {
        match item {
            Some(xs) => (acc + xs, false),
            None => (acc, true),
        }
    }
}

/// What `concat` has gathered after the given pulls, from `acc` and `ended`.
pub open spec fn concatenated<T>(acc: Seq<T>, ended: bool, pulls: Seq<Option<Seq<T>>>) -> Seq<T>
    decreases pulls.len(),
{
    if pulls.len() == 0 {
        acc
    } else {
        let (next, now_ended) = concat_step(acc, ended, pulls[0]);
        concatenated(next, now_ended, pulls.drop_first())
    }
}

/// The view of a pulled collection, or `None`.
pub open spec fn opt_view<T>(item: Option<Vec<T>>) -> Option<Seq<T>> {
    match item {
        Some(v) => Some(v@),
        None => None,
    }
}

/// The collection that `collect` fills.
pub struct Collect<T> {
    /// The items collected so far.
    pub items: Vec<T>,
    /// Whether the stream has ended.
    pub ended: bool,
}

impl<T> Collect<T> {
    /// A fresh `collect`, with nothing collected.
    pub fn new() -> (c: Collect<T>)
        ensures
            c.items@ == Seq::<T>::empty(),
            !c.ended,
    {
        Collect { items: Vec::new(), ended: false }
    }

    /// Takes one pull into account: an item is appended; `None` ends the
    /// stream. Answers whether to pull again.
    pub fn on_item(&mut self, item: Option<T>) -> (more: bool)
        ensures
            (final(self).items@, final(self).ended) == collect_step(
                old(self).items@,
                old(self).ended,
                item,
            ),
            more == !final(self).ended,
    {
        if self.ended {
            return false;
        }
        match item {
            Some(x) => {
                self.items.push(x);
                true
            },
            None => {
                self.ended = true;
                false
            },
        }
    }

    /// The collected items.
    pub fn into_vec(self) -> (items: Vec<T>)
        ensures
            items@ == self.items@,
    {
        self.items
    }
}

/// After the end, `collect` gathers nothing more.
proof fn lemma_collected_after_end<T>(acc: Seq<T>, pulls: Seq<Option<T>>)
    ensures
        collected(acc, true, pulls) == acc,
    decreases pulls.len(),
{
    if pulls.len() > 0 {
        lemma_collected_after_end(acc, pulls.drop_first());
    }
}

/// `collect` gives back every item of the stream, in order.
pub proof fn lemma_collect_gathers_all<T>(acc: Seq<T>, items: Seq<T>)
    ensures
        collected(acc, false, pulled(items)) == acc + items,
    decreases items.len(),
{
    if items.len() == 0 {
        assert(pulled(items)[0] == None::<T>);
        lemma_collected_after_end(acc, pulled(items).drop_first());
        assert(acc + items =~= acc);
    } else {
        assert(pulled(items)[0] == Some(items[0]));
        assert(pulled(items).drop_first() =~= pulled(items.drop_first()));
        lemma_collect_gathers_all(acc.push(items[0]), items.drop_first());
        assert(acc.push(items[0]) + items.drop_first() =~= acc + items);
    }
}

/// The collection that `concat` fills.
pub struct Concat<T> {
    /// The items of the pulled collections so far, one after another.
    pub items: Vec<T>,
    /// Whether the stream has ended.
    pub ended: bool,
}

impl<T> Concat<T> {
    /// A fresh `concat`, with nothing gathered.
    pub fn new() -> (c: Concat<T>)
        ensures
            c.items@ == Seq::<T>::empty(),
            !c.ended,
    {
        Concat { items: Vec::new(), ended: false }
    }

    /// Takes one pull into account: the items of a pulled collection are
    /// appended; `None` ends the stream. Answers whether to pull again.
    pub fn on_item(&mut self, item: Option<Vec<T>>) -> (more: bool)
        ensures
            (final(self).items@, final(self).ended) == concat_step(
                old(self).items@,
                old(self).ended,
                opt_view(item),
            ),
            more == !final(self).ended,
            !old(self).ended && item is Some ==> final(self).items@ == old(self).items@
                + item->Some_0@,
            old(self).ended || item is None ==> final(self).items@ == old(self).items@,
    {
        if self.ended {
            return false;
        }
        match item {
            Some(xs) => {
                let mut xs = xs;
                self.items.append(&mut xs);
                true
            },
            None => {
                self.ended = true;
                false
            },
        }
    }

    /// The gathered items.
    pub fn into_vec(self) -> (items: Vec<T>)
        ensures
            items@ == self.items@,
    {
        self.items
    }
}

/// After the end, `concat` gathers nothing more.
proof fn lemma_concatenated_after_end<T>(acc: Seq<T>, pulls: Seq<Option<Seq<T>>>)
    ensures
        concatenated(acc, true, pulls) == acc,
    decreases pulls.len(),
{
    if pulls.len() > 0 {
        lemma_concatenated_after_end(acc, pulls.drop_first());
    }
}

/// `concat` gives back the items of every pulled collection, one collection after another.
pub proof fn lemma_concat_flattens<T>(acc: Seq<T>, subs: Seq<Seq<T>>)
    ensures
        concatenated(acc, false, pulled(subs)) == acc + subs.flatten(),
    decreases subs.len(),
{
    if subs.len() == 0 {
        assert(pulled(subs)[0] == None::<Seq<T>>);
        lemma_concatenated_after_end(acc, pulled(subs).drop_first());
        assert(acc + subs.flatten() =~= acc);
    } else {
        assert(pulled(subs)[0] == Some(subs[0]));
        assert(pulled(subs).drop_first() =~= pulled(subs.drop_first()));
        lemma_concat_flattens(acc + subs[0], subs.drop_first());
        assert(acc + subs[0] + subs.drop_first().flatten() =~= acc + subs.flatten());
    }
}

/// A pulled collection is seen by `concat` as its own items.
pub proof fn lemma_opt_view_items<T>(v: Vec<T>)
    ensures
        opt_view(Some(v)) == Some(v@),
        opt_view(None::<Vec<T>>) is None,
{
}

/// The end of upstream ends `collect`: over a finite stream followed by any
/// further pulls, it gathers the stream's items and nothing after its end.
pub proof fn lemma_collect_ends_with_upstream<T>(acc: Seq<T>, items: Seq<T>, rest: Seq<Option<T>>)
    ensures
        collected(acc, false, pulled(items) + rest) == acc + items,
    decreases items.len(),
{
    lemma_pulled_followed(items, rest);
    if items.len() == 0 {
        lemma_collected_after_end(acc, rest);
        assert(acc + items =~= acc);
    } else {
        lemma_collect_ends_with_upstream(acc.push(items[0]), items.drop_first(), rest);
        assert(acc.push(items[0]) + items.drop_first() =~= acc + items);
    }
}

/// The end of upstream ends `concat`: over a finite stream of collections
/// followed by any further pulls, it gathers their items, one collection after
/// another, and nothing after the end.
pub proof fn lemma_concat_ends_with_upstream<T>(
    acc: Seq<T>,
    subs: Seq<Seq<T>>,
    rest: Seq<Option<Seq<T>>>,
)
    ensures
        concatenated(acc, false, pulled(subs) + rest) == acc + subs.flatten(),
    decreases subs.len(),
{
    lemma_pulled_followed(subs, rest);
    if subs.len() == 0 {
        lemma_concatenated_after_end(acc, rest);
        assert(acc + subs.flatten() =~= acc);
    } else {
        lemma_concat_ends_with_upstream(acc + subs[0], subs.drop_first(), rest);
        assert(acc + subs[0] + subs.drop_first().flatten() =~= acc + subs.flatten());
    }
}

} // verus!
