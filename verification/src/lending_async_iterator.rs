use vstd::prelude::*;

use crate::poll::Poll;

verus! {

/// The items among a run of polls of a lending asynchronous iterator, in the
/// order in which they came.
pub open spec fn items<T>(polls: Seq<Poll<Option<T>>>) -> Seq<T>
    decreases polls.len(),
{
    if polls.len() == 0 {
        Seq::empty()
    } else {
        let after = items(polls.drop_first());
        match polls[0] {
            Poll::Ready(Some(item)) => seq![item] + after,
            _ => after,
        }
    }
}

/// A future that resolves to the next item of the iterator it borrows.
#[derive(Debug)]
pub struct Next<'a, T: ?Sized>(&'a mut T);

impl<'a, T: ?Sized> Next<'a, T> {
    /// The iterator whose next item this future resolves to.
    pub closed spec fn iter(&self) -> &T {
        &*self.0
    }

    /// The future of the next item of `iter`.
    pub fn new(iter: &'a mut T) -> (r: Next<'a, T>)
        ensures
            r.iter() == &*old(iter),
    {
        Next(iter)
    }

    /// The iterator whose next item this future resolves to, to poll it.
    pub fn iter_mut(&mut self) -> (r: &mut T)
        ensures
            &*r == old(self).iter(),
            final(self).iter() == &*final(r),
    {
        &mut *self.0
    }
}

// ---------------------------------------------------------------- Filter

/// A lending asynchronous iterator that yields the items of another one that
/// its predicate accepts.
#[derive(Debug)]
pub struct Filter<I, P> {
    async_iter: I,
    predicate: P,
}

impl<I, P> Filter<I, P> {
    /// The iterator that is filtered.
    pub closed spec fn async_iter(&self) -> I {
        self.async_iter
    }

    /// The predicate that decides which items pass.
    pub closed spec fn predicate(&self) -> P {
        self.predicate
    }

    /// Filters `async_iter` by `predicate`.
    pub fn new(async_iter: I, predicate: P) -> (r: Self)
        ensures
            r.async_iter() == async_iter,
            r.predicate() == predicate,
    {
        Filter { async_iter, predicate }
    }

    /// The iterator and the predicate, to poll the one and ask the other.
    pub fn parts_mut(&mut self) -> (r: (&mut I, &mut P))
        ensures
            *r.0 == old(self).async_iter(),
            *r.1 == old(self).predicate(),
            final(self).async_iter() == *final(r.0),
            final(self).predicate() == *final(r.1),
    {
        (&mut self.async_iter, &mut self.predicate)
    }
}

/// What a `Filter` does with one poll of the iterator it filters, given the
/// predicate's verdict on the item (ignored when there is none): `None` to
/// poll again, or what its own poll returns.
pub open spec fn filter_step<T>(polled: Poll<Option<T>>, keep: bool) -> Option<Poll<Option<T>>> {
    match polled {
        Poll::Ready(Some(item)) => if keep {
            Some(Poll::Ready(Some(item)))
        } else {
            None
        },
        Poll::Ready(None) => Some(Poll::Ready(None)),
        Poll::Pending => Some(Poll::Pending),
    }
}

/// The decision of a `Filter` on one poll of the iterator it filters.
pub fn filter_decide<T>(polled: Poll<Option<T>>, keep: bool) -> (r: Option<Poll<Option<T>>>)
    ensures
        r == filter_step(polled, keep),
        polled is Pending ==> r == Some(Poll::<Option<T>>::Pending),
        polled == Poll::<Option<T>>::Ready(None) ==> r == Some(Poll::<Option<T>>::Ready(None)),
        polled is Ready && polled->Ready_0 is Some ==> (r == if keep {
            Some(polled)
        } else {
            None
        }),
{
    match polled {
        Poll::Ready(Some(item)) => if keep {
            Some(Poll::Ready(Some(item)))
        } else {
            None
        },
        Poll::Ready(None) => Some(Poll::Ready(None)),
        Poll::Pending => Some(Poll::Pending),
    }
}

/// What a `Filter` returns over a run of polls of the iterator it filters,
/// each with the predicate's verdict.
pub open spec fn filter_run<T>(events: Seq<(Poll<Option<T>>, bool)>) -> Seq<Poll<Option<T>>>
    decreases events.len(),
{
    if events.len() == 0 {
        Seq::empty()
    } else {
        let after = filter_run(events.drop_first());
        match filter_step(events[0].0, events[0].1) {
            Some(out) => seq![out] + after,
            None => after,
        }
    }
}

/// The items of a run that the predicate accepted, in order.
pub open spec fn kept<T>(events: Seq<(Poll<Option<T>>, bool)>) -> Seq<T>
    decreases events.len(),
{
    if events.len() == 0 {
        Seq::empty()
    } else {
        let after = kept(events.drop_first());
        match events[0].0 {
            Poll::Ready(Some(item)) => if events[0].1 {
                seq![item] + after
            } else {
                after
            },
            _ => after,
        }
    }
}

/// A `Filter` yields exactly the items that its predicate accepts, in the
/// order in which the filtered iterator yields them.
pub proof fn lemma_filter_yields_kept_items<T>(events: Seq<(Poll<Option<T>>, bool)>)
    ensures
        items(filter_run(events)) == kept(events),
    decreases events.len(),
{
    if events.len() > 0 {
        lemma_filter_yields_kept_items(events.drop_first());
        let after = filter_run(events.drop_first());
        match filter_step(events[0].0, events[0].1) {
            Some(out) => {
                assert((seq![out] + after).drop_first() == after);
            },
            None => {},
        }
    }
}

/// The polls of a run, without the predicate's verdicts.
pub open spec fn polls_of<T>(events: Seq<(Poll<Option<T>>, bool)>) -> Seq<Poll<Option<T>>> {
    events.map_values(|e: (Poll<Option<T>>, bool)| e.0)
}

/// How many polls of a run are the end of the iterator.
pub open spec fn ends<T>(polls: Seq<Poll<Option<T>>>) -> nat
    decreases polls.len(),
{
    if polls.len() == 0 {
        0
    } else {
        let here: nat = if polls[0] == Poll::<Option<T>>::Ready(None) {
            1
        } else {
            0
        };
        here + ends(polls.drop_first())
    }
}

/// A `Filter` returns `Pending` where the iterator it filters is not ready,
/// rather than polling it again, and passes its end on: over any run it
/// returns as many polls that are not ready, and as many ends, as that
/// iterator does.
pub proof fn lemma_filter_passes_waits_and_ends<T>(events: Seq<(Poll<Option<T>>, bool)>)
    ensures
        waits(filter_run(events)) == waits(polls_of(events)),
        ends(filter_run(events)) == ends(polls_of(events)),
    decreases events.len(),
{
    if events.len() > 0 {
        lemma_filter_passes_waits_and_ends(events.drop_first());
        assert(polls_of(events).drop_first() =~= polls_of(events.drop_first()));
        assert(polls_of(events)[0] == events[0].0);
        let after = filter_run(events.drop_first());
        match filter_step(events[0].0, events[0].1) {
            Some(out) => {
                assert((seq![out] + after).drop_first() == after);
                assert((seq![out] + after)[0] == out);
            },
            None => {},
        }
    }
}

// ---------------------------------------------------------------- Enumerate

/// A lending asynchronous iterator that yields the items of another one
/// together with their position, counted from zero.
#[derive(Debug, Clone, Copy, PartialEq, Eq, Hash)]
pub struct Enumerate<I> {
    iter: I,
    index: usize,
}

impl<I> Enumerate<I> {
    /// The iterator that is enumerated.
    pub closed spec fn iter(&self) -> I {
        self.iter
    }

    /// The position that the next item gets.
    pub closed spec fn index(&self) -> usize {
        self.index
    }

    /// Enumerates `iter` from position zero.
    pub fn new(iter: I) -> (r: Self)
        ensures
            r.iter() == iter,
            r.index() == 0,
    {
        Enumerate { iter, index: 0 }
    }

    /// The iterator and the position counter, to poll the one and advance the
    /// other with `enumerate_next`.
    pub fn parts_mut(&mut self) -> (r: (&mut I, &mut usize))
        ensures
            *r.0 == old(self).iter(),
            *r.1 == old(self).index(),
            final(self).iter() == *final(r.0),
            final(self).index() == *final(r.1),
    {
        (&mut self.iter, &mut self.index)
    }
}

/// What an `Enumerate` at position `index` does with one poll of the iterator
/// it enumerates: the position that the next item gets, and what its own poll
/// returns.
pub open spec fn enumerate_step<T>(index: int, polled: Poll<Option<T>>) -> (int, Poll<Option<(int, T)>>) {
    match polled {
        Poll::Ready(Some(item)) => (index + 1, Poll::Ready(Some((index, item)))),
        Poll::Ready(None) => (index, Poll::Ready(None)),
        Poll::Pending => (index, Poll::Pending),
    }
}

/// The positions of the items that an `Enumerate` yields, read as integers.
pub open spec fn with_int_index<T>(polled: Poll<Option<(usize, T)>>) -> Poll<Option<(int, T)>> {
    match polled {
        Poll::Ready(Some((index, item))) => Poll::Ready(Some((index as int, item))),
        Poll::Ready(None) => Poll::Ready(None),
        Poll::Pending => Poll::Pending,
    }
}

/// The decision of an `Enumerate` on one poll of the iterator it enumerates:
/// an item leaves paired with the current position, which then advances.
pub fn enumerate_next<T>(index: &mut usize, polled: Poll<Option<T>>) -> (r: Poll<Option<(usize, T)>>)
    requires
        polled is Ready && polled->Ready_0 is Some ==> *old(index) < usize::MAX,
    ensures
        (*final(index) as int, with_int_index(r)) == enumerate_step(*old(index) as int, polled),
        polled is Pending ==> *final(index) == *old(index) && r == Poll::<Option<(usize, T)>>::Pending,
        polled == Poll::<Option<T>>::Ready(None) ==> *final(index) == *old(index) && r == Poll::<
            Option<(usize, T)>,
        >::Ready(None),
        polled matches Poll::Ready(Some(item)) ==> *final(index) == *old(index) + 1 && r == Poll::Ready(
            Some((*old(index), item)),
        ),
{
    match polled {
        Poll::Ready(Some(item)) => {
            let i = *index;
            *index = i + 1;
            Poll::Ready(Some((i, item)))
        },
        Poll::Ready(None) => Poll::Ready(None),
        Poll::Pending => Poll::Pending,
    }
}

/// What an `Enumerate` starting at position `index` returns over a run of
/// polls of the iterator it enumerates.
pub open spec fn enumerate_run<T>(index: int, polls: Seq<Poll<Option<T>>>) -> Seq<Poll<Option<(int, T)>>>
    decreases polls.len(),
{
    if polls.len() == 0 {
        Seq::empty()
    } else {
        let (next, out) = enumerate_step(index, polls[0]);
        seq![out] + enumerate_run(next, polls.drop_first())
    }
}

/// The `k`-th item that an `Enumerate` starting at position `start` yields is
/// the `k`-th item of the iterator it enumerates, at position `start + k`.
pub proof fn lemma_enumerate_pairs_items_with_positions<T>(start: int, polls: Seq<Poll<Option<T>>>)
    ensures
        items(enumerate_run(start, polls)).len() == items(polls).len(),
        forall|k: int|
            0 <= k < items(polls).len() ==> #[trigger] items(enumerate_run(start, polls))[k] == (
            start + k,
            items(polls)[k],
        ),
    decreases polls.len(),
{
    if polls.len() > 0 {
        let (next, out) = enumerate_step(start, polls[0]);
        lemma_enumerate_pairs_items_with_positions(next, polls.drop_first());
        assert((seq![out] + enumerate_run(next, polls.drop_first())).drop_first()
            == enumerate_run(next, polls.drop_first()));
    }
}

/// An `Enumerate` returns, poll for poll, `Pending` where the iterator it
/// enumerates is not ready, the end where that iterator ends, and an item
/// where it yields one.
pub proof fn lemma_enumerate_poll_for_poll<T>(start: int, polls: Seq<Poll<Option<T>>>)
    ensures
        enumerate_run(start, polls).len() == polls.len(),
        forall|i: int|
            0 <= i < polls.len() ==> {
                &&& (#[trigger] enumerate_run(start, polls)[i] is Pending <==> polls[i] is Pending)
                &&& (enumerate_run(start, polls)[i] == Poll::<Option<(int, T)>>::Ready(None) <==> polls[i]
                    == Poll::<Option<T>>::Ready(None))
            },
    decreases polls.len(),
{
    if polls.len() > 0 {
        let (next, out) = enumerate_step(start, polls[0]);
        let rest = polls.drop_first();
        lemma_enumerate_poll_for_poll(next, rest);
        let run = enumerate_run(start, polls);
        assert(run == seq![out] + enumerate_run(next, rest));
        assert forall|i: int| 0 <= i < polls.len() implies {
            &&& (#[trigger] run[i] is Pending <==> polls[i] is Pending)
            &&& (run[i] == Poll::<Option<(int, T)>>::Ready(None) <==> polls[i] == Poll::<Option<T>>::Ready(None))
        } by {
            if i > 0 {
                assert(run[i] == enumerate_run(next, rest)[i - 1]);
                assert(polls[i] == rest[i - 1]);
            }
        }
    }
}

// ---------------------------------------------------------------- Cycle

/// A lending asynchronous iterator meant to repeat another one without end:
/// it keeps a copy of the iterator as it was at the start.
#[derive(Debug, Clone)]
pub struct Cycle<I> {
    original: I,
    current: I,
    read_item: bool,
}

impl<I> Cycle<I> {
    /// The iterator that is being run through.
    pub closed spec fn current(&self) -> I {
        self.current
    }

    /// Whether the current run has yielded an item.
    pub closed spec fn read_item(&self) -> bool {
        self.read_item
    }

    /// Cycles `iter`, keeping a clone of it as it is now.
    pub fn new(iter: I) -> (r: Self) where I: Clone
        ensures
            r.current() == iter,
            !r.read_item(),
    {
        Cycle { original: iter.clone(), current: iter, read_item: false }
    }

    /// The iterator that is being run through and whether it has yielded an
    /// item, to poll the one and update the other with `cycle_next`.
    pub fn parts_mut(&mut self) -> (r: (&mut I, &mut bool))
        ensures
            *r.0 == old(self).current(),
            *r.1 == old(self).read_item(),
            final(self).current() == *final(r.0),
            final(self).read_item() == *final(r.1),
    {
        (&mut self.current, &mut self.read_item)
    }
}

/// The decision of a `Cycle` on one poll of the iterator it runs through: it
/// returns what that poll returned, and notes when an item has come. The end
/// of a run that yielded items, where the copy would start over, is left
/// out: there the iterator panics, as it has no way to restart yet.
pub fn cycle_next<T>(read_item: &mut bool, polled: Poll<Option<T>>) -> (r: Poll<Option<T>>)
    requires
        !(*old(read_item) && polled == Poll::<Option<T>>::Ready(None)),
    ensures
        r == polled,
        *final(read_item) == (*old(read_item) || (polled is Ready && polled->Ready_0 is Some)),
{
    match polled {
        Poll::Ready(None) => Poll::Ready(None),
        Poll::Pending => Poll::Pending,
        Poll::Ready(Some(item)) => {
            *read_item = true;
            Poll::Ready(Some(item))
        },
    }
}


/// What a `Cycle` returns over a run of polls of the iterator it runs
/// through, and whether it has then yielded an item; `read_item` says
/// whether it had before the run.
pub open spec fn cycle_run<T>(read_item: bool, polls: Seq<Poll<Option<T>>>) -> (bool, Seq<Poll<Option<T>>>)
    decreases polls.len(),
{
    if polls.len() == 0 {
        (read_item, Seq::empty())
    } else {
        let read = read_item || (polls[0] is Ready && polls[0]->Ready_0 is Some);
        let (after, outs) = cycle_run(read, polls.drop_first());
        (after, seq![polls[0]] + outs)
    }
}

/// Until the iterator it runs through ends, a `Cycle` returns what that
/// iterator returns, poll for poll: its items in order, and `Pending` where
/// the iterator is not ready; afterwards it has yielded an item exactly when
/// one came (or had before).
pub proof fn lemma_cycle_passes_a_run_through<T>(read_item: bool, polls: Seq<Poll<Option<T>>>)
    requires
        forall|i: int| 0 <= i < polls.len() ==> polls[i] != Poll::<Option<T>>::Ready(None),
    ensures
        cycle_run(read_item, polls) == (read_item || items(polls).len() > 0, polls),
        items(cycle_run(read_item, polls).1) == items(polls),
    decreases polls.len(),
{
    if polls.len() > 0 {
        let read = read_item || (polls[0] is Ready && polls[0]->Ready_0 is Some);
        assert forall|i: int| 0 <= i < polls.drop_first().len() implies polls.drop_first()[i]
            != Poll::<Option<T>>::Ready(None) by {
            assert(polls.drop_first()[i] == polls[i + 1]);
        }
        lemma_cycle_passes_a_run_through(read, polls.drop_first());
        assert(seq![polls[0]] + polls.drop_first() == polls);
    }
}

// ---------------------------------------------------------------- Fold

/// A future that folds the items of a lending asynchronous iterator into an
/// accumulator, and resolves to it once the iterator ends.
pub struct Fold<I, Acc, FoldFn> {
    async_iter: I,
    acc: Option<Acc>,
    fold: FoldFn,
}

impl<I, Acc, FoldFn> Fold<I, Acc, FoldFn> {
    /// The iterator whose items are folded.
    pub closed spec fn async_iter(&self) -> I {
        self.async_iter
    }

    /// The accumulator, until the future has resolved.
    pub closed spec fn acc(&self) -> Option<Acc> {
        self.acc
    }

    /// The folding function.
    pub closed spec fn fold(&self) -> FoldFn {
        self.fold
    }

    /// Folds `async_iter` with `fold`, starting from `init`.
    pub fn new(async_iter: I, init: Acc, fold: FoldFn) -> (r: Self)
        ensures
            r.async_iter() == async_iter,
            r.acc() == Some(init),
            r.fold() == fold,
    {
        Fold { async_iter, acc: Some(init), fold }
    }

    /// The iterator, the accumulator and the folding function.
    pub fn parts_mut(&mut self) -> (r: (&mut I, &mut Option<Acc>, &mut FoldFn))
        ensures
            *r.0 == old(self).async_iter(),
            *r.1 == old(self).acc(),
            *r.2 == old(self).fold(),
            final(self).async_iter() == *final(r.0),
            final(self).acc() == *final(r.1),
            final(self).fold() == *final(r.2),
    {
        (&mut self.async_iter, &mut self.acc, &mut self.fold)
    }
}

/// What a `Fold` does with one poll of its iterator.
pub enum FoldStep<T, Acc> {
    /// The iterator is not ready: the future is not either.
    Pending,
    /// Fold this item into this accumulator, put the result back, and poll
    /// again.
    Fold(Acc, T),
    /// The iterator has ended: the future resolves to this accumulator.
    Done(Acc),
}

/// What a `Fold` holding `acc` does with one poll of its iterator: what it
/// holds afterwards, and the step.
pub open spec fn fold_step<T, Acc>(acc: Option<Acc>, polled: Poll<Option<T>>) -> (Option<Acc>, FoldStep<T, Acc>) {
    match polled {
        Poll::Pending => (acc, FoldStep::Pending),
        Poll::Ready(Some(item)) => (None, FoldStep::Fold(acc->Some_0, item)),
        Poll::Ready(None) => (None, FoldStep::Done(acc->Some_0)),
    }
}

/// The decision of a `Fold` on one poll of its iterator. The accumulator
/// leaves the future whenever the poll is ready, to be folded or handed out;
/// a future that has resolved holds none, and polling it again panics, which
/// is left out here.
pub fn fold_next<T, Acc>(acc: &mut Option<Acc>, polled: Poll<Option<T>>) -> (r: FoldStep<T, Acc>)
    requires
        polled is Ready ==> *old(acc) is Some,
    ensures
        (*final(acc), r) == fold_step(*old(acc), polled),
        polled is Pending ==> *final(acc) == *old(acc) && r == FoldStep::<T, Acc>::Pending,
        polled == Poll::<Option<T>>::Ready(None) ==> *final(acc) is None && r == FoldStep::<T, Acc>::Done(
            old(acc)->Some_0,
        ),
        polled matches Poll::Ready(Some(item)) ==> *final(acc) is None && r == FoldStep::<T, Acc>::Fold(
            old(acc)->Some_0,
            item,
        ),
{
    match polled {
        Poll::Pending => FoldStep::Pending,
        Poll::Ready(item) => {
            let a = match acc.take() {
                Some(a) => a,
                None => vstd::pervasive::unreached(),
            };
            match item {
                Some(item) => FoldStep::Fold(a, item),
                None => FoldStep::Done(a),
            }
        },
    }
}

// ---------------------------------------------------------------- ForEach

/// A future that runs a function on every item of a lending asynchronous
/// iterator, and resolves once the iterator ends.
pub struct ForEach<I, F> {
    async_iter: I,
    f: F,
}

impl<I, F> ForEach<I, F> {
    /// The iterator whose items are visited.
    pub closed spec fn async_iter(&self) -> I {
        self.async_iter
    }

    /// The function run on each item.
    pub closed spec fn f(&self) -> F {
        self.f
    }

    /// Runs `f` on every item of `async_iter`.
    pub fn new(async_iter: I, f: F) -> (r: Self)
        ensures
            r.async_iter() == async_iter,
            r.f() == f,
    {
        ForEach { async_iter, f }
    }

    /// The iterator and the function, to poll the one and run the other.
    pub fn parts_mut(&mut self) -> (r: (&mut I, &mut F))
        ensures
            *r.0 == old(self).async_iter(),
            *r.1 == old(self).f(),
            final(self).async_iter() == *final(r.0),
            final(self).f() == *final(r.1),
    {
        (&mut self.async_iter, &mut self.f)
    }
}

// ---------------------------------------------------------------- consumers

/// What a loop that consumes a lending asynchronous iterator does with one
/// poll of it.
#[derive(Debug, PartialEq, Eq)]
pub enum Consume<T, R> {
    /// Hand this item to the caller's function, then poll again.
    Item(T),
    /// What the consuming future's poll returns.
    Return(Poll<R>),
}

/// The first answer of a consuming loop over a run of polls: the first step
/// that does not ask to poll again, if any does.
pub open spec fn session<E, R>(events: Seq<E>, step: spec_fn(E) -> Option<R>) -> Option<R>
    decreases events.len(),
{
    if events.len() == 0 {
        None
    } else {
        match step(events[0]) {
            Some(r) => Some(r),
            None => session(events.drop_first(), step),
        }
    }
}

/// A run of polls in which each of `values` is ready in turn, and then the
/// iterator ends.
pub open spec fn ready_then_end<T>(values: Seq<T>) -> Seq<Poll<Option<T>>> {
    values.map_values(|v: T| Poll::Ready(Some(v))) + seq![Poll::Ready(None)]
}

/// The first poll of a run of ready items and the run after it.
pub proof fn lemma_ready_then_end_unfold<T>(values: Seq<T>)
    requires
        values.len() > 0,
    ensures
        ready_then_end(values)[0] == Poll::Ready(Some(values[0])),
        ready_then_end(values).drop_first() == ready_then_end(values.drop_first()),
{
    assert(ready_then_end(values).drop_first() =~= ready_then_end(values.drop_first()));
}

/// What `for_each` does with one poll: every item goes to the function; the
/// end of the iterator resolves the future.
pub open spec fn for_each_step<T>(polled: Poll<Option<T>>) -> Consume<T, ()> {
    match polled {
        Poll::Ready(Some(item)) => Consume::Item(item),
        Poll::Ready(None) => Consume::Return(Poll::Ready(())),
        Poll::Pending => Consume::Return(Poll::Pending),
    }
}

/// The decision of `for_each` (and of a `ForEach`) on one poll.
pub fn for_each_next<T>(polled: Poll<Option<T>>) -> (r: Consume<T, ()>)
    ensures
        r == for_each_step(polled),
        polled is Pending ==> r == Consume::<T, ()>::Return(Poll::Pending),
        polled == Poll::<Option<T>>::Ready(None) ==> r == Consume::<T, ()>::Return(Poll::Ready(())),
        polled matches Poll::Ready(Some(item)) ==> r == Consume::<T, ()>::Item(item),
{
    match polled {
        Poll::Ready(Some(item)) => Consume::Item(item),
        Poll::Ready(None) => Consume::Return(Poll::Ready(())),
        Poll::Pending => Consume::Return(Poll::Pending),
    }
}

/// `for_each` visits every ready item, in order, and resolves only when the
/// iterator ends.
pub proof fn lemma_for_each_visits_every_item<T>(values: Seq<T>)
    ensures
        forall|k: int| 0 <= k < values.len() ==> #[trigger] for_each_step(ready_then_end(values)[k]) == Consume::<T, ()>::Item(values[k]),
        for_each_step(ready_then_end(values)[values.len() as int]) == Consume::<T, ()>::Return(Poll::Ready(())),
{
    assert(ready_then_end(values).len() == values.len() + 1);
}

/// What `all` does with one poll, once the predicate has judged the item:
/// `None` to poll again, or what its poll returns.
pub open spec fn all_step(polled: Poll<Option<bool>>) -> Option<Poll<bool>> {
    match polled {
        Poll::Ready(Some(verdict)) => if verdict {
            None
        } else {
            Some(Poll::Ready(false))
        },
        Poll::Ready(None) => Some(Poll::Ready(true)),
        Poll::Pending => Some(Poll::Pending),
    }
}

/// The decision of `all` on one poll, the item replaced by the predicate's
/// verdict on it.
pub fn all_next(polled: Poll<Option<bool>>) -> (r: Option<Poll<bool>>)
    ensures
        r == all_step(polled),
        polled is Pending ==> r == Some(Poll::<bool>::Pending),
        polled == Poll::Ready(Some(true)) ==> r is None,
        polled == Poll::Ready(Some(false)) ==> r == Some(Poll::Ready(false)),
        polled == Poll::<Option<bool>>::Ready(None) ==> r == Some(Poll::Ready(true)),
{
    match polled {
        Poll::Ready(Some(verdict)) => if verdict {
            None
        } else {
            Some(Poll::Ready(false))
        },
        Poll::Ready(None) => Some(Poll::Ready(true)),
        Poll::Pending => Some(Poll::Pending),
    }
}

/// On an iterator whose items are all ready, `all` answers whether the
/// predicate accepts every item.
pub proof fn lemma_all_answers_every(verdicts: Seq<bool>)
    ensures
        session(ready_then_end(verdicts), |p: Poll<Option<bool>>| all_step(p)) == Some(
            Poll::Ready(forall|k: int| 0 <= k < verdicts.len() ==> #[trigger] verdicts[k]),
        ),
    decreases verdicts.len(),
{
    let events = ready_then_end(verdicts);
    if verdicts.len() == 0 {
        assert(events[0] == Poll::<Option<bool>>::Ready(None));
    } else {
        lemma_ready_then_end_unfold(verdicts);
        lemma_all_answers_every(verdicts.drop_first());
        if verdicts[0] {
            if forall|k: int| 0 <= k < verdicts.drop_first().len() ==> #[trigger] verdicts.drop_first()[k] {
                assert forall|k: int| 0 <= k < verdicts.len() implies #[trigger] verdicts[k] by {
                    if k > 0 {
                        assert(verdicts[k] == verdicts.drop_first()[k - 1]);
                    }
                }
            }
            if forall|k: int| 0 <= k < verdicts.len() ==> #[trigger] verdicts[k] {
                assert forall|k: int| 0 <= k < verdicts.drop_first().len() implies #[trigger] verdicts.drop_first()[k] by {
                    assert(verdicts[k + 1] == verdicts.drop_first()[k]);
                }
            }
        }
    }
}

/// What `any` does with one poll, once the predicate has judged the item:
/// `None` to poll again, or what its poll returns.
pub open spec fn any_step(polled: Poll<Option<bool>>) -> Option<Poll<bool>> {
    match polled {
        Poll::Ready(Some(verdict)) => if verdict {
            Some(Poll::Ready(true))
        } else {
            None
        },
        Poll::Ready(None) => Some(Poll::Ready(false)),
        Poll::Pending => Some(Poll::Pending),
    }
}

/// The decision of `any` on one poll, the item replaced by the predicate's
/// verdict on it.
pub fn any_next(polled: Poll<Option<bool>>) -> (r: Option<Poll<bool>>)
    ensures
        r == any_step(polled),
        polled is Pending ==> r == Some(Poll::<bool>::Pending),
        polled == Poll::Ready(Some(false)) ==> r is None,
        polled == Poll::Ready(Some(true)) ==> r == Some(Poll::Ready(true)),
        polled == Poll::<Option<bool>>::Ready(None) ==> r == Some(Poll::Ready(false)),
{
    match polled {
        Poll::Ready(Some(verdict)) => if verdict {
            Some(Poll::Ready(true))
        } else {
            None
        },
        Poll::Ready(None) => Some(Poll::Ready(false)),
        Poll::Pending => Some(Poll::Pending),
    }
}

/// On an iterator whose items are all ready, `any` answers whether the
/// predicate accepts some item.
pub proof fn lemma_any_answers_some(verdicts: Seq<bool>)
    ensures
        session(ready_then_end(verdicts), |p: Poll<Option<bool>>| any_step(p)) == Some(
            Poll::Ready(exists|k: int| 0 <= k < verdicts.len() && #[trigger] verdicts[k]),
        ),
    decreases verdicts.len(),
{
    let events = ready_then_end(verdicts);
    if verdicts.len() == 0 {
        assert(events[0] == Poll::<Option<bool>>::Ready(None));
    } else {
        lemma_ready_then_end_unfold(verdicts);
        lemma_any_answers_some(verdicts.drop_first());
        if !verdicts[0] {
            if exists|k: int| 0 <= k < verdicts.len() && #[trigger] verdicts[k] {
                let k = choose|k: int| 0 <= k < verdicts.len() && #[trigger] verdicts[k];
                assert(verdicts.drop_first()[k - 1]);
            }
            if exists|k: int| 0 <= k < verdicts.drop_first().len() && #[trigger] verdicts.drop_first()[k] {
                let k = choose|k: int| 0 <= k < verdicts.drop_first().len() && #[trigger] verdicts.drop_first()[k];
                assert(verdicts[k + 1]);
            }
        }
    }
}

/// What `count` does with one poll after `count` items: the new count, and
/// `None` to poll again or what its poll returns.
pub open spec fn count_step<T>(count: int, polled: Poll<Option<T>>) -> (int, Option<Poll<int>>) {
    match polled {
        Poll::Ready(Some(_)) => (count + 1, None),
        Poll::Ready(None) => (count, Some(Poll::Ready(count))),
        Poll::Pending => (count, Some(Poll::Pending)),
    }
}

/// The count that a `count` poll answers, read as an integer.
pub open spec fn count_as_int(answer: Option<Poll<usize>>) -> Option<Poll<int>> {
    match answer {
        Some(Poll::Ready(n)) => Some(Poll::Ready(n as int)),
        Some(Poll::Pending) => Some(Poll::Pending),
        None => None,
    }
}

/// The decision of `count` on one poll: each item adds one.
pub fn count_next<T>(count: &mut usize, polled: Poll<Option<T>>) -> (r: Option<Poll<usize>>)
    requires
        polled is Ready && polled->Ready_0 is Some ==> *old(count) < usize::MAX,
    ensures
        (*final(count) as int, count_as_int(r)) == count_step(*old(count) as int, polled),
        polled is Pending ==> *final(count) == *old(count) && r == Some(Poll::<usize>::Pending),
        polled == Poll::<Option<T>>::Ready(None) ==> *final(count) == *old(count) && r == Some(
            Poll::Ready(*old(count)),
        ),
        polled is Ready && polled->Ready_0 is Some ==> *final(count) == *old(count) + 1 && r is None,
{
    match polled {
        Poll::Ready(Some(_)) => {
            *count = *count + 1;
            None
        },
        Poll::Ready(None) => Some(Poll::Ready(*count)),
        Poll::Pending => Some(Poll::Pending),
    }
}

/// The answer of a `count` poll that starts from `count` over a run of polls.
pub open spec fn count_session<T>(count: int, events: Seq<Poll<Option<T>>>) -> Option<Poll<int>>
    decreases events.len(),
{
    if events.len() == 0 {
        None
    } else {
        let (next, answer) = count_step(count, events[0]);
        match answer {
            Some(r) => Some(r),
            None => count_session(next, events.drop_first()),
        }
    }
}

/// A poll of `count` that starts from zero on an iterator whose items are
/// all ready answers how many items it has.
pub proof fn lemma_count_answers_length<T>(start: int, values: Seq<T>)
    ensures
        count_session(start, ready_then_end(values)) == Some(Poll::<int>::Ready(start + values.len())),
    decreases values.len(),
{
    if values.len() == 0 {
        assert(ready_then_end(values)[0] == Poll::<Option<T>>::Ready(None));
    } else {
        lemma_ready_then_end_unfold(values);
        lemma_count_answers_length(start + 1, values.drop_first());
    }
}

// ---------------------------------------------------------------- whole runs

/// A whole run of polls of an iterator: items and polls that are not ready,
/// in any order, and then the end, once, as the last poll.
pub open spec fn ends_once<T>(polls: Seq<Poll<Option<T>>>) -> bool {
    &&& polls.len() > 0
    &&& polls.last() == Poll::<Option<T>>::Ready(None)
    &&& forall|i: int| 0 <= i < polls.len() - 1 ==> polls[i] != Poll::<Option<T>>::Ready(None)
}

/// What is left of a whole run after its first poll.
pub proof fn lemma_ends_once_rest<T>(polls: Seq<Poll<Option<T>>>)
    requires
        ends_once(polls),
    ensures
        polls[0] == Poll::<Option<T>>::Ready(None) ==> polls.len() == 1 && items(polls) == Seq::<T>::empty(),
        polls[0] != Poll::<Option<T>>::Ready(None) ==> ends_once(polls.drop_first()),
{
    if polls[0] == Poll::<Option<T>>::Ready(None) {
        if polls.len() > 1 {
            assert(polls[0] != Poll::<Option<T>>::Ready(None));
        }
        assert(items(polls.drop_first()) == items(Seq::<Poll<Option<T>>>::empty()));
    } else {
        assert(polls.len() > 1);
        assert(polls.drop_first().last() == polls.last());
        assert forall|i: int| 0 <= i < polls.drop_first().len() - 1 implies polls.drop_first()[i]
            != Poll::<Option<T>>::Ready(None) by {
            assert(polls.drop_first()[i] == polls[i + 1]);
        }
    }
}

/// The answer of a consuming future polled until it is ready over a run of
/// polls of its iterator, and how many items it handed to the caller's
/// function on the way; `None` when the run ends first. A poll of the
/// iterator that is not ready makes the future's poll return, and its next
/// poll goes on with the rest of the run.
pub open spec fn resolution<T, R>(
    polls: Seq<Poll<Option<T>>>,
    step: spec_fn(Poll<Option<T>>) -> Option<Poll<R>>,
) -> Option<(R, nat)>
    decreases polls.len(),
{
    if polls.len() == 0 {
        None
    } else {
        let here: nat = if polls[0] is Ready && polls[0]->Ready_0 is Some {
            1
        } else {
            0
        };
        match step(polls[0]) {
            Some(Poll::Ready(r)) => Some((r, here)),
            _ => match resolution(polls.drop_first(), step) {
                Some((r, n)) => Some((r, n + here)),
                None => None,
            },
        }
    }
}

/// Over a whole run, with polls that are not ready anywhere in it, `all`
/// answers whether the predicate accepts every item. It calls the
/// predicate on the items in order and stops at the first it refuses; when
/// it accepts them all it calls it once on each.
pub proof fn lemma_all_over_a_run(polls: Seq<Poll<Option<bool>>>)
    requires
        ends_once(polls),
    ensures
        resolution(polls, |p: Poll<Option<bool>>| all_step(p)) matches Some((answer, calls)) && {
            let verdicts = items(polls);
            &&& answer == (forall|k: int| 0 <= k < verdicts.len() ==> #[trigger] verdicts[k])
            &&& answer ==> calls == verdicts.len()
            &&& !answer ==> {
                &&& 1 <= calls <= verdicts.len()
                &&& !verdicts[calls - 1]
                &&& forall|k: int| 0 <= k < calls - 1 ==> #[trigger] verdicts[k]
            }
        },
    decreases polls.len(),
{
    lemma_ends_once_rest(polls);
    let rest = polls.drop_first();
    match polls[0] {
        Poll::Ready(None) => {
            assert(resolution(polls, |p: Poll<Option<bool>>| all_step(p)) == Some((true, 0nat)));
        },
        Poll::Pending => {
            lemma_all_over_a_run(rest);
            assert(items(polls) == items(rest));
            assert(resolution(polls, |p: Poll<Option<bool>>| all_step(p)) == resolution(rest, |p: Poll<Option<bool>>| all_step(p)));
        },
        Poll::Ready(Some(v)) => {
            let verdicts = items(polls);
            assert(verdicts == seq![v] + items(rest));
            assert(verdicts[0] == v);
            if !v {
                assert(resolution(polls, |p: Poll<Option<bool>>| all_step(p)) == Some((false, 1nat)));
            } else {
                lemma_all_over_a_run(rest);
                let (a, c) = resolution(rest, |p: Poll<Option<bool>>| all_step(p))->Some_0;
                assert(resolution(polls, |p: Poll<Option<bool>>| all_step(p)) == Some((a, c + 1)));
                assert forall|k: int| 1 <= k < verdicts.len() implies #[trigger] verdicts[k] == items(rest)[k - 1] by {}
                if a {
                    assert forall|k: int| 0 <= k < verdicts.len() implies #[trigger] verdicts[k] by {
                        if k > 0 {
                            assert(verdicts[k] == items(rest)[k - 1]);
                        }
                    }
                } else {
                    assert(verdicts[c as int] == items(rest)[c - 1]);
                    assert forall|k: int| 0 <= k < c implies #[trigger] verdicts[k] by {
                        if k > 0 {
                            assert(verdicts[k] == items(rest)[k - 1]);
                        }
                    }
                    assert(!verdicts[c as int]);
                }
            }
        },
    }
}

/// Over a whole run, with polls that are not ready anywhere in it, `any`
/// answers whether the predicate accepts some item. It calls the predicate
/// on the items in order and stops at the first it accepts; when it refuses
/// them all it calls it once on each.
pub proof fn lemma_any_over_a_run(polls: Seq<Poll<Option<bool>>>)
    requires
        ends_once(polls),
    ensures
        resolution(polls, |p: Poll<Option<bool>>| any_step(p)) matches Some((answer, calls)) && {
            let verdicts = items(polls);
            &&& answer == (exists|k: int| 0 <= k < verdicts.len() && #[trigger] verdicts[k])
            &&& !answer ==> calls == verdicts.len()
            &&& answer ==> {
                &&& 1 <= calls <= verdicts.len()
                &&& verdicts[calls - 1]
                &&& forall|k: int| 0 <= k < calls - 1 ==> !#[trigger] verdicts[k]
            }
        },
    decreases polls.len(),
{
    lemma_ends_once_rest(polls);
    let rest = polls.drop_first();
    match polls[0] {
        Poll::Ready(None) => {
            assert(resolution(polls, |p: Poll<Option<bool>>| any_step(p)) == Some((false, 0nat)));
        },
        Poll::Pending => {
            lemma_any_over_a_run(rest);
            assert(items(polls) == items(rest));
            assert(resolution(polls, |p: Poll<Option<bool>>| any_step(p)) == resolution(rest, |p: Poll<Option<bool>>| any_step(p)));
        },
        Poll::Ready(Some(v)) => {
            let verdicts = items(polls);
            assert(verdicts == seq![v] + items(rest));
            assert(verdicts[0] == v);
            if v {
                assert(resolution(polls, |p: Poll<Option<bool>>| any_step(p)) == Some((true, 1nat)));
            } else {
                lemma_any_over_a_run(rest);
                let (a, c) = resolution(rest, |p: Poll<Option<bool>>| any_step(p))->Some_0;
                assert(resolution(polls, |p: Poll<Option<bool>>| any_step(p)) == Some((a, c + 1)));
                assert forall|k: int| 1 <= k < verdicts.len() implies #[trigger] verdicts[k] == items(rest)[k - 1] by {}
                if a {
                    assert(verdicts[c as int] == items(rest)[c - 1]);
                    assert forall|k: int| 0 <= k < c implies !#[trigger] verdicts[k] by {
                        if k > 0 {
                            assert(verdicts[k] == items(rest)[k - 1]);
                        }
                    }
                    assert(verdicts[c as int]);
                } else {
                    assert forall|k: int| 0 <= k < verdicts.len() implies !#[trigger] verdicts[k] by {
                        if k > 0 {
                            assert(verdicts[k] == items(rest)[k - 1]);
                        }
                    }
                }
            }
        },
    }
}

/// What the poll of `for_each` returns on one poll of its iterator, `None`
/// when it hands the item to the function and polls again.
pub open spec fn for_each_answer<T>(polled: Poll<Option<T>>) -> Option<Poll<()>> {
    match for_each_step(polled) {
        Consume::Item(_) => None,
        Consume::Return(r) => Some(r),
    }
}

/// Over a whole run, with polls that are not ready anywhere in it,
/// `for_each` (and a `ForEach`) resolves only at the end, after handing every
/// item to the function, once each, in order.
pub proof fn lemma_for_each_over_a_run<T>(polls: Seq<Poll<Option<T>>>)
    requires
        ends_once(polls),
    ensures
        resolution(polls, |p: Poll<Option<T>>| for_each_answer(p)) == Some(((), items(polls).len())),
        forall|k: int|
            0 <= k < polls.len() && #[trigger] polls[k] is Ready && polls[k]->Ready_0 is Some
                ==> for_each_step(polls[k]) == Consume::<T, ()>::Item(polls[k]->Ready_0->Some_0),
    decreases polls.len(),
{
    lemma_ends_once_rest(polls);
    let rest = polls.drop_first();
    match polls[0] {
        Poll::Ready(None) => {},
        Poll::Pending => {
            lemma_for_each_over_a_run(rest);
        },
        Poll::Ready(Some(x)) => {
            lemma_for_each_over_a_run(rest);
            assert(items(polls) == seq![x] + items(rest));
        },
    }
}

// ---------------------------------------------------------------- what each poll returns

/// `n` polls that are not ready.
pub open spec fn pendings<R>(n: nat) -> Seq<Poll<R>> {
    Seq::new(n, |_i: int| Poll::Pending)
}

/// How many polls of a run are not ready.
pub open spec fn waits<T>(polls: Seq<Poll<Option<T>>>) -> nat
    decreases polls.len(),
{
    if polls.len() == 0 {
        0
    } else {
        let here: nat = if polls[0] is Pending {
            1
        } else {
            0
        };
        here + waits(polls.drop_first())
    }
}

/// What the successive polls of a consuming future return over a run of
/// polls of its iterator, up to the first that is ready. A step that answers
/// `Pending` makes that poll of the future return, and its next poll goes on
/// with the rest of the run; a step that asks to poll again goes on at once,
/// within the same poll of the future.
pub open spec fn answers<T, R>(
    polls: Seq<Poll<Option<T>>>,
    step: spec_fn(Poll<Option<T>>) -> Option<Poll<R>>,
) -> Seq<Poll<R>>
    decreases polls.len(),
{
    if polls.len() == 0 {
        Seq::empty()
    } else {
        match step(polls[0]) {
            Some(Poll::Ready(r)) => seq![Poll::Ready(r)],
            Some(Poll::Pending) => seq![Poll::Pending] + answers(polls.drop_first(), step),
            None => answers(polls.drop_first(), step),
        }
    }
}

/// Whether some verdict is true.
pub open spec fn some_true(verdicts: Seq<bool>) -> bool {
    exists|k: int| 0 <= k < verdicts.len() && #[trigger] verdicts[k]
}

/// Whether every verdict is true.
pub open spec fn all_true(verdicts: Seq<bool>) -> bool {
    forall|k: int| 0 <= k < verdicts.len() ==> #[trigger] verdicts[k]
}

/// `d` is a poll of the run, and each poll before it is either not ready or
/// `pass`.
pub open spec fn passes_until<T>(polls: Seq<Poll<Option<T>>>, d: int, pass: Poll<Option<T>>) -> bool {
    &&& 0 <= d < polls.len()
    &&& forall|i: int| 0 <= i < d ==> (#[trigger] polls[i] is Pending || polls[i] == pass)
}

proof fn lemma_waits_take<T>(polls: Seq<Poll<Option<T>>>, d: int)
    requires
        0 <= d < polls.len(),
    ensures
        waits(polls.take(d + 1)) == (if polls[0] is Pending {
            1nat
        } else {
            0nat
        }) + waits(polls.drop_first().take(d)),
        waits(polls.take(0)) == 0,
{
    assert(polls.take(d + 1).drop_first() =~= polls.drop_first().take(d));
}

proof fn lemma_pendings_push_front<R>(n: nat, tail: Seq<Poll<R>>)
    ensures
        seq![Poll::<R>::Pending] + (pendings::<R>(n) + tail) == pendings::<R>(n + 1) + tail,
        pendings::<R>(0) + tail == tail,
{
    assert(seq![Poll::<R>::Pending] + (pendings::<R>(n) + tail) =~= pendings::<R>(n + 1) + tail);
    assert(pendings::<R>(0) + tail =~= tail);
}

/// Over a whole run, each poll of `any` returns `Pending` when its iterator
/// is not ready, rather than polling again: `any` returns `Pending` once for
/// each poll that is not ready before the poll that decides it, which is the
/// first item the predicate accepts, or else the end; then it answers
/// whether the predicate accepts some item.
pub proof fn lemma_any_answers_each_poll(polls: Seq<Poll<Option<bool>>>)
    requires
        ends_once(polls),
    ensures
        exists|d: int|
            #[trigger] passes_until(polls, d, Poll::Ready(Some(false))) && polls[d] == (if some_true(
                items(polls),
            ) {
                Poll::Ready(Some(true))
            } else {
                Poll::Ready(None)
            }) && answers(polls, |p: Poll<Option<bool>>| any_step(p)) == pendings::<bool>(
                waits(polls.take(d)),
            ) + seq![Poll::Ready(some_true(items(polls)))],
    decreases polls.len(),
{
    lemma_ends_once_rest(polls);
    lemma_waits_take(polls, 0);
    let rest = polls.drop_first();
    let verdicts = items(polls);
    let answer = some_true(verdicts);
    let at = if answer {
        Poll::Ready(Some(true))
    } else {
        Poll::<Option<bool>>::Ready(None)
    };
    let results = answers(polls, |p: Poll<Option<bool>>| any_step(p));
    if polls[0] == Poll::<Option<bool>>::Ready(None) || polls[0] == Poll::Ready(Some(true)) {
        if polls[0] == Poll::Ready(Some(true)) {
            assert(verdicts == seq![true] + items(rest));
            assert(verdicts[0]);
        }
        assert(answer == (polls[0] == Poll::Ready(Some(true))));
        assert(results == seq![Poll::Ready(answer)]);
        lemma_pendings_push_front::<bool>(0, seq![Poll::Ready(answer)]);
        assert(passes_until(polls, 0, Poll::Ready(Some(false))) && polls[0] == at && results == pendings::<bool>(
            waits(polls.take(0)),
        ) + seq![Poll::Ready(answer)]);
    } else {
        lemma_any_answers_each_poll(rest);
        let rv = items(rest);
        if polls[0] is Pending {
            assert(verdicts == rv);
        } else {
            assert(polls[0] == Poll::Ready(Some(false)));
            assert(verdicts == seq![false] + rv);
            if exists|k: int| 0 <= k < rv.len() && #[trigger] rv[k] {
                let k = choose|k: int| 0 <= k < rv.len() && #[trigger] rv[k];
                assert(verdicts[k + 1]);
            }
            if answer {
                let k = choose|k: int| 0 <= k < verdicts.len() && #[trigger] verdicts[k];
                assert(rv[k - 1]);
            }
        }
        assert(answer == some_true(rv));
        let d = choose|d: int|
            #[trigger] passes_until(rest, d, Poll::Ready(Some(false))) && rest[d] == at && answers(
                rest,
                |p: Poll<Option<bool>>| any_step(p),
            ) == pendings::<bool>(waits(rest.take(d))) + seq![Poll::Ready(answer)];
        lemma_waits_take(polls, d);
        lemma_pendings_push_front::<bool>(waits(rest.take(d)), seq![Poll::Ready(answer)]);
        assert forall|i: int| 0 <= i < d + 1 implies (#[trigger] polls[i] is Pending || polls[i] == Poll::Ready(Some(false))) by {
            if i > 0 {
                assert(polls[i] == rest[i - 1]);
            }
        }
        assert(polls[d + 1] == rest[d]);
        assert(passes_until(polls, d + 1, Poll::Ready(Some(false))) && polls[d + 1] == at);
        assert(results == pendings::<bool>(waits(polls.take(d + 1))) + seq![Poll::Ready(answer)]);
    }
}

/// Over a whole run, each poll of `all` returns `Pending` when its iterator
/// is not ready, rather than polling again: `all` returns `Pending` once for
/// each poll that is not ready before the poll that decides it, which is the
/// first item the predicate refuses, or else the end; then it answers
/// whether the predicate accepts every item.
pub proof fn lemma_all_answers_each_poll(polls: Seq<Poll<Option<bool>>>)
    requires
        ends_once(polls),
    ensures
        exists|d: int|
            #[trigger] passes_until(polls, d, Poll::Ready(Some(true))) && polls[d] == (if all_true(
                items(polls),
            ) {
                Poll::Ready(None)
            } else {
                Poll::Ready(Some(false))
            }) && answers(polls, |p: Poll<Option<bool>>| all_step(p)) == pendings::<bool>(
                waits(polls.take(d)),
            ) + seq![Poll::Ready(all_true(items(polls)))],
    decreases polls.len(),
{
    lemma_ends_once_rest(polls);
    lemma_waits_take(polls, 0);
    let rest = polls.drop_first();
    let verdicts = items(polls);
    let answer = all_true(verdicts);
    let at = if answer {
        Poll::<Option<bool>>::Ready(None)
    } else {
        Poll::Ready(Some(false))
    };
    let results = answers(polls, |p: Poll<Option<bool>>| all_step(p));
    if polls[0] == Poll::<Option<bool>>::Ready(None) || polls[0] == Poll::Ready(Some(false)) {
        if polls[0] == Poll::Ready(Some(false)) {
            assert(verdicts == seq![false] + items(rest));
            assert(!verdicts[0]);
        }
        assert(answer == (polls[0] == Poll::<Option<bool>>::Ready(None)));
        assert(results == seq![Poll::Ready(answer)]);
        lemma_pendings_push_front::<bool>(0, seq![Poll::Ready(answer)]);
        assert(passes_until(polls, 0, Poll::Ready(Some(true))) && polls[0] == at && results == pendings::<bool>(
            waits(polls.take(0)),
        ) + seq![Poll::Ready(answer)]);
    } else {
        lemma_all_answers_each_poll(rest);
        let rv = items(rest);
        if polls[0] is Pending {
            assert(verdicts == rv);
        } else {
            assert(polls[0] == Poll::Ready(Some(true)));
            assert(verdicts == seq![true] + rv);
            if all_true(rv) {
                assert forall|k: int| 0 <= k < verdicts.len() implies #[trigger] verdicts[k] by {
                    if k > 0 {
                        assert(verdicts[k] == rv[k - 1]);
                    }
                }
            }
            if answer {
                assert forall|k: int| 0 <= k < rv.len() implies #[trigger] rv[k] by {
                    assert(verdicts[k + 1] == rv[k]);
                }
            }
        }
        assert(answer == all_true(rv));
        let d = choose|d: int|
            #[trigger] passes_until(rest, d, Poll::Ready(Some(true))) && rest[d] == at && answers(
                rest,
                |p: Poll<Option<bool>>| all_step(p),
            ) == pendings::<bool>(waits(rest.take(d))) + seq![Poll::Ready(answer)];
        lemma_waits_take(polls, d);
        lemma_pendings_push_front::<bool>(waits(rest.take(d)), seq![Poll::Ready(answer)]);
        assert forall|i: int| 0 <= i < d + 1 implies (#[trigger] polls[i] is Pending || polls[i] == Poll::Ready(Some(true))) by {
            if i > 0 {
                assert(polls[i] == rest[i - 1]);
            }
        }
        assert(polls[d + 1] == rest[d]);
        assert(passes_until(polls, d + 1, Poll::Ready(Some(true))) && polls[d + 1] == at);
        assert(results == pendings::<bool>(waits(polls.take(d + 1))) + seq![Poll::Ready(answer)]);
    }
}

/// Over a whole run, each poll of `for_each` (and of a `ForEach`) returns
/// `Pending` when its iterator is not ready, and hands each item to the
/// function within the same poll: it returns `Pending` once for each poll
/// of the run that is not ready, and then resolves at the end.
pub proof fn lemma_for_each_answers_each_poll<T>(polls: Seq<Poll<Option<T>>>)
    requires
        ends_once(polls),
    ensures
        answers(polls, |p: Poll<Option<T>>| for_each_answer(p)) == pendings::<()>(waits(polls)) + seq![
            Poll::Ready(()),
        ],
    decreases polls.len(),
{
    lemma_ends_once_rest(polls);
    let rest = polls.drop_first();
    if polls[0] == Poll::<Option<T>>::Ready(None) {
        assert(waits(rest) == 0);
        lemma_pendings_push_front::<()>(0, seq![Poll::Ready(())]);
    } else {
        lemma_for_each_answers_each_poll(rest);
        lemma_pendings_push_front::<()>(waits(rest), seq![Poll::Ready(())]);
    }
}

/// What the successive polls of `count` return over a run of polls of its
/// iterator, up to the first that is ready, `count` being what the current
/// poll of `count` has counted so far. Each poll of `count` counts from zero:
/// a poll of the iterator that is not ready makes it return `Pending`, and
/// its next poll starts over.
pub open spec fn count_answers<T>(count: int, polls: Seq<Poll<Option<T>>>) -> Seq<Poll<int>>
    decreases polls.len(),
{
    if polls.len() == 0 {
        Seq::empty()
    } else {
        let (next, answer) = count_step(count, polls[0]);
        match answer {
            Some(Poll::Ready(n)) => seq![Poll::Ready(n)],
            Some(Poll::Pending) => seq![Poll::Pending] + count_answers(0, polls.drop_first()),
            None => count_answers(next, polls.drop_first()),
        }
    }
}

/// Whatever it has counted, a poll of `count` that finds its iterator not
/// ready returns `Pending` and leaves the count as it was; its next poll
/// counts afresh.
pub proof fn lemma_count_returns_pending_when_not_ready<T>(count: int, rest: Seq<Poll<Option<T>>>)
    ensures
        count_step(count, Poll::<Option<T>>::Pending) == (count, Some(Poll::<int>::Pending)),
        count_answers(count, seq![Poll::Pending] + rest) == seq![Poll::<int>::Pending] + count_answers(0, rest),
{
    assert((seq![Poll::Pending] + rest).drop_first() =~= rest);
}

/// A poll of `count` over items that are all ready, and then the end,
/// resolves to what it had counted plus the number of items.
pub proof fn lemma_count_answers_ready_run<T>(count: int, values: Seq<T>)
    ensures
        count_answers(count, ready_then_end(values)) == seq![Poll::Ready(count + values.len())],
    decreases values.len(),
{
    if values.len() == 0 {
        assert(ready_then_end(values)[0] == Poll::<Option<T>>::Ready(None));
    } else {
        lemma_ready_then_end_unfold(values);
        lemma_count_answers_ready_run(count + 1, values.drop_first());
    }
}

proof fn lemma_count_answers_after<T>(count: int, front: Seq<Poll<Option<T>>>, values: Seq<T>)
    requires
        forall|i: int| 0 <= i < front.len() ==> #[trigger] front[i] != Poll::<Option<T>>::Ready(None),
        front.len() > 0 ==> front.last() is Pending,
    ensures
        count_answers(count, front + ready_then_end(values)) == pendings::<int>(waits(front)) + seq![
            Poll::Ready(
                if front.len() == 0 {
                    count + values.len()
                } else {
                    values.len() as int
                },
            ),
        ],
    decreases front.len(),
{
    let run = front + ready_then_end(values);
    if front.len() == 0 {
        assert(run =~= ready_then_end(values));
        lemma_count_answers_ready_run(count, values);
        lemma_pendings_push_front::<int>(0, seq![Poll::Ready(count + values.len())]);
    } else {
        let tail = front.drop_first();
        assert(run.drop_first() =~= tail + ready_then_end(values));
        assert(run[0] == front[0]);
        assert forall|i: int| 0 <= i < tail.len() implies #[trigger] tail[i] != Poll::<Option<T>>::Ready(None) by {
            assert(tail[i] == front[i + 1]);
        }
        if tail.len() > 0 {
            assert(tail.last() == front.last());
        }
        assert(front[0] != Poll::<Option<T>>::Ready(None));
        if front[0] is Pending {
            lemma_count_answers_after(0, tail, values);
            lemma_pendings_push_front::<int>(waits(tail), seq![Poll::Ready(values.len() as int)]);
        } else {
            assert(tail.len() > 0);
            lemma_count_answers_after(count + 1, tail, values);
        }
    }
}

/// Over a whole run, `count` returns `Pending` once for each poll of its
/// iterator that is not ready, and resolves only at the end, to the number
/// of items that the poll of `count` which sees the end has counted: those
/// after the last poll that was not ready. Every whole run has this shape:
/// `front` is the run up to its last poll that is not ready, if it has one.
pub proof fn lemma_count_answers_each_poll<T>(front: Seq<Poll<Option<T>>>, values: Seq<T>)
    requires
        forall|i: int| 0 <= i < front.len() ==> #[trigger] front[i] != Poll::<Option<T>>::Ready(None),
        front.len() > 0 ==> front.last() is Pending,
    ensures
        count_answers(0, front + ready_then_end(values)) == pendings::<int>(waits(front)) + seq![
            Poll::Ready(values.len() as int),
        ],
{
    lemma_count_answers_after(0, front, values);
}

/// What a `Fold` resolves to when it is polled until ready over a run of
/// polls of its iterator, `g` being what the caller's function does with
/// each accumulator and item that the state machine hands out; `None` when
/// the run ends first.
pub open spec fn fold_run<T, Acc>(acc: Acc, polls: Seq<Poll<Option<T>>>, g: spec_fn(Acc, T) -> Acc) -> Option<Acc>
    decreases polls.len(),
{
    if polls.len() == 0 {
        None
    } else {
        match fold_step(Some(acc), polls[0]).1 {
            FoldStep::Pending => fold_run(acc, polls.drop_first(), g),
            FoldStep::Fold(a, item) => fold_run(g(a, item), polls.drop_first(), g),
            FoldStep::Done(a) => Some(a),
        }
    }
}

proof fn lemma_fold_run_alt<T, Acc>(acc: Acc, polls: Seq<Poll<Option<T>>>, g: spec_fn(Acc, T) -> Acc)
    requires
        ends_once(polls),
    ensures
        fold_run(acc, polls, g) == Some(items(polls).fold_left_alt(acc, g)),
    decreases polls.len(),
{
    lemma_ends_once_rest(polls);
    let rest = polls.drop_first();
    match polls[0] {
        Poll::Ready(None) => {},
        Poll::Pending => {
            lemma_fold_run_alt(acc, rest, g);
        },
        Poll::Ready(Some(x)) => {
            lemma_fold_run_alt(g(acc, x), rest, g);
            let all = items(polls);
            assert(all == seq![x] + items(rest));
            assert(all.subrange(1, all.len() as int) =~= items(rest));
        },
    }
}

/// Over a whole run, with polls that are not ready anywhere in it, a `Fold`
/// resolves to the left fold of the items, the function applied once to
/// each item, in order.
pub proof fn lemma_fold_over_a_run<T, Acc>(init: Acc, polls: Seq<Poll<Option<T>>>, g: spec_fn(Acc, T) -> Acc)
    requires
        ends_once(polls),
    ensures
        fold_run(init, polls, g) == Some(items(polls).fold_left(init, g)),
{
    lemma_fold_run_alt(init, polls, g);
    items(polls).lemma_fold_left_alt(init, g);
}

/// The position of an `Enumerate` that starts at `index`, after a run of
/// polls of the iterator it enumerates.
pub open spec fn enumerate_index_after<T>(index: int, polls: Seq<Poll<Option<T>>>) -> int
    decreases polls.len(),
{
    if polls.len() == 0 {
        index
    } else {
        enumerate_index_after(enumerate_step(index, polls[0]).0, polls.drop_first())
    }
}

/// After any run of polls, the position of an `Enumerate` has advanced by
/// the number of items it yielded; a poll that is not ready and the end
/// leave it where it is.
pub proof fn lemma_enumerate_counts_its_items<T>(start: int, polls: Seq<Poll<Option<T>>>)
    ensures
        enumerate_index_after(start, polls) == start + items(polls).len(),
        items(enumerate_run(start, polls)).len() == items(polls).len(),
    decreases polls.len(),
{
    lemma_enumerate_pairs_items_with_positions(start, polls);
    if polls.len() > 0 {
        lemma_enumerate_counts_its_items(enumerate_step(start, polls[0]).0, polls.drop_first());
    }
}

/// The predicate's verdict on one poll: false when there is no item.
pub open spec fn verdict<T>(p: spec_fn(T) -> bool, polled: Poll<Option<T>>) -> bool {
    match polled {
        Poll::Ready(Some(item)) => p(item),
        _ => false,
    }
}

/// A run of polls, each with the verdict of `p` on its item.
pub open spec fn judged<T>(polls: Seq<Poll<Option<T>>>, p: spec_fn(T) -> bool) -> Seq<(Poll<Option<T>>, bool)> {
    polls.map_values(|polled: Poll<Option<T>>| (polled, verdict(p, polled)))
}

proof fn lemma_judged_unfold<T>(polls: Seq<Poll<Option<T>>>, p: spec_fn(T) -> bool)
    requires
        polls.len() > 0,
    ensures
        judged(polls, p)[0] == (polls[0], verdict(p, polls[0])),
        judged(polls, p).drop_first() == judged(polls.drop_first(), p),
        judged(polls, p).len() == polls.len(),
{
    assert(judged(polls, p).drop_first() =~= judged(polls.drop_first(), p));
}

/// A filter by `q` on a filter by `p` returns what one filter by `p && q`
/// returns, over any run; `q` only judges the items that `p` accepted, since
/// the outer filter only sees those.
pub proof fn lemma_filter_of_filter<T>(polls: Seq<Poll<Option<T>>>, p: spec_fn(T) -> bool, q: spec_fn(T) -> bool)
    ensures
        filter_run(judged(filter_run(judged(polls, p)), q)) == filter_run(judged(polls, |x: T| p(x) && q(x))),
    decreases polls.len(),
{
    let pq = |x: T| p(x) && q(x);
    if polls.len() == 0 {
        assert(judged(polls, p) =~= Seq::empty());
        assert(judged(polls, pq) =~= Seq::empty());
        assert(judged(Seq::<Poll<Option<T>>>::empty(), q) =~= Seq::empty());
    } else {
        lemma_filter_of_filter(polls.drop_first(), p, q);
        lemma_judged_unfold(polls, p);
        lemma_judged_unfold(polls, pq);
        let inner_rest = filter_run(judged(polls.drop_first(), p));
        let e = polls[0];
        match filter_step(e, verdict(p, e)) {
            Some(out) => {
                let inner = seq![out] + inner_rest;
                assert(filter_run(judged(polls, p)) == inner);
                lemma_judged_unfold(inner, q);
                assert(inner.drop_first() == inner_rest);
                assert(inner[0] == out);
                assert(filter_step(out, verdict(q, out)) == filter_step(e, verdict(pq, e)));
            },
            None => {
                assert(filter_run(judged(polls, p)) == inner_rest);
                assert(filter_step(e, verdict(pq, e)) is None);
            },
        }
    }
}

/// One poll of a `Filter` returns the first item that its predicate accepts
/// among the polls that this call makes, or the first poll that is not
/// ready, or the end, whichever comes first: every poll before it brought an
/// item that the predicate refused.
pub proof fn lemma_filter_poll_returns_first_accepted<T>(events: Seq<(Poll<Option<T>>, bool)>)
    ensures
        session(events, |e: (Poll<Option<T>>, bool)| filter_step(e.0, e.1)) matches Some(out) ==> exists|k: int|
            0 <= k < events.len() && filter_step((#[trigger] events[k]).0, events[k].1) == Some(out) && forall|j: int|
                0 <= j < k ==> (#[trigger] events[j]).0 is Ready && events[j].0->Ready_0 is Some && !events[j].1,
        session(events, |e: (Poll<Option<T>>, bool)| filter_step(e.0, e.1)) is None ==> forall|j: int|
            0 <= j < events.len() ==> (#[trigger] events[j]).0 is Ready && events[j].0->Ready_0 is Some && !events[j].1,
    decreases events.len(),
{
    let step = |e: (Poll<Option<T>>, bool)| filter_step(e.0, e.1);
    if events.len() > 0 {
        let rest = events.drop_first();
        lemma_filter_poll_returns_first_accepted(rest);
        if step(events[0]) is None {
            if let Some(out) = session(rest, step) {
                let k = choose|k: int|
                    0 <= k < rest.len() && filter_step((#[trigger] rest[k]).0, rest[k].1) == Some(out) && forall|j: int|
                        0 <= j < k ==> (#[trigger] rest[j]).0 is Ready && rest[j].0->Ready_0 is Some && !rest[j].1;
                assert(events[k + 1] == rest[k]);
                assert forall|j: int| 0 <= j < k + 1 implies (#[trigger] events[j]).0 is Ready
                    && events[j].0->Ready_0 is Some && !events[j].1 by {
                    if j > 0 {
                        assert(events[j] == rest[j - 1]);
                    }
                }
            } else {
                assert forall|j: int| 0 <= j < events.len() implies (#[trigger] events[j]).0 is Ready
                    && events[j].0->Ready_0 is Some && !events[j].1 by {
                    if j > 0 {
                        assert(events[j] == rest[j - 1]);
                    }
                }
            }
        } else {
            assert(filter_step(events[0].0, events[0].1) == session(events, step));
        }
    }
}

} // verus!
