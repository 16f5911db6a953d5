use vstd::prelude::*;

verus! {

/// A lending iterator that yields the items of another one that its
/// predicate accepts.
#[derive(Debug)]
pub struct Filter<I, P> {
    iter: I,
    predicate: P,
}

impl<I, P> Filter<I, P> {
    /// The iterator that is filtered.
    pub closed spec fn iter(&self) -> I {
        self.iter
    }

    /// The predicate that decides which items pass.
    pub closed spec fn predicate(&self) -> P {
        self.predicate
    }

    /// Filters `iter` by `predicate`.
    pub fn new(iter: I, predicate: P) -> (r: Self)
        ensures
            r.iter() == iter,
            r.predicate() == predicate,
    {
        Filter { iter, predicate }
    }

    /// The iterator and the predicate, to advance the one and ask the other.
    pub fn parts_mut(&mut self) -> (r: (&mut I, &mut P))
        ensures
            *r.0 == old(self).iter(),
            *r.1 == old(self).predicate(),
            final(self).iter() == *final(r.0),
            final(self).predicate() == *final(r.1),
    {
        (&mut self.iter, &mut self.predicate)
    }
}

/// What `Filter::next` does with one answer of the iterator it filters,
/// given the predicate's verdict on the item (ignored at the end): `None` to
/// advance again, or what it returns.
pub open spec fn filter_step<T>(element: Option<T>, keep: bool) -> Option<Option<T>> {
    match element {
        Some(item) => if keep {
            Some(Some(item))
        } else {
            None
        },
        None => Some(None),
    }
}

/// The decision of `Filter::next` on one answer of the iterator it filters.
pub fn filter_decide<T>(element: Option<T>, keep: bool) -> (r: Option<Option<T>>)
    ensures
        r == filter_step(element, keep),
{
    match element {
        Some(item) => if keep {
            Some(Some(item))
        } else {
            None
        },
        None => Some(None),
    }
}

/// What `Filter::next` returns when the iterator it filters yields `items`,
/// each with the predicate's verdict, and then ends: the first decision that
/// does not advance again.
pub open spec fn filter_next_run<T>(items: Seq<(T, bool)>) -> Option<T>
    decreases items.len(),
{
    if items.len() == 0 {
        None
    } else {
        match filter_step(Some(items[0].0), items[0].1) {
            Some(r) => r,
            None => filter_next_run(items.drop_first()),
        }
    }
}

/// `Filter::next` returns the first item that the predicate accepts, and
/// `None` when there is none before the end.
pub proof fn lemma_next_returns_first_accepted<T>(items: Seq<(T, bool)>)
    ensures
        filter_next_run(items) matches Some(item) ==> exists|k: int|
            0 <= k < items.len() && #[trigger] items[k] == (item, true) && forall|j: int|
                0 <= j < k ==> !(#[trigger] items[j]).1,
        filter_next_run(items) is None ==> forall|k: int| 0 <= k < items.len() ==> !(#[trigger] items[k]).1,
    decreases items.len(),
{
    if items.len() > 0 {
        lemma_next_returns_first_accepted(items.drop_first());
        if items[0].1 {
            assert(items[0] == (items[0].0, true));
        } else {
            if let Some(item) = filter_next_run(items.drop_first()) {
                let k = choose|k: int|
                    0 <= k < items.drop_first().len() && #[trigger] items.drop_first()[k] == (item, true)
                        && forall|j: int| 0 <= j < k ==> !(#[trigger] items.drop_first()[j]).1;
                assert(items[k + 1] == (item, true));
                assert forall|j: int| 0 <= j < k + 1 implies !(#[trigger] items[j]).1 by {
                    if j > 0 {
                        assert(items[j] == items.drop_first()[j - 1]);
                    }
                }
            } else {
                assert forall|k: int| 0 <= k < items.len() implies !(#[trigger] items[k]).1 by {
                    if k > 0 {
                        assert(items[k] == items.drop_first()[k - 1]);
                    }
                }
            }
        }
    }
}

/// One call of `Filter::next` over the answers of the iterator it filters,
/// each paired with the predicate's verdict. The pair holds the result of
/// the call and the count of items that the call consumed; the end counts
/// for none.
pub open spec fn filter_next_call<T>(items: Seq<(T, bool)>) -> (Option<T>, nat)
    decreases items.len(),
{
    if items.len() == 0 {
        (None, 0)
    } else {
        match filter_step(Some(items[0].0), items[0].1) {
            Some(r) => (r, 1),
            None => {
                let (r, n) = filter_next_call(items.drop_first());
                (r, n + 1)
            },
        }
    }
}

/// Repeated calls of `Filter::next` over the answers of the iterator it
/// filters, each call going on where the last one stopped, until one
/// returns `None`: the items they return.
pub open spec fn filter_nexts<T>(items: Seq<(T, bool)>) -> Seq<T>
    decreases items.len(),
{
    let (r, n) = filter_next_call(items);
    match r {
        Some(x) => if 0 < n <= items.len() {
            seq![x] + filter_nexts(items.skip(n as int))
        } else {
            Seq::empty()
        },
        None => Seq::empty(),
    }
}

/// The items that the predicate accepts, in order.
pub open spec fn accepted<T>(items: Seq<(T, bool)>) -> Seq<T>
    decreases items.len(),
{
    if items.len() == 0 {
        Seq::empty()
    } else if items[0].1 {
        seq![items[0].0] + accepted(items.drop_first())
    } else {
        accepted(items.drop_first())
    }
}

/// One call of `next` agrees with `filter_next_run`; a call that returns an
/// item uses up the items up to and including it, and one that returns
/// `None` uses them all up, the predicate refusing every one.
pub proof fn lemma_filter_next_call<T>(items: Seq<(T, bool)>)
    ensures
        filter_next_call(items).0 == filter_next_run(items),
        filter_next_call(items).0 is Some ==> 0 < filter_next_call(items).1 <= items.len(),
        filter_next_call(items).0 is None ==> filter_next_call(items).1 == items.len()
            && accepted(items) == Seq::<T>::empty(),
    decreases items.len(),
{
    if items.len() > 0 {
        lemma_filter_next_call(items.drop_first());
    }
}

/// Repeated calls of `Filter::next` return exactly the items that the
/// predicate accepts, in order, and then `None`. So a predicate that accepts
/// everything gives back the iterator's items unchanged, and one that refuses
/// everything makes the first call use up every item and return `None`.
pub proof fn lemma_filter_nexts_return_the_accepted_items<T>(items: Seq<(T, bool)>)
    ensures
        filter_nexts(items) == accepted(items),
        (forall|k: int| 0 <= k < items.len() ==> (#[trigger] items[k]).1) ==> filter_nexts(items)
            == items.map_values(|e: (T, bool)| e.0),
        (forall|k: int| 0 <= k < items.len() ==> !(#[trigger] items[k]).1) ==> filter_next_call(items)
            == (None::<T>, items.len()),
    decreases items.len(),
{
    lemma_filter_next_call(items);
    if items.len() > 0 {
        let rest = items.drop_first();
        lemma_filter_nexts_return_the_accepted_items(rest);
        lemma_filter_next_call(rest);
        assert forall|k: int| 0 <= k < rest.len() implies #[trigger] rest[k] == items[k + 1] by {}
        if items[0].1 {
            assert(items.skip(1) == rest);
        } else {
            let (r, n) = filter_next_call(rest);
            if let Some(x) = r {
                assert(items.skip((n + 1) as int) =~= rest.skip(n as int));
            }
        }
        if forall|k: int| 0 <= k < items.len() ==> (#[trigger] items[k]).1 {
            assert(items.map_values(|e: (T, bool)| e.0) =~= seq![items[0].0] + rest.map_values(
                |e: (T, bool)| e.0,
            ));
        }
    } else {
        assert(items.map_values(|e: (T, bool)| e.0) =~= Seq::<T>::empty());
    }
}

} // verus!
