use vstd::prelude::*;

use crate::poll::Poll;
use crate::unsafe_pinned::UnsafePinned;

verus! {

/// The lending future of a `Then`, with the callback that is still to run on
/// its output.
#[derive(Debug)]
struct ThenInner<T, F> {
    lending_fut: T,
    f: Option<F>,
}

/// A future that waits for a lending future, hands its output to a callback,
/// and then runs the future that the callback returned.
#[derive(Debug)]
pub struct Then<T, F, Fut, O> {
    inner: UnsafePinned<ThenInner<T, F>>,
    fut: Option<Fut>,
    _marker: core::marker::PhantomData<O>,
}

impl<T, F, Fut, O> Then<T, F, Fut, O> {
    /// The lending future that runs first.
    pub closed spec fn lending_future(&self) -> T {
        self.inner@.lending_fut
    }

    /// The callback, until it has been taken to run on the output.
    pub closed spec fn callback(&self) -> Option<F> {
        self.inner@.f
    }

    /// The future that the callback returned, once it has run.
    pub closed spec fn future(&self) -> Option<Fut> {
        self.fut
    }

    /// A `Then` holds its callback exactly until it holds the future that
    /// the callback returned. Every call but `take_callback` keeps this; after
    /// `take_callback`, `set_future` restores it. So the callback is there
    /// whenever the future is not, and once the future is there it stays,
    /// and the callback never comes back.
    pub open spec fn wf(&self) -> bool {
        (self.future() is None) == (self.callback() is Some)
    }

    /// A `Then` that has not been polled yet.
    pub fn new(lending_fut: T, f: F) -> (r: Self)
        ensures
            r.wf(),
            r.lending_future() == lending_fut,
            r.callback() == Some(f),
            r.future() is None,
    {
        Then {
            inner: UnsafePinned::new(ThenInner { lending_fut, f: Some(f) }),
            fut: None,
            _marker: core::marker::PhantomData,
        }
    }

    /// Whether the callback has already produced the future to run.
    pub fn has_future(&self) -> (r: bool)
        ensures
            r == (self.future() is Some),
    {
        self.fut.is_some()
    }

    /// Whether the callback is still there to be taken.
    pub fn has_callback(&self) -> (r: bool)
        ensures
            r == (self.callback() is Some),
    {
        self.inner.get().f.is_some()
    }

    /// The lending future, to be polled until it yields its output.
    pub fn lending_future_mut(&mut self) -> (r: &mut T)
        ensures
            *r == old(self).lending_future(),
            final(self).lending_future() == *final(r),
            final(self).callback() == old(self).callback(),
            final(self).future() == old(self).future(),
    {
        &mut self.inner.get_mut_unchecked().lending_fut
    }

    /// Takes the callback out, to run it on the output of the lending future.
    /// It can be taken once: after this the `Then` holds none. A well-formed
    /// `Then` without its future always holds it.
    pub fn take_callback(&mut self) -> (r: F)
        requires
            old(self).wf(),
            old(self).future() is None,
        ensures
            Some(r) == old(self).callback(),
            final(self).callback() is None,
            final(self).lending_future() == old(self).lending_future(),
            final(self).future() == old(self).future(),
    {
        let inner = self.inner.get_mut_unchecked();
        match inner.f.take() {
            Some(f) => f,
            None => vstd::pervasive::unreached(),
        }
    }

    /// Records the future that the callback returned.
    pub fn set_future(&mut self, fut: Fut)
        ensures
            old(self).callback() is None ==> final(self).wf(),
            final(self).future() == Some(fut),
            final(self).lending_future() == old(self).lending_future(),
            final(self).callback() == old(self).callback(),
    {
        self.fut = Some(fut);
    }

    /// The future that the callback returned, to be polled to completion.
    pub fn future_mut(&mut self) -> (r: &mut Fut)
        requires
            old(self).future() is Some,
        ensures
            Some(*r) == old(self).future(),
            final(self).future() == Some(*final(r)),
            final(self).lending_future() == old(self).lending_future(),
            final(self).callback() == old(self).callback(),
    {
        match &mut self.fut {
            Some(fut) => fut,
            None => vstd::pervasive::unreached(),
        }
    }
}

/// A whole poll-until-ready run of a `Then`, as the calls above sequence it:
/// while it has no future it polls the lending future, and on its first
/// output takes the callback, runs it and records the future; from then on
/// it polls that future only. `lending` and `future` are what the two answer
/// when polled, each consumed as it is polled. The result: what the `Then`
/// resolves to (`None` when a run ends first), the outputs handed to the
/// callback, and how many times the lending future was polled.
pub open spec fn then_run<Out, V>(has_future: bool, lending: Seq<Poll<Out>>, future: Seq<Poll<V>>) -> (
    Option<V>,
    Seq<Out>,
    nat,
)
    decreases lending.len() + future.len(),
{
    if !has_future {
        if lending.len() == 0 {
            (None, Seq::empty(), 0)
        } else {
            match lending[0] {
                Poll::Pending => {
                    let (r, outs, n) = then_run(false, lending.drop_first(), future);
                    (r, outs, n + 1)
                },
                Poll::Ready(out) => {
                    let (r, outs, n) = then_run(true, lending.drop_first(), future);
                    (r, seq![out] + outs, n + 1)
                },
            }
        }
    } else {
        if future.len() == 0 {
            (None, Seq::empty(), 0)
        } else {
            match future[0] {
                Poll::Pending => then_run(true, lending, future.drop_first()),
                Poll::Ready(v) => (Some(v), Seq::empty(), 0),
            }
        }
    }
}

/// When the lending future answers `Pending` `k` times and then `out`, and
/// the callback's future answers `Pending` `m` times and then `v`, a `Then`
/// resolves to `v`; it runs the callback exactly once, on `out`, and polls
/// the lending future exactly `k + 1` times, never after its output.
pub proof fn lemma_then_runs_the_callback_once<Out, V>(
    lending: Seq<Poll<Out>>,
    future: Seq<Poll<V>>,
    k: int,
    out: Out,
    m: int,
    v: V,
)
    requires
        0 <= k < lending.len(),
        lending[k] == Poll::Ready(out),
        forall|j: int| 0 <= j < k ==> lending[j] is Pending,
        0 <= m < future.len(),
        future[m] == Poll::Ready(v),
        forall|j: int| 0 <= j < m ==> future[j] is Pending,
    ensures
        then_run(false, lending, future) == (Some(v), seq![out], (k + 1) as nat),
    decreases k,
{
    if k == 0 {
        lemma_then_future_answers(lending.drop_first(), future, m, v);
        assert(seq![out] + Seq::<Out>::empty() == seq![out]);
    } else {
        assert(lending[0] is Pending);
        assert forall|j: int| 0 <= j < k - 1 implies lending.drop_first()[j] is Pending by {
            assert(lending.drop_first()[j] == lending[j + 1]);
        }
        lemma_then_runs_the_callback_once(lending.drop_first(), future, k - 1, out, m, v);
    }
}

/// Once it holds its future, a `Then` resolves to the future's first ready
/// answer, without polling the lending future or running a callback.
pub proof fn lemma_then_future_answers<Out, V>(lending: Seq<Poll<Out>>, future: Seq<Poll<V>>, m: int, v: V)
    requires
        0 <= m < future.len(),
        future[m] == Poll::Ready(v),
        forall|j: int| 0 <= j < m ==> future[j] is Pending,
    ensures
        then_run(true, lending, future) == (Some(v), Seq::<Out>::empty(), 0nat),
    decreases m,
{
    if m > 0 {
        assert(future[0] is Pending);
        assert forall|j: int| 0 <= j < m - 1 implies future.drop_first()[j] is Pending by {
            assert(future.drop_first()[j] == future[j + 1]);
        }
        lemma_then_future_answers(lending, future.drop_first(), m - 1, v);
    }
}

} // verus!
