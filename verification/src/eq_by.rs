use vstd::prelude::*;

use crate::lending_async_iterator::{
    ends_once, items, lemma_ends_once_rest, lemma_ready_then_end_unfold, ready_then_end,
};
use crate::poll::Poll;

verus! {

/// Where `eq_by` stands between two polls: both iterators are to be polled,
/// or one of them answered while the other was not ready, and its answer
/// waits for the other's.
#[derive(Debug)]
pub enum EqByState<A, B> {
    Polling,
    AReady(Option<A>),
    BReady(Option<B>),
}

/// What `eq_by` does after one round of polls.
#[derive(Debug, PartialEq, Eq)]
pub enum EqByStep<A, B> {
    /// What its poll returns.
    Return(Poll<bool>),
    /// Compare these two items with the caller's function and hand the
    /// verdict to `EqBy::on_compared`.
    CompareBy(A, B),
    /// Compare these two items with `==` and hand the verdict to
    /// `EqBy::on_compared`.
    CompareEq(A, B),
}

/// The state machine of `eq_by`, which compares the items of two lending
/// asynchronous iterators pairwise. It also keeps, as ghost state, the items
/// that each iterator has yielded so far, how many pairs have been judged
/// equal, and whether a pair it handed out still waits for its verdict.
pub struct EqBy<A, B> {
    state: EqByState<A, B>,
    seen_a: Ghost<Seq<A>>,
    seen_b: Ghost<Seq<B>>,
    judged: Ghost<nat>,
    comparing: Ghost<bool>,
}

/// The next state and the step of `eq_by` on one round of polls: both
/// iterators when it is polling, otherwise only the one it waits for.
pub open spec fn eq_by_transition<A, B>(
    state: EqByState<A, B>,
    a: Option<Poll<Option<A>>>,
    b: Option<Poll<Option<B>>>,
) -> (EqByState<A, B>, EqByStep<A, B>) {
    match state {
        EqByState::Polling => match (a->Some_0, b->Some_0) {
            (Poll::Pending, Poll::Pending) => (EqByState::Polling, EqByStep::Return(Poll::Pending)),
            (Poll::Ready(Some(x)), Poll::Ready(Some(y))) => (
                EqByState::Polling,
                EqByStep::CompareBy(x, y),
            ),
            (Poll::Ready(None), Poll::Ready(None)) => (
                EqByState::Polling,
                EqByStep::Return(Poll::Ready(true)),
            ),
            (Poll::Ready(_), Poll::Ready(_)) => (
                EqByState::Polling,
                EqByStep::Return(Poll::Ready(false)),
            ),
            (Poll::Ready(x), Poll::Pending) => (EqByState::AReady(x), EqByStep::Return(Poll::Pending)),
            (Poll::Pending, Poll::Ready(y)) => (EqByState::BReady(y), EqByStep::Return(Poll::Pending)),
        },
        EqByState::AReady(x) => match b->Some_0 {
            Poll::Pending => (EqByState::AReady(x), EqByStep::Return(Poll::Pending)),
            Poll::Ready(y) => (EqByState::Polling, match (x, y) {
                (Some(x), Some(y)) => EqByStep::CompareEq(x, y),
                _ => EqByStep::Return(Poll::Ready(false)),
            }),
        },
        EqByState::BReady(y) => match a->Some_0 {
            Poll::Pending => (EqByState::BReady(y), EqByStep::Return(Poll::Pending)),
            Poll::Ready(x) => (EqByState::Polling, match (x, y) {
                (Some(x), Some(y)) => EqByStep::CompareEq(x, y),
                _ => EqByStep::Return(Poll::Ready(false)),
            }),
        },
    }
}

/// The items that `seen` gains from one poll.
pub open spec fn seen_after<T>(seen: Seq<T>, polled: Option<Poll<Option<T>>>) -> Seq<T> {
    match polled {
        Some(Poll::Ready(Some(item))) => seen.push(item),
        _ => seen,
    }
}

impl<A, B> EqBy<A, B> {
    /// Where the machine stands.
    pub closed spec fn state(&self) -> EqByState<A, B> {
        self.state
    }

    /// The items that the first iterator has yielded so far.
    pub closed spec fn seen_a(&self) -> Seq<A> {
        self.seen_a@
    }

    /// The items that the second iterator has yielded so far.
    pub closed spec fn seen_b(&self) -> Seq<B> {
        self.seen_b@
    }

    /// How many pairs of items have been judged equal.
    pub closed spec fn judged(&self) -> nat {
        self.judged@
    }

    /// Whether the last pair handed out still waits for its verdict.
    pub closed spec fn comparing(&self) -> bool {
        self.comparing@
    }

    /// Each iterator has yielded as many items as the other, but for the one
    /// item that waits in the state, which is the last one its iterator
    /// yielded; every pair of items yielded by both has been judged equal,
    /// but for one that may wait for its verdict.
    pub closed spec fn wf(&self) -> bool {
        &&& self.judged@ + (if self.comparing@ { 1int } else { 0 }) == if self.seen_a@.len()
            <= self.seen_b@.len() {
            self.seen_a@.len()
        } else {
            self.seen_b@.len()
        }
        &&& self.comparing@ ==> self.state is Polling
        &&& match self.state {
            EqByState::Polling => self.seen_a@.len() == self.seen_b@.len(),
            EqByState::AReady(Some(x)) => self.seen_a@.len() == self.seen_b@.len() + 1
                && self.seen_a@.last() == x,
            EqByState::AReady(None) => self.seen_a@.len() == self.seen_b@.len(),
            EqByState::BReady(Some(y)) => self.seen_b@.len() == self.seen_a@.len() + 1
                && self.seen_b@.last() == y,
            EqByState::BReady(None) => self.seen_a@.len() == self.seen_b@.len(),
        }
    }

    /// The machine before the first poll.
    pub fn new() -> (r: Self)
        ensures
            r.wf(),
            r.state() is Polling,
            r.seen_a() == Seq::<A>::empty(),
            r.seen_b() == Seq::<B>::empty(),
            r.judged() == 0,
            !r.comparing(),
    {
        EqBy {
            state: EqByState::Polling,
            seen_a: Ghost(Seq::empty()),
            seen_b: Ghost(Seq::empty()),
            judged: Ghost(0),
            comparing: Ghost(false),
        }
    }

    /// Whether the next round polls the first iterator.
    pub fn polls_a(&self) -> (r: bool)
        ensures
            r == !(self.state() is AReady),
    {
        match &self.state {
            EqByState::AReady(_) => false,
            _ => true,
        }
    }

    /// Whether the next round polls the second iterator.
    pub fn polls_b(&self) -> (r: bool)
        ensures
            r == !(self.state() is BReady),
    {
        match &self.state {
            EqByState::BReady(_) => false,
            _ => true,
        }
    }

    /// One round: the answers of the iterators that `polls_a` and `polls_b`
    /// asked for. Once it answers, the machine is done. Whatever pair of items it hands out to compare is the
    /// `k`-th item of each iterator for the same `k`, and it answers true
    /// only when both iterators ended after as many items.
    pub fn step(&mut self, a: Option<Poll<Option<A>>>, b: Option<Poll<Option<B>>>) -> (r: EqByStep<A, B>)
        requires
            old(self).wf(),
            !old(self).comparing(),
            a is Some == !(old(self).state() is AReady),
            b is Some == !(old(self).state() is BReady),
        ensures
            !(r matches EqByStep::Return(Poll::Ready(_))) ==> final(self).wf(),
            (final(self).state(), r) == eq_by_transition(old(self).state(), a, b),
            final(self).seen_a() == seen_after(old(self).seen_a(), a),
            final(self).seen_b() == seen_after(old(self).seen_b(), b),
            final(self).judged() == old(self).judged(),
            final(self).comparing() == (r is CompareBy || r is CompareEq),
            r matches EqByStep::CompareBy(x, y) ==> {
                &&& final(self).seen_a().len() == final(self).seen_b().len()
                &&& final(self).seen_a().last() == x
                &&& final(self).seen_b().last() == y
            },
            r matches EqByStep::CompareEq(x, y) ==> {
                &&& final(self).seen_a().len() == final(self).seen_b().len()
                &&& final(self).seen_a().last() == x
                &&& final(self).seen_b().last() == y
            },
            r == EqByStep::<A, B>::Return(Poll::Ready(true)) ==> {
                &&& final(self).seen_a().len() == final(self).seen_b().len()
                &&& final(self).judged() == final(self).seen_a().len()
            },
    {
        proof {
            self.seen_a = Ghost(seen_after(self.seen_a@, a));
            self.seen_b = Ghost(seen_after(self.seen_b@, b));
        }
        let ghost old_state = self.state;
        proof {
            self.comparing = Ghost(
                eq_by_transition(old_state, a, b).1 is CompareBy || eq_by_transition(old_state, a, b).1 is CompareEq,
            );
        }
        let mut state = EqByState::Polling;
        std::mem::swap(&mut state, &mut self.state);
        match state {
            EqByState::Polling => {
                let (pa, pb) = match (a, b) {
                    (Some(pa), Some(pb)) => (pa, pb),
                    _ => vstd::pervasive::unreached(),
                };
                match (pa, pb) {
                    (Poll::Pending, Poll::Pending) => EqByStep::Return(Poll::Pending),
                    (Poll::Ready(Some(x)), Poll::Ready(Some(y))) => EqByStep::CompareBy(x, y),
                    (Poll::Ready(None), Poll::Ready(None)) => EqByStep::Return(Poll::Ready(true)),
                    (Poll::Ready(_), Poll::Ready(_)) => EqByStep::Return(Poll::Ready(false)),
                    (Poll::Ready(x), Poll::Pending) => {
                        self.state = EqByState::AReady(x);
                        EqByStep::Return(Poll::Pending)
                    },
                    (Poll::Pending, Poll::Ready(y)) => {
                        self.state = EqByState::BReady(y);
                        EqByStep::Return(Poll::Pending)
                    },
                }
            },
            EqByState::AReady(x) => {
                let pb = match b {
                    Some(pb) => pb,
                    None => vstd::pervasive::unreached(),
                };
                match pb {
                    Poll::Pending => {
                        self.state = EqByState::AReady(x);
                        EqByStep::Return(Poll::Pending)
                    },
                    Poll::Ready(y) => match (x, y) {
                        (Some(x), Some(y)) => EqByStep::CompareEq(x, y),
                        _ => EqByStep::Return(Poll::Ready(false)),
                    },
                }
            },
            EqByState::BReady(y) => {
                let pa = match a {
                    Some(pa) => pa,
                    None => vstd::pervasive::unreached(),
                };
                match pa {
                    Poll::Pending => {
                        self.state = EqByState::BReady(y);
                        EqByStep::Return(Poll::Pending)
                    },
                    Poll::Ready(x) => match (x, y) {
                        (Some(x), Some(y)) => EqByStep::CompareEq(x, y),
                        _ => EqByStep::Return(Poll::Ready(false)),
                    },
                }
            },
        }
    }

    /// Takes the verdict on the pair that `step` handed out: unequal items end
    /// `eq_by` with false, equal ones let it poll again (`None`).
    pub fn on_compared(&mut self, equal: bool) -> (r: Option<Poll<bool>>)
        requires
            old(self).wf(),
            old(self).comparing(),
        ensures
            r == (if equal {
                None
            } else {
                Some(Poll::Ready(false))
            }),
            equal ==> final(self).wf(),
            !final(self).comparing(),
            final(self).judged() == old(self).judged() + (if equal { 1nat } else { 0 }),
            final(self).state() == old(self).state(),
            final(self).seen_a() == old(self).seen_a(),
            final(self).seen_b() == old(self).seen_b(),
    {
        proof {
            self.comparing = Ghost(false);
            if equal {
                self.judged = Ghost(self.judged@ + 1);
            }
        }
        if equal {
            None
        } else {
            Some(Poll::Ready(false))
        }
    }
}

/// Whether the state holds the end of one iterator, which came while the
/// other one was not ready.
pub open spec fn holds_an_end<A, B>(state: EqByState<A, B>) -> bool {
    ||| state matches EqByState::AReady(None)
    ||| state matches EqByState::BReady(None)
}

/// `eq_by` polled until ready, from `state`, over what the two iterators
/// answer when polled (`ap` and `bp`, each consumed as the machine asks for
/// it): its answer (`None` when a run ends first), whether an end was ever
/// held while the other iterator was not ready, and how many pairs were
/// compared. `judge` is what the caller's function answers on a pair that came
/// together, `same` what `==` answers on a pair of which one waited.
pub open spec fn eq_by_run<A, B>(
    state: EqByState<A, B>,
    ap: Seq<Poll<Option<A>>>,
    bp: Seq<Poll<Option<B>>>,
    judge: spec_fn(A, B) -> bool,
    same: spec_fn(A, B) -> bool,
) -> (Option<bool>, bool, nat)
    decreases ap.len() + bp.len(),
{
    let wants_a = !(state is AReady);
    let wants_b = !(state is BReady);
    let held = holds_an_end(state);
    if (wants_a && ap.len() == 0) || (wants_b && bp.len() == 0) {
        (None, held, 0)
    } else {
        let a = if wants_a {
            Some(ap[0])
        } else {
            None
        };
        let b = if wants_b {
            Some(bp[0])
        } else {
            None
        };
        let ap2 = if wants_a {
            ap.drop_first()
        } else {
            ap
        };
        let bp2 = if wants_b {
            bp.drop_first()
        } else {
            bp
        };
        let (next, step) = eq_by_transition(state, a, b);
        match step {
            EqByStep::Return(Poll::Ready(r)) => (Some(r), held, 0),
            EqByStep::Return(Poll::Pending) => {
                let (r, h, c) = eq_by_run(next, ap2, bp2, judge, same);
                (r, h || held, c)
            },
            EqByStep::CompareBy(x, y) => if judge(x, y) {
                let (r, h, c) = eq_by_run(next, ap2, bp2, judge, same);
                (r, h || held, c + 1)
            } else {
                (Some(false), held, 1)
            },
            EqByStep::CompareEq(x, y) => if same(x, y) {
                let (r, h, c) = eq_by_run(next, ap2, bp2, judge, same);
                (r, h || held, c + 1)
            } else {
                (Some(false), held, 1)
            },
        }
    }
}

/// The items of the first iterator still to be compared: the one that
/// waits in the state, then those of the polls to come.
pub open spec fn remaining_a<A, B>(state: EqByState<A, B>, ap: Seq<Poll<Option<A>>>) -> Seq<A> {
    match state {
        EqByState::AReady(Some(x)) => seq![x] + items(ap),
        EqByState::AReady(None) => Seq::empty(),
        _ => items(ap),
    }
}

/// The items of the second iterator still to be compared.
pub open spec fn remaining_b<A, B>(state: EqByState<A, B>, bp: Seq<Poll<Option<B>>>) -> Seq<B> {
    match state {
        EqByState::BReady(Some(y)) => seq![y] + items(bp),
        EqByState::BReady(None) => Seq::empty(),
        _ => items(bp),
    }
}

/// Two sequences of the same length whose items `eq` judges equal pairwise.
pub open spec fn pairwise<A, B>(xs: Seq<A>, ys: Seq<B>, eq: spec_fn(A, B) -> bool) -> bool {
    &&& xs.len() == ys.len()
    &&& forall|k: int| 0 <= k < xs.len() ==> eq(#[trigger] xs[k], ys[k])
}

proof fn lemma_pairwise_cons<A, B>(x: A, xs: Seq<A>, y: B, ys: Seq<B>, eq: spec_fn(A, B) -> bool)
    ensures
        pairwise(seq![x] + xs, seq![y] + ys, eq) == (eq(x, y) && pairwise(xs, ys, eq)),
{
    let xa = seq![x] + xs;
    let yb = seq![y] + ys;
    assert(xa[0] == x && yb[0] == y);
    if pairwise(xa, yb, eq) {
        assert forall|k: int| 0 <= k < xs.len() implies eq(#[trigger] xs[k], ys[k]) by {
            assert(xa[k + 1] == xs[k] && yb[k + 1] == ys[k]);
        }
    }
    if eq(x, y) && pairwise(xs, ys, eq) {
        assert forall|k: int| 0 <= k < xa.len() implies eq(#[trigger] xa[k], yb[k]) by {
            if k > 0 {
                assert(xa[k] == xs[k - 1] && yb[k] == ys[k - 1]);
            }
        }
    }
}

/// A pair is accepted when the caller's function or `==` judges it equal.
pub open spec fn either<A, B>(judge: spec_fn(A, B) -> bool, same: spec_fn(A, B) -> bool) -> spec_fn(A, B) -> bool {
    |x: A, y: B| judge(x, y) || same(x, y)
}

/// Over whole runs of both iterators, with polls that are not ready
/// anywhere, `eq_by` resolves. It answers true only when both iterators
/// yield as many items and every pair is accepted: by the caller's function
/// when the two items came together, by `==` when one of them waited. When
/// `==` answers as the caller's function does (as in `eq`), true means that
/// the caller's function judges every pair equal, and an answer of false on
/// two such sequences comes only when the end of one iterator came while the
/// other was not ready. Such a run is where the law "answers whether the
/// sequences are equal" fails: the stored end never matches what the other
/// iterator answers next.
pub proof fn lemma_eq_by_over_a_run<A, B>(
    state: EqByState<A, B>,
    ap: Seq<Poll<Option<A>>>,
    bp: Seq<Poll<Option<B>>>,
    judge: spec_fn(A, B) -> bool,
    same: spec_fn(A, B) -> bool,
)
    requires
        state matches EqByState::AReady(None) || ends_once(ap),
        state matches EqByState::BReady(None) || ends_once(bp),
    ensures
        eq_by_run(state, ap, bp, judge, same).0 is Some,
        eq_by_run(state, ap, bp, judge, same).0 == Some(true) ==> pairwise(
            remaining_a(state, ap),
            remaining_b(state, bp),
            either(judge, same),
        ),
        (forall|x: A, y: B| #[trigger] judge(x, y) == same(x, y)) ==> {
            &&& eq_by_run(state, ap, bp, judge, same).0 == Some(true) ==> pairwise(
                remaining_a(state, ap),
                remaining_b(state, bp),
                judge,
            )
            &&& eq_by_run(state, ap, bp, judge, same).0 == Some(false) && pairwise(
                remaining_a(state, ap),
                remaining_b(state, bp),
                judge,
            ) ==> eq_by_run(state, ap, bp, judge, same).1
        },
        holds_an_end(state) ==> eq_by_run(state, ap, bp, judge, same).0 != Some(true),
    decreases ap.len() + bp.len(),
{
    let wants_a = !(state is AReady);
    let wants_b = !(state is BReady);
    if wants_a {
        lemma_ends_once_rest(ap);
    }
    if wants_b {
        lemma_ends_once_rest(bp);
    }
    let a = if wants_a {
        Some(ap[0])
    } else {
        None
    };
    let b = if wants_b {
        Some(bp[0])
    } else {
        None
    };
    let ap2 = if wants_a {
        ap.drop_first()
    } else {
        ap
    };
    let bp2 = if wants_b {
        bp.drop_first()
    } else {
        bp
    };
    let (next, step) = eq_by_transition(state, a, b);
    let xa = remaining_a(state, ap);
    let yb = remaining_b(state, bp);
    match state {
        EqByState::Polling => {
            match (ap[0], bp[0]) {
                (Poll::Pending, Poll::Pending) => {
                    lemma_eq_by_over_a_run(next, ap2, bp2, judge, same);
                },
                (Poll::Ready(Some(x)), Poll::Ready(Some(y))) => {
                    assert(items(ap) == seq![x] + items(ap2));
                    assert(items(bp) == seq![y] + items(bp2));
                    lemma_pairwise_cons(x, items(ap2), y, items(bp2), judge);
                    lemma_pairwise_cons(x, items(ap2), y, items(bp2), either(judge, same));
                    if judge(x, y) {
                        lemma_eq_by_over_a_run(next, ap2, bp2, judge, same);
                    }
                },
                (Poll::Ready(None), Poll::Ready(None)) => {},
                (Poll::Ready(None), Poll::Ready(Some(y))) => {
                    assert(items(bp) == seq![y] + items(bp2));
                },
                (Poll::Ready(Some(x)), Poll::Ready(None)) => {
                    assert(items(ap) == seq![x] + items(ap2));
                },
                (Poll::Ready(x), Poll::Pending) => {
                    lemma_eq_by_over_a_run(next, ap2, bp2, judge, same);
                    if let Some(x) = x {
                        assert(items(ap) == seq![x] + items(ap2));
                    }
                },
                (Poll::Pending, Poll::Ready(y)) => {
                    lemma_eq_by_over_a_run(next, ap2, bp2, judge, same);
                    if let Some(y) = y {
                        assert(items(bp) == seq![y] + items(bp2));
                    }
                },
            }
        },
        EqByState::AReady(x) => {
            match bp[0] {
                Poll::Pending => {
                    lemma_eq_by_over_a_run(next, ap2, bp2, judge, same);
                },
                Poll::Ready(Some(y)) => {
                    assert(items(bp) == seq![y] + items(bp2));
                    if let Some(x) = x {
                        lemma_pairwise_cons(x, items(ap2), y, items(bp2), judge);
                        lemma_pairwise_cons(x, items(ap2), y, items(bp2), either(judge, same));
                        if same(x, y) {
                            lemma_eq_by_over_a_run(next, ap2, bp2, judge, same);
                        }
                    }
                },
                Poll::Ready(None) => {},
            }
        },
        EqByState::BReady(y) => {
            match ap[0] {
                Poll::Pending => {
                    lemma_eq_by_over_a_run(next, ap2, bp2, judge, same);
                },
                Poll::Ready(Some(x)) => {
                    assert(items(ap) == seq![x] + items(ap2));
                    if let Some(y) = y {
                        lemma_pairwise_cons(x, items(ap2), y, items(bp2), judge);
                        lemma_pairwise_cons(x, items(ap2), y, items(bp2), either(judge, same));
                        if same(x, y) {
                            lemma_eq_by_over_a_run(next, ap2, bp2, judge, same);
                        }
                    }
                },
                Poll::Ready(None) => {},
            }
        },
    }
}

/// When both iterators are ready on every poll, `eq_by` answers whether
/// they yield as many items and the caller's function judges every pair
/// equal, whatever `==` would answer. It compares the pairs in order and
/// stops at the first it judges unequal: the number of comparisons is the
/// position of that pair plus one, or the length of the shorter iterator
/// when there is none. No end is ever held.
pub proof fn lemma_eq_by_over_ready_runs<A, B>(
    xs: Seq<A>,
    ys: Seq<B>,
    judge: spec_fn(A, B) -> bool,
    same: spec_fn(A, B) -> bool,
)
    ensures
        eq_by_run(EqByState::Polling, ready_then_end(xs), ready_then_end(ys), judge, same) matches (
            Some(answer),
            held,
            calls,
        ) && {
            let shorter = if xs.len() <= ys.len() {
                xs.len()
            } else {
                ys.len()
            };
            &&& !held
            &&& answer == pairwise(xs, ys, judge)
            &&& forall|k: int| 0 <= k < calls - 1 ==> judge(#[trigger] xs[k], ys[k])
            &&& {
                ||| calls == shorter && forall|k: int| 0 <= k < calls ==> judge(#[trigger] xs[k], ys[k])
                ||| 1 <= calls <= shorter && !judge(xs[calls - 1], ys[calls - 1])
            }
        },
    decreases xs.len(),
{
    let ap = ready_then_end(xs);
    let bp = ready_then_end(ys);
    assert(ap.len() > 0 && bp.len() > 0);
    if xs.len() == 0 && ys.len() == 0 {
        assert(ap[0] == Poll::<Option<A>>::Ready(None));
        assert(bp[0] == Poll::<Option<B>>::Ready(None));
    } else if xs.len() == 0 {
        assert(ap[0] == Poll::<Option<A>>::Ready(None));
        lemma_ready_then_end_unfold(ys);
    } else if ys.len() == 0 {
        assert(bp[0] == Poll::<Option<B>>::Ready(None));
        lemma_ready_then_end_unfold(xs);
    } else {
        lemma_ready_then_end_unfold(xs);
        lemma_ready_then_end_unfold(ys);
        let x = xs[0];
        let y = ys[0];
        assert(xs == seq![x] + xs.drop_first());
        assert(ys == seq![y] + ys.drop_first());
        lemma_pairwise_cons(x, xs.drop_first(), y, ys.drop_first(), judge);
        if judge(x, y) {
            lemma_eq_by_over_ready_runs(xs.drop_first(), ys.drop_first(), judge, same);
            let (r, h, c) = eq_by_run(
                EqByState::Polling,
                ready_then_end(xs.drop_first()),
                ready_then_end(ys.drop_first()),
                judge,
                same,
            );
            assert(eq_by_run(EqByState::Polling, ap, bp, judge, same) == (r, h, c + 1));
            assert forall|k: int| 0 <= k < c implies judge(#[trigger] xs[k], ys[k]) by {
                if k > 0 {
                    assert(xs[k] == xs.drop_first()[k - 1] && ys[k] == ys.drop_first()[k - 1]);
                }
            }
            if !(c + 1 == (if xs.len() <= ys.len() { xs.len() } else { ys.len() })) {
                assert(xs[c as int] == xs.drop_first()[c - 1] && ys[c as int] == ys.drop_first()[c - 1]);
            } else {
                if c >= 1 {
                    assert(xs[c as int] == xs.drop_first()[c - 1] && ys[c as int] == ys.drop_first()[c - 1]);
                }
            }
        } else {
            assert(eq_by_run(EqByState::Polling, ap, bp, judge, same) == (Some(false), false, 1nat));
        }
    }
}

} // verus!
