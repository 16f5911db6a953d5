use lending_async_iter::eq_by::{EqBy, EqByStep};
use lending_async_iter::lending_async_iterator::{
    all_next, any_next, count_next, cycle_next, enumerate_next, filter_decide, fold_next,
    for_each_next, Consume, Cycle, Enumerate, Filter, Fold, FoldStep, ForEach, Next,
};
use lending_async_iter::lending_future::Then;
use lending_async_iter::lending_iterator;
use lending_async_iter::poll::Poll;

/// A scripted asynchronous iterator: each poll answers the next entry of the
/// script (`None` stands for a poll that is not ready), then it ends.
#[derive(Clone, Debug)]
struct Script<T: Clone> {
    polls: Vec<Option<T>>,
    at: usize,
}

impl<T: Clone> Script<T> {
    fn new(polls: Vec<Option<T>>) -> Self {
        Script { polls, at: 0 }
    }

    /// The items, each after two polls that are not ready.
    fn sleepy(items: &[T]) -> Self {
        let mut polls = Vec::new();
        for item in items {
            polls.push(None);
            polls.push(None);
            polls.push(Some(item.clone()));
        }
        Script::new(polls)
    }

    fn poll_next(&mut self) -> Poll<Option<T>> {
        if self.at < self.polls.len() {
            self.at += 1;
            match &self.polls[self.at - 1] {
                None => Poll::Pending,
                Some(item) => Poll::Ready(Some(item.clone())),
            }
        } else {
            Poll::Ready(None)
        }
    }
}

/// One poll of a `Filter` over a script.
fn poll_filter<T: Clone, P: FnMut(&T) -> bool>(filter: &mut Filter<Script<T>, P>) -> Poll<Option<T>> {
    let (iter, predicate) = filter.parts_mut();
    loop {
        let polled = iter.poll_next();
        let keep = match &polled {
            Poll::Ready(Some(item)) => predicate(item),
            _ => false,
        };
        if let Some(out) = filter_decide(polled, keep) {
            return out;
        }
    }
}

/// Polls `poll` until it is ready.
fn block_on<R>(mut poll: impl FnMut() -> Poll<R>) -> R {
    loop {
        if let Poll::Ready(r) = poll() {
            return r;
        }
    }
}

#[test]
fn next() {
    let mut iter = Script::sleepy(&[1, 2, 3]);
    for expected in [Some(1), Some(2), Some(3), None] {
        let mut next = Next::new(&mut iter);
        let value = block_on(|| next.iter_mut().poll_next());
        assert_eq!(value, expected);
    }
}

#[test]
fn filter_for_each() {
    let mut nums = [1, 2, 3, 4, 5, 6, 7, 8];
    let items: Vec<(usize, i32)> = nums.iter().copied().enumerate().collect();
    let filter = Filter::new(Script::sleepy(&items), |item: &(usize, i32)| item.1 % 2 != 0);
    let mut for_each = ForEach::new(filter, |(index, value): (usize, i32)| (index, value * 4));
    block_on(|| {
        let (filter, f) = for_each.parts_mut();
        loop {
            match for_each_next(poll_filter(filter)) {
                Consume::Item(item) => {
                    let (index, value) = f(item);
                    nums[index] = value;
                },
                Consume::Return(r) => return r,
            }
        }
    });
    assert_eq!(nums, [4, 2, 12, 4, 20, 6, 28, 8]);
}

fn run_all(nums: &[i32], predicate: impl Fn(i32) -> bool) -> bool {
    let mut iter = Script::sleepy(nums);
    block_on(|| loop {
        let polled = match iter.poll_next() {
            Poll::Ready(Some(n)) => Poll::Ready(Some(predicate(n))),
            Poll::Ready(None) => Poll::Ready(None),
            Poll::Pending => Poll::Pending,
        };
        if let Some(r) = all_next(polled) {
            return r;
        }
    })
}

fn run_any(nums: &[i32], predicate: impl Fn(i32) -> bool) -> bool {
    let mut iter = Script::sleepy(nums);
    block_on(|| loop {
        let polled = match iter.poll_next() {
            Poll::Ready(Some(n)) => Poll::Ready(Some(predicate(n))),
            Poll::Ready(None) => Poll::Ready(None),
            Poll::Pending => Poll::Pending,
        };
        if let Some(r) = any_next(polled) {
            return r;
        }
    })
}

#[test]
fn all() {
    let nums = [1, 2, 3, 4, 5, 6, 7, 8];
    assert!(run_all(&nums, |n| n < 10));
    assert!(!run_all(&nums, |n| n < 8));
}

#[test]
fn any() {
    let nums = [1, 2, 3, 4, 5, 6, 7, 8];
    assert!(run_any(&nums, |n| n > 7));
    assert!(!run_any(&nums, |n| n > 8));
}

#[test]
fn all_and_any_on_an_empty_iterator() {
    assert!(run_all(&[], |_| false));
    assert!(!run_any(&[], |_| true));
}

#[test]
fn all_stops_at_the_first_refusal() {
    assert_eq!(all_next(Poll::Ready(Some(false))), Some(Poll::Ready(false)));
    assert_eq!(all_next(Poll::Ready(Some(true))), None);
    assert_eq!(all_next(Poll::Pending), Some(Poll::Pending));
    assert_eq!(any_next(Poll::Ready(Some(true))), Some(Poll::Ready(true)));
    assert_eq!(any_next(Poll::Ready(Some(false))), None);
}

#[test]
fn filter_passes_pending_and_end_through() {
    assert_eq!(filter_decide::<u8>(Poll::Pending, true), Some(Poll::Pending));
    assert_eq!(filter_decide::<u8>(Poll::Ready(None), false), Some(Poll::Ready(None)));
    assert_eq!(filter_decide(Poll::Ready(Some(3)), false), None);
    assert_eq!(filter_decide(Poll::Ready(Some(3)), true), Some(Poll::Ready(Some(3))));
}

#[test]
fn filter_yields_the_accepted_items_in_order() {
    let mut filter = Filter::new(Script::sleepy(&[5, 10, 15, 20, 25]), |n: &i32| n % 10 == 5);
    let mut out = Vec::new();
    while let Some(n) = block_on(|| poll_filter(&mut filter)) {
        out.push(n);
    }
    assert_eq!(out, vec![5, 15, 25]);
}

#[test]
fn sync_filter_returns_the_first_accepted_item() {
    let mut filter = lending_iterator::Filter::new(vec![1, 4, 6, 7].into_iter(), |n: &i32| n % 2 == 0);
    let mut next = || {
        let (iter, predicate) = filter.parts_mut();
        loop {
            let element = iter.next();
            let keep = element.as_ref().map_or(false, |n| predicate(n));
            if let Some(out) = lending_iterator::filter_decide(element, keep) {
                return out;
            }
        }
    };
    assert_eq!(next(), Some(4));
    assert_eq!(next(), Some(6));
    assert_eq!(next(), None);
}

#[test]
fn enumerate_counts_from_zero() {
    let mut enumerate = Enumerate::new(Script::sleepy(&['a', 'b', 'c']));
    let mut out = Vec::new();
    loop {
        let (iter, index) = enumerate.parts_mut();
        match enumerate_next(index, iter.poll_next()) {
            Poll::Ready(Some(item)) => out.push(item),
            Poll::Ready(None) => break,
            Poll::Pending => {},
        }
    }
    assert_eq!(out, vec![(0, 'a'), (1, 'b'), (2, 'c')]);
}

#[test]
fn enumerate_keeps_its_position_on_pending_and_end() {
    let mut index = 4usize;
    assert_eq!(enumerate_next::<u8>(&mut index, Poll::Pending), Poll::Pending);
    assert_eq!(enumerate_next::<u8>(&mut index, Poll::Ready(None)), Poll::Ready(None));
    assert_eq!(index, 4);
    assert_eq!(enumerate_next(&mut index, Poll::Ready(Some(9u8))), Poll::Ready(Some((4, 9))));
    assert_eq!(index, 5);
}

#[test]
fn cycle_passes_items_through_and_notes_them() {
    let mut cycle = Cycle::new(Script::sleepy(&[1, 2]));
    let mut out = Vec::new();
    loop {
        let (iter, read_item) = cycle.parts_mut();
        let polled = iter.poll_next();
        if *read_item && polled == Poll::Ready(None) {
            break;
        }
        match cycle_next(read_item, polled) {
            Poll::Ready(Some(n)) => out.push(n),
            Poll::Ready(None) => break,
            Poll::Pending => {},
        }
    }
    assert_eq!(out, vec![1, 2]);
    let mut read_item = false;
    assert_eq!(cycle_next::<u8>(&mut read_item, Poll::Ready(None)), Poll::Ready(None));
    assert!(!read_item);
}

#[test]
fn fold_sums_the_items() {
    let mut fold = Fold::new(Script::sleepy(&[1, 2, 3, 4]), 10, |acc: i32, n: i32| acc + n);
    let sum = block_on(|| {
        let (iter, acc, f) = fold.parts_mut();
        loop {
            match fold_next(acc, iter.poll_next()) {
                FoldStep::Pending => return Poll::Pending,
                FoldStep::Fold(a, n) => *acc = Some(f(a, n)),
                FoldStep::Done(a) => return Poll::Ready(a),
            }
        }
    });
    assert_eq!(sum, 20);
    let (_, acc, _) = fold.parts_mut();
    assert!(acc.is_none());
}

#[test]
fn count_counts_the_items_of_one_poll() {
    let mut iter = Script::new(vec![Some(1), Some(2), Some(3)]);
    let mut count = 0usize;
    let answer = loop {
        if let Some(r) = count_next(&mut count, iter.poll_next()) {
            break r;
        }
    };
    assert_eq!(answer, Poll::Ready(3));
    let mut count = 2usize;
    assert_eq!(count_next::<u8>(&mut count, Poll::Pending), Some(Poll::Pending));
    assert_eq!(count, 2);
}

/// Runs `eq_by` over two scripts, judging pairs with `eq`.
fn run_eq_by(a: Vec<Option<i32>>, b: Vec<Option<i32>>, eq: impl Fn(i32, i32) -> bool) -> bool {
    let mut a = Script::new(a);
    let mut b = Script::new(b);
    let mut machine = EqBy::new();
    block_on(|| loop {
        let pa = if machine.polls_a() { Some(a.poll_next()) } else { None };
        let pb = if machine.polls_b() { Some(b.poll_next()) } else { None };
        match machine.step(pa, pb) {
            EqByStep::Return(r) => return r,
            EqByStep::CompareBy(x, y) => {
                if let Some(r) = machine.on_compared(eq(x, y)) {
                    return r;
                }
            },
            EqByStep::CompareEq(x, y) => {
                if let Some(r) = machine.on_compared(x == y) {
                    return r;
                }
            },
        }
    })
}

#[test]
fn eq_by_compares_pairwise() {
    let same = |x: i32, y: i32| x == y;
    assert!(run_eq_by(vec![Some(1), Some(2)], vec![Some(1), Some(2)], same));
    assert!(!run_eq_by(vec![Some(1), Some(2)], vec![Some(1), Some(3)], same));
    assert!(!run_eq_by(vec![Some(1)], vec![Some(1), Some(2)], same));
    // One side late: its items wait and are compared with `==`.
    assert!(run_eq_by(vec![Some(1), Some(2)], vec![None, Some(1), None, Some(2)], same));
    assert!(!run_eq_by(vec![Some(1), Some(2)], vec![None, Some(1), None, Some(5)], same));
    // The caller's function decides on pairs that come together.
    assert!(run_eq_by(vec![Some(1), Some(2)], vec![Some(-1), Some(-2)], |x, y| x == -y));
}

#[test]
fn eq_by_answers_false_when_one_end_waits_for_the_other() {
    // The first iterator ends while the second is not ready: the stored end
    // never matches, even when the second ends too.
    assert!(!run_eq_by(vec![], vec![None], |x, y| x == y));
}

#[test]
fn filter_of_filter_is_one_filter_with_both_predicates() {
    let items = [1, 2, 3, 4, 5, 6, 7, 8, 9, 10, 11, 12];
    let inner = Filter::new(Script::sleepy(&items), |n: &i32| n % 2 == 0);
    let mut asked = Vec::new();
    let mut outer_out = Vec::new();
    {
        let mut inner = inner;
        loop {
            let polled = poll_filter(&mut inner);
            let keep = match &polled {
                Poll::Ready(Some(n)) => {
                    asked.push(*n);
                    n % 3 == 0
                },
                _ => false,
            };
            match filter_decide(polled, keep) {
                Some(Poll::Ready(Some(n))) => outer_out.push(n),
                Some(Poll::Ready(None)) => break,
                _ => {},
            }
        }
    }
    let mut both = Filter::new(Script::sleepy(&items), |n: &i32| n % 2 == 0 && n % 3 == 0);
    let mut one_out = Vec::new();
    while let Some(n) = block_on(|| poll_filter(&mut both)) {
        one_out.push(n);
    }
    assert_eq!(outer_out, vec![6, 12]);
    assert_eq!(outer_out, one_out);
    // The outer predicate only saw what the inner one accepted.
    assert_eq!(asked, vec![2, 4, 6, 8, 10, 12]);
}

#[test]
fn all_calls_the_predicate_up_to_the_first_refusal() {
    let mut iter = Script::sleepy(&[1, 2, 30, 4]);
    let mut calls = 0;
    let answer = block_on(|| loop {
        let polled = match iter.poll_next() {
            Poll::Ready(Some(n)) => {
                calls += 1;
                Poll::Ready(Some(n < 10))
            },
            Poll::Ready(None) => Poll::Ready(None),
            Poll::Pending => Poll::Pending,
        };
        if let Some(r) = all_next(polled) {
            return r;
        }
    });
    assert!(!answer);
    assert_eq!(calls, 3);
}

#[test]
fn enumerate_position_counts_the_items_yielded() {
    let mut enumerate = Enumerate::new(Script::sleepy(&[7, 8, 9]));
    let mut yielded = 0;
    loop {
        let (iter, index) = enumerate.parts_mut();
        assert_eq!(*index, yielded);
        match enumerate_next(index, iter.poll_next()) {
            Poll::Ready(Some(_)) => yielded += 1,
            Poll::Ready(None) => break,
            Poll::Pending => {},
        }
    }
    assert_eq!(yielded, 3);
}

#[test]
fn eq_by_stops_at_the_first_unequal_pair() {
    let mut a = Script::new(vec![Some(1), Some(2), Some(3)]);
    let mut b = Script::new(vec![Some(1), Some(5), Some(3)]);
    let mut machine = EqBy::new();
    let mut calls = 0;
    let answer = block_on(|| loop {
        let pa = if machine.polls_a() { Some(a.poll_next()) } else { None };
        let pb = if machine.polls_b() { Some(b.poll_next()) } else { None };
        let answer = match machine.step(pa, pb) {
            EqByStep::Return(r) => Some(r),
            EqByStep::CompareBy(x, y) | EqByStep::CompareEq(x, y) => {
                calls += 1;
                machine.on_compared(x == y)
            },
        };
        if let Some(r) = answer {
            return r;
        }
    });
    assert!(!answer);
    assert_eq!(calls, 2);
    assert_eq!(a.at, 2);
    assert_eq!(b.at, 2);
}

#[test]
fn then_takes_its_callback_once_and_keeps_its_future() {
    let mut then: Then<Script<i32>, fn(i32) -> i32, i32, i32> = Then::new(Script::new(vec![Some(4)]), |n| n * 10);
    assert!(!then.has_future());
    assert!(then.has_callback());
    let output = match then.lending_future_mut().poll_next() {
        Poll::Ready(Some(n)) => n,
        _ => panic!("the lending future is ready"),
    };
    let f = then.take_callback();
    assert!(!then.has_callback());
    then.set_future(f(output));
    assert!(then.has_future());
    assert!(!then.has_callback());
    assert_eq!(*then.future_mut(), 40);
    assert!(then.has_future());
}

#[test]
fn repeated_sync_filter_calls_give_the_accepted_items() {
    let run = |items: Vec<i32>, accept: fn(&i32) -> bool| {
        let mut filter = lending_iterator::Filter::new(items.into_iter(), accept);
        let mut out = Vec::new();
        loop {
            let (iter, predicate) = filter.parts_mut();
            let next = loop {
                let element = iter.next();
                let keep = element.as_ref().map_or(false, |n| predicate(n));
                if let Some(out) = lending_iterator::filter_decide(element, keep) {
                    break out;
                }
            };
            match next {
                Some(n) => out.push(n),
                None => break,
            }
        }
        out
    };
    assert_eq!(run(vec![3, 1, 2], |_| true), vec![3, 1, 2]);
    assert_eq!(run(vec![3, 1, 2], |_| false), Vec::<i32>::new());
    assert_eq!(run(vec![3, 1, 2, 6], |n| n % 3 == 0), vec![3, 6]);
}
