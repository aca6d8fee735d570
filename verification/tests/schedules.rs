//! Producer/consumer schedules driven step by step from one thread: the
//! interleavings are explicit, and the per-producer orderings and the
//! conservation of values can be checked exactly.

use msqueue::{MsQueue, PopAttempt};

enum Lr {
    Left(i64),
    Right(i64),
}

#[test]
fn spsc_interleaved_schedule() {
    // One producer enqueues 0..N while one consumer, running behind,
    // dequeues with the blocking entry point; every value arrives in
    // order and none is lost.
    let n: i64 = 1000;
    let mut q: MsQueue<i64> = MsQueue::new();
    let mut next: i64 = 0;
    for i in 0..n {
        q.push(i);
        if i % 3 == 0 {
            match q.pop_or_wait() {
                PopAttempt::Popped(v) => {
                    assert_eq!(v, next);
                    next += 1;
                }
                PopAttempt::Waiting(_) => panic!("data was just enqueued"),
            }
        }
    }
    while next < n {
        assert_eq!(q.try_pop(), Some(next));
        next += 1;
    }
    assert!(q.is_empty());
}

#[test]
fn spmc_round_robin_schedule() {
    // One producer, three consumers taking turns: each consumer's own
    // sequence is strictly increasing, and together they see every value
    // exactly once.
    let n: i64 = 300;
    let mut q: MsQueue<i64> = MsQueue::new();
    let mut seen: Vec<Vec<i64>> = vec![Vec::new(), Vec::new(), Vec::new()];
    let mut turn: usize = 0;
    for i in 0..n {
        q.push(i);
        if i % 2 == 1 {
            if let Some(v) = q.try_pop() {
                seen[turn].push(v);
                turn = (turn + 1) % 3;
            }
        }
    }
    while let Some(v) = q.try_pop() {
        seen[turn].push(v);
        turn = (turn + 1) % 3;
    }
    let mut all: Vec<i64> = Vec::new();
    for one in &seen {
        for window in one.windows(2) {
            assert!(window[0] < window[1]);
        }
        all.extend_from_slice(one);
    }
    all.sort();
    let expected: Vec<i64> = (0..n).collect();
    assert_eq!(all, expected);
}

#[test]
fn mpmc_tagged_schedule() {
    // Two producers alternate, tagging their values; consumers bucket
    // what they dequeue by tag. Within each tag the raw output is already
    // sorted: per-producer order survives the interleaving.
    let n: i64 = 200;
    let mut q: MsQueue<Lr> = MsQueue::new();
    let mut lefts: Vec<i64> = Vec::new();
    let mut rights: Vec<i64> = Vec::new();
    for i in 0..n {
        q.push(Lr::Left(i));
        q.push(Lr::Right(i));
        if i % 4 == 3 {
            for _ in 0..2 {
                match q.try_pop() {
                    Some(Lr::Left(x)) => lefts.push(x),
                    Some(Lr::Right(x)) => rights.push(x),
                    None => {}
                }
            }
        }
    }
    while let Some(item) = q.try_pop() {
        match item {
            Lr::Left(x) => lefts.push(x),
            Lr::Right(x) => rights.push(x),
        }
    }
    let mut lefts_sorted = lefts.clone();
    let mut rights_sorted = rights.clone();
    lefts_sorted.sort();
    rights_sorted.sort();
    assert_eq!(lefts, lefts_sorted);
    assert_eq!(rights, rights_sorted);
    let expected: Vec<i64> = (0..n).collect();
    assert_eq!(lefts, expected);
    assert_eq!(rights, expected);
}
