//! The blocking hand-off protocol, driven step by step: a consumer that
//! sees no data publishes a waiter; the next producer serves it directly
//! and names it so the caller would unpark its thread.

use msqueue::{MsQueue, PopAttempt};

#[test]
fn pop_or_wait_returns_data_when_present() {
    let mut q: MsQueue<i64> = MsQueue::new();
    q.push(7);
    match q.pop_or_wait() {
        PopAttempt::Popped(v) => assert_eq!(v, 7),
        PopAttempt::Waiting(_) => panic!("data was present, no waiter expected"),
    }
    assert!(q.is_empty());
}

#[test]
fn handoff_wakes_first_waiter() {
    let mut q: MsQueue<i64> = MsQueue::new();
    let w = match q.pop_or_wait() {
        PopAttempt::Waiting(w) => w,
        PopAttempt::Popped(_) => panic!("the queue is empty"),
    };
    assert!(!q.waiter_ready(w));
    let wake = q.push(42);
    assert_eq!(wake, Some(w));
    assert!(q.waiter_ready(w));
    assert_eq!(q.waiter_take(w), 42);
    assert!(q.is_empty());
}

#[test]
fn handoff_serves_waiters_in_publication_order() {
    let mut q: MsQueue<i64> = MsQueue::new();
    let w0 = match q.pop_or_wait() {
        PopAttempt::Waiting(w) => w,
        PopAttempt::Popped(_) => panic!("the queue is empty"),
    };
    let w1 = match q.pop_or_wait() {
        PopAttempt::Waiting(w) => w,
        PopAttempt::Popped(_) => panic!("the queue is empty"),
    };
    assert_ne!(w0, w1);
    assert_eq!(q.push(1), Some(w0));
    assert_eq!(q.push(2), Some(w1));
    assert_eq!(q.waiter_take(w0), 1);
    assert_eq!(q.waiter_take(w1), 2);
    assert!(q.is_empty());
}

#[test]
fn blocked_mode_reports_empty() {
    let mut q: MsQueue<i64> = MsQueue::new();
    assert!(q.is_empty());
    match q.pop_or_wait() {
        PopAttempt::Waiting(_) => {}
        PopAttempt::Popped(_) => panic!("the queue is empty"),
    }
    // A queue holding only a waiting consumer has no data to dequeue.
    assert!(q.is_empty());
    assert_eq!(q.try_pop(), None);
}

#[test]
fn mode_flips_back_to_data_after_waiters_served() {
    let mut q: MsQueue<i64> = MsQueue::new();
    let w = match q.pop_or_wait() {
        PopAttempt::Waiting(w) => w,
        PopAttempt::Popped(_) => panic!("the queue is empty"),
    };
    assert_eq!(q.push(5), Some(w));
    assert_eq!(q.waiter_take(w), 5);
    // No waiters remain: a push links a data node again.
    assert_eq!(q.push(6), None);
    assert!(!q.is_empty());
    assert_eq!(q.try_pop(), Some(6));
    assert!(q.is_empty());
}

#[test]
fn push_in_data_mode_wakes_no_one() {
    let mut q: MsQueue<i64> = MsQueue::new();
    assert_eq!(q.push(1), None);
    assert_eq!(q.push(2), None);
    assert_eq!(q.try_pop(), Some(1));
    assert_eq!(q.try_pop(), Some(2));
    assert_eq!(q.try_pop(), None);
}

#[test]
fn default_is_empty() {
    let mut q: MsQueue<i64> = MsQueue::default();
    assert!(q.is_empty());
    assert_eq!(q.try_pop(), None);
}
