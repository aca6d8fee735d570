use msqueue::MsQueue;

#[test]
fn push_try_pop_1() {
    let mut q: MsQueue<i64> = MsQueue::new();
    assert!(q.is_empty());
    q.push(37);
    assert!(!q.is_empty());
    assert_eq!(q.try_pop(), Some(37));
    assert!(q.is_empty());
}

#[test]
fn push_try_pop_2() {
    let mut q: MsQueue<i64> = MsQueue::new();
    assert!(q.is_empty());
    q.push(37);
    q.push(48);
    assert_eq!(q.try_pop(), Some(37));
    assert!(!q.is_empty());
    assert_eq!(q.try_pop(), Some(48));
    assert!(q.is_empty());
}

#[test]
fn push_try_pop_many_seq() {
    let mut q: MsQueue<i64> = MsQueue::new();
    assert!(q.is_empty());
    for i in 0..200 {
        q.push(i);
    }
    assert!(!q.is_empty());
    for i in 0..200 {
        assert_eq!(q.try_pop(), Some(i));
    }
    assert!(q.is_empty());
}

#[test]
fn push_pop_1() {
    let mut q: MsQueue<i64> = MsQueue::new();
    assert!(q.is_empty());
    q.push(37);
    assert!(!q.is_empty());
    assert_eq!(q.pop(), 37);
    assert!(q.is_empty());
}

#[test]
fn push_pop_2() {
    let mut q: MsQueue<i64> = MsQueue::new();
    q.push(37);
    q.push(48);
    assert_eq!(q.pop(), 37);
    assert_eq!(q.pop(), 48);
}

#[test]
fn push_pop_many_seq() {
    let mut q: MsQueue<i64> = MsQueue::new();
    assert!(q.is_empty());
    for i in 0..200 {
        q.push(i);
    }
    assert!(!q.is_empty());
    for i in 0..200 {
        assert_eq!(q.pop(), i);
    }
    assert!(q.is_empty());
}

#[test]
fn is_empty_dont_pop() {
    let mut q: MsQueue<i64> = MsQueue::new();
    q.push(20);
    q.push(20);
    assert!(!q.is_empty());
    assert!(!q.is_empty());
    assert!(q.try_pop().is_some());
}
