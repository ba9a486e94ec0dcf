use metamath_knife::executor::Executor;
use metamath_knife::promise::Promise;
use std::sync::Arc;
use std::sync::Mutex;

#[test]
fn the_costlier_job_runs_first() {
    let mut queue: Executor<&str> = Executor::new(2);
    assert!(queue.exec(100, "big").is_none());
    assert!(queue.exec(1, "small").is_none());
    assert_eq!(queue.next_job(), Some((100, "big")));
    assert_eq!(queue.next_job(), Some((1, "small")));
    assert_eq!(queue.next_job(), None);
    // the same in the other order of submission
    assert!(queue.exec(1, "small").is_none());
    assert!(queue.exec(100, "big").is_none());
    assert_eq!(queue.next_job(), Some((100, "big")));
    assert_eq!(queue.next_job(), Some((1, "small")));
}

#[test]
fn equal_estimates_run_in_the_order_of_submission() {
    let mut queue: Executor<u32> = Executor::new(4);
    let estimates = [5usize, 9, 5, 1, 9, 5, 7];
    for (i, e) in estimates.iter().enumerate() {
        assert!(queue.exec(*e, i as u32).is_none());
    }
    assert_eq!(queue.queued(), 7);
    let mut order = Vec::new();
    while let Some(job) = queue.next_job() {
        order.push(job);
    }
    assert_eq!(
        order,
        vec![(9, 1), (9, 4), (7, 6), (5, 0), (5, 2), (5, 5), (1, 3)]
    );
    assert_eq!(queue.queued(), 0);
}

#[test]
fn without_workers_the_job_comes_back() {
    for concurrency in [0usize, 1] {
        let mut queue: Executor<&str> = Executor::new(concurrency);
        assert!(queue.is_synchronous());
        assert_eq!(queue.exec(10, "now"), Some("now"));
        assert_eq!(queue.queued(), 0);
        assert_eq!(queue.next_job(), None);
    }
    let queue: Executor<&str> = Executor::new(2);
    assert!(!queue.is_synchronous());
}

#[test]
fn a_promise_of_a_value() {
    assert_eq!(Promise::new(5).wait(), 5);
    assert_eq!(Promise::new("text".to_owned()).wait(), "text");
}

#[test]
fn a_promise_runs_when_it_is_waited_for() {
    let calls = Arc::new(Mutex::new(0));
    let seen = calls.clone();
    let promise = Promise::new_once(move || {
        *seen.lock().unwrap() += 1;
        42
    });
    assert_eq!(*calls.lock().unwrap(), 0);
    assert_eq!(promise.wait(), 42);
    assert_eq!(*calls.lock().unwrap(), 1);
}

#[test]
fn map_runs_both_at_wait() {
    let calls = Arc::new(Mutex::new(0));
    let first = calls.clone();
    let second = calls.clone();
    let promise = Promise::new_once(move || {
        *first.lock().unwrap() += 1;
        20
    })
    .map(move |x| {
        *second.lock().unwrap() += 10;
        x + 1
    })
    .map(|x| format!("<{}>", x));
    assert_eq!(*calls.lock().unwrap(), 0);
    assert_eq!(promise.wait(), "<21>");
    assert_eq!(*calls.lock().unwrap(), 11);
}

#[test]
fn join_keeps_the_order() {
    let promises = vec![
        Promise::new(1),
        Promise::new_once(|| 2),
        Promise::new(3).map(|x| x * 10),
        Promise::new(4),
    ];
    assert_eq!(Promise::join(promises).wait(), vec![1, 2, 30, 4]);
    assert_eq!(Promise::join(Vec::<Promise<u8>>::new()).wait(), Vec::<u8>::new());
}

#[test]
fn join_waits_in_order() {
    let log = Arc::new(Mutex::new(Vec::new()));
    let mut promises = Vec::new();
    for i in 0..5 {
        let log = log.clone();
        promises.push(Promise::new_once(move || {
            log.lock().unwrap().push(i);
            i
        }));
    }
    let joined = Promise::join(promises);
    assert!(log.lock().unwrap().is_empty());
    assert_eq!(joined.wait(), vec![0, 1, 2, 3, 4]);
    assert_eq!(*log.lock().unwrap(), vec![0, 1, 2, 3, 4]);
}

fn sendable<T: Send>(value: T) -> T {
    value
}

#[test]
fn promises_can_be_handed_to_another_owner() {
    let promise = sendable(Promise::new_once(|| 20).map(|n: i32| n + 1));
    let all = sendable(Promise::join(vec![promise, Promise::new(5)]));
    assert_eq!(all.wait(), vec![21, 5]);
}
