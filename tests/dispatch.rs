use kass::dispatch::WorkQueue;

/// Runs the workers one report at a time, round robin, each item failing
/// when `fails` says so.
fn run(items: Vec<u32>, n: usize, fails: impl Fn(u32) -> bool) -> (Result<(), String>, Vec<u32>) {
    let (mut queue, first) = WorkQueue::<u32, String>::start(items, n);
    let mut held: Vec<Option<u32>> = first.into_iter().map(Some).collect();
    let mut processed = Vec::new();
    loop {
        let mut any = false;
        for slot in held.iter_mut() {
            if let Some(item) = *slot {
                any = true;
                processed.push(item);
                let outcome = if fails(item) { Err(format!("item {} failed", item)) } else { Ok(()) };
                *slot = queue.report(outcome);
            }
        }
        if !any {
            break;
        }
    }
    (queue.finish(), processed)
}

#[test]
fn all_items_succeed() {
    let (result, mut processed) = run((0..10).collect(), 3, |_| false);
    assert_eq!(Ok(()), result);
    processed.sort();
    assert_eq!((0..10).collect::<Vec<u32>>(), processed);
}

#[test]
fn a_single_failure_is_reported_for_any_worker_count() {
    for n in 1..12 {
        let (result, processed) = run((0..10).collect(), n, |x| x == 4);
        assert_eq!(Err("item 4 failed".to_string()), result);
        assert!(processed.contains(&4));
    }
}

#[test]
fn no_item_is_handed_out_after_a_failure() {
    let (result, processed) = run((0..10).collect(), 1, |x| x == 2);
    assert_eq!(Err("item 2 failed".to_string()), result);
    assert_eq!(vec![0, 1, 2], processed);
}

#[test]
fn the_first_recorded_error_stays() {
    let (mut queue, first) = WorkQueue::<u32, &str>::start(vec![1, 2, 3], 2);
    assert_eq!(vec![1, 2], first);
    assert!(queue.no_error());
    assert_eq!(None, queue.report(Err("first")));
    assert!(!queue.no_error());
    assert_eq!(None, queue.report(Err("second")));
    assert_eq!(None, queue.report(Ok(())));
    assert_eq!(Err("first"), queue.finish());
}

#[test]
fn start_hands_out_at_most_the_items_there_are() {
    let (mut queue, first) = WorkQueue::<u32, ()>::start(vec![7, 8], 5);
    assert_eq!(vec![7, 8], first);
    assert_eq!(None, queue.next_in_queue());
    queue.set_error(());
    assert_eq!(Err(()), queue.finish());
}
