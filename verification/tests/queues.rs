//! The queues of a cluster: deques, the overflow queue and the waiting tasks.
use krio::parallel::deque::Deque;
use krio::parallel::injector::Injector;
use krio::parallel::parked::Parked;
use krio::vocab::TaskId;

#[test]
fn push_pop_is_lifo() {
    let mut d: Deque<u64> = Deque::with_capacity(8);
    d.push(1).unwrap();
    d.push(2).unwrap();
    d.push(3).unwrap();
    assert_eq!(d.pop(), Some(3));
    assert_eq!(d.pop(), Some(2));
    assert_eq!(d.pop(), Some(1));
    assert_eq!(d.pop(), None);
}

#[test]
fn steal_is_fifo() {
    let mut d: Deque<u64> = Deque::with_capacity(8);
    d.push(1).unwrap();
    d.push(2).unwrap();
    d.push(3).unwrap();
    assert_eq!(d.steal(), Some(1));
    assert_eq!(d.steal(), Some(2));
    assert_eq!(d.steal(), Some(3));
    assert_eq!(d.steal(), None);
}

#[test]
fn full_deque_hands_the_value_back() {
    let mut d: Deque<u64> = Deque::with_capacity(2);
    assert!(d.push(1).is_ok());
    assert!(d.push(2).is_ok());
    // Third push has nowhere to go and must return the value so
    // the scheduler can spill it rather than lose it.
    assert_eq!(d.push(99), Err(99));
    assert_eq!(d.capacity(), 2);
}

#[test]
fn drops_only_live_slots() {
    // A stolen value must not be dropped again when the deque dies.
    let mut d: Deque<Box<u64>> = Deque::with_capacity(4);
    d.push(Box::new(1)).unwrap();
    d.push(Box::new(2)).unwrap();
    let stolen = d.steal().unwrap();
    assert_eq!(*stolen, 1);
    drop(stolen);
    // Dropping the deque here must free only the remaining item.
    drop(d);
}

#[test]
fn capacities_round_up_to_a_power_of_two() {
    for (asked, got) in [(0, 2), (1, 2), (2, 2), (3, 4), (4, 4), (5, 8), (200, 256)] {
        let d: Deque<u8> = Deque::with_capacity(asked);
        assert_eq!(d.capacity(), got, "asked for {asked}");
        assert!(d.is_empty());
    }
}

#[test]
fn a_deque_wraps_around_its_ring() {
    let mut d: Deque<u64> = Deque::with_capacity(4);
    let mut next_in: u64 = 0;
    let mut next_out: u64 = 0;
    for _ in 0..50 {
        while d.push(next_in).is_ok() {
            next_in += 1;
        }
        assert_eq!(d.len(), 4);
        assert_eq!(d.steal(), Some(next_out));
        assert_eq!(d.steal(), Some(next_out + 1));
        assert_eq!(d.steal(), Some(next_out + 2));
        next_out += 3;
        assert_eq!(d.len(), 1);
    }
    assert_eq!(d.pop(), Some(next_in - 1));
    assert_eq!(d.pop(), None);
    assert_eq!(d.steal(), None);
}

#[test]
fn the_overflow_queue_is_first_in_first_out() {
    let mut q: Injector<&str> = Injector::new();
    assert!(q.is_empty());
    assert_eq!(q.pop(), None);
    q.push("a");
    q.push("b");
    assert!(!q.is_empty());
    assert_eq!(q.pop(), Some("a"));
    assert_eq!(q.pop(), Some("b"));
    assert!(q.is_empty());
}

#[test]
fn park_then_wake_returns_the_task() {
    let mut parked: Parked<u32> = Parked::new();
    assert!(parked.park(TaskId(7), 99).is_none());
    assert_eq!(parked.len(), 1);

    assert_eq!(parked.wake(TaskId(7)), Some(99));
    assert_eq!(parked.len(), 0);
    assert_eq!(parked.early_wake_count(), 0);
}

#[test]
fn a_wake_that_arrives_first_is_not_lost() {
    let mut parked: Parked<u32> = Parked::new();

    // The event fires while the task is still on its way here.
    assert_eq!(parked.wake(TaskId(7)), None);
    assert_eq!(parked.early_wake_count(), 1);

    // Parking must then refuse to sleep and hand the task back.
    assert_eq!(
        parked.park(TaskId(7), 99),
        Some(99),
        "a task parked after its wake must run again, not sleep"
    );
    assert_eq!(parked.len(), 0);
    assert_eq!(parked.early_wake_count(), 0, "the wake should be consumed");
}

#[test]
fn waking_the_wrong_id_leaves_others_alone() {
    let mut parked: Parked<u32> = Parked::new();
    parked.park(TaskId(1), 10);
    parked.park(TaskId(2), 20);

    assert_eq!(parked.wake(TaskId(2)), Some(20));
    assert_eq!(parked.len(), 1);
    assert_eq!(parked.wake(TaskId(1)), Some(10));
    assert_eq!(parked.len(), 0);
}

#[test]
fn ids_tell_tasks_from_the_scheduler_itself() {
    assert!(!TaskId::none().is_task());
    assert!(TaskId(1).is_task());
    assert_eq!(TaskId::none(), TaskId(0));
}

#[test]
fn owner_and_thieves_share_out_what_was_accepted() {
    let mut d: Deque<u64> = Deque::with_capacity(4);
    let mut accepted = Vec::new();
    let mut handed_out = Vec::new();
    for value in 0..60 {
        if d.push(value).is_ok() {
            accepted.push(value);
        }
        if value % 3 == 0 {
            handed_out.extend(d.pop());
        }
        if value % 4 == 1 {
            handed_out.extend(d.steal());
            handed_out.extend(d.steal());
        }
    }
    while let Some(value) = d.steal() {
        handed_out.push(value);
    }
    assert!(accepted.len() < 60, "the deque was full at times");
    handed_out.sort();
    assert_eq!(handed_out, accepted);
}
