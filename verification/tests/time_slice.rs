//! The time-slicing scheduler.
use std::cell::{Cell, RefCell};
use std::rc::Rc;

use krio::preempt::{Sliced, TimeSliceScheduler};
use krio::vocab::{Clock, Suspension, Task};

/// A clock that the test moves by hand.
#[derive(Clone)]
struct HandClock(Rc<Cell<u64>>);

impl HandClock {
    fn new() -> Self {
        HandClock(Rc::new(Cell::new(0)))
    }
}

impl Clock for HandClock {
    fn now_ms(&self) -> u64 {
        self.0.get()
    }
}

/// A fiber whose turns are spelled out one by one.
struct Scripted {
    turns: Vec<Box<dyn FnMut(u64) -> bool>>,
    next: usize,
    deadline_ms: u64,
}

impl Scripted {
    /// Each turn is handed the deadline, and says whether it is to be run again.
    fn new(turns: Vec<Box<dyn FnMut(u64) -> bool>>) -> Self {
        Scripted { turns, next: 0, deadline_ms: 0 }
    }
}

impl Task for Scripted {
    fn step(&mut self) -> Suspension {
        if self.next >= self.turns.len() {
            return Suspension::Completed;
        }
        let again = (self.turns[self.next])(self.deadline_ms);
        if !again {
            self.next += 1;
        }
        if self.next >= self.turns.len() {
            Suspension::Completed
        } else {
            Suspension::Yielded
        }
    }
}

impl Sliced for Scripted {
    fn set_deadline_ms(&mut self, deadline_ms: u64) {
        self.deadline_ms = deadline_ms;
    }
}

#[test]
fn time_slice_empty_scheduler_terminates_immediately() {
    let mut sched: TimeSliceScheduler<Scripted, HandClock> =
        TimeSliceScheduler::new(10, HandClock::new());
    sched.run_to_completion();
    assert_eq!(sched.fiber_count(), 0);
}

#[test]
fn drives_yielding_fibers_to_completion() {
    let log = Rc::new(RefCell::new(Vec::<String>::new()));
    let mut sched = TimeSliceScheduler::new(50, HandClock::new());

    for id in 0..3 {
        let mut turns: Vec<Box<dyn FnMut(u64) -> bool>> = Vec::new();
        for part in ["a", "b", "c"] {
            let log = log.clone();
            turns.push(Box::new(move |_| {
                log.borrow_mut().push(format!("f{id}-{part}"));
                false
            }));
        }
        sched.spawn(Scripted::new(turns));
    }

    assert_eq!(sched.fiber_count(), 3);
    sched.run_to_completion();
    assert_eq!(sched.fiber_count(), 0);

    // Round-robin order: every fiber's "a" before "b" before "c".
    let log = log.borrow();
    assert_eq!(log.len(), 9);
    for entry in &log[0..3] {
        assert!(entry.ends_with("a"), "{entry}");
    }
    for entry in &log[3..6] {
        assert!(entry.ends_with("b"), "{entry}");
    }
    for entry in &log[6..9] {
        assert!(entry.ends_with("c"), "{entry}");
    }
}

#[test]
fn deadline_polling_yields_mid_slice() {
    // A fiber that polls its deadline in a loop yields when its slice expires.
    // Every reading of the clock costs a millisecond, so with a 1ms slice we
    // expect multiple resumes before the loop's iteration target is hit.
    let counter = Rc::new(RefCell::new(0u32));
    let counter_clone = counter.clone();
    let target = 500u32;
    let clock = HandClock::new();
    let reading = clock.clone();

    let mut sched = TimeSliceScheduler::new(1, clock);
    sched.spawn(Scripted::new(vec![Box::new(move |deadline| loop {
        *counter_clone.borrow_mut() += 1;
        if *counter_clone.borrow() >= target {
            return false;
        }
        reading.0.set(reading.0.get() + 1);
        if reading.now_ms() >= deadline {
            return true;
        }
    })]));

    // Cap the rounds so a buggy implementation doesn't hang the test.
    let mut rounds = 0;
    while sched.tick() {
        rounds += 1;
        assert!(rounds < 10_000, "scheduler ran way too many rounds");
    }
    assert_eq!(*counter.borrow(), target);
    assert!(rounds > 1);
}

#[test]
fn finished_fibers_dropped_each_tick() {
    let mut sched = TimeSliceScheduler::new(10, HandClock::new());
    sched.spawn(Scripted::new(vec![])); // immediate-done
    sched.spawn(Scripted::new(vec![Box::new(|_| false), Box::new(|_| false)]));

    assert_eq!(sched.fiber_count(), 2);
    let alive = sched.tick();
    assert!(alive, "fiber B still alive");
    assert_eq!(sched.fiber_count(), 1);

    let alive = sched.tick();
    assert!(!alive);
    assert_eq!(sched.fiber_count(), 0);
}

#[test]
fn a_slice_ends_a_slice_after_the_turn_began() {
    let seen = Rc::new(RefCell::new(Vec::<u64>::new()));
    let clock = HandClock::new();
    let mut sched = TimeSliceScheduler::new(20, clock.clone());
    let (first, second) = (seen.clone(), seen.clone());
    sched.spawn(Scripted::new(vec![
        Box::new(move |d| {
            first.borrow_mut().push(d);
            false
        }),
        Box::new(move |d| {
            second.borrow_mut().push(d);
            false
        }),
    ]));
    clock.0.set(100);
    assert!(sched.tick());
    clock.0.set(u64::MAX - 5);
    assert!(!sched.tick());
    // The second slice would end beyond what the clock can count.
    assert_eq!(*seen.borrow(), vec![120, u64::MAX]);
}
