//! The round-robin scheduler, driving a mix of tasks.
use std::cell::RefCell;
use std::rc::Rc;

use krio::runtime::{AgentRole, Budget, RoundRobin, Scheduler};
use krio::vocab::{Suspension, Task};

type Log = Rc<RefCell<Vec<String>>>;

/// A task that logs one entry per step, and is done with the last.
struct Scripted {
    entries: Vec<String>,
    next: usize,
    log: Log,
}

impl Scripted {
    fn new(entries: Vec<String>, log: &Log) -> Box<dyn Task> {
        Box::new(Scripted { entries, next: 0, log: log.clone() })
    }
}

impl Task for Scripted {
    fn step(&mut self) -> Suspension {
        if self.next < self.entries.len() {
            self.log.borrow_mut().push(self.entries[self.next].clone());
        }
        self.next += 1;
        if self.next >= self.entries.len() {
            Suspension::Completed
        } else {
            Suspension::Yielded
        }
    }
}

#[test]
fn round_robin_drives_fibers_to_completion() {
    let log: Log = Rc::new(RefCell::new(Vec::new()));

    let mut sched = RoundRobin::new();
    for id in 0..3 {
        sched.spawn(Scripted::new(
            vec![format!("fiber {id} a"), format!("fiber {id} b"), format!("fiber {id} c")],
            &log,
        ));
    }

    assert_eq!(sched.task_count(), 3);
    sched.run_to_completion();
    assert_eq!(sched.task_count(), 0);

    // Round-robin order: every fiber's "a" before any "b", etc.
    let log = log.borrow();
    let positions: Vec<&String> = log.iter().collect();
    assert_eq!(positions.len(), 9);
    // First three are all "a" steps, second three "b", last three "c".
    for entry in &positions[0..3] {
        assert!(entry.ends_with("a"), "expected 'a' step, got {entry}");
    }
    for entry in &positions[3..6] {
        assert!(entry.ends_with("b"), "expected 'b' step, got {entry}");
    }
    for entry in &positions[6..9] {
        assert!(entry.ends_with("c"), "expected 'c' step, got {entry}");
    }
}

#[test]
fn round_robin_empty_scheduler_terminates_immediately() {
    let mut sched: RoundRobin<Box<dyn Task>> = RoundRobin::new();
    sched.run_to_completion();
    assert_eq!(sched.task_count(), 0);
}

#[test]
fn finished_tasks_are_dropped_each_tick() {
    // Fiber A finishes immediately, fiber B yields once.
    let log: Log = Rc::new(RefCell::new(Vec::new()));
    let mut sched = RoundRobin::new();
    sched.spawn(Scripted::new(vec![String::new()], &log));
    sched.spawn(Scripted::new(vec![String::new(), String::new()], &log));

    assert_eq!(sched.task_count(), 2);
    let alive_after_first_tick = sched.tick();
    assert!(alive_after_first_tick, "expected fiber B still alive");
    assert_eq!(sched.task_count(), 1, "fiber A should have been dropped");

    let alive_after_second_tick = sched.tick();
    assert!(!alive_after_second_tick, "expected all tasks done");
    assert_eq!(sched.task_count(), 0);
}

#[test]
fn a_round_keeps_the_living_and_moves_the_last_into_the_gap() {
    let log: Log = Rc::new(RefCell::new(Vec::new()));
    let mut sched = RoundRobin::with_capacity(4);
    sched.spawn(Scripted::new(vec!["a1".to_string()], &log));
    sched.spawn(Scripted::new(vec!["b1".to_string(), "b2".to_string()], &log));
    sched.spawn(Scripted::new(vec!["c1".to_string(), "c2".to_string()], &log));
    assert!(sched.tick());
    assert_eq!(sched.task_count(), 2);
    assert!(!sched.tick());
    assert_eq!(*log.borrow(), vec!["a1", "b1", "c1", "c2", "b2"]);
}

#[test]
fn pending_tasks_are_polled_again() {
    struct Waiter(u32);
    impl Task for Waiter {
        fn step(&mut self) -> Suspension {
            if self.0 == 0 {
                Suspension::Completed
            } else {
                self.0 -= 1;
                Suspension::Pending
            }
        }
    }
    let mut sched: RoundRobin<Waiter> = RoundRobin::default();
    sched.spawn(Waiter(2));
    assert!(sched.tick());
    assert!(sched.tick());
    assert!(!sched.tick());
}

#[test]
fn a_role_implies_its_budget() {
    assert_eq!(AgentRole::Main.budget(8), Budget::Deadline(8));
    assert_eq!(AgentRole::Worker.budget(8), Budget::Unbounded);
}

#[test]
fn only_completion_is_done() {
    assert!(Suspension::Completed.is_done());
    assert!(!Suspension::Yielded.is_done());
    assert!(!Suspension::Pending.is_done());
}
