//! The lifecycle of a fiber, with turns that are spelled out one by one in place
//! of a switch.
use std::any::Any;
use std::cell::{Cell, RefCell};
use std::rc::Rc;

use krio::fiber::frame::Arch;
use krio::fiber::stack::aligned_stack_size;
use krio::fiber::{
    current_fiber_id, is_cancelled, is_deadline_passed, should_yield_early, take_input,
    take_input_u64, yield_route, yield_u64, yield_value, ActiveFibers, Fiber, FiberIds, FiberState,
    FiberStep, StackRange, Turn, YieldRoute, DEFAULT_STACK_SIZE,
};
use krio::vocab::Suspension;

type Value = Box<dyn Any>;
type Payload = Box<dyn Any + Send>;
type Core = Fiber<Value, Payload>;
type Step = Box<dyn FnMut(&mut Core) -> Turn<Payload>>;

/// A fiber with its turns. Running past the last of them returns.
struct Scripted {
    core: Core,
    turns: Vec<Step>,
    next: usize,
}

fn stack_of(size: usize) -> StackRange {
    StackRange { low: 0x10_0000, len: aligned_stack_size(Arch::SysV64, size) as u64 }
}

impl Scripted {
    fn with_id(id: u64, turns: Vec<Step>) -> Self {
        let core = Fiber::on_stack(id, Arch::SysV64, stack_of(DEFAULT_STACK_SIZE)).unwrap();
        Scripted { core, turns, next: 0 }
    }

    fn new(turns: Vec<Step>) -> Self {
        Scripted::with_id(1, turns)
    }

    fn run(&mut self) -> FiberStep {
        let turn = if self.next < self.turns.len() {
            (self.turns[self.next])(&mut self.core)
        } else {
            Turn::Returned
        };
        self.next += 1;
        let sp = self.core.stack_range().low + 4096;
        self.core.finish_turn(turn, sp)
    }

    fn resume(&mut self) -> FiberStep {
        self.core.resume();
        self.run()
    }

    fn resume_with<I: 'static>(&mut self, input: I) -> FiberStep {
        self.core.resume_with(Box::new(input));
        self.run()
    }

    fn take_yield_value<O: 'static>(&mut self) -> Option<O> {
        self.core.take_yield_value(|v: Value| v.downcast::<O>().map(|b| *b))
    }
}

fn input<I: 'static>(running: &mut Core) -> Option<I> {
    take_input(running, |v: Value| v.downcast::<I>().map(|b| *b))
}

fn pushing(log: &Rc<RefCell<Vec<&'static str>>>, what: Vec<&'static str>, turn: fn() -> Turn<Payload>) -> Step {
    let log = log.clone();
    Box::new(move |_| {
        log.borrow_mut().extend(what.iter());
        turn()
    })
}

fn yields() -> Turn<Payload> {
    Turn::Yielded
}

fn finishes() -> Turn<Payload> {
    Turn::Returned
}

fn yielding(n: usize) -> Vec<Step> {
    let mut turns: Vec<Step> = Vec::new();
    for _ in 0..n {
        turns.push(Box::new(|_| Turn::Yielded));
    }
    turns
}

#[test]
fn no_yield_runs_to_done_in_one_resume() {
    let log = Rc::new(RefCell::new(Vec::new()));
    let mut fiber = Scripted::new(vec![pushing(&log, vec!["ran"], finishes)]);

    assert_eq!(fiber.resume(), FiberStep::Done);
    assert_eq!(*log.borrow(), vec!["ran"]);
}

#[test]
fn three_yields_produces_four_resumes() {
    let log = Rc::new(RefCell::new(Vec::new()));
    let mut fiber = Scripted::new(vec![
        pushing(&log, vec!["step 1"], yields),
        pushing(&log, vec!["step 2"], yields),
        pushing(&log, vec!["step 3"], yields),
        pushing(&log, vec!["step 4"], finishes),
    ]);

    assert_eq!(fiber.resume(), FiberStep::Yielded);
    assert_eq!(*log.borrow(), vec!["step 1"]);
    assert_eq!(fiber.resume(), FiberStep::Yielded);
    assert_eq!(*log.borrow(), vec!["step 1", "step 2"]);
    assert_eq!(fiber.resume(), FiberStep::Yielded);
    assert_eq!(*log.borrow(), vec!["step 1", "step 2", "step 3"]);
    assert_eq!(fiber.resume(), FiberStep::Done);
    assert_eq!(*log.borrow(), vec!["step 1", "step 2", "step 3", "step 4"]);
}

#[test]
fn many_round_trips() {
    let count = Rc::new(Cell::new(0u64));
    let mut turns: Vec<Step> = Vec::new();
    for _ in 0..1000 {
        let count = count.clone();
        turns.push(Box::new(move |_| {
            count.set(count.get() + 1);
            Turn::Yielded
        }));
    }
    let mut fiber = Scripted::new(turns);

    for i in 1..=1000 {
        assert_eq!(fiber.resume(), FiberStep::Yielded);
        assert_eq!(count.get(), i);
    }
    assert_eq!(fiber.resume(), FiberStep::Done);
}

#[test]
fn fibers_are_independent() {
    let mut a = Scripted::new(yielding(2));
    let mut b = Scripted::new(yielding(1));

    assert_eq!(a.resume(), FiberStep::Yielded);
    assert_eq!(b.resume(), FiberStep::Yielded);
    assert_eq!(a.resume(), FiberStep::Yielded);
    assert_eq!(b.resume(), FiberStep::Done);
    assert_eq!(a.resume(), FiberStep::Done);
}

#[test]
fn explicit_stack_size() {
    let core = Fiber::on_stack(1, Arch::SysV64, stack_of(4096)).unwrap();
    let mut fiber = Scripted { core, turns: yielding(1), next: 0 };
    assert_eq!(fiber.core.stack_range().len, 4096);
    fiber.core.resume();
    let sp = fiber.core.saved_sp();
    assert_eq!(fiber.core.finish_turn(Turn::Yielded, sp), FiberStep::Yielded);
    fiber.core.resume();
    assert_eq!(fiber.core.finish_turn(Turn::Returned, sp), FiberStep::Done);
}

#[test]
fn fiber_state_transitions_through_resumes() {
    let mut fiber = Scripted::new(yielding(1));
    assert_eq!(fiber.core.state(), FiberState::New);
    assert!(!fiber.core.is_done());
    assert_eq!(fiber.resume(), FiberStep::Yielded);
    assert_eq!(fiber.core.state(), FiberState::Suspended);
    assert!(!fiber.core.is_done());
    assert_eq!(fiber.resume(), FiberStep::Done);
    assert_eq!(fiber.core.state(), FiberState::Done);
    assert!(fiber.core.is_done());
}

#[test]
fn panicking_fiber_lands_in_errored_state() {
    let mut fiber = Scripted::new(vec![Box::new(|_| Turn::Panicked(Box::new("kaboom")))]);

    let step = fiber.resume();
    assert_eq!(step, FiberStep::Errored);
    assert_eq!(fiber.core.state(), FiberState::Errored);
    assert!(fiber.core.is_done());

    let payload = fiber.core.take_error().expect("error payload");
    let msg = payload.downcast::<&'static str>().expect("string panic");
    assert_eq!(*msg, "kaboom");

    // Subsequent take_error returns None.
    assert!(fiber.core.take_error().is_none());
}

#[test]
fn panic_after_yield_still_caught() {
    let mut turns = yielding(2);
    turns.push(Box::new(|_| Turn::Panicked(Box::new("third time's the charm"))));
    let mut fiber = Scripted::new(turns);

    assert_eq!(fiber.resume(), FiberStep::Yielded);
    assert_eq!(fiber.resume(), FiberStep::Yielded);
    assert_eq!(fiber.resume(), FiberStep::Errored);
    assert_eq!(fiber.core.state(), FiberState::Errored);

    let payload = fiber.core.take_error().unwrap();
    assert_eq!(
        *payload.downcast::<&'static str>().unwrap(),
        "third time's the charm"
    );
}

#[test]
fn cancellation_observed_inside_fiber() {
    // The fiber polls at each yield boundary and returns early when cancelled.
    let saw_cancel = Rc::new(Cell::new(false));
    let mut turns: Vec<Step> = Vec::new();
    for _ in 0..10 {
        let saw = saw_cancel.clone();
        turns.push(Box::new(move |running| {
            if is_cancelled(Some(&*running)) {
                saw.set(true);
                return Turn::Returned;
            }
            Turn::Yielded
        }));
    }
    let mut fiber = Scripted::new(turns);

    assert_eq!(fiber.resume(), FiberStep::Yielded);
    fiber.core.cancel();
    // Next resume: the fiber observes the cancel and returns.
    assert_eq!(fiber.resume(), FiberStep::Done);
    assert!(saw_cancel.get());
}

#[test]
fn cancellation_outside_fiber_is_false() {
    let host: Option<&Core> = None;
    assert!(!is_cancelled(host));
    assert!(!is_deadline_passed(host, u64::MAX));
    assert!(!should_yield_early(host, u64::MAX));
}

#[test]
fn deadline_in_the_past_triggers_should_yield() {
    let now = 1_000;
    let mut fiber = Scripted::new(vec![
        // First yield: the host sets a deadline before resuming again.
        Box::new(|_| Turn::Yielded),
        Box::new(move |running| {
            if should_yield_early(Some(&*running), now) {
                return Turn::Returned;
            }
            Turn::Yielded
        }),
    ]);

    assert_eq!(fiber.resume(), FiberStep::Yielded);
    // Set a deadline in the distant past.
    fiber.core.set_deadline_ms(0);
    assert_eq!(fiber.resume(), FiberStep::Done);
}

#[test]
fn deadlines_are_reached_and_cleared() {
    let mut fiber = Scripted::new(vec![]);
    assert_eq!(fiber.core.deadline_ms(), None);
    assert!(!fiber.core.is_deadline_passed(u64::MAX));
    fiber.core.set_deadline_ms(50);
    assert_eq!(fiber.core.deadline_ms(), Some(50));
    assert!(!fiber.core.is_deadline_passed(49));
    assert!(fiber.core.is_deadline_passed(50));
    fiber.core.set_deadline_ms(60);
    assert!(!fiber.core.is_deadline_passed(50));
    fiber.core.clear_deadline();
    assert!(!fiber.core.is_deadline_passed(60));
}

#[test]
fn yield_value_returns_resume_with_input() {
    // The fiber yields integers, doubled; the host hands in the next.
    let doubling = || -> Step {
        Box::new(|running| {
            let n: i64 = input(running).expect("initial input");
            yield_value(running, Box::new(n * 2));
            Turn::Yielded
        })
    };
    let mut fiber = Scripted::new(vec![doubling(), doubling(), doubling()]);

    assert_eq!(fiber.resume_with(10i64), FiberStep::Yielded);
    assert_eq!(fiber.take_yield_value::<i64>(), Some(20));

    assert_eq!(fiber.resume_with(50i64), FiberStep::Yielded);
    assert_eq!(fiber.take_yield_value::<i64>(), Some(100));

    assert_eq!(fiber.resume_with(7i64), FiberStep::Yielded);
    assert_eq!(fiber.take_yield_value::<i64>(), Some(14));

    assert_eq!(fiber.resume(), FiberStep::Done);
}

#[test]
fn yield_value_returns_none_for_wrong_type() {
    let mut fiber = Scripted::new(vec![
        Box::new(|running| {
            yield_value(running, Box::new("hello"));
            Turn::Yielded
        }),
        Box::new(|running| {
            // The host sent a String, not an i64: the claim fails.
            let received: Option<i64> = input(running);
            assert!(received.is_none());
            Turn::Returned
        }),
    ]);

    assert_eq!(fiber.resume(), FiberStep::Yielded);
    assert_eq!(fiber.take_yield_value::<&'static str>(), Some("hello"));
    assert_eq!(fiber.resume_with(String::from("oops")), FiberStep::Done);
}

#[test]
fn take_input_lets_first_call_receive_args() {
    let mut fiber = Scripted::new(vec![Box::new(|running| {
        let n: i64 = input(running).expect("first arg");
        assert_eq!(n, 42);
        Turn::Returned
    })]);
    assert_eq!(fiber.resume_with(42i64), FiberStep::Done);
}

#[test]
fn a_value_of_another_type_stays_to_be_claimed() {
    let mut fiber = Scripted::new(vec![Box::new(|running| {
        yield_value(running, Box::new(5u8));
        Turn::Yielded
    })]);
    fiber.resume();
    assert!(fiber.core.has_yield_value());
    assert_eq!(fiber.take_yield_value::<i64>(), None);
    assert!(fiber.core.has_yield_value());
    assert_eq!(fiber.take_yield_value::<u8>(), Some(5));
    assert!(!fiber.core.has_yield_value());
    assert_eq!(fiber.take_yield_value::<u8>(), None);
    assert!(fiber.core.take_yield_any().is_none());
}

#[test]
fn an_input_of_another_type_is_dropped() {
    let mut fiber = Scripted::new(vec![Box::new(|running| {
        let wrong: Option<i64> = input(running);
        assert_eq!(wrong, None);
        let right: Option<u8> = input(running);
        assert_eq!(right, None);
        Turn::Returned
    })]);
    fiber.resume_with(5u8);
}

#[test]
fn scalars_have_slots_of_their_own() {
    let mut fiber = Scripted::new(vec![Box::new(|running| {
        assert_eq!(take_input_u64(running), Some(9));
        assert_eq!(take_input_u64(running), None);
        yield_u64(running, 11);
        yield_value(running, Box::new("boxed"));
        Turn::Yielded
    })]);
    fiber.core.resume_with_u64(9);
    assert_eq!(fiber.run(), FiberStep::Yielded);
    assert_eq!(fiber.core.take_yield_u64(), Some(11));
    assert_eq!(fiber.core.take_yield_u64(), None);
    let boxed = fiber.core.take_yield_any().expect("the boxed value is left alone");
    assert_eq!(*boxed.downcast::<&'static str>().unwrap(), "boxed");
}

#[test]
fn fiber_can_resume_another_fiber_from_inside() {
    // A drives B from inside its own turns. Yields from B return to A, and
    // yields from A return to the host.
    let b = Rc::new(RefCell::new(Scripted::new(vec![
        Box::new(|running| {
            yield_value(running, Box::new("from b"));
            Turn::Yielded
        }),
        Box::new(|running| {
            yield_value(running, Box::new("from b again"));
            Turn::Yielded
        }),
    ])));
    let (first, second) = (b.clone(), b.clone());
    let mut a = Scripted::new(vec![
        Box::new(move |running| {
            // Drive B to its first yield.
            let mut b = first.borrow_mut();
            let step = b.resume();
            assert_eq!(step, FiberStep::Yielded);
            let from_b = b.take_yield_value::<&'static str>();
            assert_eq!(from_b, Some("from b"));
            // Yield to the host between B's yields.
            yield_value(running, Box::new("a midway"));
            Turn::Yielded
        }),
        Box::new(move |_| {
            // Drive B to its second yield, then to completion.
            let mut b = second.borrow_mut();
            let step = b.resume();
            assert_eq!(step, FiberStep::Yielded);
            assert_eq!(b.take_yield_value::<&'static str>(), Some("from b again"));
            assert_eq!(b.resume(), FiberStep::Done);
            Turn::Returned
        }),
    ]);

    assert_eq!(a.resume(), FiberStep::Yielded);
    assert_eq!(a.take_yield_value::<&'static str>(), Some("a midway"));
    assert_eq!(a.resume(), FiberStep::Done);
}

#[test]
fn nested_yield_doesnt_escape_to_outer_caller() {
    // When B (nested in A) yields, A runs again, not the host.
    let mut active = ActiveFibers::new();
    active.enter(1);
    active.enter(2);
    assert_eq!(current_fiber_id(&active), Some(2));
    assert_eq!(active.leave(), Some(2));
    assert_eq!(current_fiber_id(&active), Some(1));
    active.enter(2);
    assert_eq!(active.leave(), Some(2));
    assert_eq!(active.leave(), Some(1));
    assert_eq!(current_fiber_id(&active), None);
    assert_eq!(active.leave(), None);

    let visited = Rc::new(RefCell::new(Vec::<&'static str>::new()));
    let v = visited.clone();
    let mut a = Scripted::new(vec![Box::new(move |_| {
        v.borrow_mut().push("a-before");
        let mut b = Scripted::new(vec![
            pushing(&v, vec!["b-before"], yields),
            pushing(&v, vec!["b-after"], finishes),
        ]);
        let _ = b.resume(); // B yields, control comes back here
        v.borrow_mut().push("a-middle");
        let _ = b.resume(); // B finishes
        v.borrow_mut().push("a-after");
        Turn::Returned
    })]);

    assert_eq!(a.resume(), FiberStep::Done);
    assert_eq!(
        *visited.borrow(),
        vec!["a-before", "b-before", "a-middle", "b-after", "a-after"]
    );
}

#[test]
fn cancellation_persists_across_resumes() {
    // Once cancelled, a fiber stays cancelled until it exits.
    let observations = Rc::new(RefCell::new(Vec::new()));
    let observing = |turn: fn() -> Turn<Payload>| -> Step {
        let observations = observations.clone();
        Box::new(move |running: &mut Core| {
            observations.borrow_mut().push(is_cancelled(Some(&*running)));
            turn()
        })
    };
    let mut fiber = Scripted::new(vec![observing(yields), observing(yields), observing(finishes)]);

    assert_eq!(fiber.resume(), FiberStep::Yielded);
    fiber.core.cancel();
    assert_eq!(fiber.resume(), FiberStep::Yielded);
    assert_eq!(fiber.resume(), FiberStep::Done);
    assert_eq!(*observations.borrow(), vec![false, true, true]);
}

#[test]
fn fiber_ids_are_unique() {
    let mut ids = FiberIds::new();
    let a = Scripted::with_id(ids.next_fiber_id(), vec![]);
    let b = Scripted::with_id(ids.next_fiber_id(), vec![]);
    let c = Scripted::with_id(ids.next_fiber_id(), vec![]);
    assert_ne!(a.core.id(), b.core.id());
    assert_ne!(b.core.id(), c.core.id());
    assert_ne!(a.core.id(), c.core.id());
    assert_eq!(a.core.id(), 1);
}

#[test]
fn current_fiber_id_matches_inside() {
    let mut active = ActiveFibers::new();
    let fiber = Scripted::with_id(17, vec![]);
    let expected = fiber.core.id();
    active.enter(fiber.core.id());
    assert_eq!(current_fiber_id(&active), Some(expected));
}

#[test]
fn current_fiber_id_is_none_on_host() {
    assert!(current_fiber_id(&ActiveFibers::new()).is_none());
}

#[test]
fn fiber_name_round_trips() {
    let mut fiber = Scripted::new(vec![]);
    assert_eq!(fiber.core.name(), None);
    fiber.core.set_name("worker-1".to_string());
    assert_eq!(fiber.core.name(), Some("worker-1"));
    fiber.core.set_name(String::from("renamed"));
    assert_eq!(fiber.core.name(), Some("renamed"));
}

#[test]
fn yield_now_routes_to_the_host_once_one_volunteers() {
    // No stacks to switch, and nobody has volunteered.
    assert_eq!(yield_route(false, false, false), YieldRoute::Refuse);
    // Every yield point reaches the host once it has.
    assert_eq!(yield_route(false, false, true), YieldRoute::Host);
    // Where stacks can be switched, a yield belongs to a fiber.
    assert_eq!(yield_route(true, true, false), YieldRoute::Switch);
    assert_eq!(yield_route(true, false, false), YieldRoute::Refuse);
    assert_eq!(yield_route(true, false, true), YieldRoute::Refuse);
}

#[test]
fn saved_sp_window_lies_inside_registered_stack_range() {
    let mut fib = Scripted::new(yielding(2));
    let range = fib.core.stack_range();
    let lo = range.low;
    let hi = lo + range.len;
    // The first frame is the fiber's own, but means nothing to a scanner.
    assert_eq!(fib.core.saved_fp(), None);
    assert_eq!(fib.core.saved_ret(), None);
    fib.resume();
    let sp = fib.core.saved_sp();
    assert!(
        sp >= lo && sp < hi,
        "saved_sp {sp:#x} outside stack range [{lo:#x},{hi:#x})"
    );
    let fp = fib.core.saved_fp().expect("suspended fiber has a saved fp");
    assert_eq!(fp, sp + 56);
    let ret = fib.core.saved_ret().expect("suspended fiber has a saved ret");
    assert_eq!(ret, sp + 64);
    fib.resume();
    let sp2 = fib.core.saved_sp();
    assert!(sp2 >= lo && sp2 < hi);
    while !fib.core.is_done() {
        fib.resume();
    }
    assert_eq!(fib.core.saved_fp(), None);
}

#[test]
fn a_plain_resume_hands_nothing_in() {
    // The fiber leaves its first input alone, and asks after its next turn began.
    let mut fiber = Scripted::new(vec![
        Box::new(|running: &mut Core| {
            yield_value(running, Box::new(1i64));
            Turn::Yielded
        }),
        Box::new(|running: &mut Core| {
            let received: Option<i64> = input(running);
            yield_value(running, Box::new(received));
            Turn::Yielded
        }),
        Box::new(|running: &mut Core| {
            yield_value(running, Box::new(2i64));
            Turn::Yielded
        }),
        Box::new(|running: &mut Core| {
            let handed = (input::<i64>(running), take_input_u64(running));
            yield_value(running, Box::new(handed));
            Turn::Yielded
        }),
    ]);
    assert_eq!(fiber.resume_with(5i64), FiberStep::Yielded);
    assert_eq!(fiber.take_yield_value::<i64>(), Some(1));
    assert_eq!(fiber.resume(), FiberStep::Yielded);
    assert_eq!(fiber.take_yield_value::<Option<i64>>(), Some(None));

    // Nor does a scalar reach past one.
    fiber.core.resume_with_u64(7);
    assert_eq!(fiber.run(), FiberStep::Yielded);
    assert_eq!(fiber.resume(), FiberStep::Yielded);
    assert_eq!(fiber.take_yield_value::<(Option<i64>, Option<u64>)>(), Some((None, None)));
}

#[test]
fn an_input_of_one_kind_leaves_the_other_alone() {
    let idle = |running: &mut Core| {
        yield_value(running, Box::new(0i64));
        Turn::Yielded
    };
    let take_both = |running: &mut Core| {
        let handed = (input::<i64>(running), take_input_u64(running));
        yield_value(running, Box::new(handed));
        Turn::Yielded
    };
    let mut fiber = Scripted::new(vec![
        Box::new(idle),
        Box::new(take_both),
        Box::new(idle),
        Box::new(take_both),
        Box::new(idle),
        Box::new(take_both),
    ]);
    // Boxed and left alone, then a scalar.
    assert_eq!(fiber.resume_with(5i64), FiberStep::Yielded);
    fiber.core.resume_with_u64(7);
    assert_eq!(fiber.run(), FiberStep::Yielded);
    assert_eq!(fiber.take_yield_value::<(Option<i64>, Option<u64>)>(), Some((Some(5), Some(7))));
    // The other way round.
    fiber.core.resume_with_u64(9);
    assert_eq!(fiber.run(), FiberStep::Yielded);
    assert_eq!(fiber.resume_with(8i64), FiberStep::Yielded);
    assert_eq!(fiber.take_yield_value::<(Option<i64>, Option<u64>)>(), Some((Some(8), Some(9))));
    // Of one kind, the most recent counts.
    assert_eq!(fiber.resume_with(1i64), FiberStep::Yielded);
    assert_eq!(fiber.resume_with(2i64), FiberStep::Yielded);
    assert_eq!(fiber.take_yield_value::<(Option<i64>, Option<u64>)>(), Some((Some(2), None)));
}

#[test]
fn a_scheduler_is_told_of_panics_as_of_completion() {
    assert_eq!(FiberStep::Yielded.report(), Suspension::Yielded);
    assert_eq!(FiberStep::Done.report(), Suspension::Completed);
    assert_eq!(FiberStep::Errored.report(), Suspension::Completed);
}

#[test]
fn no_fiber_without_a_switch() {
    let range = StackRange { low: 4096, len: 65536 };
    let none: Option<Core> = Fiber::on_stack(1, Arch::Unsupported, range);
    assert!(none.is_none());
}
