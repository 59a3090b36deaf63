//! Stop-the-world safepoints.
use krio::parallel::safepoint::{Arrival, Safepoint};

#[test]
fn a_second_request_is_refused() {
    let mut sp = Safepoint::new();
    assert!(sp.request(), "first request owns the world");
    assert!(!sp.request(), "a second must not think it does too");
    assert!(sp.requested());
    sp.release();
    assert!(!sp.requested());
    assert!(sp.request(), "and it can be taken again afterwards");
}

#[test]
fn releasing_moves_the_state() {
    let mut sp = Safepoint::new();
    let before = sp.state();
    sp.request();
    sp.release();
    assert_ne!(
        sp.state(),
        before,
        "an agent parked on the old state must see it move"
    );
}

#[test]
fn releasing_without_a_stop_leaves_no_stop_behind() {
    // Shutdown releases unconditionally. If that bumped the word
    // anyway it would land on an odd value, and every agent would
    // read a stop nobody asked for.
    let mut sp = Safepoint::new();
    assert!(!sp.release());
    assert!(!sp.requested());
    sp.request();
    assert!(sp.release());
    assert!(!sp.release());
    assert!(!sp.requested(), "a second release must not re-arm one");
}

#[test]
fn entering_after_the_release_does_not_join_the_round() {
    // An agent that reads the stop, is descheduled, and arrives once it is
    // already over must walk straight back out rather than wait on a release
    // that has been and gone.
    let mut sp = Safepoint::new();
    sp.request();
    sp.release();
    assert_eq!(sp.enter(), None);
    assert_eq!(sp.stopped_count(), 0, "and is not counted into the next");
}

#[test]
fn an_agent_waits_for_the_round_it_entered() {
    let mut sp = Safepoint::new();
    sp.request();
    let round = sp.enter().expect("a stop is pending");
    assert_eq!(sp.stopped_count(), 1);
    assert!(!sp.over(round));
    sp.release();
    assert!(sp.over(round));
    sp.leave();
    assert_eq!(sp.stopped_count(), 0);
}

#[test]
fn the_requester_waits_for_everyone_else() {
    let mut sp = Safepoint::new();
    sp.request();
    assert_eq!(sp.await_all(2, false), Arrival::Wait);
    sp.enter();
    assert_eq!(sp.await_all(2, false), Arrival::Wait);
    sp.enter();
    assert_eq!(sp.await_all(2, false), Arrival::Complete);
    // A cluster that is shutting down stops waiting.
    assert_eq!(sp.await_all(3, true), Arrival::GaveUp);
}
