//! A fiber between two switches.
use vstd::prelude::*;

use crate::fiber::frame::{saved_fp_offset, saved_ret_offset, Arch};
use crate::fiber::stack::{initial_sp, StackRange};
use crate::vocab::Suspension;

verus! {

/// Lifecycle state of a fiber, as a host sees it between two resumes.
#[derive(Debug, Clone, Copy, PartialEq, Eq, Structural)]
pub enum FiberState {
    /// Created but never resumed.
    New,
    /// Yielded back to the caller; can be resumed again.
    Suspended,
    /// The closure returned normally. The fiber cannot be resumed again.
    Done,
    /// The closure panicked. The fiber cannot be resumed again.
    Errored,
}

/// Result of a single resume.
#[derive(Debug, Clone, Copy, PartialEq, Eq, Structural)]
pub enum FiberStep {
    /// The fiber yielded; another resume will continue it.
    Yielded,
    /// The fiber's closure returned.
    Done,
    /// The fiber's closure panicked; the payload is kept on the fiber.
    Errored,
}

impl FiberStep {
    /// What a scheduler is told. A fiber that panicked will make no further
    /// progress either.
    pub fn report(self) -> (s: Suspension)
        ensures
            s == match self {
                FiberStep::Yielded => Suspension::Yielded,
                FiberStep::Done => Suspension::Completed,
                FiberStep::Errored => Suspension::Completed,
            },
    {
        match self {
            FiberStep::Yielded => Suspension::Yielded,
            FiberStep::Done => Suspension::Completed,
            FiberStep::Errored => Suspension::Completed,
        }
    }
}

/// How a switch into a fiber came back.
#[derive(Debug)]
pub enum Turn<E> {
    /// The fiber yielded.
    Yielded,
    /// Its closure returned.
    Returned,
    /// Its closure panicked with this payload.
    Panicked(E),
}

/// What a fiber is between two switches.
#[verifier::ext_equal]
pub struct FiberView<V, E> {
    pub id: u64,
    pub name: Option<Seq<char>>,
    pub state: FiberState,
    /// The panic payload, until it is taken.
    pub error: Option<E>,
    pub cancelled: bool,
    pub deadline_ms: Option<u64>,
    /// What the host has handed in, and the fiber has not taken.
    pub input: Option<V>,
    /// What the fiber has handed out, and the host has not taken.
    pub output: Option<V>,
    pub input_u64: Option<u64>,
    pub output_u64: Option<u64>,
    pub arch: Arch,
    pub stack: StackRange,
    /// Where the last switch out of the fiber left its stack pointer.
    pub sp: u64,
}

impl<V, E> FiberView<V, E> {
    /// A turn has begun.
    pub open spec fn begun(self) -> Self {
        FiberView { state: FiberState::Suspended, ..self }
    }

    /// A turn has begun, with nothing handed in. What an earlier resume handed in
    /// and the fiber has not taken is gone.
    pub open spec fn resumed(self) -> Self {
        FiberView { input: None, input_u64: None, ..self.begun() }
    }

    /// The host has handed `x` in.
    pub open spec fn handed(self, x: V) -> Self {
        FiberView { input: Some(x), ..self }
    }

    /// The host has handed the scalar `x` in.
    pub open spec fn handed_u64(self, x: u64) -> Self {
        FiberView { input_u64: Some(x), ..self }
    }

    /// The fiber has handed `x` out.
    pub open spec fn yielded(self, x: V) -> Self {
        FiberView { output: Some(x), ..self }
    }

    /// The fiber has handed the scalar `x` out.
    pub open spec fn yielded_u64(self, x: u64) -> Self {
        FiberView { output_u64: Some(x), ..self }
    }

    /// A turn has ended, with the stack pointer at `sp`.
    pub open spec fn finished(self, turn: Turn<E>, sp: u64) -> Self {
        FiberView {
            state: after_turn(turn),
            error: match turn {
                Turn::Panicked(e) => Some(e),
                _ => self.error,
            },
            sp,
            ..self
        }
    }
}

/// A stackful coroutine between two switches. `V` is what passes in and out of it,
/// `E` what its closure panics with.
pub struct Fiber<V, E> {
    /// Has the fiber been resumed at least once?
    started: bool,
    /// Has the closure returned or panicked?
    done: bool,
    /// Has the closure panicked?
    errored: bool,
    error_payload: Option<E>,
    cancelled: bool,
    deadline_ms: Option<u64>,
    input_slot: Option<V>,
    output_slot: Option<V>,
    input_u64: Option<u64>,
    output_u64: Option<u64>,
    id: u64,
    name: Option<String>,
    arch: Arch,
    stack: StackRange,
    fiber_sp: u64,
}

/// The lifecycle state that three flags stand for.
pub open spec fn state_of(started: bool, done: bool, errored: bool) -> FiberState {
    if !started {
        FiberState::New
    } else if !done {
        FiberState::Suspended
    } else if !errored {
        FiberState::Done
    } else {
        FiberState::Errored
    }
}

impl<V, E> Fiber<V, E> {
    pub closed spec fn view(&self) -> FiberView<V, E> {
        FiberView {
            id: self.id,
            name: match self.name {
                Some(n) => Some(n@),
                None => None,
            },
            state: state_of(self.started, self.done, self.errored),
            error: self.error_payload,
            cancelled: self.cancelled,
            deadline_ms: self.deadline_ms,
            input: self.input_slot,
            output: self.output_slot,
            input_u64: self.input_u64,
            output_u64: self.output_u64,
            arch: self.arch,
            stack: self.stack,
            sp: self.fiber_sp,
        }
    }

    /// A fiber that has not started is not over, one that panicked is, and the
    /// saved frame lies on the fiber's own stack.
    pub closed spec fn wf(&self) -> bool {
        &&& self.done ==> self.started
        &&& self.errored ==> self.done
        &&& self.arch.is_native()
        &&& self.stack.roomy(self.arch)
        &&& self.stack.holds_frame(self.arch, self.fiber_sp)
    }

    /// What `wf` says of the saved frame.
    pub proof fn lemma_frame_on_stack(&self)
        requires
            self.wf(),
        ensures
            self@.arch.is_native(),
            self@.stack.roomy(self@.arch),
            self@.stack.holds_frame(self@.arch, self@.sp),
    {
    }

    /// A fiber that has not started, under its process-unique id, with its first
    /// frame at the top of `stack`. `None` where there is no native context switch:
    /// better none than one that dies later.
    pub fn on_stack(id: u64, arch: Arch, stack: StackRange) -> (f: Option<Self>)
        requires
            stack.roomy(arch),
        ensures
            f is Some == arch.is_native(),
            f matches Some(f) ==> f.wf() && f@ == (FiberView::<V, E> {
                id,
                name: None,
                state: FiberState::New,
                error: None,
                cancelled: false,
                deadline_ms: None,
                input: None,
                output: None,
                input_u64: None,
                output_u64: None,
                arch,
                stack,
                sp: (stack.top() - stack.top() % 16 - arch.extent()) as u64,
            }),
    {
        match arch {
            Arch::Unsupported => None,
            _ => {
                let fiber_sp = initial_sp(arch, stack);
                Some(
                    Fiber {
                        started: false,
                        done: false,
                        errored: false,
                        error_payload: None,
                        cancelled: false,
                        deadline_ms: None,
                        input_slot: None,
                        output_slot: None,
                        input_u64: None,
                        output_u64: None,
                        id,
                        name: None,
                        arch,
                        stack,
                        fiber_sp,
                    },
                )
            },
        }
    }

    /// Lifecycle state of this fiber.
    pub fn state(&self) -> (s: FiberState)
        ensures
            s == self@.state,
    {
        if !self.started {
            FiberState::New
        } else if !self.done {
            FiberState::Suspended
        } else if !self.errored {
            FiberState::Done
        } else {
            FiberState::Errored
        }
    }

    /// Whether the fiber has reached a terminal state.
    pub fn is_done(&self) -> (b: bool)
        requires
            self.wf(),
        ensures
            b == (self@.state == FiberState::Done || self@.state == FiberState::Errored),
    {
        self.done
    }

    /// Begin a turn: the caller switches into the fiber next. The fiber must not
    /// have terminated. It gets no input, not even one that an earlier resume
    /// handed in and that it has not taken.
    pub fn resume(&mut self)
        requires
            old(self).wf(),
            may_resume(old(self)@.state),
        ensures
            final(self).wf(),
            final(self)@ == old(self)@.resumed(),
    {
        self.started = true;
        self.input_slot = None;
        self.input_u64 = None;
    }

    /// Begin a turn, handing `input` to the fiber. It takes the place of an earlier
    /// one that the fiber has not taken; a scalar that waits is left alone.
    pub fn resume_with(&mut self, input: V)
        requires
            old(self).wf(),
            may_resume(old(self)@.state),
        ensures
            final(self).wf(),
            final(self)@ == old(self)@.begun().handed(input),
    {
        self.started = true;
        self.input_slot = Some(input);
    }

    /// Begin a turn, handing a scalar to the fiber without boxing it. It takes the
    /// place of an earlier scalar that the fiber has not taken; a boxed input that
    /// waits is left alone.
    pub fn resume_with_u64(&mut self, input: u64)
        requires
            old(self).wf(),
            may_resume(old(self)@.state),
        ensures
            final(self).wf(),
            final(self)@ == old(self)@.begun().handed_u64(input),
    {
        self.started = true;
        self.input_u64 = Some(input);
    }

    /// End a turn: the caller is back from the switch, which left the fiber's stack
    /// pointer at `sp`.
    pub fn finish_turn(&mut self, turn: Turn<E>, sp: u64) -> (s: FiberStep)
        requires
            old(self).wf(),
            old(self)@.state == FiberState::Suspended,
            old(self)@.stack.holds_frame(old(self)@.arch, sp),
        ensures
            final(self).wf(),
            final(self)@ == old(self)@.finished(turn, sp),
            s == match turn {
                Turn::Yielded => FiberStep::Yielded,
                Turn::Returned => FiberStep::Done,
                Turn::Panicked(_) => FiberStep::Errored,
            },
    {
        self.fiber_sp = sp;
        match turn {
            Turn::Yielded => {},
            Turn::Returned => {
                self.done = true;
            },
            Turn::Panicked(payload) => {
                self.errored = true;
                self.error_payload = Some(payload);
                self.done = true;
            },
        }
        if !self.done {
            FiberStep::Yielded
        } else if !self.errored {
            FiberStep::Done
        } else {
            FiberStep::Errored
        }
    }

    /// Saved stack pointer: meaningful while the fiber is suspended.
    pub fn saved_sp(&self) -> (sp: u64)
        ensures
            sp == self@.sp,
    {
        self.fiber_sp
    }

    /// The fiber's usable stack region, without the guard page. The live window of
    /// a suspended fiber reaches from the saved stack pointer to its top.
    pub fn stack_range(&self) -> (r: StackRange)
        ensures
            r == self@.stack,
    {
        self.stack
    }

    /// Where the frame pointer of a suspended fiber is saved. `None` for a fiber
    /// that is not suspended: it has no saved state that means anything.
    pub fn saved_fp(&self) -> (slot: Option<u64>)
        requires
            self.wf(),
        ensures
            slot == if self@.state == FiberState::Suspended {
                Some((self@.sp + self@.arch.fp_offset()) as u64)
            } else {
                None
            },
    {
        match self.state() {
            FiberState::Suspended => Some(self.fiber_sp + saved_fp_offset(self.arch) as u64),
            _ => None,
        }
    }

    /// Where the return address of a suspended fiber is saved: the instruction it
    /// resumes at. `None` for a fiber that is not suspended.
    pub fn saved_ret(&self) -> (slot: Option<u64>)
        requires
            self.wf(),
        ensures
            slot == if self@.state == FiberState::Suspended {
                Some((self@.sp + self@.arch.ret_offset()) as u64)
            } else {
                None
            },
    {
        match self.state() {
            FiberState::Suspended => Some(self.fiber_sp + saved_ret_offset(self.arch) as u64),
            _ => None,
        }
    }

    /// Take the panic payload. `None` if the fiber did not panic or the payload
    /// has already been taken.
    pub fn take_error(&mut self) -> (e: Option<E>)
        ensures
            e == old(self)@.error,
            final(self)@ == (FiberView { error: None, ..old(self)@ }),
            old(self).wf() ==> final(self).wf(),
    {
        self.error_payload.take()
    }

    /// Set an absolute deadline. Replaces any previous one.
    pub fn set_deadline_ms(&mut self, deadline_ms: u64)
        ensures
            final(self)@ == (FiberView { deadline_ms: Some(deadline_ms), ..old(self)@ }),
            old(self).wf() ==> final(self).wf(),
    {
        self.deadline_ms = Some(deadline_ms);
    }

    /// Clear the deadline.
    pub fn clear_deadline(&mut self)
        ensures
            final(self)@ == (FiberView { deadline_ms: None, ..old(self)@ }),
            old(self).wf() ==> final(self).wf(),
    {
        self.deadline_ms = None;
    }

    /// The current deadline, if any.
    pub fn deadline_ms(&self) -> (d: Option<u64>)
        ensures
            d == self@.deadline_ms,
    {
        self.deadline_ms
    }

    /// Whether the deadline, if any, has been reached at clock reading `now`.
    pub fn is_deadline_passed(&self, now: u64) -> (b: bool)
        ensures
            b == (self@.deadline_ms matches Some(d) && now >= d),
    {
        match self.deadline_ms {
            Some(d) => now >= d,
            None => false,
        }
    }

    /// Mark this fiber as cancelled. The fiber polls the flag and bails out
    /// cooperatively.
    pub fn cancel(&mut self)
        ensures
            final(self)@ == (FiberView { cancelled: true, ..old(self)@ }),
            old(self).wf() ==> final(self).wf(),
    {
        self.cancelled = true;
    }

    /// Whether [`Fiber::cancel`] has been called.
    pub fn is_cancelled(&self) -> (b: bool)
        ensures
            b == self@.cancelled,
    {
        self.cancelled
    }

    /// Take the most recent yield as a scalar. The boxed slot is left alone.
    pub fn take_yield_u64(&mut self) -> (r: Option<u64>)
        ensures
            r == old(self)@.output_u64,
            final(self)@ == (FiberView { output_u64: None, ..old(self)@ }),
            old(self).wf() ==> final(self).wf(),
    {
        self.output_u64.take()
    }

    /// Take the most recently yielded value, if `claim` recognises it. A value
    /// that is not recognised is left in place, as `claim` hands it back, so
    /// another claim can be tried.
    pub fn take_yield_value<O, F: FnOnce(V) -> Result<O, V>>(&mut self, claim: F) -> (r: Option<O>)
        requires
            forall|v: V| call_requires(claim, (v,)),
        ensures
            old(self).wf() ==> final(self).wf(),
            match old(self)@.output {
                None => r is None && final(self)@ == old(self)@,
                Some(v) => exists|c: Result<O, V>| #[trigger]
                    call_ensures(claim, (v,), c) && match c {
                        Ok(o) => r == Some(o) && final(self)@ == (FiberView {
                            output: None,
                            ..old(self)@
                        }),
                        Err(back) => r is None && final(self)@ == (FiberView {
                            output: Some(back),
                            ..old(self)@
                        }),
                    },
            },
    {
        match self.output_slot.take() {
            None => None,
            Some(v) => match claim(v) {
                Ok(o) => Some(o),
                Err(back) => {
                    self.output_slot = Some(back);
                    None
                },
            },
        }
    }

    /// Take the most recently yielded value, whatever it is.
    pub fn take_yield_any(&mut self) -> (r: Option<V>)
        ensures
            r == old(self)@.output,
            final(self)@ == (FiberView { output: None, ..old(self)@ }),
            old(self).wf() ==> final(self).wf(),
    {
        self.output_slot.take()
    }

    /// Whether the fiber has a yielded value waiting to be taken.
    pub fn has_yield_value(&self) -> (b: bool)
        ensures
            b == (self@.output is Some),
    {
        self.output_slot.is_some()
    }

    /// Process-unique id, stable across resumes.
    pub fn id(&self) -> (id: u64)
        ensures
            id == self@.id,
    {
        self.id
    }

    /// Optional human-readable label.
    pub fn name(&self) -> (n: Option<&str>)
        ensures
            match n {
                Some(s) => self@.name == Some(s@),
                None => self@.name is None,
            },
    {
        match &self.name {
            Some(n) => Some(n.as_str()),
            None => None,
        }
    }

    /// Attach (or replace) a debugging label.
    pub fn set_name(&mut self, name: String)
        ensures
            final(self)@ == (FiberView { name: Some(name@), ..old(self)@ }),
            old(self).wf() ==> final(self).wf(),
    {
        self.name = Some(name);
    }
}

/// Hand `value` out to the host. The running fiber switches back next, and takes
/// the host's answer with [`take_input`] once it runs again. Replaces a value that
/// was not taken.
pub fn yield_value<V, E>(running: &mut Fiber<V, E>, value: V)
    ensures
        final(running)@ == old(running)@.yielded(value),
        old(running).wf() ==> final(running).wf(),
{
    running.output_slot = Some(value);
}

/// Hand a scalar out to the host, without boxing it. The answer is taken with
/// [`take_input_u64`].
pub fn yield_u64<V, E>(running: &mut Fiber<V, E>, value: u64)
    ensures
        final(running)@ == old(running)@.yielded_u64(value),
        old(running).wf() ==> final(running).wf(),
{
    running.output_u64 = Some(value);
}

/// Take what the host has handed in, if `claim` recognises it. Unlike a yielded
/// value, an input that is not recognised is dropped.
pub fn take_input<V, E, I, F: FnOnce(V) -> Result<I, V>>(
    running: &mut Fiber<V, E>,
    claim: F,
) -> (r: Option<I>)
    requires
        forall|v: V| call_requires(claim, (v,)),
    ensures
        final(running)@ == (FiberView { input: None, ..old(running)@ }),
        old(running).wf() ==> final(running).wf(),
        match old(running)@.input {
            None => r is None,
            Some(v) => exists|c: Result<I, V>| #[trigger]
                call_ensures(claim, (v,), c) && r == match c {
                    Ok(i) => Some(i),
                    Err(_) => None,
                },
        },
{
    match running.input_slot.take() {
        None => None,
        Some(v) => match claim(v) {
            Ok(i) => Some(i),
            Err(_) => None,
        },
    }
}

/// Take the scalar the host has handed in.
pub fn take_input_u64<V, E>(running: &mut Fiber<V, E>) -> (r: Option<u64>)
    ensures
        r == old(running)@.input_u64,
        final(running)@ == (FiberView { input_u64: None, ..old(running)@ }),
        old(running).wf() ==> final(running).wf(),
{
    running.input_u64.take()
}

/// Whether the running fiber has been cancelled. On the host stack there is no
/// fiber, and nothing is cancelled.
pub fn is_cancelled<V, E>(running: Option<&Fiber<V, E>>) -> (b: bool)
    ensures
        b == (running matches Some(f) && f@.cancelled),
{
    match running {
        Some(f) => f.is_cancelled(),
        None => false,
    }
}

/// Whether the running fiber's deadline has passed at clock reading `now`.
pub fn is_deadline_passed<V, E>(running: Option<&Fiber<V, E>>, now: u64) -> (b: bool)
    ensures
        b == (running matches Some(f) && f@.deadline_ms matches Some(d) && now >= d),
{
    match running {
        Some(f) => f.is_deadline_passed(now),
        None => false,
    }
}

/// The cooperative bail check: the running fiber has been cancelled, or its
/// deadline has passed at clock reading `now`.
pub fn should_yield_early<V, E>(running: Option<&Fiber<V, E>>, now: u64) -> (b: bool)
    ensures
        b == (running matches Some(f) && (f@.cancelled || (f@.deadline_ms matches Some(d) && now
            >= d))),
{
    is_cancelled(running) || is_deadline_passed(running, now)
}

/// Where a yield goes.
#[derive(Debug, Clone, Copy, PartialEq, Eq, Structural)]
pub enum YieldRoute {
    /// Switch back to whoever resumed the running fiber.
    Switch,
    /// Ask the host to suspend.
    Host,
    /// Refuse: a suspend that silently did nothing would change what the program
    /// means.
    Refuse,
}

/// Route a yield. Where the target can switch stacks, a yield must come from a
/// fiber; where it cannot, the host must have volunteered to suspend.
pub fn yield_route(can_switch: bool, in_fiber: bool, has_suspender: bool) -> (r: YieldRoute)
    ensures
        r == if can_switch {
            if in_fiber {
                YieldRoute::Switch
            } else {
                YieldRoute::Refuse
            }
        } else if has_suspender {
            YieldRoute::Host
        } else {
            YieldRoute::Refuse
        },
{
    if can_switch {
        if in_fiber {
            YieldRoute::Switch
        } else {
            YieldRoute::Refuse
        }
    } else if has_suspender {
        YieldRoute::Host
    } else {
        YieldRoute::Refuse
    }
}

/// Hands out fiber ids, from 1 on: 0 is the scheduler's own context.
#[derive(Debug)]
pub struct FiberIds {
    next: u64,
}

impl FiberIds {
    /// The id that is handed out next.
    pub closed spec fn view(&self) -> u64 {
        self.next
    }

    pub fn new() -> (ids: Self)
        ensures
            ids@ == 1,
    {
        FiberIds { next: 1 }
    }

    /// The next id. Never the same twice.
    pub fn next_fiber_id(&mut self) -> (id: u64)
        requires
            old(self)@ < u64::MAX,
        ensures
            id == old(self)@,
            final(self)@ == old(self)@ + 1,
    {
        let id: u64 = self.next;
        self.next = self.next + 1;
        id
    }
}

/// The fibers that are running on one thread: each was resumed by the one before
/// it, the first by the host.
#[derive(Debug)]
pub struct ActiveFibers {
    chain: Vec<u64>,
}

impl ActiveFibers {
    /// The chain of resumes, from the host's on.
    pub closed spec fn view(&self) -> Seq<u64> {
        self.chain@
    }

    /// Nothing is running but the host.
    pub fn new() -> (a: Self)
        ensures
            a@.len() == 0,
    {
        ActiveFibers { chain: Vec::new() }
    }

    /// A fiber is switched into.
    pub fn enter(&mut self, id: u64)
        ensures
            final(self)@ == old(self)@.push(id),
    {
        self.chain.push(id);
    }

    /// The running fiber is switched out of: whoever resumed it runs again.
    pub fn leave(&mut self) -> (id: Option<u64>)
        ensures
            old(self)@.len() == 0 ==> id is None && final(self)@ == old(self)@,
            old(self)@.len() > 0 ==> id == Some(old(self)@.last()) && final(self)@
                == old(self)@.drop_last(),
    {
        self.chain.pop()
    }

}

/// The running fiber's id, or `None` on the host stack.
pub fn current_fiber_id(active: &ActiveFibers) -> (id: Option<u64>)
    ensures
        id == if active@.len() == 0 {
            None
        } else {
            Some(active@.last())
        },
{
    let n: usize = active.chain.len();
    if n == 0 {
        None
    } else {
        Some(active.chain[n - 1])
    }
}

/// A fiber that is resumed from inside another hands control back to that one,
/// not to an outer caller: after the inner turn the outer chain is as it was.
pub proof fn law_nested_turns_do_not_escape(chain: Seq<u64>, inner: u64)
    ensures
        chain.push(inner).last() == inner,
        chain.push(inner).drop_last() == chain,
{
    assert(chain.push(inner).drop_last() =~= chain);
}

/// A fiber that has not terminated may be resumed.
pub open spec fn may_resume(s: FiberState) -> bool {
    s == FiberState::New || s == FiberState::Suspended
}

/// Where a turn leaves a fiber.
pub open spec fn after_turn<E>(turn: Turn<E>) -> FiberState {
    match turn {
        Turn::Yielded => FiberState::Suspended,
        Turn::Returned => FiberState::Done,
        Turn::Panicked(_) => FiberState::Errored,
    }
}

/// A fiber may be resumed again exactly when its last turn ended in a yield: once
/// it is over it stays over.
pub proof fn law_only_a_yield_leaves_more_to_run<E>(turn: Turn<E>)
    ensures
        may_resume(after_turn(turn)) <==> turn is Yielded,
        after_turn(turn) != FiberState::New,
{
}

/// Values pass both ways through a turn: the fiber finds what the host handed in,
/// and the host what the fiber handed out, boxed and scalar side by side.
pub proof fn law_values_pass_both_ways<V, E>(
    f: FiberView<V, E>,
    given: V,
    given_u64: u64,
    out: V,
    out_u64: u64,
    turn: Turn<E>,
    sp: u64,
)
    ensures
        f.begun().handed(given).input == Some(given),
        f.begun().handed_u64(given_u64).input_u64 == Some(given_u64),
        f.yielded(out).finished(turn, sp).output == Some(out),
        f.yielded_u64(out_u64).finished(turn, sp).output_u64 == Some(out_u64),
        f.yielded_u64(out_u64).finished(turn, sp).output == f.output,
{
}

/// A plain resume hands nothing in: whatever came before, a fiber that is resumed
/// without an input finds none, boxed or scalar.
pub proof fn law_a_plain_resume_hands_nothing_in<V, E>(
    f: FiberView<V, E>,
    stale: V,
    stale_u64: u64,
    turn: Turn<E>,
    sp: u64,
)
    ensures
        ({
            let before = f.handed(stale).handed_u64(stale_u64).finished(turn, sp);
            &&& before.resumed().input is None
            &&& before.resumed().input_u64 is None
        }),
{
}

/// The two ways in are apart: a fiber finds the most recent input of each kind, and
/// one of a kind neither hides nor uses up one of the other.
pub proof fn law_the_ways_in_are_apart<V, E>(
    f: FiberView<V, E>,
    stale: V,
    stale_u64: u64,
    given: V,
    given_u64: u64,
    turn: Turn<E>,
    sp: u64,
)
    ensures
        ({
            let before = f.handed(stale).handed_u64(stale_u64).finished(turn, sp);
            &&& before.begun().handed(given).input == Some(given)
            &&& before.begun().handed(given).input_u64 == Some(stale_u64)
            &&& before.begun().handed_u64(given_u64).input_u64 == Some(given_u64)
            &&& before.begun().handed_u64(given_u64).input == Some(stale)
        }),
{
}

/// What the host has set on a fiber, and where the fiber lives, is the same.
pub open spec fn same_settings<V, E>(f: FiberView<V, E>, g: FiberView<V, E>) -> bool {
    &&& f.id == g.id
    &&& f.name == g.name
    &&& f.cancelled == g.cancelled
    &&& f.deadline_ms == g.deadline_ms
    &&& f.arch == g.arch
    &&& f.stack == g.stack
}

/// A turn changes nothing that the host has set, however it begins and ends: what
/// names the fiber, its cancellation and its deadline stay, and so does its stack.
/// What the fiber has handed out waits until it is taken, and so does a panic.
pub proof fn law_turns_keep_what_the_host_set<V, E>(
    f: FiberView<V, E>,
    given: V,
    given_u64: u64,
    out: V,
    out_u64: u64,
    turn: Turn<E>,
    sp: u64,
)
    ensures
        same_settings(f.resumed(), f),
        same_settings(f.begun().handed(given), f),
        same_settings(f.begun().handed_u64(given_u64), f),
        same_settings(f.yielded(out), f),
        same_settings(f.yielded_u64(out_u64), f),
        same_settings(f.finished(turn, sp), f),
        forall|g: FiberView<V, E>| #[trigger]
            begins(f, g) ==> {
                &&& g.output == f.output
                &&& g.output_u64 == f.output_u64
                &&& g.error == f.error
                &&& g.sp == f.sp
                &&& g.state == FiberState::Suspended
            },
        f.yielded(out).output_u64 == f.output_u64,
        f.yielded(out).input == f.input,
        f.yielded(out).input_u64 == f.input_u64,
        f.yielded(out).error == f.error,
        f.yielded(out).state == f.state,
        f.yielded(out).sp == f.sp,
        f.yielded_u64(out_u64).output == f.output,
        f.yielded_u64(out_u64).input == f.input,
        f.yielded_u64(out_u64).input_u64 == f.input_u64,
        f.yielded_u64(out_u64).error == f.error,
        f.yielded_u64(out_u64).state == f.state,
        f.yielded_u64(out_u64).sp == f.sp,
        f.finished(turn, sp).input == f.input,
        f.finished(turn, sp).input_u64 == f.input_u64,
        f.finished(turn, sp).output == f.output,
        f.finished(turn, sp).output_u64 == f.output_u64,
        f.finished(turn, sp).sp == sp,
        f.begun().finished(turn, sp).id == f.id,
        f.begun().finished(turn, sp).name == f.name,
        f.begun().finished(turn, sp).cancelled == f.cancelled,
        f.begun().finished(turn, sp).deadline_ms == f.deadline_ms,
        f.begun().finished(turn, sp).stack == f.stack,
        f.resumed().finished(turn, sp) == (FiberView {
            input: None,
            input_u64: None,
            ..f.begun().finished(turn, sp)
        }),
{
}

/// `g` is `f` at the begin of a turn, whatever is handed in.
pub open spec fn begins<V, E>(f: FiberView<V, E>, g: FiberView<V, E>) -> bool {
    ||| g == f.resumed()
    ||| exists|x: V| g == #[trigger] f.begun().handed(x)
    ||| exists|x: u64| g == #[trigger] f.begun().handed_u64(x)
}

/// How a turn ended tells what becomes of the fiber: after a yield it can go on,
/// after a return it is done, after a panic it is over and the payload is kept. Only
/// a panic leaves a payload behind.
pub proof fn law_a_turn_ends_as_it_says<V, E>(f: FiberView<V, E>, turn: Turn<E>, sp: u64)
    ensures
        match turn {
            Turn::Yielded => {
                &&& f.finished(turn, sp).state == FiberState::Suspended
                &&& f.finished(turn, sp).error == f.error
            },
            Turn::Returned => {
                &&& f.finished(turn, sp).state == FiberState::Done
                &&& f.finished(turn, sp).error == f.error
            },
            Turn::Panicked(payload) => {
                &&& f.finished(turn, sp).state == FiberState::Errored
                &&& f.finished(turn, sp).error == Some(payload)
            },
        },
{
}

/// What may happen to a fiber, from the host's side and from its own.
pub enum FiberEvent<V, E> {
    Resume,
    ResumeWith(V),
    ResumeWithU64(u64),
    Yield(V),
    YieldU64(u64),
    TurnEnds(Turn<E>, u64),
    Cancel,
    SetDeadline(u64),
    ClearDeadline,
    SetName(Seq<char>),
    TakeYield,
    TakeYieldU64,
    TakeInput,
    TakeInputU64,
    TakeError,
}

impl<V, E> FiberView<V, E> {
    /// The fiber once this has happened.
    pub open spec fn then_sees(self, event: FiberEvent<V, E>) -> Self {
        match event {
            FiberEvent::Resume => self.resumed(),
            FiberEvent::ResumeWith(x) => self.begun().handed(x),
            FiberEvent::ResumeWithU64(x) => self.begun().handed_u64(x),
            FiberEvent::Yield(x) => self.yielded(x),
            FiberEvent::YieldU64(x) => self.yielded_u64(x),
            FiberEvent::TurnEnds(turn, sp) => self.finished(turn, sp),
            FiberEvent::Cancel => FiberView { cancelled: true, ..self },
            FiberEvent::SetDeadline(ms) => FiberView { deadline_ms: Some(ms), ..self },
            FiberEvent::ClearDeadline => FiberView { deadline_ms: None, ..self },
            FiberEvent::SetName(name) => FiberView { name: Some(name), ..self },
            FiberEvent::TakeYield => FiberView { output: None, ..self },
            FiberEvent::TakeYieldU64 => FiberView { output_u64: None, ..self },
            FiberEvent::TakeInput => FiberView { input: None, ..self },
            FiberEvent::TakeInputU64 => FiberView { input_u64: None, ..self },
            FiberEvent::TakeError => FiberView { error: None, ..self },
        }
    }

    /// The fiber once all of this has happened.
    pub open spec fn lives_through(self, events: Seq<FiberEvent<V, E>>) -> Self
        decreases events.len(),
    {
        if events.len() == 0 {
            self
        } else {
            self.lives_through(events.drop_last()).then_sees(events.last())
        }
    }
}

/// A cancellation is for good: whatever a fiber lives through, it is cancelled
/// afterwards exactly if it was before or has been meanwhile.
pub proof fn law_a_cancelled_fiber_stays_cancelled<V, E>(
    f: FiberView<V, E>,
    events: Seq<FiberEvent<V, E>>,
)
    ensures
        f.lives_through(events).cancelled <==> f.cancelled || exists|i: int|
            0 <= i < events.len() && #[trigger] events[i] is Cancel,
    decreases events.len(),
{
    if events.len() > 0 {
        let front = events.drop_last();
        law_a_cancelled_fiber_stays_cancelled(f, front);
        if exists|i: int| 0 <= i < front.len() && #[trigger] front[i] is Cancel {
            let i = choose|i: int| 0 <= i < front.len() && #[trigger] front[i] is Cancel;
            assert(events[i] is Cancel);
        }
        if exists|i: int| 0 <= i < events.len() && #[trigger] events[i] is Cancel {
            let i = choose|i: int| 0 <= i < events.len() && #[trigger] events[i] is Cancel;
            if i < front.len() {
                assert(front[i] is Cancel);
            }
        }
    }
}

/// A fiber keeps its id and its stack for life, and its deadline and its name as
/// long as nobody sets them anew.
pub proof fn law_only_the_host_changes_its_settings<V, E>(
    f: FiberView<V, E>,
    events: Seq<FiberEvent<V, E>>,
)
    ensures
        f.lives_through(events).id == f.id,
        f.lives_through(events).arch == f.arch,
        f.lives_through(events).stack == f.stack,
        (forall|i: int|
            0 <= i < events.len() ==> !(#[trigger] events[i] is SetDeadline || events[i]
                is ClearDeadline)) ==> f.lives_through(events).deadline_ms == f.deadline_ms,
        (forall|i: int| 0 <= i < events.len() ==> !(#[trigger] events[i] is SetName))
            ==> f.lives_through(events).name == f.name,
    decreases events.len(),
{
    if events.len() > 0 {
        let front = events.drop_last();
        law_only_the_host_changes_its_settings(f, front);
        assert(events[events.len() - 1] == events.last());
        assert(forall|i: int| 0 <= i < front.len() ==> #[trigger] front[i] == events[i]);
    }
}

/// What is handed in waits for the fiber: through anything but a plain resume, a
/// later input of the same kind, or its being taken.
pub proof fn law_an_input_waits_to_be_taken<V, E>(
    f: FiberView<V, E>,
    given: V,
    given_u64: u64,
    events: Seq<FiberEvent<V, E>>,
)
    ensures
        (forall|i: int|
            0 <= i < events.len() ==> !(#[trigger] events[i] is Resume || events[i] is ResumeWith
                || events[i] is TakeInput)) ==> f.then_sees(
            FiberEvent::ResumeWith(given),
        ).lives_through(events).input == Some(given),
        (forall|i: int|
            0 <= i < events.len() ==> !(#[trigger] events[i] is Resume || events[i]
                is ResumeWithU64 || events[i] is TakeInputU64)) ==> f.then_sees(
            FiberEvent::ResumeWithU64(given_u64),
        ).lives_through(events).input_u64 == Some(given_u64),
    decreases events.len(),
{
    if events.len() > 0 {
        let front = events.drop_last();
        law_an_input_waits_to_be_taken(f, given, given_u64, front);
        assert(events[events.len() - 1] == events.last());
        assert(forall|i: int| 0 <= i < front.len() ==> #[trigger] front[i] == events[i]);
    }
}

/// What is handed out waits for the host: through anything but a later output of the
/// same kind, or its being taken.
pub proof fn law_an_output_waits_to_be_taken<V, E>(
    f: FiberView<V, E>,
    out: V,
    out_u64: u64,
    events: Seq<FiberEvent<V, E>>,
)
    ensures
        (forall|i: int|
            0 <= i < events.len() ==> !(#[trigger] events[i] is Yield || events[i] is TakeYield))
            ==> f.then_sees(FiberEvent::Yield(out)).lives_through(events).output == Some(out),
        (forall|i: int|
            0 <= i < events.len() ==> !(#[trigger] events[i] is YieldU64 || events[i]
                is TakeYieldU64)) ==> f.then_sees(
            FiberEvent::YieldU64(out_u64),
        ).lives_through(events).output_u64 == Some(out_u64),
    decreases events.len(),
{
    if events.len() > 0 {
        let front = events.drop_last();
        law_an_output_waits_to_be_taken(f, out, out_u64, front);
        assert(events[events.len() - 1] == events.last());
        assert(forall|i: int| 0 <= i < front.len() ==> #[trigger] front[i] == events[i]);
    }
}

/// A panic payload waits to be taken: through anything but another panic, or its
/// being taken.
pub proof fn law_a_panic_waits_to_be_taken<V, E>(
    f: FiberView<V, E>,
    payload: E,
    sp: u64,
    events: Seq<FiberEvent<V, E>>,
)
    requires
        forall|i: int|
            0 <= i < events.len() ==> !(#[trigger] events[i] is TakeError || (events[i]
                is TurnEnds && events[i]->TurnEnds_0 is Panicked)),
    ensures
        f.then_sees(FiberEvent::TurnEnds(Turn::Panicked(payload), sp)).lives_through(events).error
            == Some(payload),
    decreases events.len(),
{
    if events.len() > 0 {
        let front = events.drop_last();
        assert(forall|i: int| 0 <= i < front.len() ==> #[trigger] front[i] == events[i]);
        law_a_panic_waits_to_be_taken(f, payload, sp, front);
        assert(events[events.len() - 1] == events.last());
    }
}

/// The three flags of a fiber tell its state: new until it is first resumed, then
/// over exactly when its closure has returned or panicked.
pub proof fn law_flags_tell_the_state(started: bool, done: bool, errored: bool)
    ensures
        state_of(started, done, errored) == FiberState::New <==> !started,
        state_of(started, done, errored) == FiberState::Suspended <==> started && !done,
        state_of(started, done, errored) == FiberState::Errored <==> started && done && errored,
        started ==> may_resume(state_of(started, done, errored)) == !done,
        may_resume(FiberState::New),
        may_resume(FiberState::Suspended),
        !may_resume(FiberState::Done),
        !may_resume(FiberState::Errored),
{
}

/// The saved registers of a fiber, its frame pointer and its return address among
/// them, lie in the window that a scan of its stack covers.
pub proof fn law_scan_window_covers_the_saved_frame<V, E>(f: &Fiber<V, E>)
    requires
        f.wf(),
    ensures
        f@.stack.low <= f@.sp < f@.stack.top(),
        f@.sp + f@.arch.fp_offset() + f@.arch.word() <= f@.stack.top(),
        f@.sp + f@.arch.ret_offset() + f@.arch.word() <= f@.stack.top(),
        f@.sp + f@.arch.extent() <= f@.stack.top(),
{
    f.lemma_frame_on_stack();
}

} // verus!
