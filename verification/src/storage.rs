//! The protocol by which one handle to the shared engine state obtains
//! exclusive access to it.
//!
//! Every thread of control holds one handle. The handles share a coordinate:
//! a count of the live handles behind a lock, with a condition variable. A
//! handle that wants exclusive access sets the cancellation flag of the
//! engine, waits on the condition variable until the count is one, and resets
//! the flag when it is.
//!
//! The locking, waiting and waking is the caller's work. This module holds
//! what is decided: how the count moves, and what a request for exclusive
//! access does next. The caller performs each [`Action`] and reports what it
//! saw as the next [`Event`].
use vstd::prelude::*;

verus! {

/// The count after a handle was cloned.
pub open spec fn after_clone(clones: nat) -> nat {
    clones + 1
}

/// The count after a handle was dropped.
pub open spec fn after_drop(clones: nat) -> nat {
    (clones - 1) as nat
}

/// What the lock of a coordinate protects: the number of live handles.
pub struct Coordinate {
    clones: usize,
}

impl Coordinate {
    /// The number of live handles.
    pub closed spec fn count(&self) -> nat {
        self.clones as nat
    }

    /// The coordinate of a new engine: its first handle is the only one.
    pub fn new() -> (coordinate: Coordinate)
        ensures
            coordinate.count() == 1,
    {
        Coordinate { clones: 1 }
    }

    /// The number of live handles.
    pub fn clones(&self) -> (clones: usize)
        ensures
            clones == self.count(),
    {
        self.clones
    }

    /// Counts a handle that was cloned from a live one.
    pub fn handle_cloned(&mut self)
        requires
            old(self).count() < usize::MAX,
        ensures
            final(self).count() == after_clone(old(self).count()),
    {
        self.clones = self.clones + 1;
    }

    /// Counts out a handle that is being dropped. The caller then wakes all
    /// that wait on the condition variable.
    pub fn handle_dropped(&mut self)
        requires
            old(self).count() >= 1,
        ensures
            final(self).count() == after_drop(old(self).count()),
    {
        self.clones = self.clones - 1;
    }

    /// Whether the handle that asks is the only live one.
    pub fn is_exclusive(&self) -> (alone: bool)
        ensures
            alone == (self.count() == 1),
    {
        self.clones == 1
    }
}

/// How a handle stands to the engine state.
#[derive(Clone, Copy, Debug, PartialEq, Eq, Structural)]
pub enum Phase {
    /// It reads the state along with the other handles.
    Shared,
    /// It has asked for exclusive access and waits for the others to go.
    Cancelling,
    /// It is the only handle and may change the state.
    Exclusive,
}

/// What a handle reports to its request for exclusive access.
#[derive(Clone, Copy, Debug, PartialEq, Eq, Structural)]
pub enum Event {
    /// Exclusive access is wanted.
    Requested,
    /// The lock is held and the count reads `clones`.
    Observed { clones: usize },
    /// Exclusive access is given back.
    Released,
}

/// What the handle is to do next.
#[derive(Clone, Copy, Debug, PartialEq, Eq, Structural)]
pub enum Action {
    /// Set the cancellation flag of the engine, then take the lock and
    /// report the count.
    SetCancellationFlag,
    /// Wait on the condition variable, then report the count again.
    Wait,
    /// Release the lock, take the engine state as its only owner and reset
    /// the cancellation flag.
    ResetCancellationFlag,
    /// Nothing: the event does not belong to this phase.
    Nothing,
}

/// The phase that follows `phase` on `event`.
pub open spec fn next_phase(phase: Phase, event: Event) -> Phase {
    match (phase, event) {
        (Phase::Shared, Event::Requested) => Phase::Cancelling,
        (Phase::Cancelling, Event::Observed { clones }) => if clones == 1 {
            Phase::Exclusive
        } else {
            Phase::Cancelling
        },
        (Phase::Exclusive, Event::Released) => Phase::Shared,
        _ => phase,
    }
}

/// What is to be done on `event` in `phase`.
pub open spec fn next_action(phase: Phase, event: Event) -> Action {
    match (phase, event) {
        (Phase::Shared, Event::Requested) => Action::SetCancellationFlag,
        (Phase::Cancelling, Event::Observed { clones }) => if clones == 1 {
            Action::ResetCancellationFlag
        } else {
            Action::Wait
        },
        _ => Action::Nothing,
    }
}

/// The cancellation flag after `action` was performed.
pub open spec fn flag_after(flag: bool, action: Action) -> bool {
    match action {
        Action::SetCancellationFlag => true,
        Action::ResetCancellationFlag => false,
        _ => flag,
    }
}

/// One handle's request for exclusive access, from the asking to the giving
/// back.
pub struct ExclusiveRequest {
    phase: Phase,
}

impl ExclusiveRequest {
    /// The phase that the request is in.
    pub closed spec fn current(&self) -> Phase {
        self.phase
    }

    /// A handle that has not asked for anything.
    pub fn new() -> (request: ExclusiveRequest)
        ensures
            request.current() == Phase::Shared,
    {
        ExclusiveRequest { phase: Phase::Shared }
    }

    /// The phase that the request is in.
    pub fn phase(&self) -> (phase: Phase)
        ensures
            phase == self.current(),
    {
        self.phase
    }

    /// Takes in `event` and says what to do next. Exclusive access is
    /// reached from the waiting phase only, and only on a count of one.
    pub fn on_event(&mut self, event: Event) -> (action: Action)
        ensures
            final(self).current() == next_phase(old(self).current(), event),
            action == next_action(old(self).current(), event),
    {
        match self.phase {
            Phase::Shared => match event {
                Event::Requested => {
                    self.phase = Phase::Cancelling;
                    Action::SetCancellationFlag
                },
                _ => Action::Nothing,
            },
            Phase::Cancelling => match event {
                Event::Observed { clones } => {
                    if clones == 1 {
                        self.phase = Phase::Exclusive;
                        Action::ResetCancellationFlag
                    } else {
                        Action::Wait
                    }
                },
                _ => Action::Nothing,
            },
            Phase::Exclusive => match event {
                Event::Released => {
                    self.phase = Phase::Shared;
                    Action::Nothing
                },
                _ => Action::Nothing,
            },
        }
    }
}

/// The phase after the events of `events`, one after the other.
pub open spec fn phase_after(phase: Phase, events: Seq<Event>) -> Phase
    decreases events.len(),
{
    if events.len() == 0 {
        phase
    } else {
        next_phase(phase_after(phase, events.drop_last()), events.last())
    }
}

/// The cancellation flag after the actions that `events` called for were
/// performed, one after the other.
pub open spec fn flag_after_all(phase: Phase, flag: bool, events: Seq<Event>) -> bool
    decreases events.len(),
{
    if events.len() == 0 {
        flag
    } else {
        flag_after(
            flag_after_all(phase, flag, events.drop_last()),
            next_action(phase_after(phase, events.drop_last()), events.last()),
        )
    }
}

/// The cancellation flag is set exactly while the handle waits for exclusive
/// access: whatever is reported to a request that starts out shared with the
/// flag down, the flag is up in the waiting phase and down in the other two.
/// So a handle that was given exclusive access, or gave it back, does not
/// find itself cancelled.
pub proof fn lemma_flag_is_set_while_cancelling(events: Seq<Event>)
    ensures
        flag_after_all(Phase::Shared, false, events) == (phase_after(Phase::Shared, events)
            == Phase::Cancelling),
    decreases events.len(),
{
    if events.len() > 0 {
        lemma_flag_is_set_while_cancelling(events.drop_last());
    }
}

/// What a handle that goes away still holds.
///
/// A storage holds the state of its thread, a reference to the engine state,
/// and its place in the count. They are given up in that order: a handle
/// that waits for exclusive access takes a count of one to mean that nothing
/// else refers to the engine state.
#[derive(Clone, Copy, Debug, PartialEq, Eq, Structural)]
pub struct Teardown {
    /// The state of the thread has not been given back to the engine.
    pub local_state: bool,
    /// The reference to the engine state has not been released.
    pub engine: bool,
    /// The handle is counted among the live ones.
    pub counted: bool,
    /// The count has moved and the waiting handles have not been woken.
    pub unannounced: bool,
}

/// One step in giving up a handle.
#[derive(Clone, Copy, Debug, PartialEq, Eq, Structural)]
pub enum TeardownAction {
    /// Give the state of the thread back to the engine.
    ReleaseLocalState,
    /// Release the reference to the engine state.
    ReleaseEngine,
    /// Take the lock, count the handle out, release the lock.
    CountOut,
    /// Wake all that wait on the condition variable.
    WakeWaiters,
    /// Nothing is left to do.
    Nothing,
}

impl Teardown {
    /// A handle that is not counted holds nothing of the engine.
    pub open spec fn settled(self) -> bool {
        !self.counted ==> !self.local_state && !self.engine
    }

    /// What is to be done next.
    pub open spec fn action(self) -> TeardownAction {
        if self.local_state {
            TeardownAction::ReleaseLocalState
        } else if self.engine {
            TeardownAction::ReleaseEngine
        } else if self.counted {
            TeardownAction::CountOut
        } else if self.unannounced {
            TeardownAction::WakeWaiters
        } else {
            TeardownAction::Nothing
        }
    }

    /// What is held once [`Self::action`] has been done.
    pub open spec fn next(self) -> Teardown {
        match self.action() {
            TeardownAction::ReleaseLocalState => Teardown { local_state: false, ..self },
            TeardownAction::ReleaseEngine => Teardown { engine: false, ..self },
            TeardownAction::CountOut => Teardown { counted: false, unannounced: true, ..self },
            TeardownAction::WakeWaiters => Teardown { unannounced: false, ..self },
            TeardownAction::Nothing => self,
        }
    }

    /// What is held after `steps` steps.
    pub open spec fn after(self, steps: nat) -> Teardown
        decreases steps,
    {
        if steps == 0 {
            self
        } else {
            self.after((steps - 1) as nat).next()
        }
    }

    /// A live storage: it holds everything.
    pub fn of_storage() -> (teardown: Teardown)
        ensures
            teardown == (Teardown {
                local_state: true,
                engine: true,
                counted: true,
                unannounced: false,
            }),
    {
        Teardown { local_state: true, engine: true, counted: true, unannounced: false }
    }

    /// A live handle without the state of a thread.
    pub fn of_handle() -> (teardown: Teardown)
        ensures
            teardown == (Teardown {
                local_state: false,
                engine: true,
                counted: true,
                unannounced: false,
            }),
    {
        Teardown { local_state: false, engine: true, counted: true, unannounced: false }
    }

    /// Says what to do next, and takes it as done.
    pub fn step(&mut self) -> (action: TeardownAction)
        ensures
            action == old(self).action(),
            *final(self) == old(self).next(),
    {
        if self.local_state {
            self.local_state = false;
            TeardownAction::ReleaseLocalState
        } else if self.engine {
            self.engine = false;
            TeardownAction::ReleaseEngine
        } else if self.counted {
            self.counted = false;
            self.unannounced = true;
            TeardownAction::CountOut
        } else if self.unannounced {
            self.unannounced = false;
            TeardownAction::WakeWaiters
        } else {
            TeardownAction::Nothing
        }
    }
}

/// However far the teardown of a handle has come, the handle is counted as
/// long as it holds the state of its thread or a reference to the engine
/// state. After four steps nothing is held and nothing is left to do.
pub proof fn lemma_teardown_counts_out_last(teardown: Teardown, steps: nat)
    requires
        teardown.settled(),
    ensures
        teardown.after(steps).settled(),
        steps >= 4 ==> teardown.after(steps) == (Teardown {
            local_state: false,
            engine: false,
            counted: false,
            unannounced: false,
        }),
    decreases steps,
{
    if steps > 0 {
        lemma_teardown_counts_out_last(teardown, (steps - 1) as nat);
    }
    if steps >= 4 {
        reveal_with_fuel(Teardown::after, 5);
        let rest = (steps - 4) as nat;
        lemma_teardown_after_adds(teardown, 4, rest);
        lemma_teardown_stays_done(teardown.after(4), rest);
    }
}

/// Steps add up.
proof fn lemma_teardown_after_adds(teardown: Teardown, first: nat, then: nat)
    ensures
        teardown.after(first + then) == teardown.after(first).after(then),
    decreases then,
{
    if then > 0 {
        lemma_teardown_after_adds(teardown, first, (then - 1) as nat);
    }
}

/// Once nothing is held, nothing changes.
proof fn lemma_teardown_stays_done(teardown: Teardown, steps: nat)
    requires
        teardown.action() == TeardownAction::Nothing,
    ensures
        teardown.after(steps) == teardown,
    decreases steps,
{
    if steps > 0 {
        lemma_teardown_stays_done(teardown, (steps - 1) as nat);
    }
}

/// The handles of one engine, as a whole: which are alive, and what the
/// coordinate counts.
pub struct Handles {
    pub live: Set<nat>,
    pub clones: nat,
}

/// What can happen to a handle.
pub enum HandleOp {
    /// The live handle `from` is cloned; the clone is `to`.
    Clone { from: nat, to: nat },
    /// The live handle `handle` is dropped.
    Drop { handle: nat },
}

impl Handles {
    /// A new engine: one handle, counted.
    pub open spec fn initial(first: nat) -> Handles {
        Handles { live: set![first], clones: 1 }
    }

    /// The count is the number of live handles.
    pub open spec fn counted(self) -> bool {
        self.live.finite() && self.clones == self.live.len()
    }

    /// `op` can happen: only a live handle is cloned or dropped, and a clone
    /// is a handle that was not alive.
    pub open spec fn admits(self, op: HandleOp) -> bool {
        match op {
            HandleOp::Clone { from, to } => self.live.contains(from) && !self.live.contains(to),
            HandleOp::Drop { handle } => self.live.contains(handle),
        }
    }

    /// The handles after `op`, the count moved as [`Coordinate`] moves it.
    pub open spec fn apply(self, op: HandleOp) -> Handles {
        match op {
            HandleOp::Clone { from, to } => Handles {
                live: self.live.insert(to),
                clones: after_clone(self.clones),
            },
            HandleOp::Drop { handle } => Handles {
                live: self.live.remove(handle),
                clones: after_drop(self.clones),
            },
        }
    }

    /// The handles after `ops`, one after the other.
    pub open spec fn apply_all(self, ops: Seq<HandleOp>) -> Handles
        decreases ops.len(),
    {
        if ops.len() == 0 {
            self
        } else {
            self.apply_all(ops.drop_last()).apply(ops.last())
        }
    }

    /// Each of `ops` can happen when its turn comes.
    pub open spec fn admits_all(self, ops: Seq<HandleOp>) -> bool
        decreases ops.len(),
    {
        ops.len() == 0 || (self.admits_all(ops.drop_last()) && self.apply_all(
            ops.drop_last(),
        ).admits(ops.last()))
    }
}

/// Through any sequence of clones and drops the count stays the number of
/// live handles. It is therefore not zero while a handle is alive.
pub proof fn lemma_count_is_live_handles(handles: Handles, ops: Seq<HandleOp>)
    requires
        handles.counted(),
        handles.admits_all(ops),
    ensures
        handles.apply_all(ops).counted(),
        !handles.apply_all(ops).live.is_empty() ==> handles.apply_all(ops).clones >= 1,
    decreases ops.len(),
{
    if ops.len() > 0 {
        lemma_count_is_live_handles(handles, ops.drop_last());
    }
    let after = handles.apply_all(ops);
    if !after.live.is_empty() && after.clones == 0 {
        assert(after.live.len() == 0);
        assert(after.live =~= Set::empty());
    }
}

/// A request is given exclusive access only when its handle is the only one
/// alive: where the count is the number of live handles and the handle of the
/// request is among them, a report of that count leads a waiting request into
/// the exclusive phase exactly when no other handle is alive.
pub proof fn lemma_exclusive_only_when_alone(handles: Handles, requester: nat, observed: usize)
    requires
        handles.counted(),
        handles.live.contains(requester),
        observed == handles.clones,
    ensures
        next_phase(Phase::Cancelling, Event::Observed { clones: observed }) == Phase::Exclusive
            <==> handles.live == set![requester],
        next_phase(Phase::Cancelling, Event::Observed { clones: observed }) != Phase::Exclusive
            ==> next_action(Phase::Cancelling, Event::Observed { clones: observed })
            == Action::Wait,
{
    if handles.clones == 1 {
        assert(handles.live.remove(requester).len() == 0);
        assert(handles.live.remove(requester) =~= Set::empty());
        assert(handles.live =~= set![requester]);
    }
    if handles.live == set![requester] {
        assert(set![requester].len() == 1) by {
            assert(set![requester] =~= Set::<nat>::empty().insert(requester));
        }
    }
}

} // verus!
