//! The poll loop as a state machine: it waits, runs a sync pass, and waits
//! again, five minutes after a pass that brought a file and one minute
//! after a pass that brought none, until it is told to stop. The caller
//! sleeps, reads the cancellation flag and runs the passes; the decisions
//! are made here.

use vstd::prelude::*;

verus! {

/// Minutes to wait after a pass that stored at least one file, and before
/// the first pass.
pub const LONG_WAIT_MINS: usize = 5;

/// Minutes to wait after a pass that stored nothing.
pub const SHORT_WAIT_MINS: usize = 1;

/// Seconds in a minute: the flag is read once in each of them.
pub const SECS_PER_MIN: usize = 60;

/// Where the poll loop stands.
#[derive(Clone, Copy, Debug, PartialEq, Eq, Structural)]
pub enum PollState {
    /// In a wait of which `secs` seconds are left.
    Waiting { secs: usize },
    /// A sync pass is running.
    Syncing,
    /// The loop was told to stop and has returned.
    Stopped,
}

/// What the caller reports back to the loop.
#[derive(Clone, Copy, Debug, PartialEq, Eq, Structural)]
pub enum PollEvent {
    /// The cancellation flag was read in a wait: it was set, or it was not
    /// and one second has gone by since.
    Tick { cancelled: bool },
    /// The sync pass has ended; `downloaded` says whether it stored a file.
    Synced { downloaded: bool },
}

/// What the caller is to do next.
#[derive(Clone, Copy, Debug, PartialEq, Eq, Structural)]
pub enum PollAction {
    /// Read the cancellation flag; if it is not set, sleep one second.
    /// Then report a `Tick`.
    Sleep,
    /// Run one sync pass to its end and report `Synced`.
    Sync,
    /// Return: the loop has stopped.
    Return,
}

/// The state at the start of a wait of `mins` minutes. A wait of no time is
/// over at once.
pub open spec fn wait_state(mins: nat) -> PollState {
    if mins == 0 {
        PollState::Syncing
    } else {
        PollState::Waiting { secs: (mins * 60) as usize }
    }
}

/// What the loop asks for in a state.
pub open spec fn action_of(state: PollState) -> PollAction {
    match state {
        PollState::Waiting { .. } => PollAction::Sleep,
        PollState::Syncing => PollAction::Sync,
        PollState::Stopped => PollAction::Return,
    }
}

/// The state after an event. In a wait a set flag stops the loop at once,
/// and a second gone by shortens the wait or ends it; a pass is followed by
/// the long wait where it stored a file and by the short wait where it did
/// not. An event that does not belong to the state changes nothing: a pass
/// is not interrupted, and a stopped loop stays stopped.
pub open spec fn next_state(state: PollState, event: PollEvent) -> PollState {
    match (state, event) {
        (PollState::Waiting { secs }, PollEvent::Tick { cancelled }) => {
            if cancelled {
                PollState::Stopped
            } else if secs <= 1 {
                PollState::Syncing
            } else {
                PollState::Waiting { secs: (secs - 1) as usize }
            }
        },
        (PollState::Syncing, PollEvent::Synced { downloaded }) => {
            if downloaded {
                wait_state(LONG_WAIT_MINS as nat)
            } else {
                wait_state(SHORT_WAIT_MINS as nat)
            }
        },
        _ => state,
    }
}

/// The state after a sequence of events.
pub open spec fn state_after(state: PollState, events: Seq<PollEvent>) -> PollState
    decreases events.len(),
{
    if events.len() == 0 {
        state
    } else {
        next_state(state_after(state, events.drop_last()), events.last())
    }
}

/// What the loop asks for, one action after the other: first the action of
/// the state it starts in, then the action of the state after each event.
pub open spec fn actions_after(state: PollState, events: Seq<PollEvent>) -> Seq<PollAction> {
    Seq::new(events.len() + 1, |i: int| action_of(state_after(state, events.take(i))))
}

/// The state in which the loop starts: its first long wait.
pub open spec fn initial_state() -> PollState {
    wait_state(LONG_WAIT_MINS as nat)
}

impl PollState {
    /// The state in which the loop starts: its first long wait.
    pub fn start() -> (r: PollState)
        ensures
            r == initial_state(),
    {
        wait_mins(LONG_WAIT_MINS)
    }

    /// What the caller is to do in this state.
    pub fn action(&self) -> (r: PollAction)
        ensures
            r == action_of(*self),
    {
        match self {
            PollState::Waiting { .. } => PollAction::Sleep,
            PollState::Syncing => PollAction::Sync,
            PollState::Stopped => PollAction::Return,
        }
    }

    /// The state after the caller has reported `event`.
    pub fn step(self, event: PollEvent) -> (r: PollState)
        ensures
            r == next_state(self, event),
    {
        match (self, event) {
            (PollState::Waiting { secs }, PollEvent::Tick { cancelled }) => {
                if cancelled {
                    PollState::Stopped
                } else if secs <= 1 {
                    PollState::Syncing
                } else {
                    PollState::Waiting { secs: secs - 1 }
                }
            },
            (PollState::Syncing, PollEvent::Synced { downloaded }) => {
                if downloaded {
                    wait_mins(LONG_WAIT_MINS)
                } else {
                    wait_mins(SHORT_WAIT_MINS)
                }
            },
            _ => self,
        }
    }

    /// Whether the loop has stopped.
    pub fn is_stopped(&self) -> (r: bool)
        ensures
            r == (*self == PollState::Stopped),
    {
        match self {
            PollState::Stopped => true,
            _ => false,
        }
    }
}

/// Begins a wait of `mins` minutes: the state in which that many minutes,
/// counted in seconds, are left.
pub fn wait_mins(mins: usize) -> (r: PollState)
    requires
        mins * 60 <= usize::MAX,
    ensures
        r == wait_state(mins as nat),
{
    if mins == 0 {
        PollState::Syncing
    } else {
        PollState::Waiting { secs: mins * SECS_PER_MIN }
    }
}

/// Runs the poll loop over the events that its caller reports, from the
/// first long wait on: returns the state it ends in, and the actions it
/// asked for, the first before any event and one after each event.
pub fn run_loop(events: &Vec<PollEvent>) -> (r: (PollState, Vec<PollAction>))
    ensures
        r.0 == state_after(initial_state(), events@),
        r.1@ == actions_after(initial_state(), events@),
{
    let mut state = PollState::start();
    let mut actions: Vec<PollAction> = Vec::new();
    actions.push(state.action());
    let mut i: usize = 0;
    assert(events@.take(0) =~= Seq::<PollEvent>::empty());
    while i < events.len()
        invariant
            i <= events.len(),
            state == state_after(initial_state(), events@.take(i as int)),
            actions@.len() == i + 1,
            forall|k: int|
                0 <= k <= i ==> #[trigger] actions@[k] == action_of(
                    state_after(initial_state(), events@.take(k)),
                ),
        decreases events.len() - i,
    {
        assert(events@.take(i + 1).drop_last() =~= events@.take(i as int));
        state = state.step(events[i]);
        actions.push(state.action());
        i += 1;
    }
    assert(events@.take(i as int) =~= events@);
    assert(actions@ =~= actions_after(initial_state(), events@));
    (state, actions)
}

/// A set flag ends a wait at the next reading, whatever is left of it.
pub proof fn lemma_cancel_stops_wait(secs: usize)
    ensures
        next_state(PollState::Waiting { secs }, PollEvent::Tick { cancelled: true })
            == PollState::Stopped,
{
}

/// A stopped loop stays stopped, whatever is reported to it afterwards.
pub proof fn lemma_stopped_state(events: Seq<PollEvent>)
    ensures
        state_after(PollState::Stopped, events) == PollState::Stopped,
    decreases events.len(),
{
    if events.len() > 0 {
        lemma_stopped_state(events.drop_last());
    }
}

/// A stopped loop asks for no further pass and no further wait, whatever is
/// reported to it afterwards.
pub proof fn lemma_stopped_stays(events: Seq<PollEvent>)
    ensures
        state_after(PollState::Stopped, events) == PollState::Stopped,
        forall|i: int|
            0 <= i <= events.len() ==> #[trigger] actions_after(PollState::Stopped, events)[i]
                == PollAction::Return,
{
    lemma_stopped_state(events);
    assert forall|i: int| 0 <= i <= events.len() implies #[trigger] actions_after(
        PollState::Stopped,
        events,
    )[i] == PollAction::Return by {
        lemma_stopped_state(events.take(i));
    }
}

/// The events can be taken in two parts: the state after all of them is the
/// state after the second part, started where the first part ended.
pub proof fn lemma_state_after_parts(state: PollState, first: Seq<PollEvent>, rest: Seq<PollEvent>)
    ensures
        state_after(state, first + rest) == state_after(state_after(state, first), rest),
    decreases rest.len(),
{
    if rest.len() == 0 {
        assert(first + rest =~= first);
    } else {
        assert((first + rest).drop_last() =~= first + rest.drop_last());
        lemma_state_after_parts(state, first, rest.drop_last());
    }
}

/// Once the flag was found set in a wait, no pass follows: from the event
/// that reports it on, the loop only asks to return.
pub proof fn lemma_no_pass_after_cancel(
    state: PollState,
    before: Seq<PollEvent>,
    after: Seq<PollEvent>,
)
    requires
        state_after(state, before) is Waiting,
    ensures
        state_after(state, before.push(PollEvent::Tick { cancelled: true }) + after)
            == PollState::Stopped,
        forall|i: int|
            before.len() < i <= before.len() + 1 + after.len() ==> #[trigger] actions_after(
                state,
                before.push(PollEvent::Tick { cancelled: true }) + after,
            )[i] == PollAction::Return,
{
    let cancel = PollEvent::Tick { cancelled: true };
    let all = before.push(cancel) + after;
    assert(before.push(cancel).drop_last() =~= before);
    assert(state_after(state, before.push(cancel)) == PollState::Stopped);
    assert forall|i: int| before.len() < i <= all.len() implies #[trigger] actions_after(
        state,
        all,
    )[i] == PollAction::Return by {
        let tail = after.take(i - before.len() - 1);
        assert(all.take(i) =~= before.push(cancel) + tail);
        lemma_state_after_parts(state, before.push(cancel), tail);
        lemma_stopped_stays(tail);
    }
    lemma_state_after_parts(state, before.push(cancel), after);
    lemma_stopped_stays(after);
}

/// The wait that follows a pass: one minute where the pass stored nothing,
/// five where it stored a file. Neither wait grows with the number of
/// passes that stored nothing.
pub proof fn lemma_wait_after_pass(downloaded: bool)
    ensures
        next_state(PollState::Syncing, PollEvent::Synced { downloaded }) == (PollState::Waiting {
            secs: if downloaded {
                300usize
            } else {
                60usize
            },
        }),
{
}

/// A wait that is not cancelled ends after as many seconds as it began
/// with, and then a pass runs: after `k` of them the wait has `secs - k`
/// left, and after the last the loop is syncing.
pub proof fn lemma_wait_elapses(secs: usize, k: nat)
    requires
        0 < secs,
        k <= secs,
    ensures
        state_after(
            PollState::Waiting { secs },
            Seq::new(k, |i: int| PollEvent::Tick { cancelled: false }),
        ) == if k == secs {
            PollState::Syncing
        } else {
            PollState::Waiting { secs: (secs - k) as usize }
        },
    decreases k,
{
    let ticks = Seq::new(k, |i: int| PollEvent::Tick { cancelled: false });
    if k > 0 {
        let fewer = Seq::new((k - 1) as nat, |i: int| PollEvent::Tick { cancelled: false });
        assert(ticks.drop_last() =~= fewer);
        lemma_wait_elapses(secs, (k - 1) as nat);
    }
}

} // verus!
