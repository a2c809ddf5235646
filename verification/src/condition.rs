//! Waiting in a test until something holds of a model or a view.
use vstd::prelude::*;

verus! {

/// What is waited for.
#[derive(Clone, Copy, Debug, PartialEq, Eq, Structural)]
pub enum Watched {
    Model,
    View,
}

/// For how many milliseconds a condition may fail to hold. A build machine is given more time.
pub open spec fn patience(watched: Watched, build_machine: bool) -> u64 {
    match watched {
        Watched::Model => if build_machine {
            5000
        } else {
            1000
        },
        Watched::View => if build_machine {
            2000
        } else {
            500
        },
    }
}

/// For how many milliseconds a condition may fail to hold.
pub fn condition_timeout(watched: Watched, build_machine: bool) -> (r: u64)
    ensures
        r == patience(watched, build_machine),
{
    match watched {
        Watched::Model => if build_machine {
            5000
        } else {
            1000
        },
        Watched::View => if build_machine {
            2000
        } else {
            500
        },
    }
}

/// Why a condition can no longer come to hold.
#[derive(Clone, Copy, Debug, PartialEq, Eq, Structural)]
pub enum ConditionFailure {
    Dropped(Watched),
    TimedOut,
}

impl ConditionFailure {
    /// What the failed test says.
    pub fn message(&self) -> (r: String)
        ensures
            r@ == (match *self {
                ConditionFailure::Dropped(Watched::Model) => "model dropped with pending condition"@,
                ConditionFailure::Dropped(Watched::View) => "view dropped with pending condition"@,
                ConditionFailure::TimedOut => "condition timed out"@,
            }),
    {
        match self {
            ConditionFailure::Dropped(Watched::Model) =>
                "model dropped with pending condition".to_owned(),
            ConditionFailure::Dropped(Watched::View) =>
                "view dropped with pending condition".to_owned(),
            ConditionFailure::TimedOut => "condition timed out".to_owned(),
        }
    }
}

/// Something that happens while a condition is waited for.
#[derive(Clone, Copy, Debug, PartialEq, Eq, Structural)]
pub enum ConditionEvent {
    /// The condition was looked at; there is no answer if the entity is gone.
    Checked { holds: Option<bool> },
    /// The entity changed or emitted an event.
    Changed,
    /// Nobody can tell of a change any more.
    Closed,
    /// The time is up.
    Elapsed,
}

/// Where the wait stands.
#[derive(Clone, Copy, Debug, PartialEq, Eq, Structural)]
pub enum ConditionState {
    /// The condition is to be looked at.
    Check,
    /// The next change is waited for.
    Wait,
    Met,
    Failed(ConditionFailure),
}

/// The wait for a condition.
#[derive(Clone, Copy, Debug, PartialEq, Eq, Structural)]
pub struct Condition {
    pub watched: Watched,
    pub state: ConditionState,
}

/// How the wait goes on. A wait that is over stays as it is, and an event that does not belong to
/// the state changes nothing.
pub open spec fn condition_after(c: Condition, event: ConditionEvent) -> ConditionState {
    match (c.state, event) {
        (ConditionState::Check, ConditionEvent::Checked { holds: Some(true) }) =>
            ConditionState::Met,
        (ConditionState::Check, ConditionEvent::Checked { holds: Some(false) }) =>
            ConditionState::Wait,
        (ConditionState::Check, ConditionEvent::Checked { holds: None }) => ConditionState::Failed(
            ConditionFailure::Dropped(c.watched),
        ),
        (ConditionState::Wait, ConditionEvent::Changed) => ConditionState::Check,
        (ConditionState::Wait, ConditionEvent::Closed) => ConditionState::Failed(
            ConditionFailure::Dropped(c.watched),
        ),
        (ConditionState::Wait, ConditionEvent::Elapsed) => ConditionState::Failed(
            ConditionFailure::TimedOut,
        ),
        (state, _) => state,
    }
}

impl Condition {
    /// A condition that has not been looked at.
    pub fn new(watched: Watched) -> (r: Condition)
        ensures
            r == (Condition { watched, state: ConditionState::Check }),
    {
        Condition { watched, state: ConditionState::Check }
    }

    /// Takes an event.
    pub fn take(&mut self, event: ConditionEvent)
        ensures
            *final(self) == (Condition {
                state: condition_after(*old(self), event),
                ..*old(self)
            }),
    {
        let dropped: ConditionState = ConditionState::Failed(
            ConditionFailure::Dropped(self.watched),
        );
        match self.state {
            ConditionState::Check => match event {
                ConditionEvent::Checked { holds } => {
                    self.state = match holds {
                        Some(true) => ConditionState::Met,
                        Some(false) => ConditionState::Wait,
                        None => dropped,
                    };
                },
                _ => {},
            },
            ConditionState::Wait => match event {
                ConditionEvent::Changed => {
                    self.state = ConditionState::Check;
                },
                ConditionEvent::Closed => {
                    self.state = dropped;
                },
                ConditionEvent::Elapsed => {
                    self.state = ConditionState::Failed(ConditionFailure::TimedOut);
                },
                _ => {},
            },
            _ => {},
        }
    }
}

/// The condition after a list of events.
pub open spec fn condition_after_all(c: Condition, events: Seq<ConditionEvent>) -> Condition
    decreases events.len(),
{
    if events.len() == 0 {
        c
    } else {
        let before = condition_after_all(c, events.drop_last());
        Condition { state: condition_after(before, events.last()), ..before }
    }
}

/// A condition counts as met only after it was seen to hold.
pub proof fn met_only_if_seen(watched: Watched, events: Seq<ConditionEvent>)
    requires
        condition_after_all(
            Condition { watched, state: ConditionState::Check },
            events,
        ).state is Met,
    ensures
        events.contains(ConditionEvent::Checked { holds: Some(true) }),
    decreases events.len(),
{
    let start = Condition { watched, state: ConditionState::Check };
    if events.len() > 0 {
        let before = condition_after_all(start, events.drop_last());
        if before.state is Met {
            met_only_if_seen(watched, events.drop_last());
            let seen = ConditionEvent::Checked { holds: Some(true) };
            let i = choose|i: int|
                0 <= i < events.drop_last().len() && events.drop_last()[i] == seen;
            assert(events[i] == seen);
        } else {
            assert(events[events.len() - 1] == events.last());
        }
    }
}

/// A wait that is over stays over.
pub proof fn over_is_over(c: Condition, event: ConditionEvent)
    requires
        c.state is Met || c.state is Failed,
    ensures
        condition_after(c, event) == c.state,
{
}

/// The one thing that is waited for by a test.
#[derive(Clone, Copy, Debug, PartialEq, Eq, Structural)]
pub enum Awaited {
    Notification,
    Event,
}

/// What came of the wait.
#[derive(Clone, Copy, Debug, PartialEq, Eq, Structural)]
pub enum WaitResult {
    Came,
    Dropped,
    TimedOut,
}

/// For how many milliseconds the next notification or event of a model is waited for.
pub fn next_timeout(build_machine: bool) -> (r: u64)
    ensures
        r == patience(Watched::Model, build_machine),
{
    condition_timeout(Watched::Model, build_machine)
}

/// What the test says when the notification or event did not come.
pub fn wait_failure(awaited: Awaited, result: WaitResult) -> (r: Option<String>)
    ensures
        r is None <==> result is Came,
        r matches Some(text) ==> text@ == match (awaited, result) {
            (Awaited::Notification, WaitResult::TimedOut) => "next notification timed out"@,
            (Awaited::Event, WaitResult::TimedOut) => "next event timed out"@,
            (Awaited::Notification, _) =>
                "model dropped while test was waiting for its next notification"@,
            (Awaited::Event, _) => "model dropped while test was waiting for its next event"@,
        },
{
    match (awaited, result) {
        (_, WaitResult::Came) => None,
        (Awaited::Notification, WaitResult::TimedOut) => Some(
            "next notification timed out".to_owned(),
        ),
        (Awaited::Event, WaitResult::TimedOut) => Some("next event timed out".to_owned()),
        (Awaited::Notification, WaitResult::Dropped) => Some(
            "model dropped while test was waiting for its next notification".to_owned(),
        ),
        (Awaited::Event, WaitResult::Dropped) => Some(
            "model dropped while test was waiting for its next event".to_owned(),
        ),
    }
}

/// A condition is looked at, waits for a change if it does not hold, and is looked at again.
pub proof fn condition_is_checked_after_each_change(watched: Watched)
    ensures
        ({
            let check = Condition { watched, state: ConditionState::Check };
            let wait = Condition { watched, state: ConditionState::Wait };
            &&& condition_after(check, ConditionEvent::Checked { holds: Some(true) })
                == ConditionState::Met
            &&& condition_after(check, ConditionEvent::Checked { holds: Some(false) }) == wait.state
            &&& condition_after(wait, ConditionEvent::Changed) == check.state
        }),
{
}

/// It fails when what it watches is gone, or when it has waited for too long, and else never.
pub proof fn condition_fails_for_a_reason(c: Condition, event: ConditionEvent)
    requires
        c.state is Check || c.state is Wait,
    ensures
        condition_after(c, event) == ConditionState::Failed(ConditionFailure::Dropped(c.watched))
            <==> (c.state is Check && event == (ConditionEvent::Checked { holds: None })) || (
        c.state is Wait && event is Closed),
        condition_after(c, event) == ConditionState::Failed(ConditionFailure::TimedOut)
            <==> c.state is Wait && event is Elapsed,
{
}

/// A build machine is waited for longer, and a model longer than a view.
pub proof fn slower_machines_are_waited_for(build_machine: bool)
    ensures
        patience(Watched::Model, build_machine) > patience(Watched::View, build_machine),
        patience(Watched::Model, true) == 5 * patience(Watched::Model, false),
        patience(Watched::View, true) == 4 * patience(Watched::View, false),
        patience(Watched::Model, false) == 1000,
        patience(Watched::View, false) == 500,
{
}

} // verus!
