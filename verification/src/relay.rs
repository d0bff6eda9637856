//! The course of one session, as a state machine.
//!
//! A session connects, then copies bytes in two directions at once. The
//! caller does the work and reports what happened; `State::step` says what
//! the session has become and what to do next. When one direction ends, the
//! other is told to stop; when both have ended, the session is closed.

use crate::error::{Direction, Error, Failure};
use vstd::prelude::*;

verus! {

/// How the copying in one direction ended.
#[derive(Clone, Copy, Debug, PartialEq, Eq, Structural)]
pub enum Ending {
    /// Its source had no more bytes.
    Eof,
    /// A read or a write failed, with this error number of the operating
    /// system, or 0 where it gave none.
    Failed(i32),
}

/// A direction that has ended, and how.
#[derive(Clone, Copy, Debug, PartialEq, Eq, Structural)]
pub struct Ended {
    pub direction: Direction,
    pub ending: Ending,
}

/// How a session closed.
#[derive(Clone, Copy, Debug, PartialEq, Eq, Structural)]
pub enum Outcome {
    /// Both directions ended at the end of their source.
    Success,
    /// The connection could not be opened, or a direction failed.
    Error(Error),
}

/// Where a session stands.
#[derive(Clone, Copy, Debug, PartialEq, Eq, Structural)]
pub enum State {
    /// Nothing has been done.
    Idle,
    /// The connection is being opened.
    Connecting,
    /// Bytes are copied. Holds the direction that has ended already, if one
    /// has; the other is then only finishing.
    Relaying(Option<Ended>),
    /// The session is over.
    Closed(Outcome),
}

/// What the caller reports.
#[derive(Clone, Copy, Debug, PartialEq, Eq, Structural)]
pub enum Event {
    /// The session is asked to begin.
    Start,
    /// The connection is open.
    Connected,
    /// The connection could not be opened.
    ConnectFailed,
    /// The copying in one direction has ended.
    Ended(Ended),
}

/// What the caller is to do next.
#[derive(Clone, Copy, Debug, PartialEq, Eq, Structural)]
pub enum Action {
    /// Open the connection.
    Connect,
    /// Start copying in both directions.
    StartCopies,
    /// Tell this direction, which is still copying, to stop.
    Shutdown(Direction),
    /// Report the outcome; the session is closed.
    Finish,
    /// Nothing: the event does not belong to this state.
    Nothing,
}

/// The other direction.
pub open spec fn opposite(direction: Direction) -> Direction {
    match direction {
        Direction::Inbound => Direction::Outbound,
        Direction::Outbound => Direction::Inbound,
    }
}

/// The failure in an ending, if it is one.
pub open spec fn failure_of(ended: Ended) -> Option<Failure> {
    match ended.ending {
        Ending::Eof => None,
        Ending::Failed(os_code) => Some(Failure { direction: ended.direction, os_code }),
    }
}

/// How a session closes whose directions ended as `first` and then
/// `second`: with the first failure, or with success if there is none.
pub open spec fn outcome_of(first: Ended, second: Ended) -> Outcome {
    match failure_of(first) {
        Some(failure) => Outcome::Error(Error::RelayError(failure)),
        None => match failure_of(second) {
            Some(failure) => Outcome::Error(Error::RelayError(failure)),
            None => Outcome::Success,
        },
    }
}

/// The state after an event, and the action that it calls for.
pub open spec fn next(state: State, event: Event) -> (State, Action) {
    match (state, event) {
        (State::Idle, Event::Start) => (State::Connecting, Action::Connect),
        (State::Connecting, Event::Connected) => (State::Relaying(None), Action::StartCopies),
        (State::Connecting, Event::ConnectFailed) => (
            State::Closed(Outcome::Error(Error::ConnectionError)),
            Action::Finish,
        ),
        (State::Relaying(None), Event::Ended(ended)) => (
            State::Relaying(Some(ended)),
            Action::Shutdown(opposite(ended.direction)),
        ),
        (State::Relaying(Some(first)), Event::Ended(ended)) => if ended.direction
            != first.direction {
            (State::Closed(outcome_of(first, ended)), Action::Finish)
        } else {
            (state, Action::Nothing)
        },
        _ => (state, Action::Nothing),
    }
}

/// The state that a run of events leads to.
pub open spec fn run(state: State, events: Seq<Event>) -> State
    decreases events.len(),
{
    if events.len() == 0 {
        state
    } else {
        next(run(state, events.drop_last()), events.last()).0
    }
}

impl Direction {
    /// The other direction.
    pub fn other(self) -> (r: Direction)
        ensures
            r == opposite(self),
    {
        match self {
            Direction::Inbound => Direction::Outbound,
            Direction::Outbound => Direction::Inbound,
        }
    }
}

impl Ended {
    /// The failure in this ending, if it is one.
    pub fn failure(self) -> (r: Option<Failure>)
        ensures
            r == failure_of(self),
    {
        match self.ending {
            Ending::Eof => None,
            Ending::Failed(os_code) => Some(Failure { direction: self.direction, os_code }),
        }
    }
}

/// How a session closes whose directions ended as `first` and then `second`.
pub fn close(first: Ended, second: Ended) -> (r: Outcome)
    ensures
        r == outcome_of(first, second),
{
    match first.failure() {
        Some(failure) => Outcome::Error(Error::RelayError(failure)),
        None => match second.failure() {
            Some(failure) => Outcome::Error(Error::RelayError(failure)),
            None => Outcome::Success,
        },
    }
}

impl Outcome {
    /// The exit status for a process that ends with this outcome: 0 for
    /// success, 1 for any error.
    pub fn exit_status(self) -> (status: i32)
        ensures
            status == if self == Outcome::Success {
                0i32
            } else {
                1i32
            },
    {
        match self {
            Outcome::Success => 0,
            Outcome::Error(_) => 1,
        }
    }
}

impl State {
    /// A session before its start.
    pub fn new() -> (r: State)
        ensures
            r == State::Idle,
    {
        State::Idle
    }

    /// Takes an event: gives the state that follows and the action to
    /// perform. An event that does not belong to the state changes nothing.
    pub fn step(self, event: Event) -> (r: (State, Action))
        ensures
            r == next(self, event),
    {
        match self {
            State::Idle => match event {
                Event::Start => (State::Connecting, Action::Connect),
                _ => (self, Action::Nothing),
            },
            State::Connecting => match event {
                Event::Connected => (State::Relaying(None), Action::StartCopies),
                Event::ConnectFailed => (
                    State::Closed(Outcome::Error(Error::ConnectionError)),
                    Action::Finish,
                ),
                _ => (self, Action::Nothing),
            },
            State::Relaying(None) => match event {
                Event::Ended(ended) => (
                    State::Relaying(Some(ended)),
                    Action::Shutdown(ended.direction.other()),
                ),
                _ => (self, Action::Nothing),
            },
            State::Relaying(Some(first)) => match event {
                Event::Ended(ended) => {
                    if ended.direction != first.direction {
                        (State::Closed(close(first, ended)), Action::Finish)
                    } else {
                        (self, Action::Nothing)
                    }
                },
                _ => (self, Action::Nothing),
            },
            State::Closed(_) => (self, Action::Nothing),
        }
    }

    /// The outcome, once the session is closed.
    pub fn outcome(self) -> (r: Option<Outcome>)
        ensures
            r == match self {
                State::Closed(outcome) => Some(outcome),
                _ => None,
            },
    {
        match self {
            State::Closed(outcome) => Some(outcome),
            _ => None,
        }
    }
}

/// A closed session stays closed, with its outcome, whatever is reported.
pub proof fn lemma_closed_is_final(outcome: Outcome, events: Seq<Event>)
    ensures
        run(State::Closed(outcome), events) == State::Closed(outcome),
    decreases events.len(),
{
    if events.len() > 0 {
        lemma_closed_is_final(outcome, events.drop_last());
    }
}

/// A session that connects and whose two directions end, in either order,
/// closes with success exactly when both ended at the end of their source;
/// otherwise with the failure that was reported first.
pub proof fn lemma_session_outcome(first: Ended, second: Ended)
    requires
        first.direction != second.direction,
    ensures
        run(
            State::Idle,
            seq![Event::Start, Event::Connected, Event::Ended(first), Event::Ended(second)],
        ) == State::Closed(outcome_of(first, second)),
        outcome_of(first, second) == Outcome::Success <==> first.ending == Ending::Eof
            && second.ending == Ending::Eof,
        first.ending is Failed ==> outcome_of(first, second) == Outcome::Error(
            Error::RelayError(Failure { direction: first.direction, os_code: first.ending->0 }),
        ),
        first.ending is Eof && second.ending is Failed ==> outcome_of(first, second)
            == Outcome::Error(
            Error::RelayError(Failure { direction: second.direction, os_code: second.ending->0 }),
        ),
{
    let events = seq![
        Event::Start,
        Event::Connected,
        Event::Ended(first),
        Event::Ended(second),
    ];
    reveal_with_fuel(run, 5);
    assert(events.drop_last() =~= seq![Event::Start, Event::Connected, Event::Ended(first)]);
    assert(events.drop_last().drop_last() =~= seq![Event::Start, Event::Connected]);
    assert(events.drop_last().drop_last().drop_last() =~= seq![Event::Start]);
    assert(events.drop_last().drop_last().drop_last().drop_last() =~= Seq::<Event>::empty());
}

/// When the first direction ends, the other one is told to stop, and the
/// session goes on until that one has ended too.
pub proof fn lemma_first_ending_shuts_down(ended: Ended)
    ensures
        next(State::Relaying(None), Event::Ended(ended)) == (
            State::Relaying(Some(ended)),
            Action::Shutdown(opposite(ended.direction)),
        ),
{
}

} // verus!
