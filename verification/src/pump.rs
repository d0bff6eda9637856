//! Copying bytes in one direction, as a state machine.
//!
//! A pump reads a chunk from its source, writes it to its sink, and reads
//! again, until the source is at its end or a read or a write fails. The
//! caller does the reading and the writing and reports what happened;
//! `PumpState::step` says what to do next. Every byte that was read is
//! written before the next is read, so the sink gets the bytes of the source
//! in their order.

use crate::relay::Ending;
use vstd::prelude::*;

verus! {

/// Where a pump stands.
#[derive(Debug, PartialEq, Eq)]
pub enum PumpState {
    /// Nothing is waiting to be written: the source is to be read.
    Reading,
    /// These bytes were read and are to be written, the first one first.
    Writing(Vec<u8>),
    /// The copying is over.
    Ended(Ending),
}

/// What the caller reports.
#[derive(Debug, PartialEq, Eq)]
pub enum PumpEvent {
    /// The source gave these bytes; none at its end.
    Read(Vec<u8>),
    /// Reading failed, with this error number.
    ReadFailed(i32),
    /// The sink took this many of the waiting bytes.
    Wrote(usize),
    /// Writing failed, with this error number.
    WriteFailed(i32),
}

/// What the caller is to do next.
#[derive(Clone, Copy, Debug, PartialEq, Eq, Structural)]
pub enum PumpAction {
    /// Read from the source.
    Read,
    /// Write the waiting bytes to the sink.
    Write,
    /// Stop: the copying has ended in this way.
    Stop(Ending),
}

/// A pump's state, with the waiting bytes as a sequence.
pub enum PumpModel {
    Reading,
    Writing(Seq<u8>),
    Ended(Ending),
}

/// An event, with the bytes read as a sequence.
pub enum EventModel {
    Read(Seq<u8>),
    ReadFailed(i32),
    Wrote(usize),
    WriteFailed(i32),
}

impl View for PumpState {
    type V = PumpModel;

    open spec fn view(&self) -> PumpModel {
        match self {
            PumpState::Reading => PumpModel::Reading,
            PumpState::Writing(bytes) => PumpModel::Writing(bytes@),
            PumpState::Ended(ending) => PumpModel::Ended(*ending),
        }
    }
}

impl View for PumpEvent {
    type V = EventModel;

    open spec fn view(&self) -> EventModel {
        match self {
            PumpEvent::Read(bytes) => EventModel::Read(bytes@),
            PumpEvent::ReadFailed(os_code) => EventModel::ReadFailed(*os_code),
            PumpEvent::Wrote(n) => EventModel::Wrote(*n),
            PumpEvent::WriteFailed(os_code) => EventModel::WriteFailed(*os_code),
        }
    }
}

/// The action that a state calls for.
pub open spec fn action_of(state: PumpModel) -> PumpAction {
    match state {
        PumpModel::Reading => PumpAction::Read,
        PumpModel::Writing(_) => PumpAction::Write,
        PumpModel::Ended(ending) => PumpAction::Stop(ending),
    }
}

/// The state after an event. A read of no bytes is the end of the source.
/// A write that took no byte, or more than were waiting, counts as a
/// failure without an error number. An event that does not belong to the
/// state changes nothing.
pub open spec fn pump_next(state: PumpModel, event: EventModel) -> PumpModel {
    match (state, event) {
        (PumpModel::Reading, EventModel::Read(bytes)) => if bytes.len() == 0 {
            PumpModel::Ended(Ending::Eof)
        } else {
            PumpModel::Writing(bytes)
        },
        (PumpModel::Reading, EventModel::ReadFailed(os_code)) => PumpModel::Ended(
            Ending::Failed(os_code),
        ),
        (PumpModel::Writing(waiting), EventModel::Wrote(n)) => if n == 0 || n > waiting.len() {
            PumpModel::Ended(Ending::Failed(0))
        } else if n == waiting.len() {
            PumpModel::Reading
        } else {
            PumpModel::Writing(waiting.skip(n as int))
        },
        (PumpModel::Writing(_), EventModel::WriteFailed(os_code)) => PumpModel::Ended(
            Ending::Failed(os_code),
        ),
        _ => state,
    }
}

/// The bytes that a state holds for writing.
pub open spec fn waiting(state: PumpModel) -> Seq<u8> {
    match state {
        PumpModel::Writing(bytes) => bytes,
        _ => Seq::<u8>::empty(),
    }
}

/// The bytes that an event takes from the source, in a given state.
pub open spec fn taken(state: PumpModel, event: EventModel) -> Seq<u8> {
    match (state, event) {
        (PumpModel::Reading, EventModel::Read(bytes)) => bytes,
        _ => Seq::<u8>::empty(),
    }
}

/// The bytes that an event hands to the sink, in a given state.
pub open spec fn given(state: PumpModel, event: EventModel) -> Seq<u8> {
    match (state, event) {
        (PumpModel::Writing(bytes), EventModel::Wrote(n)) => if 0 < n <= bytes.len() {
            bytes.take(n as int)
        } else {
            Seq::<u8>::empty()
        },
        _ => Seq::<u8>::empty(),
    }
}

/// The state that a run of events leads to, from the start.
pub open spec fn state_after(events: Seq<EventModel>) -> PumpModel
    decreases events.len(),
{
    if events.len() == 0 {
        PumpModel::Reading
    } else {
        pump_next(state_after(events.drop_last()), events.last())
    }
}

/// All the bytes that a run of events took from the source.
pub open spec fn received(events: Seq<EventModel>) -> Seq<u8>
    decreases events.len(),
{
    if events.len() == 0 {
        Seq::<u8>::empty()
    } else {
        received(events.drop_last()) + taken(state_after(events.drop_last()), events.last())
    }
}

/// All the bytes that a run of events handed to the sink.
pub open spec fn delivered(events: Seq<EventModel>) -> Seq<u8>
    decreases events.len(),
{
    if events.len() == 0 {
        Seq::<u8>::empty()
    } else {
        delivered(events.drop_last()) + given(state_after(events.drop_last()), events.last())
    }
}

impl PumpState {
    /// A pump at its start: the source is to be read.
    pub fn new() -> (r: PumpState)
        ensures
            r@ == PumpModel::Reading,
    {
        PumpState::Reading
    }

    /// The action that this state calls for.
    pub fn action(&self) -> (r: PumpAction)
        ensures
            r == action_of(self@),
    {
        match self {
            PumpState::Reading => PumpAction::Read,
            PumpState::Writing(_) => PumpAction::Write,
            PumpState::Ended(ending) => PumpAction::Stop(*ending),
        }
    }

    /// Takes an event: gives the state that follows and the action that it
    /// calls for.
    pub fn step(self, event: PumpEvent) -> (r: (PumpState, PumpAction))
        ensures
            r.0@ == pump_next(self@, event@),
            r.1 == action_of(r.0@),
    {
        let next = match self {
            PumpState::Reading => match event {
                PumpEvent::Read(bytes) => if bytes.len() == 0 {
                    PumpState::Ended(Ending::Eof)
                } else {
                    PumpState::Writing(bytes)
                },
                PumpEvent::ReadFailed(os_code) => PumpState::Ended(Ending::Failed(os_code)),
                _ => PumpState::Reading,
            },
            PumpState::Writing(mut bytes) => match event {
                PumpEvent::Wrote(n) => if n == 0 || n > bytes.len() {
                    PumpState::Ended(Ending::Failed(0))
                } else if n == bytes.len() {
                    PumpState::Reading
                } else {
                    let rest = bytes.split_off(n);
                    PumpState::Writing(rest)
                },
                PumpEvent::WriteFailed(os_code) => PumpState::Ended(Ending::Failed(os_code)),
                _ => PumpState::Writing(bytes),
            },
            PumpState::Ended(ending) => PumpState::Ended(ending),
        };
        let action = next.action();
        (next, action)
    }
}

/// Whatever is reported, the sink has been handed a prefix of what the
/// source gave. Unless the copying failed, what is missing is exactly what
/// waits to be written; so at the end of the source the sink has been
/// handed everything, in order.
pub proof fn lemma_pump_is_faithful(events: Seq<EventModel>)
    ensures
        delivered(events).is_prefix_of(received(events)),
        !(state_after(events) is Ended && state_after(events)->Ended_0 is Failed) ==> received(
            events,
        ) == delivered(events) + waiting(state_after(events)),
        state_after(events) == PumpModel::Ended(Ending::Eof) ==> delivered(events) == received(
            events,
        ),
    decreases events.len(),
{
    let after = state_after(events);
    if events.len() > 0 {
        let before = events.drop_last();
        lemma_pump_is_faithful(before);
        let state = state_after(before);
        let event = events.last();
        if after is Ended && after->Ended_0 is Failed {
            assert(received(events) =~= received(before));
            assert(delivered(events) =~= delivered(before));
        } else {
            if let PumpModel::Writing(bytes) = state {
                if let EventModel::Wrote(n) = event {
                    assert(bytes =~= bytes.take(n as int) + bytes.skip(n as int));
                }
            }
            assert(received(events) =~= delivered(events) + waiting(after));
        }
    } else {
        assert(received(events) =~= delivered(events) + waiting(after));
    }
    if !(after is Ended && after->Ended_0 is Failed) {
        assert(delivered(events) =~= received(events).subrange(0, delivered(events).len() as int));
    }
    if after == PumpModel::Ended(Ending::Eof) {
        assert(delivered(events) + waiting(after) =~= delivered(events));
    }
}

} // verus!
