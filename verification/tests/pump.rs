use std::collections::VecDeque;

use tosh::error::{Direction, Error, Failure};
use tosh::pump::{PumpAction, PumpEvent, PumpState};
use tosh::relay::{Action, Ended, Ending, Event, Outcome, State};

#[test]
fn a_pump_reads_then_writes() {
    let pump = PumpState::new();
    assert_eq!(pump, PumpState::Reading);
    assert_eq!(pump.action(), PumpAction::Read);
    let (pump, action) = pump.step(PumpEvent::Read(b"hello\n".to_vec()));
    assert_eq!(pump, PumpState::Writing(b"hello\n".to_vec()));
    assert_eq!(action, PumpAction::Write);
    let (pump, action) = pump.step(PumpEvent::Wrote(6));
    assert_eq!((pump, action), (PumpState::Reading, PumpAction::Read));
}

#[test]
fn a_pump_writes_what_a_short_write_left() {
    let pump = PumpState::Writing(b"hello\n".to_vec());
    let (pump, action) = pump.step(PumpEvent::Wrote(2));
    assert_eq!((&pump, action), (&PumpState::Writing(b"llo\n".to_vec()), PumpAction::Write));
    let (pump, action) = pump.step(PumpEvent::Wrote(3));
    assert_eq!((&pump, action), (&PumpState::Writing(b"\n".to_vec()), PumpAction::Write));
    let (pump, action) = pump.step(PumpEvent::Wrote(1));
    assert_eq!((pump, action), (PumpState::Reading, PumpAction::Read));
}

#[test]
fn a_pump_ends_at_the_end_of_its_source() {
    let (pump, action) = PumpState::new().step(PumpEvent::Read(vec![]));
    assert_eq!(pump, PumpState::Ended(Ending::Eof));
    assert_eq!(action, PumpAction::Stop(Ending::Eof));
    assert_eq!(pump.action(), PumpAction::Stop(Ending::Eof));
}

#[test]
fn a_pump_ends_when_reading_or_writing_fails() {
    let (pump, action) = PumpState::new().step(PumpEvent::ReadFailed(104));
    assert_eq!(pump, PumpState::Ended(Ending::Failed(104)));
    assert_eq!(action, PumpAction::Stop(Ending::Failed(104)));
    let (pump, action) = PumpState::Writing(vec![1, 2, 3]).step(PumpEvent::WriteFailed(32));
    assert_eq!(pump, PumpState::Ended(Ending::Failed(32)));
    assert_eq!(action, PumpAction::Stop(Ending::Failed(32)));
}

#[test]
fn a_write_of_nothing_or_of_too_much_is_a_failure() {
    let (pump, action) = PumpState::Writing(vec![1, 2, 3]).step(PumpEvent::Wrote(0));
    assert_eq!((pump, action), (PumpState::Ended(Ending::Failed(0)), PumpAction::Stop(Ending::Failed(0))));
    let (pump, _) = PumpState::Writing(vec![1, 2, 3]).step(PumpEvent::Wrote(4));
    assert_eq!(pump, PumpState::Ended(Ending::Failed(0)));
}

#[test]
fn a_pump_ignores_events_out_of_place() {
    for event in [PumpEvent::Wrote(1), PumpEvent::WriteFailed(5)] {
        assert_eq!(PumpState::Reading.step(event), (PumpState::Reading, PumpAction::Read));
    }
    for event in [PumpEvent::Read(vec![9]), PumpEvent::Read(vec![]), PumpEvent::ReadFailed(5)] {
        assert_eq!(
            PumpState::Writing(vec![7, 8]).step(event),
            (PumpState::Writing(vec![7, 8]), PumpAction::Write)
        );
    }
    for event in [
        PumpEvent::Read(vec![9]),
        PumpEvent::ReadFailed(5),
        PumpEvent::Wrote(1),
        PumpEvent::WriteFailed(5),
    ] {
        assert_eq!(
            PumpState::Ended(Ending::Eof).step(event),
            (PumpState::Ended(Ending::Eof), PumpAction::Stop(Ending::Eof))
        );
    }
}

/// A stream in memory: bytes on their way, and whether more may come.
struct Pipe {
    bytes: VecDeque<u8>,
    closed: bool,
    broken: Option<i32>,
}

impl Pipe {
    fn new() -> Pipe {
        Pipe { bytes: VecDeque::new(), closed: false, broken: None }
    }

    /// What a read reports; `None` where it would block.
    fn read(&mut self, most: usize) -> Option<PumpEvent> {
        if let Some(os_code) = self.broken {
            return Some(PumpEvent::ReadFailed(os_code));
        }
        if self.bytes.is_empty() {
            return if self.closed { Some(PumpEvent::Read(vec![])) } else { None };
        }
        let n = most.min(self.bytes.len());
        Some(PumpEvent::Read(self.bytes.drain(..n).collect()))
    }

    /// What a write reports: it takes `most` bytes at a time.
    fn write(&mut self, waiting: &[u8], most: usize) -> PumpEvent {
        if self.closed {
            return PumpEvent::WriteFailed(32);
        }
        let n = most.min(waiting.len());
        self.bytes.extend(&waiting[..n]);
        PumpEvent::Wrote(n)
    }
}

/// A session over streams in memory, with a peer that sends back what it
/// gets and closes when the session's side has closed.
struct Engine {
    stdin: Pipe,
    to_peer: Pipe,
    from_peer: Pipe,
    stdout: Vec<u8>,
    session: State,
    outbound: PumpState,
    inbound: PumpState,
    outbound_reported: bool,
    inbound_reported: bool,
}

impl Engine {
    fn connected() -> Engine {
        let (session, action) = State::new().step(Event::Start);
        assert_eq!(action, Action::Connect);
        let (session, action) = session.step(Event::Connected);
        assert_eq!(action, Action::StartCopies);
        Engine {
            stdin: Pipe::new(),
            to_peer: Pipe::new(),
            from_peer: Pipe::new(),
            stdout: Vec::new(),
            session,
            outbound: PumpState::new(),
            inbound: PumpState::new(),
            outbound_reported: false,
            inbound_reported: false,
        }
    }

    fn report(&mut self, direction: Direction, ending: Ending) {
        let (session, action) = self.session.step(Event::Ended(Ended { direction, ending }));
        self.session = session;
        match action {
            // Our half of the connection is closed; the peer's stays open.
            Action::Shutdown(Direction::Inbound) => self.to_peer.closed = true,
            // The copying from standard input is called off.
            Action::Shutdown(Direction::Outbound) => self.stdin.closed = true,
            _ => {}
        }
    }

    fn peer(&mut self) -> bool {
        let moved = self.to_peer.bytes.len();
        let echoed: Vec<u8> = self.to_peer.bytes.drain(..).collect();
        self.from_peer.bytes.extend(echoed);
        let closes = self.to_peer.closed && !self.from_peer.closed;
        if closes {
            self.from_peer.closed = true;
        }
        moved > 0 || closes
    }

    fn pump_outbound(&mut self) -> bool {
        let event = match self.outbound.action() {
            PumpAction::Read => self.stdin.read(4),
            PumpAction::Write => match &self.outbound {
                PumpState::Writing(waiting) => Some(self.to_peer.write(waiting, 3)),
                _ => None,
            },
            PumpAction::Stop(ending) => {
                if self.outbound_reported {
                    return false;
                }
                self.outbound_reported = true;
                self.report(Direction::Outbound, ending);
                return true;
            }
        };
        match event {
            Some(event) => {
                let pump = std::mem::replace(&mut self.outbound, PumpState::new());
                self.outbound = pump.step(event).0;
                true
            }
            None => false,
        }
    }

    fn pump_inbound(&mut self) -> bool {
        let event = match self.inbound.action() {
            PumpAction::Read => self.from_peer.read(5),
            PumpAction::Write => match &self.inbound {
                PumpState::Writing(waiting) => {
                    self.stdout.extend(&waiting[..1]);
                    Some(PumpEvent::Wrote(1))
                }
                _ => None,
            },
            PumpAction::Stop(ending) => {
                if self.inbound_reported {
                    return false;
                }
                self.inbound_reported = true;
                self.report(Direction::Inbound, ending);
                return true;
            }
        };
        match event {
            Some(event) => {
                let pump = std::mem::replace(&mut self.inbound, PumpState::new());
                self.inbound = pump.step(event).0;
                true
            }
            None => false,
        }
    }

    /// Lets everything run until nothing can go on.
    fn settle(&mut self) {
        let mut turns = 0;
        loop {
            let a = self.pump_outbound();
            let b = self.peer();
            let c = self.pump_inbound();
            if !(a || b || c) {
                break;
            }
            turns += 1;
            assert!(turns < 10_000);
        }
    }
}

#[test]
fn the_relay_echoes_and_closes_after_the_input() {
    let mut engine = Engine::connected();
    engine.stdin.bytes.extend(b"hello\n");
    engine.settle();
    assert_eq!(engine.stdout, b"hello\n");
    assert_eq!(engine.session, State::Relaying(None));
    assert!(!engine.to_peer.closed && !engine.from_peer.closed);

    engine.stdin.closed = true;
    engine.settle();
    assert_eq!(engine.session, State::Closed(Outcome::Success));
    assert_eq!(engine.session.outcome(), Some(Outcome::Success));
    assert_eq!(engine.stdout, b"hello\n");
}

#[test]
fn what_is_on_its_way_arrives_before_the_relay_closes() {
    let mut engine = Engine::connected();
    engine.stdin.bytes.extend(b"one\ntwo\nthree\n");
    engine.stdin.closed = true;
    engine.settle();
    assert_eq!(engine.stdout, b"one\ntwo\nthree\n");
    assert_eq!(engine.session, State::Closed(Outcome::Success));
}

#[test]
fn the_relay_reports_a_connection_that_breaks() {
    let mut engine = Engine::connected();
    engine.stdin.bytes.extend(b"hello\n");
    engine.settle();
    engine.from_peer.broken = Some(104);
    engine.settle();
    assert_eq!(engine.stdout, b"hello\n");
    assert_eq!(
        engine.session,
        State::Closed(Outcome::Error(Error::RelayError(Failure {
            direction: Direction::Inbound,
            os_code: 104
        })))
    );
}

#[test]
fn the_relay_closes_when_the_peer_closes() {
    let mut engine = Engine::connected();
    engine.from_peer.closed = true;
    engine.settle();
    assert_eq!(engine.session, State::Closed(Outcome::Success));
    assert!(engine.stdin.closed);
}
